//! The interpreter and the operations that the host drives it with.

use vstd::prelude::*;
use vstd::string::StringSliceAdditionalSpecFns;
use crate::atom::Atom;
use crate::cell::Node;
use crate::error::Error;
use crate::eval::{eval_at, extend, take, DEPTH_LIMIT};
use crate::load::{
    defined, load_budget, run, run_spent, step_result, step_spent, subject, table_after,
    top_level,
};
use crate::reader::{read_form, read_form_at, skip, skip_blanks, NESTING_LIMIT};
use crate::graph::{leaf_tree, Graph, Ref};
use crate::heap::Heap;
use crate::io::{default_frame, Channel, IoFrame};
use crate::module::{builtin_table, module_fini, module_init, TABLE_ATOMS};
use crate::name::{clipped, lemma_clipped_plain, Name};
use crate::semantics::{
    builtin_text, car_text, cdr_text, cons_text, eval, quote_marker, quote_text, spent, Builtin,
};
use crate::sexp::Sexp;
use crate::slab::Slab;

verus! {

broadcast use vstd::array::group_array_axioms;

/// The byte `b` read as a signed character.
pub open spec fn signed(b: u8) -> i8 {
    if b < 128 {
        b as i8
    } else {
        (b - 256) as i8
    }
}

/// The list of the characters of `bytes` from the `j`th on.
pub open spec fn text_list(bytes: Seq<u8>, j: int) -> Sexp
    decreases bytes.len() - j,
{
    if 0 <= j < bytes.len() {
        Sexp::cons(Sexp::Char(signed(bytes[j])), text_list(bytes, j + 1))
    } else {
        Sexp::Nil
    }
}

/// How many of the handles `a` and `b` refer to the atom that `q` refers to.
pub open spec fn wanted(a: &Atom, b: &Atom, q: Ref) -> nat {
    (if a@ == Some(q) {
        1nat
    } else {
        0nat
    }) + (if b@ == Some(q) {
        1nat
    } else {
        0nat
    })
}

/// The smaller of two numbers.
pub open spec fn least(a: nat, b: nat) -> nat {
    if a < b {
        a
    } else {
        b
    }
}

/// Every atom but a symbol and a pair evaluates to itself.
pub open spec fn self_evaluating(t: Sexp) -> bool {
    !(t is Symbol) && !(t is Pair)
}

/// An interpreter: the memory that holds its atoms, its global environment
/// and its stack of input and output contexts. It owns the arena that it
/// was made on.
pub struct Lisp {
    heap: Heap,
    globals: Ref,
    io: Vec<IoFrame>,
}

impl Lisp {
    /// The state of the memory.
    pub closed spec fn memory(&self) -> Graph {
        self.heap@
    }

    /// The global environment. The interpreter holds one handle on it.
    pub closed spec fn globals(&self) -> Ref {
        self.globals
    }

    /// The stack of input and output contexts, the innermost last.
    pub closed spec fn io(&self) -> Seq<IoFrame> {
        self.io@
    }

    /// The arena under the memory is well-formed.
    pub closed spec fn arena_wf(&self) -> bool {
        self.heap.arena_wf()
    }

    /// The invariant of the interpreter.
    pub open spec fn wf(&self) -> bool {
        &&& self.arena_wf()
        &&& self.memory().sound()
        &&& self.memory().held(self.globals()) >= 1
    }

    /// Number of handles that the host holds on the atom that `r` refers to.
    pub open spec fn held(&self, r: Ref) -> nat {
        let n = self.memory().held(r);
        if r == self.globals() && n >= 1 {
            (n - 1) as nat
        } else {
            n
        }
    }

    /// The handle is one that the host holds on an atom of this interpreter.
    pub open spec fn owns(&self, a: &Atom) -> bool {
        a@ matches Some(r) && self.held(r) > 0
    }

    /// The value of the atom that the handle refers to.
    pub open spec fn value(&self, a: &Atom) -> Sexp {
        match a@ {
            Some(r) => self.memory().value(r),
            None => Sexp::Absent,
        }
    }

    /// The global environment, as a value.
    pub open spec fn table(&self) -> Sexp {
        self.memory().value(self.globals())
    }

    /// The reference to the first or the second part of the pair that the
    /// handle refers to.
    pub open spec fn part(&self, a: &Atom, second: bool) -> Ref {
        match self.memory().cell(a@->0.slot as int).node {
            Node::Pair(x, y) => self.memory().at(
                if second {
                    y as int
                } else {
                    x as int
                },
            ),
            _ => a@->0,
        }
    }

    /// `next` is this interpreter after an operation: its memory is a later
    /// state in which the atoms that are still there have the values they
    /// had, and its global environment and its contexts are the same.
    pub open spec fn steps(&self, next: &Lisp) -> bool {
        &&& next.wf()
        &&& self.memory().grows(next.memory())
        &&& self.memory().agrees(next.memory())
        &&& next.globals() == self.globals()
        &&& next.io() == self.io()
    }

    /// `r` is the outcome of an operation that makes a handle on an atom of
    /// value `tree` and consumes nothing: on success the host holds that one
    /// handle more, on failure what it held before.
    pub open spec fn made(&self, next: &Lisp, r: Result<Atom, Error>, tree: Sexp) -> bool {
        match r {
            Ok(a) => next.owns(&a) && next.value(&a) == tree && forall|q: Ref| #[trigger]
                next.held(q) == self.held(q) + if Some(q) == a@ {
                    1nat
                } else {
                    0nat
                },
            Err(_) => forall|q: Ref| #[trigger] next.held(q) == self.held(q),
        }
    }

    /// Makes an interpreter on an empty arena: installs the table of
    /// builtins and pushes the first input and output context. Fails on an
    /// arena that is in use or too small for the table.
    pub fn new(slab: Slab) -> (r: Option<Lisp>)
        requires
            slab.wf(),
        ensures
            r is Some <==> slab.occupancy() == 0 && slab.capacity() >= TABLE_ATOMS,
            r matches Some(l) ==> {
                &&& l.wf()
                &&& l.memory().capacity() == slab.capacity()
                &&& l.memory().occupancy() == TABLE_ATOMS
                &&& l.memory().clock == TABLE_ATOMS
                &&& l.table() == builtin_table()
                &&& l.io() == seq![default_frame()]
                &&& forall|q: Ref| #[trigger] l.held(q) == 0
            },
    {
        proof {
            slab.lemma_capacity();
        }
        let mut heap: Heap = match Heap::new(slab) {
            Some(h) => h,
            None => {
                return None;
            },
        };
        let ghost g0 = heap@;
        assert forall|q: Ref| #[trigger] g0.held(q) == 0 by {
            assert(!g0.live(q.slot as int)) by {
                crate::slab::lemma_used_none(g0.cells, g0.cells.len() as int);
            }
        }
        match module_init(&mut heap) {
            Ok(globals) => {
                let mut io: Vec<IoFrame> = Vec::new();
                io.push(IoFrame { input: Channel::Standard, output: Channel::Standard });
                let l = Lisp { heap, globals, io };
                proof {
                    assert(l.io() =~= seq![default_frame()]);
                    assert forall|q: Ref| #[trigger] l.held(q) == 0 by {
                        assert(l.memory().held(q) == g0.held(q) + if q == globals {
                            1nat
                        } else {
                            0nat
                        });
                    }
                }
                Some(l)
            },
            Err(_) => None,
        }
    }

    /// Takes the interpreter down: pops the context, gives up the table of
    /// builtins and hands the arena back. Where the host holds no handle
    /// any more, the arena comes back empty.
    pub fn delete(self) -> (slab: Slab)
        requires
            self.wf(),
        ensures
            slab.wf(),
            slab.capacity() == self.memory().capacity(),
            slab.occupancy() <= self.memory().occupancy(),
            (forall|q: Ref| #[trigger] self.held(q) == 0) ==> slab.occupancy() == 0,
    {
        let ghost g0 = self.memory();
        let ghost table = self.globals();
        let Lisp { heap, globals, io } = self;
        let mut heap = heap;
        let mut io = io;
        io.pop();
        module_fini(&mut heap, globals);
        proof {
            if forall|q: Ref| #[trigger] self.held(q) == 0 {
                assert forall|q: Ref| #[trigger] heap@.held(q) == 0 by {
                    assert(heap@.held(q) == g0.held(q) - if q == table { 1int } else { 0int });
                    assert(self.held(q) == 0);
                }
                heap@.lemma_unheld_empty();
            }
        }
        heap.into_slab()
    }

    /// Number of atoms in the arena.
    pub fn occupancy(&self) -> (n: usize)
        requires
            self.wf(),
        ensures
            n == self.memory().occupancy(),
    {
        self.heap.occupancy()
    }

    /// Number of slots of the arena.
    pub fn capacity(&self) -> (n: usize)
        ensures
            n == self.memory().capacity(),
    {
        self.heap.capacity()
    }

    /// Installs a fresh default context on top of the stack.
    pub fn io_push(&mut self)
        requires
            old(self).wf(),
        ensures
            final(self).wf(),
            final(self).memory() == old(self).memory(),
            final(self).globals() == old(self).globals(),
            final(self).io() == old(self).io().push(default_frame()),
    {
        self.io.push(IoFrame { input: Channel::Standard, output: Channel::Standard });
    }

    /// Removes the innermost context, if there is one, and says whether
    /// there was.
    pub fn io_pop(&mut self) -> (popped: bool)
        requires
            old(self).wf(),
        ensures
            final(self).wf(),
            final(self).memory() == old(self).memory(),
            final(self).globals() == old(self).globals(),
            popped == (old(self).io().len() > 0),
            final(self).io() == if popped {
                old(self).io().drop_last()
            } else {
                old(self).io()
            },
    {
        self.io.pop().is_some()
    }

    /// Number of contexts on the stack.
    pub fn io_depth(&self) -> (n: usize)
        ensures
            n == self.io().len(),
    {
        self.io.len()
    }

    /// What the handle refers to, if the host holds it.
    pub(crate) fn check(&self, a: &Atom) -> (r: Option<Ref>)
        requires
            self.wf(),
        ensures
            r == if self.owns(a) {
                a@
            } else {
                None
            },
            r matches Some(x) ==> self.memory().has(x),
    {
        match a.target() {
            None => None,
            Some(r) => {
                let n: u64 = self.heap.holders(r);
                let floor: u64 = if r == self.globals {
                    1
                } else {
                    0
                };
                if n > floor {
                    Some(r)
                } else {
                    None
                }
            },
        }
    }

    /// The node of the atom that the handle refers to.
    pub(crate) fn look(&self, a: &Atom) -> (r: Result<Node, Error>)
        requires
            self.wf(),
        ensures
            r is Ok <==> self.owns(a),
            match r {
                Ok(n) => n == self.memory().cell(a@->0.slot as int).node && match n {
                    Node::Pair(_, _) => self.value(a) is Pair,
                    _ => self.value(a) == leaf_tree(n),
                },
                Err(e) => e == Error::StaleHandle,
            },
    {
        match self.check(a) {
            Some(r) => {
                proof {
                    self.memory().lemma_unfold(r);
                }
                Ok(self.heap.node(r))
            },
            None => Err(Error::StaleHandle),
        }
    }

    /// A new handle on one part of the pair that the handle refers to.
    pub(crate) fn part_of(&mut self, a: &Atom, second: bool) -> (r: Result<Atom, Error>)
        requires
            old(self).wf(),
        ensures
            old(self).steps(final(self)),
            old(self).memory().within(final(self).memory(), 1),
            r is Ok <==> old(self).owns(a) && old(self).value(a) is Pair && old(self).memory().held(
                old(self).part(a, second),
            ) < u64::MAX,
            old(self).made(
                final(self),
                r,
                if second {
                    old(self).value(a).rest()
                } else {
                    old(self).value(a).first()
                },
            ),
            r matches Err(e) ==> final(self).memory() == old(self).memory() && e == (if !old(
                self,
            ).owns(a) {
                Error::StaleHandle
            } else if !(old(self).value(a) is Pair) {
                Error::TypeMismatch
            } else {
                Error::OutOfSpace
            }),
    {
        proof {
            self.memory().lemma_within_more(self.memory(), 0, 1);
        }
        let p: Ref = match self.check(a) {
            Some(p) => p,
            None => {
                return Err(Error::StaleHandle);
            },
        };
        proof {
            self.memory().lemma_unfold(p);
        }
        match self.heap.node(p) {
            Node::Pair(x, y) => {
                let target: Ref = self.heap.part(if second { y } else { x });
                match take(&mut self.heap, target) {
                    Ok(v) => Ok(Atom::holding(v)),
                    Err(e) => Err(e),
                }
            },
            _ => Err(Error::TypeMismatch),
        }
    }

    /// A new atom that is not a pair, with a handle on it.
    fn fresh(&mut self, node: Node) -> (r: Result<Atom, Error>)
        requires
            old(self).wf(),
            !(node is Pair),
        ensures
            old(self).steps(final(self)),
            r is Ok <==> old(self).memory().room() >= 1,
            old(self).memory().within(final(self).memory(), 1),
            old(self).made(final(self), r, leaf_tree(node)),
            r is Ok ==> final(self).memory().occupancy() == old(self).memory().occupancy() + 1,
            r matches Err(e) ==> e == Error::OutOfSpace && final(self).memory() == old(
                self,
            ).memory(),
    {
        match self.heap.leaf(node) {
            Ok(x) => Ok(Atom::holding(x)),
            Err(e) => Err(e),
        }
    }

    /// A new handle on the empty list.
    pub fn nil(&mut self) -> (r: Result<Atom, Error>)
        requires
            old(self).wf(),
        ensures
            old(self).steps(final(self)),
            old(self).memory().within(final(self).memory(), 1),
            r is Ok <==> old(self).memory().room() >= 1,
            old(self).made(final(self), r, Sexp::Nil),
            r is Ok ==> final(self).memory().occupancy() == old(self).memory().occupancy() + 1,
            r matches Err(e) ==> e == Error::OutOfSpace && final(self).memory() == old(
                self,
            ).memory(),
    {
        self.fresh(Node::Nil)
    }

    /// A new handle on the truth value.
    pub fn t(&mut self) -> (r: Result<Atom, Error>)
        requires
            old(self).wf(),
        ensures
            old(self).steps(final(self)),
            old(self).memory().within(final(self).memory(), 1),
            r is Ok <==> old(self).memory().room() >= 1,
            old(self).made(final(self), r, Sexp::True),
            r is Ok ==> final(self).memory().occupancy() == old(self).memory().occupancy() + 1,
            r matches Err(e) ==> e == Error::OutOfSpace && final(self).memory() == old(
                self,
            ).memory(),
    {
        self.fresh(Node::True)
    }

    /// A new handle on the number `val`.
    pub fn number(&mut self, val: i64) -> (r: Result<Atom, Error>)
        requires
            old(self).wf(),
        ensures
            old(self).steps(final(self)),
            old(self).memory().within(final(self).memory(), 1),
            r is Ok <==> old(self).memory().room() >= 1,
            old(self).made(final(self), r, Sexp::Number(val)),
            r is Ok ==> final(self).memory().occupancy() == old(self).memory().occupancy() + 1,
            r matches Err(e) ==> e == Error::OutOfSpace && final(self).memory() == old(
                self,
            ).memory(),
    {
        self.fresh(Node::Number(val))
    }

    /// A new handle on the quote marker.
    pub fn quote(&mut self) -> (r: Result<Atom, Error>)
        requires
            old(self).wf(),
        ensures
            old(self).steps(final(self)),
            old(self).memory().within(final(self).memory(), 1),
            r is Ok <==> old(self).memory().room() >= 1,
            old(self).made(final(self), r, quote_marker()),
            r is Ok ==> final(self).memory().occupancy() == old(self).memory().occupancy() + 1,
            r matches Err(e) ==> e == Error::OutOfSpace && final(self).memory() == old(
                self,
            ).memory(),
    {
        let q: [u8; 5] = [113, 117, 111, 116, 101];
        proof {
            assert(q@ =~= quote_text());
            lemma_clipped_plain(quote_text());
        }
        self.fresh(Node::Symbol(Name::new(q.as_slice())))
    }

    /// A new handle on the symbol named `v`. Of a name longer than 15 bytes
    /// the first 15 are kept, and a name ends before its first zero byte.
    pub fn symbol(&mut self, v: &str) -> (r: Result<Atom, Error>)
        requires
            old(self).wf(),
        ensures
            old(self).steps(final(self)),
            old(self).memory().within(final(self).memory(), 1),
            r is Ok <==> old(self).memory().room() >= 1,
            old(self).made(final(self), r, Sexp::Symbol(clipped(v.spec_bytes()))),
            r is Ok ==> final(self).memory().occupancy() == old(self).memory().occupancy() + 1,
            r matches Err(e) ==> e == Error::OutOfSpace && final(self).memory() == old(
                self,
            ).memory(),
    {
        self.fresh(Node::Symbol(Name::new(v.as_bytes())))
    }

    /// Gives up a handle. The atom leaves the arena once nothing refers to
    /// it any more. Releasing the empty handle does nothing.
    pub fn release(&mut self, atom: Atom) -> (r: Result<(), Error>)
        requires
            old(self).wf(),
        ensures
            old(self).steps(final(self)),
            r is Ok <==> atom@ is None || old(self).owns(&atom),
            old(self).memory().within(final(self).memory(), 0),
            final(self).memory().occupancy() <= old(self).memory().occupancy(),
            match r {
                Ok(()) => forall|q: Ref| #[trigger]
                    final(self).held(q) == old(self).held(q) - if Some(q) == atom@ {
                        1int
                    } else {
                        0int
                    },
                Err(e) => e == Error::StaleHandle && final(self).memory() == old(self).memory(),
            },
    {
        if atom.is_empty() {
            return Ok(());
        }
        match self.check(&atom) {
            Some(r) => {
                let _ = self.heap.release(r);
                Ok(())
            },
            None => Err(Error::StaleHandle),
        }
    }

    /// The host holds both handles, each in its own right.
    pub open spec fn owns_both(&self, a: &Atom, b: &Atom) -> bool {
        &&& self.owns(a)
        &&& self.owns(b)
        &&& a@ == b@ ==> self.held(a@->0) >= 2
    }

    /// A new handle on the pair of the two atoms. Both handles are
    /// consumed, also where no pair can be made.
    pub fn cons(&mut self, a: Atom, b: Atom) -> (r: Result<Atom, Error>)
        requires
            old(self).wf(),
        ensures
            old(self).steps(final(self)),
            old(self).memory().within(final(self).memory(), 1),
            r is Ok <==> old(self).owns_both(&a, &b) && old(self).memory().room() >= 1,
            forall|q: Ref| #[trigger]
                final(self).held(q) == old(self).held(q) - least(old(self).held(q), wanted(&a, &b, q))
                    + (if r matches Ok(x) && x@ == Some(q) {
                    1int
                } else {
                    0int
                }),
            match r {
                Ok(x) => final(self).owns(&x) && final(self).value(&x) == Sexp::cons(
                    old(self).value(&a),
                    old(self).value(&b),
                ) && final(self).memory().occupancy() == old(self).memory().occupancy() + 1,
                Err(e) => e == (if old(self).owns_both(&a, &b) {
                    Error::OutOfSpace
                } else {
                    Error::StaleHandle
                }) && final(self).memory().occupancy() <= old(self).memory().occupancy(),
            },
    {
        let ghost before = *self;
        let ra: Option<Ref> = self.check(&a);
        let rb: Option<Ref> = self.check(&b);
        if let Some(x) = ra {
            if let Some(y) = rb {
                let twice: bool = x == y;
                let floor: u64 = if x == self.globals {
                    1
                } else {
                    0
                };
                if !twice || self.heap.holders(x) - floor >= 2 {
                    return match self.heap.cons(x, y) {
                        Ok(p) => Ok(Atom::holding(p)),
                        Err(e) => Err(e),
                    };
                }
            }
        }
        self.give_up(a, b);
        proof {
            old(self).memory().lemma_within_more(self.memory(), 0, 1);
        }
        Err(Error::StaleHandle)
    }

    /// Gives up two handles, as far as the host holds them.
    fn give_up(&mut self, a: Atom, b: Atom)
        requires
            old(self).wf(),
        ensures
            old(self).steps(final(self)),
            old(self).memory().within(final(self).memory(), 0),
            final(self).memory().occupancy() <= old(self).memory().occupancy(),
            forall|q: Ref| #[trigger]
                final(self).held(q) == old(self).held(q) - least(old(self).held(q), wanted(&a, &b, q)),
    {
        let ghost before = *self;
        let ghost ra = a@;
        let ghost rb = b@;
        let _ = self.release(a);
        let ghost mid = *self;
        let _ = self.release(b);
        proof {
            before.memory().lemma_within_trans(mid.memory(), self.memory(), 0, 0);
            before.memory().lemma_grows_trans(mid.memory(), self.memory());
            before.memory().lemma_agrees(self.memory());
            assert forall|q: Ref| #[trigger]
                self.held(q) == before.held(q) - least(
                    before.held(q),
                    (if ra == Some(q) {
                        1nat
                    } else {
                        0nat
                    }) + (if rb == Some(q) {
                        1nat
                    } else {
                        0nat
                    }),
                ) by {
                let h = mid.held(q);
            }
        }
    }

    /// A new handle on the list of the characters of `v`, byte by byte.
    pub fn string(&mut self, v: &str) -> (r: Result<Atom, Error>)
        requires
            old(self).wf(),
        ensures
            old(self).steps(final(self)),
            old(self).memory().within(final(self).memory(), 2 * v.spec_bytes().len() + 1),
            r is Ok <==> old(self).memory().room() >= 2 * v.spec_bytes().len() + 1,
            old(self).made(final(self), r, text_list(v.spec_bytes(), 0)),
            r is Ok ==> final(self).memory().occupancy() == old(self).memory().occupancy() + 2
                * v.spec_bytes().len() + 1,
            r matches Err(e) ==> e == Error::OutOfSpace,
    {
        let ghost g0 = self.memory();
        let bytes: &[u8] = v.as_bytes();
        let n: usize = bytes.len();
        let mut acc: Ref = match self.heap.leaf(Node::Nil) {
            Ok(x) => x,
            Err(e) => {
                return Err(e);
            },
        };
        let mut j: usize = n;
        while j > 0
            invariant
                j <= n,
                n == bytes@.len(),
                bytes@ == v.spec_bytes(),
                self.wf(),
                g0 == old(self).memory(),
                self.globals() == old(self).globals(),
                self.io() == old(self).io(),
                g0.sound(),
                g0.held(self.globals()) >= 1,
                g0.grows(self.memory()),
                self.memory().occupancy() == g0.occupancy() + 1 + 2 * (n - j),
                self.memory().clock == g0.clock + 1 + 2 * (n - j),
                self.memory().capacity() == g0.capacity(),
                g0.room() >= 1 + 2 * (n - j),
                self.memory().has(acc),
                self.memory().value(acc) == text_list(bytes@, j as int),
                forall|q: Ref| #[trigger]
                    self.memory().held(q) == g0.held(q) + if q == acc {
                        1nat
                    } else {
                        0nat
                    },
            decreases j,
        {
            let ghost g1 = self.memory();
            j = j - 1;
            let b: u8 = bytes[j];
            let c: i8 = if b < 128 {
                b as i8
            } else {
                (b as i16 - 256) as i8
            };
            let ch: Ref = match self.heap.leaf(Node::Char(c)) {
                Ok(x) => x,
                Err(e) => {
                    assert(g1.held(acc) >= 1);
                    let _ = self.heap.release(acc);
                    proof {
                        g0.lemma_grows_trans(g1, self.memory());
                        g0.lemma_agrees(self.memory());
                        assert forall|q: Ref| #[trigger] self.memory().held(q) == g0.held(q) by {
                            assert(self.memory().held(q) == g1.held(q) - if q == acc {
                                1int
                            } else {
                                0int
                            });
                        }
                        assert(self.memory().held(self.globals()) == g0.held(self.globals()));
                    }
                    return Err(e);
                },
            };
            let ghost g2 = self.memory();
            assert(g2.held(ch) == 1 && g2.held(acc) >= 1 && ch != acc);
            let r = self.heap.cons(ch, acc);
            proof {
                g0.lemma_grows_trans(g1, g2);
                g0.lemma_grows_trans(g2, self.memory());
                g0.lemma_agrees(self.memory());
                assert forall|q: Ref| #[trigger]
                    self.memory().held(q) == g0.held(q) + if r == Ok::<Ref, Error>(q) {
                        1nat
                    } else {
                        0nat
                    } by {
                    assert(g2.held(q) == g1.held(q) + if q == ch { 1nat } else { 0nat });
                    assert(g1.held(q) == g0.held(q) + if q == acc { 1nat } else { 0nat });
                }
                assert(self.memory().held(self.globals()) >= g0.held(self.globals()));
            }
            match r {
                Ok(x) => {
                    proof {
                        assert(g2.value(acc) == g1.value(acc));
                    }
                    acc = x;
                },
                Err(e) => {
                    return Err(e);
                },
            }
        }
        proof {
            g0.lemma_agrees(self.memory());
        }
        Ok(Atom::holding(acc))
    }

    /// Evaluates the expression `atom` in the lexical environment `clos`
    /// and returns a handle on the result. The expression is consumed, also
    /// where the evaluation fails; the environment is only read. An atom
    /// that evaluates to itself is handed back as it came.
    pub fn eval(&mut self, clos: &Atom, atom: Atom) -> (r: Result<Atom, Error>)
        requires
            old(self).wf(),
        ensures
            old(self).steps(final(self)),
            !(old(self).owns(clos) && old(self).owns(&atom)) ==> r == Err::<Atom, Error>(
                Error::StaleHandle,
            ) && forall|q: Ref| #[trigger]
                final(self).held(q) == old(self).held(q) - (if old(self).owns(&atom) && Some(q)
                    == atom@ {
                    1int
                } else {
                    0int
                }),
            old(self).owns(clos) && old(self).owns(&atom) ==> {
                let meaning = eval(
                    old(self).table(),
                    old(self).value(clos),
                    old(self).value(&atom),
                    DEPTH_LIMIT as nat,
                );
                match r {
                    Ok(v) => final(self).owns(&v) && meaning == Ok::<Sexp, Error>(
                        final(self).value(&v),
                    ) && forall|q: Ref| #[trigger]
                        final(self).held(q) == old(self).held(q) - (if Some(q) == atom@ {
                            1int
                        } else {
                            0int
                        }) + (if Some(q) == v@ {
                            1int
                        } else {
                            0int
                        }),
                    Err(e) => (e == Error::OutOfSpace || meaning == Err::<Sexp, Error>(e))
                        && forall|q: Ref| #[trigger]
                        final(self).held(q) == old(self).held(q) - (if Some(q) == atom@ {
                            1int
                        } else {
                            0int
                        }),
                }
            },
            old(self).owns(clos) && old(self).owns(&atom) && self_evaluating(old(self).value(&atom))
                ==> r is Ok && r->Ok_0@ == atom@ && final(self).memory() == old(self).memory(),
            old(self).memory().within(
                final(self).memory(),
                spent(
                    old(self).table(),
                    old(self).value(clos),
                    old(self).value(&atom),
                    DEPTH_LIMIT as nat,
                ),
            ),
            old(self).owns(clos) && old(self).owns(&atom) && old(self).memory().affords(
                spent(
                    old(self).table(),
                    old(self).value(clos),
                    old(self).value(&atom),
                    DEPTH_LIMIT as nat,
                ),
            ) ==> (r matches Err(e) ==> eval(
                old(self).table(),
                old(self).value(clos),
                old(self).value(&atom),
                DEPTH_LIMIT as nat,
            ) == Err::<Sexp, Error>(e)),
    {
        let ghost g0 = self.memory();
        proof {
            g0.lemma_within_more(
                g0,
                0,
                spent(self.table(), self.value(clos), self.value(&atom), DEPTH_LIMIT as nat),
            );
        }
        let env: Ref = match self.check(clos) {
            Some(e) => e,
            None => {
                let _ = self.release(atom);
                proof {
                    g0.lemma_within_more(
                        self.memory(),
                        0,
                        spent(
                            old(self).table(),
                            old(self).value(clos),
                            old(self).value(&atom),
                            DEPTH_LIMIT as nat,
                        ),
                    );
                }
                return Err(Error::StaleHandle);
            },
        };
        let expr: Ref = match self.check(&atom) {
            Some(e) => e,
            None => {
                return Err(Error::StaleHandle);
            },
        };
        proof {
            g0.lemma_unfold(expr);
        }
        match self.heap.node(expr) {
            Node::Symbol(_) | Node::Pair(_, _) => {},
            _ => {
                return Ok(atom);
            },
        }
        let globals: Ref = self.globals;
        let r = eval_at(&mut self.heap, globals, env, expr, DEPTH_LIMIT);
        let ghost g1 = self.memory();
        assert(g1.held(expr) >= g0.held(expr));
        let _ = self.heap.release(expr);
        proof {
            g0.lemma_within_trans(
                g1,
                self.memory(),
                spent(g0.value(self.globals()), g0.value(env), g0.value(expr), DEPTH_LIMIT as nat),
                0,
            );
            g0.lemma_grows_trans(g1, self.memory());
            g0.lemma_agrees(self.memory());
            assert forall|q: Ref| #[trigger]
                self.memory().held(q) == g0.held(q) - (if q == expr {
                    1int
                } else {
                    0int
                }) + (if r == Ok::<Ref, Error>(q) {
                    1int
                } else {
                    0int
                }) by {
                assert(self.memory().held(q) == g1.held(q) - if q == expr { 1int } else { 0int });
                if let Ok(x) = r {
                    assert(g1.held(q) == g0.held(q) + if q == x { 1nat } else { 0nat });
                } else {
                    assert(g1.held(q) == g0.held(q));
                }
            }
            if let Ok(x) = r {
                assert(self.memory().held(x) >= 1);
                assert(self.memory().value(x) == g1.value(x));
            }
        }
        match r {
            Ok(x) => Ok(Atom::holding(x)),
            Err(e) => Err(e),
        }
    }

    /// Binds `name` globally to the atom that `value` refers to, in front of
    /// what was bound before. The handle is consumed, also where the binding
    /// cannot be made.
    pub fn define(&mut self, name: &str, value: Atom) -> (r: Result<(), Error>)
        requires
            old(self).wf(),
        ensures
            final(self).wf(),
            old(self).memory().grows(final(self).memory()),
            old(self).memory().within(final(self).memory(), 3),
            final(self).io() == old(self).io(),
            r is Ok <==> old(self).owns(&value) && old(self).memory().room() >= 3,
            forall|q: Ref| #[trigger]
                final(self).held(q) == old(self).held(q) - if old(self).owns(&value) && value@ == Some(
                    q,
                ) {
                    1int
                } else {
                    0int
                },
            match r {
                Ok(()) => final(self).table() == defined(
                    old(self).table(),
                    clipped(name.spec_bytes()),
                    old(self).value(&value),
                ),
                Err(e) => final(self).table() == old(self).table() && e == (if old(self).owns(
                    &value,
                ) {
                    Error::OutOfSpace
                } else {
                    Error::StaleHandle
                }),
            },
    {
        let ghost g0 = self.memory();
        let globals: Ref = self.globals;
        proof {
            g0.lemma_within_more(g0, 0, 3);
        }
        let v: Ref = match self.check(&value) {
            Some(v) => v,
            None => {
                return Err(Error::StaleHandle);
            },
        };
        let key: Ref = match self.heap.leaf(Node::Symbol(Name::new(name.as_bytes()))) {
            Ok(k) => k,
            Err(e) => {
                let ghost g1 = self.memory();
                assert(g1.held(v) >= 1);
                let _ = self.heap.release(v);
                proof {
                    g0.lemma_grows_trans(g1, self.memory());
                    g0.lemma_within_trans(g1, self.memory(), 3, 0);
                    g0.lemma_agrees(self.memory());
                    assert forall|q: Ref| #[trigger]
                        self.memory().held(q) == g0.held(q) - if q == v {
                            1int
                        } else {
                            0int
                        } by {
                        let h = g1.held(q);
                    }
                    assert(self.memory().held(globals) >= 1);
                    assert(self.memory().value(globals) == g0.value(globals));
                }
                return Err(e);
            },
        };
        let ghost g1 = self.memory();
        assert(g1.has(globals) && g1.has(v) && g1.has(key));
        let r = extend(&mut self.heap, globals, key, v);
        let ghost g2 = self.memory();
        assert(g2.held(key) >= 1) by {
            assert(g1.held(key) == 1);
        }
        let _ = self.heap.release(key);
        let ghost g3 = self.memory();
        assert(g3.held(v) >= 1) by {
            assert(g3.held(v) == g2.held(v) - if v == key { 1int } else { 0int });
            assert(g2.held(v) >= g1.held(v));
            assert(g1.held(v) == g0.held(v));
            assert(!g0.has(key));
        }
        let _ = self.heap.release(v);
        let ghost g4 = self.memory();
        proof {
            g0.lemma_grows_trans(g1, g2);
            g0.lemma_grows_trans(g2, g3);
            g0.lemma_grows_trans(g3, g4);
            g0.lemma_within_trans(g1, g2, 1, 2);
            g0.lemma_within_trans(g2, g3, 3, 0);
            g0.lemma_within_trans(g3, g4, 3, 0);
            assert(!g0.has(key));
            assert forall|q: Ref| #[trigger]
                g4.held(q) == g0.held(q) - (if q == v {
                    1int
                } else {
                    0int
                }) + (if r == Ok::<Ref, Error>(q) {
                    1int
                } else {
                    0int
                }) by {
                assert(g4.held(q) == g3.held(q) - if q == v { 1int } else { 0int });
                assert(g3.held(q) == g2.held(q) - if q == key { 1int } else { 0int });
                assert(g1.held(q) == g0.held(q) + if q == key { 1nat } else { 0nat });
                if let Ok(n) = r {
                    assert(g2.held(q) == g1.held(q) + if q == n { 1nat } else { 0nat });
                } else {
                    assert(g2.held(q) == g1.held(q));
                }
            }
            assert(g4.held(globals) >= 1);
            g0.lemma_agrees(g4);
        }
        match r {
            Ok(n) => {
                proof {
                    assert(g2.held(n) == g1.held(n) + 1);
                    assert(!g1.has(n));
                    assert(g4.held(n) >= 1);
                    assert(g3.held(n) >= 1);
                    assert(g3.value(n) == g2.value(n));
                    assert(g4.value(n) == g3.value(n));
                    assert(g1.value(v) == g0.value(v));
                    assert(g1.value(globals) == g0.value(globals));
                }
                let _ = self.heap.release(globals);
                self.globals = n;
                proof {
                    let g5 = self.memory();
                    g0.lemma_grows_trans(g4, g5);
                    g0.lemma_within_trans(g4, g5, 3, 0);
                    assert forall|q: Ref| #[trigger]
                        self.held(q) == old(self).held(q) - if q == v {
                            1int
                        } else {
                            0int
                        } by {
                        assert(g5.held(q) == g4.held(q) - if q == globals { 1int } else { 0int });
                    }
                    assert(g5.held(n) >= 1);
                    assert(g5.value(n) == g4.value(n));
                }
                Ok(())
            },
            Err(e) => {
                proof {
                    assert(g4.value(globals) == g0.value(globals));
                    assert forall|q: Ref| #[trigger]
                        self.held(q) == old(self).held(q) - if q == v {
                            1int
                        } else {
                            0int
                        } by {
                        let h = g4.held(q);
                    }
                }
                Err(e)
            },
        }
    }

    /// Makes a builtin known under `name` as well: binds `name` globally to
    /// the symbol that denotes the builtin.
    pub fn register(&mut self, name: &str, builtin: Builtin) -> (r: Result<(), Error>)
        requires
            old(self).wf(),
        ensures
            final(self).wf(),
            old(self).memory().grows(final(self).memory()),
            old(self).memory().within(final(self).memory(), 4),
            final(self).io() == old(self).io(),
            r is Ok <==> old(self).memory().room() >= 4,
            forall|q: Ref| #[trigger] final(self).held(q) == old(self).held(q),
            match r {
                Ok(()) => final(self).table() == defined(
                    old(self).table(),
                    clipped(name.spec_bytes()),
                    Sexp::Symbol(builtin_text(builtin)),
                ),
                Err(e) => final(self).table() == old(self).table() && e == Error::OutOfSpace,
            },
    {
        let ghost start = *self;
        let cons: [u8; 4] = [99, 111, 110, 115];
        let car: [u8; 3] = [99, 97, 114];
        let cdr: [u8; 3] = [99, 100, 114];
        proof {
            assert(cons@ =~= cons_text());
            assert(car@ =~= car_text());
            assert(cdr@ =~= cdr_text());
            lemma_clipped_plain(cons_text());
            lemma_clipped_plain(car_text());
            lemma_clipped_plain(cdr_text());
        }
        let text: &[u8] = match builtin {
            Builtin::Cons => cons.as_slice(),
            Builtin::Car => car.as_slice(),
            Builtin::Cdr => cdr.as_slice(),
        };
        let symbol: Atom = match self.fresh(Node::Symbol(Name::new(text))) {
            Ok(s) => s,
            Err(e) => {
                proof {
                    start.memory().lemma_within_more(self.memory(), 1, 4);
                }
                return Err(e);
            },
        };
        let ghost mid = *self;
        let r = self.define(name, symbol);
        proof {
            start.memory().lemma_grows_trans(mid.memory(), self.memory());
            start.memory().lemma_within_trans(mid.memory(), self.memory(), 1, 3);
            start.memory().lemma_room_after(mid.memory(), 1);
            assert forall|q: Ref| #[trigger] self.held(q) == start.held(q) by {
                let h = mid.held(q);
            }
        }
        r
    }

    /// Evaluates one top-level expression and, after a definition, puts the
    /// new global environment in place of the old one. The handle on the
    /// expression is consumed.
    fn eval_top(&mut self, x: Ref) -> (r: Result<Ref, Error>)
        requires
            old(self).wf(),
            old(self).held(x) >= 1,
        ensures
            final(self).wf(),
            old(self).memory().grows(final(self).memory()),
            final(self).io() == old(self).io(),
            forall|q: Ref| #[trigger]
                final(self).held(q) == old(self).held(q) - (if q == x {
                    1int
                } else {
                    0int
                }) + (if r == Ok::<Ref, Error>(q) {
                    1int
                } else {
                    0int
                }),
            ({
                let table = old(self).table();
                let form = old(self).memory().value(x);
                let meaning = eval(table, table, crate::load::subject(form), DEPTH_LIMIT as nat);
                match r {
                    Ok(v) => final(self).memory().has(v) && meaning == Ok::<Sexp, Error>(
                        final(self).memory().value(v),
                    ) && final(self).table() == crate::load::table_after(
                        table,
                        form,
                        final(self).memory().value(v),
                    ),
                    Err(e) => (e == Error::OutOfSpace || meaning == Err::<Sexp, Error>(e))
                        && final(self).table() == table,
                }
            }),
            ({
                let table = old(self).table();
                let form = old(self).memory().value(x);
                let steps = spent(table, table, subject(form), DEPTH_LIMIT as nat) + 2;
                &&& old(self).memory().within(final(self).memory(), steps)
                &&& old(self).memory().affords(steps) ==> (r matches Err(e) ==> eval(
                    table,
                    table,
                    subject(form),
                    DEPTH_LIMIT as nat,
                ) == Err::<Sexp, Error>(e))
            }),
    {
        let ghost g1 = self.memory();
        let ghost steps = spent(
            self.table(),
            self.table(),
            subject(g1.value(x)),
            DEPTH_LIMIT as nat,
        ) + 2;
        let globals: Ref = self.globals;
        assert(g1.has(x) && g1.has(globals));
        let r = top_level(&mut self.heap, globals, x);
        let ghost g3 = self.memory();
        assert(g3.held(x) >= g1.held(x));
        let _ = self.heap.release(x);
        let ghost g4 = self.memory();
        proof {
            g1.lemma_grows_trans(g3, g4);
            g1.lemma_within_trans(g3, g4, steps, 0);
        }
        match r {
            Err(e) => {
                proof {
                    assert forall|q: Ref| #[trigger]
                        g4.held(q) == g1.held(q) - if q == x {
                            1int
                        } else {
                            0int
                        } by {
                        assert(g4.held(q) == g3.held(q) - if q == x { 1int } else { 0int });
                        assert(g3.held(q) == g1.held(q));
                    }
                    assert(g4.held(globals) >= 1);
                    assert(g4.value(globals) == g3.value(globals));
                    assert(g3.value(globals) == g1.value(globals));
                }
                Err(e)
            },
            Ok((v, t)) => {
                let gone: Option<Ref> = match t {
                    Some(_) => Some(globals),
                    None => None,
                };
                proof {
                    assert forall|q: Ref| #[trigger]
                        g4.held(q) == g1.held(q) - (if q == x {
                            1int
                        } else {
                            0int
                        }) + (if q == v {
                            1int
                        } else {
                            0int
                        }) + (if t == Some(q) {
                            1int
                        } else {
                            0int
                        }) by {
                        assert(g4.held(q) == g3.held(q) - if q == x { 1int } else { 0int });
                    }
                    assert(g4.held(globals) >= 1);
                }
                self.heap.release_some(gone);
                if let Some(n) = t {
                    self.globals = n;
                }
                proof {
                    let g5 = self.memory();
                    g1.lemma_within_trans(g4, g5, steps, 0);
                    g1.lemma_grows_trans(g4, g5);
                    assert forall|q: Ref| #[trigger]
                        g5.held(q) == g1.held(q) - (if q == x {
                            1int
                        } else {
                            0int
                        }) + (if q == v {
                            1int
                        } else {
                            0int
                        }) + (if q == self.globals() {
                            1int
                        } else {
                            0int
                        }) - (if q == globals {
                            1int
                        } else {
                            0int
                        }) by {
                        assert(g5.held(q) == g4.held(q) - if gone == Some(q) { 1int } else { 0int });
                    }
                    assert(g5.held(v) >= 1) by {
                        assert(g1.held(v) >= if v == globals { 1int } else { 0int } + if v == x {
                            1int
                        } else {
                            0int
                        });
                    }
                    assert(g5.held(self.globals()) >= 1);
                    assert(g4.held(v) >= 1);
                    assert(g4.value(v) == g3.value(v));
                    assert(g5.value(v) == g4.value(v));
                    match t {
                        Some(n) => {
                            assert(g4.held(n) >= 1);
                            assert(g4.value(n) == g3.value(n));
                            assert(g5.value(n) == g4.value(n));
                        },
                        None => {
                            assert(g3.value(globals) == g1.value(globals));
                            assert(g4.value(globals) == g3.value(globals));
                            assert(g5.value(globals) == g4.value(globals));
                        },
                    }
                }
                Ok(v)
            },
        }
    }

    /// Reads the expression that the text holds at `j` and evaluates it at
    /// the top level. Returns the result with a handle on it, and the place
    /// behind the expression.
    fn load_one(&mut self, source: &[u8], j: usize) -> (r: Result<(Ref, usize), Error>)
        requires
            old(self).wf(),
            j < source@.len(),
            skip(source@, j as int) == j,
        ensures
            final(self).wf(),
            old(self).memory().grows(final(self).memory()),
            final(self).io() == old(self).io(),
            forall|q: Ref| #[trigger]
                final(self).held(q) == old(self).held(q) + (if r matches Ok((v, _)) && v == q {
                    1nat
                } else {
                    0nat
                }),
            match r {
                Ok((v, k)) => {
                    &&& j < k <= source@.len()
                    &&& final(self).memory().has(v)
                    &&& read_form(source@, j as int, NESTING_LIMIT as nat) matches Some((form, end))
                    &&& end == k
                    &&& step_result(old(self).table(), source@, j as int) == Ok::<Sexp, Error>(
                        final(self).memory().value(v),
                    )
                    &&& final(self).table() == table_after(
                        old(self).table(),
                        form,
                        final(self).memory().value(v),
                    )
                    &&& old(self).memory().within(
                        final(self).memory(),
                        (4 * (k - j) + step_spent(old(self).table(), source@, j as int)) as nat,
                    )
                },
                Err(e) => final(self).table() == old(self).table() && (e == Error::OutOfSpace
                    || step_result(old(self).table(), source@, j as int) == Err::<Sexp, Error>(e)),
            },
            old(self).memory().within(
                final(self).memory(),
                (4 * (source@.len() - j) + step_spent(old(self).table(), source@, j as int)) as nat,
            ),
            old(self).memory().affords(
                (4 * (source@.len() - j) + step_spent(old(self).table(), source@, j as int)) as nat,
            ) ==> (r matches Err(e) ==> step_result(old(self).table(), source@, j as int) == Err::<
                Sexp,
                Error,
            >(e)),
    {
        let ghost s1 = *self;
        let ghost g1 = self.memory();
        let ghost reading = (4 * (source@.len() - j)) as nat;
        let ghost evaluating = step_spent(self.table(), source@, j as int);
        proof {
            if g1.affords(reading + evaluating) {
                g1.lemma_affords_less(reading + evaluating, reading);
            }
        }
        let read = read_form_at(&mut self.heap, source, j, NESTING_LIMIT);
        let ghost s2 = *self;
        let ghost g2 = self.memory();
        proof {
            g1.lemma_within_more(g2, reading, reading + evaluating);
            assert(g2.has(s2.globals()));
            assert(g2.held(s2.globals()) >= g1.held(s1.globals()));
            assert(s2.table() == s1.table());
            assert forall|q: Ref| #[trigger]
                s2.held(q) == s1.held(q) + (if read matches Ok((x, _)) && x == q {
                    1nat
                } else {
                    0nat
                }) by {
                let h = g2.held(q);
            }
        }
        let (x, k) = match read {
            Ok(p) => p,
            Err(e) => {
                return Err(e);
            },
        };
        assert(s2.held(x) >= 1);
        let ghost used = (4 * (k - j) - 1) as nat;
        proof {
            if g1.affords(reading + evaluating) {
                g1.lemma_affords_rest(g2, used, (reading + evaluating - used) as nat);
                g2.lemma_affords_less((reading + evaluating - used) as nat, evaluating);
            }
        }
        let r = self.eval_top(x);
        proof {
            let g3 = self.memory();
            g1.lemma_grows_trans(g2, g3);
            g1.lemma_within_trans(g2, g3, used, evaluating);
            g1.lemma_within_more(g3, used + evaluating, (4 * (k - j) + evaluating) as nat);
            g1.lemma_within_more(g3, used + evaluating, reading + evaluating);
            assert forall|q: Ref| #[trigger]
                self.held(q) == s1.held(q) + (if r == Ok::<Ref, Error>(q) {
                    1nat
                } else {
                    0nat
                }) by {
                let h = s2.held(q);
            }
        }
        match r {
            Ok(v) => Ok((v, k)),
            Err(e) => Err(e),
        }
    }

    /// Loads a text: reads its expressions one after the other and
    /// evaluates each in the global environment, where a definition
    /// `(def name expr)` binds `name` for what follows. Returns a handle on
    /// the result of the last expression, or on the absent value where the
    /// text holds none. The first expression that cannot be read or
    /// evaluated ends the loading with its error; what was defined before
    /// it stays defined.
    pub fn load(&mut self, source: &[u8]) -> (r: Result<Atom, Error>)
        requires
            old(self).wf(),
        ensures
            final(self).wf(),
            old(self).memory().grows(final(self).memory()),
            final(self).io() == old(self).io(),
            forall|q: Ref| #[trigger]
                final(self).held(q) == old(self).held(q) + if r matches Ok(a) && a@ == Some(q) {
                    1nat
                } else {
                    0nat
                },
            ({
                let (table, outcome) = run(old(self).table(), source@, 0, Sexp::Absent);
                match r {
                    Ok(a) => final(self).owns(&a) && outcome == Ok::<Sexp, Error>(
                        final(self).value(&a),
                    ) && final(self).table() == table,
                    Err(e) => e == Error::OutOfSpace || (outcome == Err::<Sexp, Error>(e)
                        && final(self).table() == table),
                }
            }),
            old(self).memory().within(
                final(self).memory(),
                load_budget(old(self).table(), source@),
            ),
            old(self).memory().affords(load_budget(old(self).table(), source@)) ==> (r matches Err(
                e,
            ) ==> run(old(self).table(), source@, 0, Sexp::Absent).1 == Err::<Sexp, Error>(e)),
    {
        let ghost start = *self;
        let ghost t0 = self.table();
        let ghost frames = self.io();
        let ghost evals = run_spent(t0, source@, 0);
        let ghost budget = load_budget(t0, source@);
        let ghost mut done = 0nat;
        let ghost mut used = 0nat;
        self.io.push(IoFrame { input: Channel::Source, output: Channel::Standard });
        let mut last: Option<Ref> = None;
        let mut cur: usize = 0;
        let mut failure: Option<Error> = None;
        loop
            invariant_except_break
                failure is None,
                used <= 4 * cur + done,
                evals == done + run_spent(self.table(), source@, cur as int),
                run(t0, source@, 0, Sexp::Absent) == run(
                    self.table(),
                    source@,
                    cur as int,
                    match last {
                        Some(l) => self.memory().value(l),
                        None => Sexp::Absent,
                    },
                ),
            invariant
                self.wf(),
                start == *old(self),
                t0 == start.table(),
                frames == start.io(),
                start.wf(),
                start.memory().grows(self.memory()),
                self.io() == frames.push(IoFrame { input: Channel::Source, output: Channel::Standard }),
                cur <= source@.len(),
                evals == run_spent(t0, source@, 0),
                budget == 4 * source@.len() + 1 + evals,
                used <= 4 * source@.len() + evals,
                start.memory().within(self.memory(), used),
                forall|q: Ref| #[trigger]
                    self.held(q) == start.held(q) + (if last == Some(q) {
                        1nat
                    } else {
                        0nat
                    }),
            ensures
                match failure {
                    None => run(t0, source@, 0, Sexp::Absent) == (
                        self.table(),
                        Ok::<Sexp, Error>(
                            match last {
                                Some(l) => self.memory().value(l),
                                None => Sexp::Absent,
                            },
                        ),
                    ),
                    Some(e) => (e == Error::OutOfSpace && !start.memory().affords(budget)) || run(
                        t0,
                        source@,
                        0,
                        Sexp::Absent,
                    ) == (self.table(), Err::<Sexp, Error>(e)),
                },
            decreases source@.len() - cur,
        {
            let ghost s1 = *self;
            proof {
                crate::reader::lemma_skip(source@, cur as int);
            }
            let j: usize = skip_blanks(source, cur);
            if j >= source.len() {
                break ;
            }
            let ghost steps = step_spent(s1.table(), source@, j as int);
            let ghost most = (4 * (source@.len() - j) + steps) as nat;
            proof {
                crate::reader::lemma_skip(source@, j as int);
                if start.memory().affords(budget) {
                    start.memory().lemma_affords_rest(s1.memory(), used, (budget - used) as nat);
                    s1.memory().lemma_affords_less((budget - used) as nat, most);
                }
            }
            let r = self.load_one(source, j);
            let ghost s2 = *self;
            proof {
                start.memory().lemma_grows_trans(s1.memory(), s2.memory());
                start.memory().lemma_within_trans(s1.memory(), s2.memory(), used, most);
                if let Some(l) = last {
                    assert(s2.held(l) >= 1);
                    assert(s1.memory().has(l) && s2.memory().has(l));
                    s1.memory().lemma_agrees(s2.memory());
                    assert(s2.memory().value(l) == s1.memory().value(l));
                }
            }
            match r {
                Err(e) => {
                    failure = Some(e);
                    proof {
                        used = used + most;
                    }
                    break ;
                },
                Ok((v, k)) => {
                    let old_last: Atom = match last {
                        Some(l) => Atom::holding(l),
                        None => Atom::empty(),
                    };
                    let ghost spent_here = (4 * (k - j) + steps) as nat;
                    let _ = self.release(old_last);
                    proof {
                        let s3 = *self;
                        start.memory().lemma_grows_trans(s2.memory(), s3.memory());
                        start.memory().lemma_within_trans(
                            s1.memory(),
                            s2.memory(),
                            used,
                            spent_here,
                        );
                        start.memory().lemma_within_trans(
                            s2.memory(),
                            s3.memory(),
                            used + spent_here,
                            0,
                        );
                        assert forall|q: Ref| #[trigger]
                            s3.held(q) == start.held(q) + (if Some(v) == Some(q) {
                                1nat
                            } else {
                                0nat
                            }) by {
                            let h = s2.held(q);
                            let i = s1.held(q);
                        }
                        assert(s3.held(v) >= 1);
                        assert(s3.memory().has(v) && s2.memory().has(v));
                        s2.memory().lemma_agrees(s3.memory());
                        assert(s3.memory().value(v) == s2.memory().value(v));
                        assert(s3.table() == s2.table());
                        used = used + spent_here;
                        done = done + steps;
                    }
                    last = Some(v);
                    cur = k;
                },
            }
        }
        let ghost finished = *self;
        self.io.pop();
        assert(self.io() =~= frames);
        assert(self.memory() == finished.memory() && self.globals() == finished.globals());
        assert forall|q: Ref| #[trigger]
            self.held(q) == start.held(q) + (if last == Some(q) {
                1nat
            } else {
                0nat
            }) by {
            let h = finished.held(q);
        }
        proof {
            start.memory().lemma_within_more(self.memory(), used, budget);
        }
        match failure {
            Some(e) => {
                let ghost s5 = *self;
                let old_last: Atom = match last {
                    Some(l) => Atom::holding(l),
                    None => Atom::empty(),
                };
                let _ = self.release(old_last);
                proof {
                    start.memory().lemma_grows_trans(s5.memory(), self.memory());
                    start.memory().lemma_within_trans(s5.memory(), self.memory(), budget, 0);
                    assert forall|q: Ref| #[trigger] self.held(q) == start.held(q) by {
                        let h = s5.held(q);
                    }
                    assert(self.table() == s5.table());
                }
                Err(e)
            },
            None => match last {
                Some(l) => {
                    assert(self.held(l) >= 1);
                    Ok(Atom::holding(l))
                },
                None => {
                    let ghost s5 = *self;
                    proof {
                        if start.memory().affords(budget) {
                            start.memory().lemma_affords_rest(
                                s5.memory(),
                                used,
                                (budget - used) as nat,
                            );
                            s5.memory().lemma_affords_less((budget - used) as nat, 1);
                        }
                    }
                    let made = self.fresh(Node::Absent);
                    proof {
                        start.memory().lemma_grows_trans(s5.memory(), self.memory());
                        start.memory().lemma_within_trans(s5.memory(), self.memory(), used, 1);
                        start.memory().lemma_within_more(self.memory(), used + 1, budget);
                        assert(self.table() == s5.table());
                        assert forall|q: Ref| #[trigger]
                            self.held(q) == start.held(q) + if made matches Ok(a) && a@ == Some(q) {
                                1nat
                            } else {
                                0nat
                            } by {
                            let h = s5.held(q);
                        }
                    }
                    made
                },
            },
        }
    }

    /// Loads the text of a library into the global environment: what the
    /// text defines stays defined, and the result of its last expression is
    /// given up.
    pub fn load_defaults(&mut self, source: &[u8]) -> (r: Result<(), Error>)
        requires
            old(self).wf(),
        ensures
            final(self).wf(),
            old(self).memory().grows(final(self).memory()),
            final(self).io() == old(self).io(),
            forall|q: Ref| #[trigger] final(self).held(q) == old(self).held(q),
            ({
                let (table, outcome) = run(old(self).table(), source@, 0, Sexp::Absent);
                match r {
                    Ok(()) => outcome is Ok && final(self).table() == table,
                    Err(e) => e == Error::OutOfSpace || (outcome == Err::<Sexp, Error>(e)
                        && final(self).table() == table),
                }
            }),
            old(self).memory().within(
                final(self).memory(),
                load_budget(old(self).table(), source@),
            ),
            old(self).memory().affords(load_budget(old(self).table(), source@)) ==> (r matches Err(
                e,
            ) ==> run(old(self).table(), source@, 0, Sexp::Absent).1 == Err::<Sexp, Error>(e)),
    {
        let ghost start = *self;
        match self.load(source) {
            Ok(a) => {
                let ghost mid = *self;
                let _ = self.release(a);
                proof {
                    start.memory().lemma_within_trans(
                        mid.memory(),
                        self.memory(),
                        load_budget(start.table(), source@),
                        0,
                    );
                    start.memory().lemma_grows_trans(mid.memory(), self.memory());
                    assert(self.table() == mid.table());
                    assert forall|q: Ref| #[trigger] self.held(q) == start.held(q) by {
                        let h = mid.held(q);
                    }
                }
                Ok(())
            },
            Err(e) => Err(e),
        }
    }
}

} // verus!
