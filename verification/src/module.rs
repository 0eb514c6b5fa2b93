//! The table of builtins: what is installed when an interpreter is made
//! and given up when it is taken down.

use vstd::prelude::*;
use crate::cell::Node;
use crate::error::Error;
use crate::eval::{extend, yields};
use crate::graph::Ref;
use crate::heap::Heap;
use crate::name::{clipped, lemma_clipped_plain, Name};
use crate::semantics::{car_text, cdr_text, cons_text};
use crate::sexp::Sexp;

verus! {

broadcast use vstd::array::group_array_axioms;

/// Number of atoms that the table of builtins takes.
pub const TABLE_ATOMS: usize = 10;

/// The entry that binds the symbol of the given name to itself.
pub open spec fn self_bound(name: Seq<u8>) -> Sexp {
    Sexp::cons(Sexp::Symbol(name), Sexp::Symbol(name))
}

/// The global environment of a new interpreter: each builtin is bound under
/// its name to the symbol that denotes it.
pub open spec fn builtin_table() -> Sexp {
    Sexp::cons(
        self_bound(cdr_text()),
        Sexp::cons(self_bound(car_text()), Sexp::cons(self_bound(cons_text()), Sexp::Nil)),
    )
}

/// Puts an entry in front of the table that binds the symbol named `text`
/// to itself. The handle on the old table is consumed.
fn install(heap: &mut Heap, table: Ref, text: &[u8]) -> (r: Result<Ref, Error>)
    requires
        old(heap).wf(),
        old(heap)@.held(table) >= 1,
    ensures
        final(heap).wf(),
        old(heap)@.grows(final(heap)@),
        r is Ok <==> old(heap)@.room() >= 3,
        match r {
            Ok(x) => {
                &&& final(heap)@.has(x)
                &&& final(heap)@.value(x) == Sexp::cons(
                    self_bound(clipped(text@)),
                    old(heap)@.value(table),
                )
                &&& final(heap)@.occupancy() == old(heap)@.occupancy() + 3
                &&& final(heap)@.clock == old(heap)@.clock + 3
                &&& forall|q: Ref| #[trigger]
                    final(heap)@.held(q) == old(heap)@.held(q) - (if q == table {
                        1int
                    } else {
                        0int
                    }) + (if q == x {
                        1int
                    } else {
                        0int
                    })
            },
            Err(e) => e == Error::OutOfSpace && forall|q: Ref| #[trigger]
                final(heap)@.held(q) == old(heap)@.held(q) - (if q == table {
                    1int
                } else {
                    0int
                }),
        },
{
    let ghost g0 = heap@;
    let s: Ref = match heap.leaf(Node::Symbol(Name::new(text))) {
        Ok(s) => s,
        Err(e) => {
            let _ = heap.release(table);
            return Err(e);
        },
    };
    let ghost g1 = heap@;
    assert(g1.has(table));
    let r = extend(heap, table, s, s);
    let ghost g2 = heap@;
    proof {
        g0.lemma_grows_trans(g1, g2);
        assert(g1.held(s) == 1);
        assert(g2.held(s) >= 1);
        assert(g1.held(table) == g0.held(table));
    }
    let _ = heap.release(s);
    let ghost g3 = heap@;
    proof {
        g0.lemma_grows_trans(g2, g3);
        assert(g3.held(table) == g2.held(table));
        assert(g2.held(table) >= g1.held(table));
        if r is Ok {
            assert(g2.has(s));
            assert(g3.has(s));
            assert(g3.live(table.slot as int));
        }
    }
    let _ = heap.release(table);
    proof {
        g0.lemma_grows_trans(g3, heap@);
        if let Ok(x) = r {
            assert(g2.held(x) == g1.held(x) + 1);
            assert(g3.held(x) >= 1);
            assert(heap@.held(x) >= 1);
            assert(g3.value(x) == g2.value(x));
            assert(heap@.value(x) == g3.value(x));
            assert(heap@.has(table));
        }
    }
    r
}

/// Makes the table of builtins and returns it with one handle held on it.
pub fn module_init(heap: &mut Heap) -> (r: Result<Ref, Error>)
    requires
        old(heap).wf(),
    ensures
        final(heap).wf(),
        old(heap)@.grows(final(heap)@),
        r is Ok <==> old(heap)@.room() >= TABLE_ATOMS,
        yields(old(heap)@, final(heap)@, r, Ok(builtin_table())),
        r is Ok ==> final(heap)@.occupancy() == old(heap)@.occupancy() + TABLE_ATOMS,
        r is Ok ==> final(heap)@.clock == old(heap)@.clock + TABLE_ATOMS,
        r matches Err(e) ==> e == Error::OutOfSpace,
{
    let ghost g0 = heap@;
    let cons: [u8; 4] = [99, 111, 110, 115];
    let car: [u8; 3] = [99, 97, 114];
    let cdr: [u8; 3] = [99, 100, 114];
    proof {
        assert(cons@ =~= cons_text());
        assert(car@ =~= car_text());
        assert(cdr@ =~= cdr_text());
        lemma_clipped_plain(cons_text());
        lemma_clipped_plain(car_text());
        lemma_clipped_plain(cdr_text());
    }
    let t0: Ref = match heap.leaf(Node::Nil) {
        Ok(t) => t,
        Err(e) => {
            return Err(e);
        },
    };
    let ghost g1 = heap@;
    let t1: Ref = match install(heap, t0, cons.as_slice()) {
        Ok(t) => t,
        Err(e) => {
            proof {
                g0.lemma_grows_trans(g1, heap@);
            }
            return Err(e);
        },
    };
    let ghost g2 = heap@;
    proof {
        g0.lemma_grows_trans(g1, g2);
    }
    let t2: Ref = match install(heap, t1, car.as_slice()) {
        Ok(t) => t,
        Err(e) => {
            proof {
                g0.lemma_grows_trans(g2, heap@);
            }
            return Err(e);
        },
    };
    let ghost g3 = heap@;
    proof {
        g0.lemma_grows_trans(g2, g3);
    }
    let r = install(heap, t2, cdr.as_slice());
    proof {
        g0.lemma_grows_trans(g3, heap@);
    }
    r
}

/// Gives up the table of builtins.
pub fn module_fini(heap: &mut Heap, table: Ref)
    requires
        old(heap).wf(),
        old(heap)@.held(table) >= 1,
    ensures
        final(heap).wf(),
        old(heap)@.grows(final(heap)@),
        final(heap)@.capacity() == old(heap)@.capacity(),
        final(heap)@.occupancy() <= old(heap)@.occupancy(),
        forall|q: Ref| #[trigger]
            final(heap)@.held(q) == old(heap)@.held(q) - if q == table {
                1int
            } else {
                0int
            },
{
    let _ = heap.release(table);
}

} // verus!
