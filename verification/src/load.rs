//! Loading a text: its expressions, evaluated one after the other at the
//! top level.

use vstd::prelude::*;
use vstd::string::StringSliceAdditionalSpecFns;
use crate::cell::Node;
use crate::error::Error;
use crate::eval::{eval_at, extend, DEPTH_LIMIT};
use crate::graph::Ref;
use crate::heap::Heap;
use crate::reader::{read_form, skip, NESTING_LIMIT};
use crate::semantics::{eval, spent};
use crate::sexp::Sexp;

verus! {

broadcast use vstd::array::group_array_axioms;

/// Number of bytes of the buffer that holds the path of a file to load.
pub const PATH_WIDTH: usize = 256;

/// The path of a file to load, in a buffer of `PATH_WIDTH` bytes with zero
/// bytes behind it. A path that leaves no room for one zero byte does not
/// fit and gives nothing.
pub fn path_buffer(path: &str) -> (r: Option<[u8; 256]>)
    ensures
        r is Some <==> path.spec_bytes().len() < PATH_WIDTH,
        r matches Some(b) ==> forall|i: int|
            0 <= i < PATH_WIDTH ==> #[trigger] b@[i] == if i < path.spec_bytes().len() {
                path.spec_bytes()[i]
            } else {
                0u8
            },
{
    let bytes: &[u8] = path.as_bytes();
    if bytes.len() >= PATH_WIDTH {
        return None;
    }
    let mut buffer: [u8; 256] = [0u8; 256];
    let mut i: usize = 0;
    while i < bytes.len()
        invariant
            i <= bytes@.len(),
            bytes@.len() < PATH_WIDTH,
            forall|k: int| 0 <= k < i ==> #[trigger] buffer@[k] == bytes@[k],
            forall|k: int| i <= k < PATH_WIDTH ==> #[trigger] buffer@[k] == 0,
        decreases bytes@.len() - i,
    {
        buffer[i] = bytes[i];
        i = i + 1;
    }
    Some(buffer)
}

/// The text `def`.
pub open spec fn def_text() -> Seq<u8> {
    seq![100u8, 101u8, 102u8]
}

/// The name and the expression of a definition: an expression of the form
/// `(def name expr)`, where `name` is a symbol.
pub open spec fn definition(form: Sexp) -> Option<(Seq<u8>, Sexp)> {
    match form {
        Sexp::Pair(head, t1) => match (*head, *t1) {
            (Sexp::Symbol(word), Sexp::Pair(n, t2)) => match (*n, *t2) {
                (Sexp::Symbol(name), Sexp::Pair(expr, t3)) => if word == def_text() && *t3
                    == Sexp::Nil {
                    Some((name, *expr))
                } else {
                    None
                },
                _ => None,
            },
            _ => None,
        },
        _ => None,
    }
}

/// The global environment `table` with `name` bound to `v` in front of it.
pub open spec fn defined(table: Sexp, name: Seq<u8>, v: Sexp) -> Sexp {
    Sexp::cons(Sexp::cons(Sexp::Symbol(name), v), table)
}

/// The expression that a top-level expression asks to evaluate: that of a
/// definition, or the expression itself.
pub open spec fn subject(form: Sexp) -> Sexp {
    match definition(form) {
        Some((_, expr)) => expr,
        None => form,
    }
}

/// The global environment after a top-level expression has given `v`.
pub open spec fn table_after(table: Sexp, form: Sexp, v: Sexp) -> Sexp {
    match definition(form) {
        Some((name, _)) => defined(table, name, v),
        None => table,
    }
}

/// What loading the text from `i` on does, given the global environment and
/// the result of the expression before: the global environment afterwards
/// and the result of the last expression. The expressions are evaluated one
/// after the other, each in the global environment that the ones before it
/// have left; a definition binds its name globally to the value of its
/// expression, and that value is its result. The first expression that
/// cannot be read or evaluated ends the loading.
pub open spec fn run(table: Sexp, s: Seq<u8>, i: int, last: Sexp) -> (Sexp, Result<Sexp, Error>)
    decreases s.len() - i,
{
    let j = skip(s, i);
    if i < 0 || j < i || j >= s.len() {
        (table, Ok(last))
    } else {
        match read_form(s, j, NESTING_LIMIT as nat) {
            None => (table, Err(Error::Syntax)),
            Some((form, k)) => if k <= j || k > s.len() {
                (table, Err(Error::Syntax))
            } else {
                match eval(table, table, subject(form), DEPTH_LIMIT as nat) {
                    Err(e) => (table, Err(e)),
                    Ok(v) => run(table_after(table, form, v), s, k, v),
                }
            },
        }
    }
}

/// A bound on the steps that the evaluation of the expressions of the text
/// from `i` on takes: for each expression up to the first that fails, those
/// of its evaluation and two for what a definition adds.
pub open spec fn run_spent(table: Sexp, s: Seq<u8>, i: int) -> nat
    decreases s.len() - i,
{
    let j = skip(s, i);
    if i < 0 || j < i || j >= s.len() {
        0
    } else {
        match read_form(s, j, NESTING_LIMIT as nat) {
            None => 0,
            Some((form, k)) => if k <= j || k > s.len() {
                0
            } else {
                spent(table, table, subject(form), DEPTH_LIMIT as nat) + 2 + match eval(
                    table,
                    table,
                    subject(form),
                    DEPTH_LIMIT as nat,
                ) {
                    Err(_) => 0,
                    Ok(v) => run_spent(table_after(table, form, v), s, k),
                }
            },
        }
    }
}

/// A bound on the steps that the evaluation of the expression at `j`
/// takes, with two for what a definition adds; none where there is no
/// expression.
pub open spec fn step_spent(table: Sexp, s: Seq<u8>, j: int) -> nat {
    match read_form(s, j, NESTING_LIMIT as nat) {
        None => 0,
        Some((form, k)) => if k <= j || k > s.len() {
            0
        } else {
            spent(table, table, subject(form), DEPTH_LIMIT as nat) + 2
        },
    }
}

/// What the evaluation of the expression at `j` gives: a syntax error where
/// there is no expression.
pub open spec fn step_result(table: Sexp, s: Seq<u8>, j: int) -> Result<Sexp, Error> {
    match read_form(s, j, NESTING_LIMIT as nat) {
        None => Err(Error::Syntax),
        Some((form, k)) => if k <= j || k > s.len() {
            Err(Error::Syntax)
        } else {
            eval(table, table, subject(form), DEPTH_LIMIT as nat)
        },
    }
}

/// A bound on the steps that loading the text takes: four for each byte to
/// read it, those of the evaluation of its expressions, and one for the
/// result of a text without expressions.
pub open spec fn load_budget(table: Sexp, s: Seq<u8>) -> nat {
    4 * s.len() + 1 + run_spent(table, s, 0)
}

/// The name and the expression of the definition that `form` refers to, if
/// it is one.
pub fn definition_at(heap: &Heap, form: Ref) -> (r: Option<(Ref, Ref)>)
    requires
        heap.wf(),
        heap@.has(form),
    ensures
        match r {
            Some((key, expr)) => heap@.has(key) && heap@.has(expr) && heap@.value(key) is Symbol
                && definition(heap@.value(form)) == Some(
                (heap@.value(key)->Symbol_0, heap@.value(expr)),
            ),
            None => definition(heap@.value(form)) is None,
        },
{
    proof {
        heap@.lemma_unfold(form);
    }
    let (h, t) = match heap.node(form) {
        Node::Pair(h, t) => (h, t),
        _ => {
            return None;
        },
    };
    let head: Ref = heap.part(h);
    let t1: Ref = heap.part(t);
    proof {
        heap@.lemma_unfold(head);
        heap@.lemma_unfold(t1);
    }
    let word = match heap.node(head) {
        Node::Symbol(w) => w,
        _ => {
            return None;
        },
    };
    let (n, t) = match heap.node(t1) {
        Node::Pair(n, t) => (n, t),
        _ => {
            return None;
        },
    };
    let key: Ref = heap.part(n);
    let t2: Ref = heap.part(t);
    proof {
        heap@.lemma_unfold(key);
        heap@.lemma_unfold(t2);
    }
    match heap.node(key) {
        Node::Symbol(_) => {},
        _ => {
            return None;
        },
    }
    let (e, t) = match heap.node(t2) {
        Node::Pair(e, t) => (e, t),
        _ => {
            return None;
        },
    };
    let expr: Ref = heap.part(e);
    let t3: Ref = heap.part(t);
    proof {
        heap@.lemma_unfold(t3);
    }
    let def: [u8; 3] = [100, 101, 102];
    assert(def@ =~= def_text());
    let ends: bool = match heap.node(t3) {
        Node::Nil => true,
        _ => false,
    };
    if word.matches(def.as_slice()) && ends {
        Some((key, expr))
    } else {
        None
    }
}

/// Evaluates one top-level expression in the global environment. Returns
/// the result and, after a definition, the new global environment, with one
/// handle on each. Nothing is consumed.
pub fn top_level(heap: &mut Heap, globals: Ref, form: Ref) -> (r: Result<(Ref, Option<Ref>), Error>)
    requires
        old(heap).wf(),
        old(heap)@.has(globals),
        old(heap)@.has(form),
    ensures
        final(heap).wf(),
        old(heap)@.carries(final(heap)@),
        match r {
            Ok((v, t)) => {
                &&& final(heap)@.has(v)
                &&& eval(
                    old(heap)@.value(globals),
                    old(heap)@.value(globals),
                    subject(old(heap)@.value(form)),
                    DEPTH_LIMIT as nat,
                ) == Ok::<Sexp, Error>(final(heap)@.value(v))
                &&& t is Some <==> definition(old(heap)@.value(form)) is Some
                &&& match t {
                    Some(n) => final(heap)@.has(n) && n != v && final(heap)@.value(n) == table_after(
                        old(heap)@.value(globals),
                        old(heap)@.value(form),
                        final(heap)@.value(v),
                    ),
                    None => true,
                }
                &&& forall|q: Ref| #[trigger]
                    final(heap)@.held(q) == old(heap)@.held(q) + (if q == v {
                        1nat
                    } else {
                        0nat
                    }) + (if t == Some(q) {
                        1nat
                    } else {
                        0nat
                    })
            },
            Err(e) => (e == Error::OutOfSpace || eval(
                old(heap)@.value(globals),
                old(heap)@.value(globals),
                subject(old(heap)@.value(form)),
                DEPTH_LIMIT as nat,
            ) == Err::<Sexp, Error>(e)) && forall|q: Ref| #[trigger]
                final(heap)@.held(q) == old(heap)@.held(q),
        },
        old(heap)@.within(
            final(heap)@,
            spent(
                old(heap)@.value(globals),
                old(heap)@.value(globals),
                subject(old(heap)@.value(form)),
                DEPTH_LIMIT as nat,
            ) + 2,
        ),
        old(heap)@.affords(
            spent(
                old(heap)@.value(globals),
                old(heap)@.value(globals),
                subject(old(heap)@.value(form)),
                DEPTH_LIMIT as nat,
            ) + 2,
        ) ==> (r matches Err(e) ==> eval(
            old(heap)@.value(globals),
            old(heap)@.value(globals),
            subject(old(heap)@.value(form)),
            DEPTH_LIMIT as nat,
        ) == Err::<Sexp, Error>(e)),
{
    let ghost g0 = heap@;
    let ghost sp = spent(
        g0.value(globals),
        g0.value(globals),
        subject(g0.value(form)),
        DEPTH_LIMIT as nat,
    );
    proof {
        if g0.affords(sp + 2) {
            g0.lemma_affords_less(sp + 2, sp);
        }
    }
    match definition_at(heap, form) {
        None => {
            let r = eval_at(heap, globals, globals, form, DEPTH_LIMIT);
            proof {
                g0.lemma_within_more(heap@, sp, sp + 2);
            }
            match r {
                Ok(v) => Ok((v, None)),
                Err(e) => Err(e),
            }
        },
        Some((key, expr)) => {
            let v: Ref = match eval_at(heap, globals, globals, expr, DEPTH_LIMIT) {
                Ok(v) => v,
                Err(e) => {
                    proof {
                        g0.lemma_within_more(heap@, sp, sp + 2);
                    }
                    return Err(e);
                },
            };
            let ghost g1 = heap@;
            assert(g1.has(globals) && g1.has(key));
            proof {
                if g0.affords(sp + 2) {
                    g0.lemma_affords_rest(g1, sp, 2);
                }
            }
            match extend(heap, globals, key, v) {
                Ok(n) => {
                    proof {
                        g0.lemma_within_trans(g1, heap@, sp, 2);
                        g0.lemma_carries_trans(g1, heap@);
                        assert(g1.held(v) == g0.held(v) + 1);
                        assert(g1.has(v) && !g1.has(n));
                        assert(heap@.held(v) >= 1) by {
                            assert(heap@.held(v) == g1.held(v) + if v == n { 1nat } else { 0nat });
                        }
                        assert(heap@.held(n) == g1.held(n) + 1);
                        assert(heap@.value(v) == g1.value(v));
                        assert(g1.value(key) == g0.value(key));
                        assert(g1.value(globals) == g0.value(globals));
                        assert(g1.has(v) && !g1.has(n));
                        assert forall|q: Ref| #[trigger]
                            heap@.held(q) == g0.held(q) + (if q == v {
                                1nat
                            } else {
                                0nat
                            }) + (if Some(n) == Some(q) {
                                1nat
                            } else {
                                0nat
                            }) by {
                            assert(heap@.held(q) == g1.held(q) + if q == n { 1nat } else { 0nat });
                            assert(g1.held(q) == g0.held(q) + if q == v { 1nat } else { 0nat });
                        }
                    }
                    Ok((v, Some(n)))
                },
                Err(e) => {
                    let ghost g2 = heap@;
                    assert(g2.held(v) >= 1) by {
                        assert(g2.held(v) == g1.held(v));
                        assert(g1.held(v) == g0.held(v) + 1);
                    }
                    let _ = heap.release(v);
                    proof {
                        g0.lemma_within_trans(g1, g2, sp, 2);
                        g0.lemma_within_trans(g2, heap@, sp + 2, 0);
                        g0.lemma_grows_trans(g1, g2);
                        g0.lemma_grows_trans(g2, heap@);
                        assert forall|q: Ref| #[trigger] heap@.held(q) == g0.held(q) by {
                            assert(heap@.held(q) == g2.held(q) - if q == v { 1int } else { 0int });
                            assert(g2.held(q) == g1.held(q));
                            assert(g1.held(q) == g0.held(q) + if q == v { 1nat } else { 0nat });
                        }
                        assert forall|q: Ref| g0.held(q) <= #[trigger] heap@.held(q) by {
                            assert(heap@.held(q) == g0.held(q));
                        }
                        g0.lemma_carries(heap@);
                    }
                    Err(e)
                },
            }
        },
    }
}

} // verus!
