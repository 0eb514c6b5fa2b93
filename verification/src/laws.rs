//! What holds of the interpreter as a whole.

use vstd::prelude::*;
use crate::atom::Atom;
use crate::error::Error;
use crate::graph::{Graph, Ref};
use crate::lisp::{self_evaluating, Lisp};
use crate::name::{clipped, lemma_nul_from_bounds, lemma_nul_from_skip, text_of, NAME_LIMIT};
use crate::reader::quote_form;
use crate::semantics::{apply, eval, eval_each, quote_marker};
use crate::sexp::Sexp;
use crate::value::tag_of;

verus! {

/// A handle that the host holds before and after an operation refers to an
/// atom of the same value, and so of the same tag, before and after.
pub proof fn law_type_is_stable(before: Lisp, after: Lisp, a: Atom)
    requires
        before.steps(&after),
        before.owns(&a),
        after.owns(&a),
    ensures
        after.value(&a) == before.value(&a),
        tag_of(after.value(&a)) == tag_of(before.value(&a)),
{
    let r = a@->0;
    assert(before.memory().has(r));
    assert(after.memory().has(r));
    assert(after.memory().value(r) == before.memory().value(r));
}

/// What holds of one operation holds of any number of them in a row: the
/// steps of an interpreter compose.
pub proof fn law_steps_compose(first: Lisp, second: Lisp, third: Lisp)
    requires
        first.wf(),
        first.steps(&second),
        second.steps(&third),
    ensures
        first.steps(&third),
{
    first.memory().lemma_grows_trans(second.memory(), third.memory());
    first.memory().lemma_agrees(third.memory());
}

/// The first part of the pair of `a` and `b` is `a`, and the second is `b`.
pub proof fn law_parts_of_pair(a: Sexp, b: Sexp)
    ensures
        Sexp::cons(a, b).first() == a,
        Sexp::cons(a, b).rest() == b,
{
}

/// A quoted expression evaluates to the expression, as it stands, whatever
/// the environments hold.
pub proof fn law_quote(globals: Sexp, env: Sexp, x: Sexp, depth: nat)
    requires
        depth >= 1,
    ensures
        eval(globals, env, quote_form(x), depth) == Ok::<Sexp, Error>(x),
{
}

/// Every atom but a symbol and a pair evaluates to itself, whatever the
/// environments hold.
pub proof fn law_self_evaluating(globals: Sexp, env: Sexp, t: Sexp, depth: nat)
    requires
        depth >= 1,
        self_evaluating(t),
    ensures
        eval(globals, env, t, depth) == Ok::<Sexp, Error>(t),
{
}

/// A closure applied to more or fewer values than it has parameters fails
/// with an arity mismatch.
pub proof fn law_arity(
    globals: Sexp,
    params: Sexp,
    body: Sexp,
    captured: Sexp,
    values: Seq<Sexp>,
    depth: nat,
)
    requires
        params.items() matches Some(names) && names.len() != values.len(),
    ensures
        apply(globals, Sexp::cons(params, Sexp::cons(body, captured)), values, depth) == Err::<
            Sexp,
            Error,
        >(Error::ArityMismatch),
{
}

/// An application whose operator gives a closure and whose arguments give
/// more or fewer values than the closure has parameters fails with an arity
/// mismatch.
pub proof fn law_arity_of_application(
    globals: Sexp,
    env: Sexp,
    op: Sexp,
    args: Sexp,
    params: Sexp,
    body: Sexp,
    captured: Sexp,
    values: Seq<Sexp>,
    depth: nat,
)
    requires
        depth >= 1,
        op != quote_marker(),
        eval(globals, env, op, (depth - 1) as nat) == Ok::<Sexp, Error>(
            Sexp::cons(params, Sexp::cons(body, captured)),
        ),
        eval_each(globals, env, args, depth) == Ok::<Seq<Sexp>, Error>(values),
        params.items() matches Some(names) && names.len() != values.len(),
    ensures
        eval(globals, env, Sexp::cons(op, args), depth) == Err::<Sexp, Error>(Error::ArityMismatch),
{
    law_arity(globals, params, body, captured, values, (depth - 1) as nat);
}

/// The name that is made of given bytes depends on the bytes alone: it
/// holds at most `NAME_LIMIT` of them, none of which is zero, and making a
/// name of a name changes nothing.
pub proof fn law_name_is_clipped(s: Seq<u8>)
    ensures
        clipped(s).len() <= NAME_LIMIT,
        forall|j: int| 0 <= j < clipped(s).len() ==> clipped(s)[j] != 0 && clipped(s)[j] == s[j],
        clipped(clipped(s)) == clipped(s),
{
    lemma_nul_from_bounds(s, 0);
    let c = clipped(s);
    lemma_nul_from_skip(c, 0, c.len() as int);
    assert(text_of(c) =~= c);
}

/// Where the host holds the same handles after a row of operations as
/// before it, and the global environment is the one it was, the arena holds
/// as many atoms as before.
pub proof fn law_balance(before: Lisp, after: Lisp)
    requires
        before.wf(),
        after.wf(),
        before.memory().grows(after.memory()),
        before.globals() == after.globals(),
        forall|q: Ref| before.held(q) == #[trigger] after.held(q),
    ensures
        after.memory().occupancy() == before.memory().occupancy(),
        forall|i: int| before.memory().live(i) <==> after.memory().live(i),
{
    assert forall|q: Ref| before.memory().held(q) == #[trigger] after.memory().held(q) by {
        assert(before.held(q) == after.held(q));
    }
    before.memory().lemma_balanced(after.memory());
}

/// What giving up handles leaves in the memory is determined by the handles
/// that are held afterwards: two states that both come from the same state
/// without a new atom, and in which the same handles are held, hold the same
/// atoms in the same slots.
pub proof fn law_release_is_determined(before: Graph, one: Graph, other: Graph)
    requires
        one.sound(),
        other.sound(),
        before.grows(one),
        before.grows(other),
        one.clock == before.clock,
        other.clock == before.clock,
        forall|r: Ref| one.held(r) == #[trigger] other.held(r),
    ensures
        forall|i: int| one.live(i) <==> other.live(i),
        forall|i: int|
            one.live(i) ==> one.cell(i).stamp == other.cell(i).stamp && one.cell(i).node
                == other.cell(i).node,
        one.occupancy() == other.occupancy(),
{
    assert forall|i: int| one.live(i) implies other.live(i) && one.cell(i).stamp == other.cell(
        i,
    ).stamp && one.cell(i).node == other.cell(i).node by {
        before.lemma_same_atom(one, other, i);
    }
    assert forall|i: int| other.live(i) implies one.live(i) by {
        before.lemma_same_atom(other, one, i);
    }
    assert forall|i: int| 0 <= i < one.cells.len() implies (one.cells[i] is Some
        <==> other.cells[i] is Some) by {
        assert(one.live(i) <==> other.live(i));
    }
    crate::slab::lemma_used_same(one.cells, other.cells, one.cells.len() as int);
}

} // verus!
