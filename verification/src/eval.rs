//! The evaluator: symbols, quote forms and applications, on the atoms in
//! the memory, proved against the meaning that `semantics` gives them.

use vstd::prelude::*;
use crate::cell::Node;
use crate::error::Error;
use crate::graph::{lemma_tally_push, tally, Graph, Ref};
use crate::heap::Heap;
use crate::name::Name;
use crate::semantics::{
    applied, apply, bind, builtin_of, call, car_text, cdr_text, cons_text, eval, eval_each, lookup,
    quote_marker, quote_text, quoted, spent, spent_applied, spent_apply, spent_each, Builtin,
};
use crate::sexp::Sexp;

verus! {

broadcast use vstd::array::group_array_axioms;

/// How many levels deep an evaluation may nest. The evaluator is recursive:
/// each level of nesting takes room on the native stack, and an evaluation
/// that would nest deeper fails instead of exhausting it.
pub const DEPTH_LIMIT: usize = 256;

/// The values of the atoms that `refs` refer to, in order.
pub open spec fn values(g: Graph, refs: Seq<Ref>) -> Seq<Sexp> {
    Seq::new(refs.len(), |k: int| g.value(refs[k]))
}

/// Every atom that `refs` refer to is there.
pub open spec fn all_there(g: Graph, refs: Seq<Ref>) -> bool {
    forall|k: int| 0 <= k < refs.len() ==> g.has(#[trigger] refs[k])
}

/// `r` is the outcome of a step from `before` to `after` that is meant to
/// produce `meaning`: on success, a reference to an atom of that value, with
/// one more handle held on it and no other change to what is held; on
/// failure, the error that `meaning` names or exhaustion of the arena, with
/// no change to what is held.
pub open spec fn yields(before: Graph, after: Graph, r: Result<Ref, Error>, meaning: Result<Sexp, Error>) -> bool {
    match r {
        Ok(v) => after.has(v) && meaning == Ok::<Sexp, Error>(after.value(v)) && forall|q: Ref| #[trigger]
            after.held(q) == before.held(q) + if q == v {
                1nat
            } else {
                0nat
            },
        Err(e) => (e == Error::OutOfSpace || meaning == Err::<Sexp, Error>(e)) && forall|q: Ref| #[trigger]
            after.held(q) == before.held(q),
    }
}

/// Where the memory could take `n` steps before, the outcome `r` of a step
/// that is meant to produce `meaning` fails only with the error that
/// `meaning` names.
pub open spec fn sure(before: Graph, n: nat, r: Result<Ref, Error>, meaning: Result<Sexp, Error>) -> bool {
    before.affords(n) ==> (r matches Err(e) ==> meaning == Err::<Sexp, Error>(e))
}

/// The outcome `r` with `front` put before the values it holds.
pub open spec fn prepend(front: Seq<Sexp>, r: Result<Seq<Sexp>, Error>) -> Result<Seq<Sexp>, Error> {
    match r {
        Ok(vs) => Ok(front + vs),
        Err(e) => Err(e),
    }
}

/// The items `r`, if any, with `front` put before them.
pub open spec fn join(front: Seq<Sexp>, r: Option<Seq<Sexp>>) -> Option<Seq<Sexp>> {
    match r {
        Some(vs) => Some(front + vs),
        None => None,
    }
}

/// Putting one item and then a row before a list is putting the row with
/// the item at its end before it.
proof fn lemma_join_step(front: Seq<Sexp>, x: Sexp, r: Option<Seq<Sexp>>)
    ensures
        join(front, join(seq![x], r)) == join(front.push(x), r),
{
    if let Some(vs) = r {
        assert(front + (seq![x] + vs) =~= front.push(x) + vs);
    }
}

/// Putting one value and then a row before an outcome is putting the row
/// with the value at its end before it.
proof fn lemma_prepend_step(front: Seq<Sexp>, x: Sexp, r: Result<Seq<Sexp>, Error>)
    ensures
        prepend(front, prepend(seq![x], r)) == prepend(front.push(x), r),
{
    if let Ok(vs) = r {
        assert(front + (seq![x] + vs) =~= front.push(x) + vs);
    }
}

/// The value that the environment `env` binds `name` to, if any.
pub fn find(heap: &Heap, env: Ref, name: &Name) -> (r: Option<Ref>)
    requires
        heap.wf(),
        heap@.has(env),
    ensures
        match r {
            Some(v) => heap@.has(v) && lookup(heap@.value(env), name@) == Some(heap@.value(v)),
            None => lookup(heap@.value(env), name@) is None,
        },
{
    let mut cur: Ref = env;
    loop
        invariant
            heap.wf(),
            heap@.has(cur),
            lookup(heap@.value(env), name@) == lookup(heap@.value(cur), name@),
        decreases cur.stamp,
    {
        proof {
            heap@.lemma_unfold(cur);
        }
        match heap.node(cur) {
            Node::Pair(e, rest) => {
                let entry: Ref = heap.part(e);
                proof {
                    heap@.lemma_unfold(entry);
                }
                if let Node::Pair(k, v) = heap.node(entry) {
                    let key: Ref = heap.part(k);
                    proof {
                        heap@.lemma_unfold(key);
                    }
                    if let Node::Symbol(n) = heap.node(key) {
                        if n.same(name) {
                            return Some(heap.part(v));
                        }
                    }
                }
                cur = heap.part(rest);
            },
            _ => {
                return None;
            },
        }
    }
}

/// The items of the proper list that `list` refers to; nothing if the chain
/// of pairs does not end in `Nil`.
pub fn collect(heap: &Heap, list: Ref) -> (r: Option<Vec<Ref>>)
    requires
        heap.wf(),
        heap@.has(list),
    ensures
        match r {
            Some(v) => all_there(heap@, v@) && heap@.value(list).items() == Some(values(heap@, v@)),
            None => heap@.value(list).items() is None,
        },
{
    let mut out: Vec<Ref> = Vec::new();
    let mut cur: Ref = list;
    proof {
        assert(values(heap@, out@) =~= Seq::<Sexp>::empty());
        assert(join(Seq::<Sexp>::empty(), heap@.value(cur).items()) == heap@.value(cur).items()) by {
            if let Some(vs) = heap@.value(cur).items() {
                assert(Seq::<Sexp>::empty() + vs =~= vs);
            }
        }
    }
    loop
        invariant
            heap.wf(),
            heap@.has(cur),
            all_there(heap@, out@),
            heap@.value(list).items() == join(values(heap@, out@), heap@.value(cur).items()),
        decreases cur.stamp,
    {
        proof {
            heap@.lemma_unfold(cur);
        }
        match heap.node(cur) {
            Node::Nil => {
                proof {
                    assert(values(heap@, out@) + Seq::<Sexp>::empty() =~= values(heap@, out@));
                }
                return Some(out);
            },
            Node::Pair(a, b) => {
                let ghost front = values(heap@, out@);
                let item: Ref = heap.part(a);
                let next: Ref = heap.part(b);
                out.push(item);
                proof {
                    assert(values(heap@, out@) =~= front.push(heap@.value(item)));
                    lemma_join_step(front, heap@.value(item), heap@.value(next).items());
                }
                cur = next;
            },
            _ => {
                return None;
            },
        }
    }
}

/// Whether the atom that `r` refers to is the quote marker.
pub fn is_quote(heap: &Heap, r: Ref) -> (b: bool)
    requires
        heap.wf(),
        heap@.has(r),
    ensures
        b == (heap@.value(r) == quote_marker()),
{
    proof {
        heap@.lemma_unfold(r);
    }
    match heap.node(r) {
        Node::Symbol(n) => {
            let q: [u8; 5] = [113, 117, 111, 116, 101];
            assert(q@ =~= quote_text());
            n.matches(q.as_slice())
        },
        _ => false,
    }
}

/// The builtin that a symbol of this name denotes, if any.
pub fn builtin_for(name: &Name) -> (b: Option<Builtin>)
    ensures
        b == builtin_of(name@),
{
    let cons: [u8; 4] = [99, 111, 110, 115];
    let car: [u8; 3] = [99, 97, 114];
    let cdr: [u8; 3] = [99, 100, 114];
    assert(cons@ =~= cons_text());
    assert(car@ =~= car_text());
    assert(cdr@ =~= cdr_text());
    if name.matches(cons.as_slice()) {
        Some(Builtin::Cons)
    } else if name.matches(car.as_slice()) {
        Some(Builtin::Car)
    } else if name.matches(cdr.as_slice()) {
        Some(Builtin::Cdr)
    } else {
        None
    }
}

/// The expression that a quote form quotes, given what follows the marker.
pub fn quoted_at(heap: &Heap, args: Ref) -> (r: Result<Ref, Error>)
    requires
        heap.wf(),
        heap@.has(args),
    ensures
        match r {
            Ok(x) => heap@.has(x) && quoted(heap@.value(args)) == Ok::<Sexp, Error>(heap@.value(x)),
            Err(e) => quoted(heap@.value(args)) == Err::<Sexp, Error>(e),
        },
{
    proof {
        heap@.lemma_unfold(args);
    }
    match heap.node(args) {
        Node::Pair(x, t) => {
            let tail: Ref = heap.part(t);
            proof {
                heap@.lemma_unfold(tail);
            }
            match heap.node(tail) {
                Node::Nil => Ok(heap.part(x)),
                Node::Pair(_, _) => Err(Error::ArityMismatch),
                _ => Err(Error::IllFormedList),
            }
        },
        Node::Nil => Err(Error::ArityMismatch),
        _ => Err(Error::IllFormedList),
    }
}

/// Takes one more handle on the atom that `v` refers to.
pub fn take(heap: &mut Heap, v: Ref) -> (r: Result<Ref, Error>)
    requires
        old(heap).wf(),
        old(heap)@.has(v),
    ensures
        final(heap).wf(),
        old(heap)@.carries(final(heap)@),
        old(heap)@.within(final(heap)@, 1),
        r is Ok <==> old(heap)@.held(v) < u64::MAX,
        old(heap)@.affords(1) ==> r is Ok,
        yields(old(heap)@, final(heap)@, r, Ok(old(heap)@.value(v))),
        r matches Ok(x) ==> x == v,
        r matches Err(e) ==> e == Error::OutOfSpace && final(heap)@ == old(heap)@,
{
    match heap.retain(v) {
        Ok(()) => Ok(v),
        Err(e) => Err(e),
    }
}

/// Puts one entry in front of the environment `env` that binds `key` to
/// `value`, and returns the new environment with one handle held on it.
pub fn extend(heap: &mut Heap, env: Ref, key: Ref, value: Ref) -> (r: Result<Ref, Error>)
    requires
        old(heap).wf(),
        old(heap)@.has(env),
        old(heap)@.has(key),
        old(heap)@.has(value),
    ensures
        final(heap).wf(),
        old(heap)@.carries(final(heap)@),
        old(heap)@.within(final(heap)@, 2),
        r is Ok <==> old(heap)@.room() >= 2,
        r is Ok ==> final(heap)@.occupancy() == old(heap)@.occupancy() + 2 && final(heap)@.clock
            == old(heap)@.clock + 2,
        r is Err ==> final(heap)@.occupancy() == old(heap)@.occupancy(),
        r matches Ok(x) ==> !old(heap)@.has(x),
        r is Ok ==> final(heap)@.cell(key.slot as int).links >= 1 && final(heap)@.cell(
            value.slot as int,
        ).links >= 1 && final(heap)@.cell(env.slot as int).links >= 1,
        yields(
            old(heap)@,
            final(heap)@,
            r,
            Ok(
                Sexp::cons(
                    Sexp::cons(old(heap)@.value(key), old(heap)@.value(value)),
                    old(heap)@.value(env),
                ),
            ),
        ),
        r matches Err(e) ==> e == Error::OutOfSpace,
{
    let ghost g0 = heap@;
    proof {
        crate::slab::lemma_used_bound(g0.cells, g0.cells.len() as int);
    }
    let entry: Ref = match heap.pair(key, value) {
        Ok(e) => e,
        Err(e) => {
            proof {
                g0.lemma_within_more(g0, 1, 2);
            }
            return Err(e);
        },
    };
    let ghost g1 = heap@;
    let r = heap.pair(entry, env);
    let ghost g2 = heap@;
    proof {
        g0.lemma_within_trans(g1, g2, 1, 1);
    }
    assert(g1.held(entry) == g0.held(entry) + 1);
    assert(g2.held(entry) >= 1);
    let _ = heap.release(entry);
    proof {
        g0.lemma_within_trans(g2, heap@, 2, 0);
        g0.lemma_grows_trans(g1, g2);
        g0.lemma_grows_trans(g2, heap@);
        assert forall|q: Ref| g0.held(q) <= #[trigger] heap@.held(q) by {
            assert(heap@.held(q) == g2.held(q) - if q == entry { 1int } else { 0int });
            assert(g2.held(q) >= g1.held(q));
            assert(g1.held(q) == g0.held(q) + if q == entry { 1nat } else { 0nat });
        }
        g0.lemma_carries(heap@);
        if let Ok(x) = r {
            assert(g2.held(x) == g1.held(x) + 1);
            assert(heap@.held(x) >= 1);
            assert(heap@.has(x));
            assert(heap@.value(x) == g2.value(x));
            heap@.lemma_unfold(x);
            assert(heap@.live(x.slot as int));
            assert(g2.cell(x.slot as int).node == heap@.cell(x.slot as int).node);
            assert(heap@.live(entry.slot as int));
            assert(g2.has(entry));
            assert(heap@.has(entry));
            assert(g1.live(key.slot as int) && g1.live(value.slot as int) && g1.live(env.slot as int));
            assert(g2.cell(entry.slot as int).links >= 1);
        } else {
            assert forall|q: Ref| g0.held(q) == #[trigger] heap@.held(q) by {
                assert(heap@.held(q) == g2.held(q) - if q == entry { 1int } else { 0int });
                assert(g1.held(q) == g0.held(q) + if q == entry { 1nat } else { 0nat });
            }
            g0.lemma_balanced(heap@);
        }
    }
    r
}

/// The environment `captured` with one entry in front of it for each of
/// `names`, bound to the value at the same place in `vals`.
pub fn frame(heap: &mut Heap, names: &Vec<Ref>, vals: &Vec<Ref>, captured: Ref) -> (r: Result<
    Ref,
    Error,
>)
    requires
        old(heap).wf(),
        old(heap)@.has(captured),
        all_there(old(heap)@, names@),
        all_there(old(heap)@, vals@),
        names.len() == vals.len(),
    ensures
        final(heap).wf(),
        old(heap)@.carries(final(heap)@),
        old(heap)@.within(final(heap)@, (2 * names@.len() + 1) as nat),
        old(heap)@.affords((2 * names@.len() + 1) as nat) ==> r is Ok,
        yields(
            old(heap)@,
            final(heap)@,
            r,
            Ok(
                bind(
                    values(old(heap)@, names@),
                    values(old(heap)@, vals@),
                    old(heap)@.value(captured),
                    0,
                ),
            ),
        ),
        r matches Err(e) ==> e == Error::OutOfSpace,
{
    let ghost g0 = heap@;
    let ghost ns = values(g0, names@);
    let ghost vs = values(g0, vals@);
    let ghost total = (2 * names@.len() + 1) as nat;
    let mut acc: Ref = match take(heap, captured) {
        Ok(a) => a,
        Err(e) => {
            proof {
                g0.lemma_within_more(heap@, 1, total);
                if g0.affords(total) {
                    g0.lemma_affords_less(total, 1);
                }
            }
            return Err(e);
        },
    };
    let mut j: usize = names.len();
    while j > 0
        invariant
            j <= names.len(),
            names.len() == vals.len(),
            heap.wf(),
            g0 == old(heap)@,
            g0.sound(),
            g0.carries(heap@),
            total == 2 * names@.len() + 1,
            g0.within(heap@, (1 + 2 * (names@.len() - j)) as nat),
            all_there(g0, names@),
            all_there(g0, vals@),
            ns == values(g0, names@),
            vs == values(g0, vals@),
            heap@.has(acc),
            forall|q: Ref| #[trigger]
                heap@.held(q) == g0.held(q) + if q == acc {
                    1nat
                } else {
                    0nat
                },
            heap@.value(acc) == bind(ns, vs, g0.value(captured), j as int),
        decreases j,
    {
        j = j - 1;
        let ghost g1 = heap@;
        let key: Ref = names[j];
        let value: Ref = vals[j];
        assert(g0.has(key) && g0.has(value));
        assert(g1.has(key) && g1.has(value));
        let ghost so_far = (1 + 2 * (names@.len() - j - 1)) as nat;
        proof {
            if g0.affords(total) {
                g0.lemma_affords_rest(g1, so_far, (total - so_far) as nat);
                g1.lemma_affords_less((total - so_far) as nat, 2);
            }
        }
        let r = extend(heap, acc, key, value);
        let ghost g2 = heap@;
        assert(g1.held(acc) >= 1);
        assert(g2.held(acc) >= g1.held(acc));
        let ghost got = match r {
            Ok(x) => Some(x),
            Err(_) => None,
        };
        let _ = heap.release(acc);
        proof {
            g0.lemma_within_trans(g1, g2, so_far, 2);
            g0.lemma_within_trans(g2, heap@, so_far + 2, 0);
            g0.lemma_within_more(heap@, so_far + 2, total);
            g0.lemma_grows_trans(g1, g2);
            g0.lemma_grows_trans(g2, heap@);
            assert forall|q: Ref| #[trigger]
                heap@.held(q) == g0.held(q) + if Some(q) == got {
                    1nat
                } else {
                    0nat
                } by {
                assert(heap@.held(q) == g2.held(q) - if q == acc { 1int } else { 0int });
                assert(g2.held(q) == g1.held(q) + if Some(q) == got { 1nat } else { 0nat });
                assert(g1.held(q) == g0.held(q) + if q == acc { 1nat } else { 0nat });
            }
            assert forall|q: Ref| g0.held(q) <= #[trigger] heap@.held(q) by {
                assert(heap@.held(q) == g0.held(q) + if Some(q) == got { 1nat } else { 0nat });
            }
            g0.lemma_carries(heap@);
        }
        match r {
            Ok(x) => {
                proof {
                    assert(heap@.held(x) >= 1);
                    assert(heap@.has(x));
                    assert(heap@.value(x) == g2.value(x));
                    assert(g1.value(key) == ns[j as int]);
                    assert(g1.value(value) == vs[j as int]);
                }
                acc = x;
            },
            Err(e) => {
                return Err(e);
            },
        }
    }
    Ok(acc)
}

/// Calls a builtin on the given arguments.
pub fn invoke(heap: &mut Heap, b: Builtin, args: &Vec<Ref>) -> (r: Result<Ref, Error>)
    requires
        old(heap).wf(),
        all_there(old(heap)@, args@),
    ensures
        final(heap).wf(),
        old(heap)@.carries(final(heap)@),
        old(heap)@.within(final(heap)@, 1),
        yields(old(heap)@, final(heap)@, r, call(b, values(old(heap)@, args@))),
        sure(old(heap)@, 1, r, call(b, values(old(heap)@, args@))),
{
    let ghost g0 = heap@;
    proof {
        g0.lemma_carries_self();
        g0.lemma_within_more(g0, 0, 1);
    }
    match b {
        Builtin::Cons => {
            if args.len() != 2 {
                return Err(Error::ArityMismatch);
            }
            let a: Ref = args[0];
            let d: Ref = args[1];
            let r = heap.pair(a, d);
            proof {
                g0.lemma_carries(heap@);
            }
            r
        },
        Builtin::Car => {
            if args.len() != 1 {
                return Err(Error::ArityMismatch);
            }
            let p: Ref = args[0];
            proof {
                g0.lemma_unfold(p);
            }
            match heap.node(p) {
                Node::Pair(a, _) => {
                    let x: Ref = heap.part(a);
                    take(heap, x)
                },
                _ => Err(Error::TypeMismatch),
            }
        },
        Builtin::Cdr => {
            if args.len() != 1 {
                return Err(Error::ArityMismatch);
            }
            let p: Ref = args[0];
            proof {
                g0.lemma_unfold(p);
            }
            match heap.node(p) {
                Node::Pair(_, d) => {
                    let x: Ref = heap.part(d);
                    take(heap, x)
                },
                _ => Err(Error::TypeMismatch),
            }
        },
    }
}

/// Evaluates the expression that `expr` refers to in the lexical environment
/// `env`, with `globals` as the global environment. Nothing is consumed: the
/// result comes with a handle of its own, and whatever was held before is
/// held after.
pub fn eval_at(heap: &mut Heap, globals: Ref, env: Ref, expr: Ref, depth: usize) -> (r: Result<
    Ref,
    Error,
>)
    requires
        old(heap).wf(),
        old(heap)@.has(globals),
        old(heap)@.has(env),
        old(heap)@.has(expr),
    ensures
        final(heap).wf(),
        old(heap)@.carries(final(heap)@),
        yields(
            old(heap)@,
            final(heap)@,
            r,
            eval(
                old(heap)@.value(globals),
                old(heap)@.value(env),
                old(heap)@.value(expr),
                depth as nat,
            ),
        ),
        old(heap)@.within(
            final(heap)@,
            spent(
                old(heap)@.value(globals),
                old(heap)@.value(env),
                old(heap)@.value(expr),
                depth as nat,
            ),
        ),
        sure(
            old(heap)@,
            spent(
                old(heap)@.value(globals),
                old(heap)@.value(env),
                old(heap)@.value(expr),
                depth as nat,
            ),
            r,
            eval(
                old(heap)@.value(globals),
                old(heap)@.value(env),
                old(heap)@.value(expr),
                depth as nat,
            ),
        ),
    decreases depth, 2nat,
{
    let ghost g0 = heap@;
    let ghost gl = g0.value(globals);
    let ghost en = g0.value(env);
    let ghost total = spent(gl, en, g0.value(expr), depth as nat);
    proof {
        g0.lemma_carries_self();
        g0.lemma_unfold(expr);
        g0.lemma_within_more(g0, 0, total);
    }
    if depth == 0 {
        return Err(Error::DepthExceeded);
    }
    match heap.node(expr) {
        Node::Symbol(name) => {
            let found: Option<Ref> = match find(heap, env, &name) {
                Some(v) => Some(v),
                None => find(heap, globals, &name),
            };
            match found {
                Some(v) => take(heap, v),
                None => Err(Error::UnboundSymbol),
            }
        },
        Node::Pair(a, b) => {
            let op: Ref = heap.part(a);
            let args: Ref = heap.part(b);
            if is_quote(heap, op) {
                match quoted_at(heap, args) {
                    Ok(x) => take(heap, x),
                    Err(e) => Err(e),
                }
            } else {
                call_at(heap, globals, env, op, args, depth)
            }
        },
        _ => take(heap, expr),
    }
}

/// Evaluates the application of the operator that `op` refers to to the
/// arguments that `args` refers to: the operator first, then the arguments
/// from left to right, then the call.
pub fn call_at(heap: &mut Heap, globals: Ref, env: Ref, op: Ref, args: Ref, depth: usize) -> (r: Result<
    Ref,
    Error,
>)
    requires
        old(heap).wf(),
        old(heap)@.has(globals),
        old(heap)@.has(env),
        old(heap)@.has(op),
        old(heap)@.has(args),
        depth >= 1,
    ensures
        final(heap).wf(),
        old(heap)@.carries(final(heap)@),
        yields(
            old(heap)@,
            final(heap)@,
            r,
            applied(
                old(heap)@.value(globals),
                old(heap)@.value(env),
                old(heap)@.value(op),
                old(heap)@.value(args),
                depth as nat,
            ),
        ),
        old(heap)@.within(
            final(heap)@,
            spent_applied(
                old(heap)@.value(globals),
                old(heap)@.value(env),
                old(heap)@.value(op),
                old(heap)@.value(args),
                depth as nat,
            ),
        ),
        sure(
            old(heap)@,
            spent_applied(
                old(heap)@.value(globals),
                old(heap)@.value(env),
                old(heap)@.value(op),
                old(heap)@.value(args),
                depth as nat,
            ),
            r,
            applied(
                old(heap)@.value(globals),
                old(heap)@.value(env),
                old(heap)@.value(op),
                old(heap)@.value(args),
                depth as nat,
            ),
        ),
    decreases depth, 1nat,
{
    let ghost g0 = heap@;
    let ghost gl = g0.value(globals);
    let ghost en = g0.value(env);
    let ghost total = spent_applied(gl, en, g0.value(op), g0.value(args), depth as nat);
        let ghost s1 = spent(gl, en, g0.value(op), (depth - 1) as nat);
        let ghost s2 = spent_each(gl, en, g0.value(args), depth as nat);
        proof {
            if g0.affords(total) {
                g0.lemma_affords_less(total, s1);
            }
        }
        let f: Ref = match eval_at(heap, globals, env, op, depth - 1) {
            Ok(f) => f,
            Err(e) => {
                proof {
                    g0.lemma_within_more(heap@, s1, total);
                }
                return Err(e);
            },
        };
        let ghost g1 = heap@;
        assert(g1.has(globals) && g1.has(env) && g1.has(args));
        proof {
            if g0.affords(total) {
                g0.lemma_affords_rest(g1, s1, (total - s1) as nat);
                g1.lemma_affords_less((total - s1) as nat, s2);
            }
        }
        let listed = eval_list(heap, globals, env, args, depth);
        let ghost g2 = heap@;
        proof {
            g0.lemma_carries_trans(g1, g2);
            g0.lemma_within_trans(g1, g2, s1, s2);
            assert(g1.held(f) >= 1);
            assert(g2.held(f) >= g1.held(f));
        }
        let vals: Vec<Ref> = match listed {
            Ok(v) => v,
            Err(e) => {
                let _ = heap.release(f);
                proof {
                    g0.lemma_within_trans(g2, heap@, s1 + s2, 0);
                    g0.lemma_within_more(heap@, s1 + s2, total);
                    g0.lemma_grows_trans(g2, heap@);
                    assert forall|q: Ref| #[trigger] heap@.held(q) == g0.held(q) by {
                        assert(heap@.held(q) == g2.held(q) - if q == f { 1int } else { 0int });
                        assert(g2.held(q) == g1.held(q));
                        assert(g1.held(q) == g0.held(q) + if q == f { 1nat } else { 0nat });
                    }
                    assert forall|q: Ref| g0.held(q) <= #[trigger] heap@.held(q) by {
                        assert(heap@.held(q) == g0.held(q));
                    }
                    g0.lemma_carries(heap@);
                }
                return Err(e);
            },
        };
        assert(g2.has(globals) && g2.has(f));
        let ghost s3 = spent_apply(gl, g2.value(f), values(g2, vals@), (depth - 1) as nat);
        proof {
            assert(g1.value(f) == g2.value(f));
            assert(total == s1 + s2 + s3);
            if g0.affords(total) {
                g1.lemma_affords_rest(g2, s2, s3);
            }
        }
        let r = apply_at(heap, globals, f, &vals, depth - 1);
        let ghost g3 = heap@;
        let ghost got = match r {
            Ok(x) => Some(x),
            Err(_) => None,
        };
        proof {
            g0.lemma_carries_trans(g2, g3);
            assert forall|q: Ref| tally(vals@, q) <= #[trigger] g3.held(q) by {
                assert(g3.held(q) >= g2.held(q));
                assert(g2.held(q) == g1.held(q) + tally(vals@, q));
            }
        }
        heap.release_all(&vals);
        let ghost g4 = heap@;
        proof {
            assert(g4.held(f) == g3.held(f) - tally(vals@, f));
            assert(g3.held(f) >= g2.held(f));
            assert(g2.held(f) == g1.held(f) + tally(vals@, f));
            assert(g4.held(f) >= 1);
        }
        let _ = heap.release(f);
        proof {
            g0.lemma_within_trans(g2, g3, s1 + s2, s3);
            g0.lemma_within_trans(g3, g4, total, 0);
            g0.lemma_within_trans(g4, heap@, total, 0);
            g0.lemma_grows_trans(g3, g4);
            g0.lemma_grows_trans(g4, heap@);
            assert forall|q: Ref| #[trigger]
                heap@.held(q) == g0.held(q) + if Some(q) == got {
                    1nat
                } else {
                    0nat
                } by {
                assert(heap@.held(q) == g4.held(q) - if q == f { 1int } else { 0int });
                assert(g4.held(q) == g3.held(q) - tally(vals@, q));
                assert(g3.held(q) == g2.held(q) + if Some(q) == got { 1nat } else { 0nat });
                assert(g2.held(q) == g1.held(q) + tally(vals@, q));
                assert(g1.held(q) == g0.held(q) + if q == f { 1nat } else { 0nat });
            }
            assert forall|q: Ref| g0.held(q) <= #[trigger] heap@.held(q) by {
                assert(heap@.held(q) == g0.held(q) + if Some(q) == got { 1nat } else { 0nat });
            }
            g0.lemma_carries(heap@);
            if let Ok(x) = r {
                assert(heap@.held(x) >= 1);
                assert(g4.held(x) >= 1) by {
                    assert(g4.held(x) == g3.held(x) - tally(vals@, x));
                    assert(g3.held(x) == g2.held(x) + 1);
                    assert(g2.held(x) == g1.held(x) + tally(vals@, x));
                }
                assert(g4.value(x) == g3.value(x));
                assert(heap@.value(x) == g4.value(x));
            }
        }
        r
}

/// Evaluates the items of the list that `list` refers to, from left to
/// right. The values come with one handle each.
pub fn eval_list(heap: &mut Heap, globals: Ref, env: Ref, list: Ref, depth: usize) -> (r: Result<
    Vec<Ref>,
    Error,
>)
    requires
        old(heap).wf(),
        old(heap)@.has(globals),
        old(heap)@.has(env),
        old(heap)@.has(list),
    ensures
        final(heap).wf(),
        old(heap)@.carries(final(heap)@),
        match r {
            Ok(vs) => all_there(final(heap)@, vs@) && eval_each(
                old(heap)@.value(globals),
                old(heap)@.value(env),
                old(heap)@.value(list),
                depth as nat,
            ) == Ok::<Seq<Sexp>, Error>(values(final(heap)@, vs@)) && forall|q: Ref| #[trigger]
                final(heap)@.held(q) == old(heap)@.held(q) + tally(vs@, q),
            Err(e) => (e == Error::OutOfSpace || eval_each(
                old(heap)@.value(globals),
                old(heap)@.value(env),
                old(heap)@.value(list),
                depth as nat,
            ) == Err::<Seq<Sexp>, Error>(e)) && forall|q: Ref| #[trigger]
                final(heap)@.held(q) == old(heap)@.held(q),
        },
        old(heap)@.within(
            final(heap)@,
            spent_each(
                old(heap)@.value(globals),
                old(heap)@.value(env),
                old(heap)@.value(list),
                depth as nat,
            ),
        ),
        old(heap)@.affords(
            spent_each(
                old(heap)@.value(globals),
                old(heap)@.value(env),
                old(heap)@.value(list),
                depth as nat,
            ),
        ) ==> (r matches Err(e) ==> eval_each(
            old(heap)@.value(globals),
            old(heap)@.value(env),
            old(heap)@.value(list),
            depth as nat,
        ) == Err::<Seq<Sexp>, Error>(e)),
    decreases depth, 0nat,
{
    let ghost g0 = heap@;
    let ghost gl = g0.value(globals);
    let ghost en = g0.value(env);
    let ghost whole = eval_each(gl, en, g0.value(list), depth as nat);
    let ghost total = spent_each(gl, en, g0.value(list), depth as nat);
    let ghost mut done = 0nat;
    let mut vals: Vec<Ref> = Vec::new();
    let mut cur: Ref = list;
    proof {
        g0.lemma_carries_self();
        assert(values(g0, vals@) =~= Seq::<Sexp>::empty());
        assert(prepend(Seq::<Sexp>::empty(), whole) == whole) by {
            if let Ok(vs) = whole {
                assert(Seq::<Sexp>::empty() + vs =~= vs);
            }
        }
    }
    loop
        invariant
            heap.wf(),
            g0 == old(heap)@,
            g0.sound(),
            g0.carries(heap@),
            g0.has(globals),
            g0.has(env),
            gl == g0.value(globals),
            en == g0.value(env),
            whole == eval_each(gl, en, g0.value(list), depth as nat),
            total == spent_each(gl, en, g0.value(list), depth as nat),
            total == done + spent_each(gl, en, heap@.value(cur), depth as nat),
            g0.within(heap@, done),
            heap@.has(cur),
            all_there(heap@, vals@),
            forall|q: Ref| #[trigger] heap@.held(q) == g0.held(q) + tally(vals@, q),
            whole == prepend(values(heap@, vals@), eval_each(gl, en, heap@.value(cur), depth as nat)),
        decreases cur.stamp,
    {
        let ghost g1 = heap@;
        let ghost front = values(g1, vals@);
        proof {
            g1.lemma_unfold(cur);
        }
        match heap.node(cur) {
            Node::Nil => {
                proof {
                    assert(front + Seq::<Sexp>::empty() =~= front);
                }
                return Ok(vals);
            },
            Node::Pair(a, b) => {
                if depth == 0 {
                    heap.release_all(&vals);
                    proof {
                        g0.lemma_within_trans(g1, heap@, done, 0);
                        g0.lemma_grows_trans(g1, heap@);
                        assert forall|q: Ref| #[trigger] heap@.held(q) == g0.held(q) by {
                            assert(heap@.held(q) == g1.held(q) - tally(vals@, q));
                        }
                        assert forall|q: Ref| g0.held(q) <= #[trigger] heap@.held(q) by {
                            assert(heap@.held(q) == g0.held(q));
                        }
                        g0.lemma_carries(heap@);
                    }
                    return Err(Error::DepthExceeded);
                }
                let item: Ref = heap.part(a);
                let next: Ref = heap.part(b);
                assert(g1.has(globals) && g1.has(env));
                let ghost sx = spent(gl, en, g1.value(item), (depth - 1) as nat);
                proof {
                    if g0.affords(total) {
                        g0.lemma_affords_rest(g1, done, (total - done) as nat);
                        g1.lemma_affords_less((total - done) as nat, sx);
                    }
                }
                let r = eval_at(heap, globals, env, item, depth - 1);
                let ghost g2 = heap@;
                proof {
                    g0.lemma_carries_trans(g1, g2);
                    g0.lemma_within_trans(g1, g2, done, sx);
                }
                match r {
                    Ok(v) => {
                        let ghost before = vals@;
                        vals.push(v);
                        proof {
                            assert forall|q: Ref| #[trigger]
                                heap@.held(q) == g0.held(q) + tally(vals@, q) by {
                                lemma_tally_push(before, v, q);
                                assert(g2.held(q) == g1.held(q) + if q == v { 1nat } else { 0nat });
                            }
                            assert forall|k: int| 0 <= k < vals@.len() implies g2.has(
                                #[trigger] vals@[k],
                            ) by {
                                if k < before.len() {
                                    assert(g1.has(before[k]));
                                }
                            }
                            assert(values(g2, vals@) =~= front.push(g2.value(v))) by {
                                assert forall|k: int| 0 <= k < before.len() implies values(
                                    g2,
                                    vals@,
                                )[k] == front[k] by {
                                    assert(g1.has(before[k]));
                                    assert(g2.has(before[k]));
                                }
                            }
                            assert(g2.has(next));
                            assert(g2.value(next) == g1.value(next));
                            lemma_prepend_step(
                                front,
                                g2.value(v),
                                eval_each(gl, en, g1.value(next), depth as nat),
                            );
                            done = done + sx;
                        }
                        cur = next;
                    },
                    Err(e) => {
                        heap.release_all(&vals);
                        proof {
                            g0.lemma_within_trans(g2, heap@, done + sx, 0);
                            g0.lemma_within_more(heap@, done + sx, total);
                            g0.lemma_grows_trans(g2, heap@);
                            assert forall|q: Ref| #[trigger] heap@.held(q) == g0.held(q) by {
                                assert(heap@.held(q) == g2.held(q) - tally(vals@, q));
                                assert(g2.held(q) == g1.held(q));
                            }
                            assert forall|q: Ref| g0.held(q) <= #[trigger] heap@.held(q) by {
                                assert(heap@.held(q) == g0.held(q));
                            }
                            g0.lemma_carries(heap@);
                        }
                        return Err(e);
                    },
                }
            },
            _ => {
                heap.release_all(&vals);
                proof {
                    g0.lemma_within_trans(g1, heap@, done, 0);
                    g0.lemma_grows_trans(g1, heap@);
                    assert forall|q: Ref| #[trigger] heap@.held(q) == g0.held(q) by {
                        assert(heap@.held(q) == g1.held(q) - tally(vals@, q));
                    }
                    assert forall|q: Ref| g0.held(q) <= #[trigger] heap@.held(q) by {
                        assert(heap@.held(q) == g0.held(q));
                    }
                    g0.lemma_carries(heap@);
                }
                return Err(Error::IllFormedList);
            },
        }
    }
}

/// Applies the value that `f` refers to to the values that `args` refer to.
/// Nothing is consumed.
pub fn apply_at(heap: &mut Heap, globals: Ref, f: Ref, args: &Vec<Ref>, depth: usize) -> (r: Result<
    Ref,
    Error,
>)
    requires
        old(heap).wf(),
        old(heap)@.has(globals),
        old(heap)@.has(f),
        all_there(old(heap)@, args@),
    ensures
        final(heap).wf(),
        old(heap)@.carries(final(heap)@),
        yields(
            old(heap)@,
            final(heap)@,
            r,
            apply(
                old(heap)@.value(globals),
                old(heap)@.value(f),
                values(old(heap)@, args@),
                depth as nat,
            ),
        ),
        old(heap)@.within(
            final(heap)@,
            spent_apply(
                old(heap)@.value(globals),
                old(heap)@.value(f),
                values(old(heap)@, args@),
                depth as nat,
            ),
        ),
        sure(
            old(heap)@,
            spent_apply(
                old(heap)@.value(globals),
                old(heap)@.value(f),
                values(old(heap)@, args@),
                depth as nat,
            ),
            r,
            apply(
                old(heap)@.value(globals),
                old(heap)@.value(f),
                values(old(heap)@, args@),
                depth as nat,
            ),
        ),
    decreases depth, 3nat,
{
    let ghost g0 = heap@;
    let ghost total = spent_apply(
        g0.value(globals),
        g0.value(f),
        values(g0, args@),
        depth as nat,
    );
    proof {
        g0.lemma_carries_self();
        g0.lemma_unfold(f);
        g0.lemma_within_more(g0, 0, total);
    }
    match heap.node(f) {
        Node::Symbol(name) => match builtin_for(&name) {
            Some(b) => invoke(heap, b, args),
            None => Err(Error::TypeMismatch),
        },
        Node::Pair(p, t) => {
            let params: Ref = heap.part(p);
            let tail: Ref = heap.part(t);
            proof {
                g0.lemma_unfold(tail);
            }
            match heap.node(tail) {
                Node::Pair(b, c) => {
                    let body: Ref = heap.part(b);
                    let captured: Ref = heap.part(c);
                    let names: Vec<Ref> = match collect(heap, params) {
                        Some(n) => n,
                        None => {
                            return Err(Error::IllFormedList);
                        },
                    };
                    if names.len() != args.len() {
                        return Err(Error::ArityMismatch);
                    }
                    let ghost cost = (2 * names@.len() + 1) as nat;
                    let ghost inner = spent(
                        g0.value(globals),
                        bind(values(g0, names@), values(g0, args@), g0.value(captured), 0),
                        g0.value(body),
                        depth as nat,
                    );
                    proof {
                        assert(total == cost + inner);
                        if g0.affords(total) {
                            g0.lemma_affords_less(total, cost);
                        }
                    }
                    let scope: Ref = match frame(heap, &names, args, captured) {
                        Ok(s) => s,
                        Err(e) => {
                            proof {
                                g0.lemma_within_more(heap@, cost, total);
                            }
                            return Err(e);
                        },
                    };
                    let ghost g1 = heap@;
                    assert(g1.has(globals) && g1.has(body));
                    assert(g1.held(scope) >= 1);
                    proof {
                        if g0.affords(total) {
                            g0.lemma_affords_rest(g1, cost, inner);
                        }
                    }
                    let r = eval_at(heap, globals, scope, body, depth);
                    let ghost g2 = heap@;
                    let ghost got = match r {
                        Ok(x) => Some(x),
                        Err(_) => None,
                    };
                    assert(g2.held(scope) >= g1.held(scope));
                    let _ = heap.release(scope);
                    proof {
                        g0.lemma_within_trans(g1, g2, cost, inner);
                        g0.lemma_within_trans(g2, heap@, total, 0);
                        g0.lemma_grows_trans(g1, g2);
                        g0.lemma_grows_trans(g2, heap@);
                        assert forall|q: Ref| #[trigger]
                            heap@.held(q) == g0.held(q) + if Some(q) == got {
                                1nat
                            } else {
                                0nat
                            } by {
                            assert(heap@.held(q) == g2.held(q) - if q == scope { 1int } else { 0int });
                            assert(g2.held(q) == g1.held(q) + if Some(q) == got { 1nat } else { 0nat });
                            assert(g1.held(q) == g0.held(q) + if q == scope { 1nat } else { 0nat });
                        }
                        assert forall|q: Ref| g0.held(q) <= #[trigger] heap@.held(q) by {
                            assert(heap@.held(q) == g0.held(q) + if Some(q) == got {
                                1nat
                            } else {
                                0nat
                            });
                        }
                        g0.lemma_carries(heap@);
                        if let Ok(x) = r {
                            assert(heap@.held(x) >= 1);
                            assert(heap@.value(x) == g2.value(x));
                        }
                    }
                    r
                },
                _ => Err(Error::TypeMismatch),
            }
        },
        _ => Err(Error::TypeMismatch),
    }
}

} // verus!
