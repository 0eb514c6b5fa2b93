//! The reader: from text to atoms.

use vstd::prelude::*;
use vstd::slice::slice_subrange;
use crate::cell::Node;
use crate::error::Error;
use crate::eval::{all_there, values};
use crate::graph::{leaf_tree, lemma_tally_push, tally, Graph, Ref};
use crate::heap::Heap;
use crate::name::{clipped, Name};
use crate::semantics::{quote_marker, quote_text};
use crate::sexp::Sexp;

verus! {

broadcast use vstd::array::group_array_axioms;

/// How deep lists and quotes may nest in a text.
pub const NESTING_LIMIT: usize = 128;

/// The largest magnitude of a number: that of the least 64-bit integer.
pub const MAGNITUDE_LIMIT: u128 = 0x8000_0000_0000_0000;

/// A byte that separates expressions: space, tab, line feed, carriage return.
pub open spec fn is_blank(b: u8) -> bool {
    b == 32 || b == 9 || b == 10 || b == 13
}

/// A byte that ends a token: a blank, a parenthesis or the quote sign.
pub open spec fn is_break(b: u8) -> bool {
    is_blank(b) || b == 40 || b == 41 || b == 39
}

/// A decimal digit.
pub open spec fn is_digit(b: u8) -> bool {
    48 <= b <= 57
}

/// The first place at or after `i` that holds no blank.
pub open spec fn skip(s: Seq<u8>, i: int) -> int
    decreases s.len() - i,
{
    if 0 <= i < s.len() && is_blank(s[i]) {
        skip(s, i + 1)
    } else {
        i
    }
}

/// The place where the token that starts at `i` ends.
pub open spec fn token_end(s: Seq<u8>, i: int) -> int
    decreases s.len() - i,
{
    if 0 <= i < s.len() && !is_break(s[i]) {
        token_end(s, i + 1)
    } else {
        i
    }
}

/// One digit or more, and nothing else.
pub open spec fn all_digits(t: Seq<u8>) -> bool {
    t.len() > 0 && forall|k: int| 0 <= k < t.len() ==> is_digit(#[trigger] t[k])
}

/// The token is written as a number: digits, with or without a minus sign
/// in front.
pub open spec fn numeric(t: Seq<u8>) -> bool {
    if t.len() > 0 && t[0] == 45 {
        all_digits(t.drop_first())
    } else {
        all_digits(t)
    }
}

/// The number that a row of digits stands for.
pub open spec fn digits_value(t: Seq<u8>) -> nat
    decreases t.len(),
{
    if t.len() == 0 {
        0
    } else {
        digits_value(t.drop_last()) * 10 + (t.last() - 48) as nat
    }
}

/// The number that a numeric token stands for, if it fits in 64 bits.
pub open spec fn number_of(t: Seq<u8>) -> Option<i64> {
    if t.len() > 0 && t[0] == 45 {
        let v = digits_value(t.drop_first());
        if v <= MAGNITUDE_LIMIT {
            Some((-v) as i64)
        } else {
            None
        }
    } else {
        let v = digits_value(t);
        if v < MAGNITUDE_LIMIT {
            Some(v as i64)
        } else {
            None
        }
    }
}

/// The text `NIL`.
pub open spec fn nil_text() -> Seq<u8> {
    seq![78u8, 73u8, 76u8]
}

/// The text `T`.
pub open spec fn true_text() -> Seq<u8> {
    seq![84u8]
}

/// The text `_`.
pub open spec fn wildcard_text() -> Seq<u8> {
    seq![95u8]
}

/// The atom that a token stands for: `NIL`, `T` and `_` are the empty
/// list, the truth value and the wildcard; a token written as a number is
/// that number, and no atom at all if the number does not fit in 64 bits;
/// every other token is a symbol.
pub open spec fn atom_of(t: Seq<u8>) -> Option<Sexp> {
    if t == nil_text() {
        Some(Sexp::Nil)
    } else if t == true_text() {
        Some(Sexp::True)
    } else if t == wildcard_text() {
        Some(Sexp::Wildcard)
    } else if numeric(t) {
        match number_of(t) {
            Some(n) => Some(Sexp::Number(n)),
            None => None,
        }
    } else {
        Some(Sexp::Symbol(clipped(t)))
    }
}

/// The expression `x`, quoted.
pub open spec fn quote_form(x: Sexp) -> Sexp {
    Sexp::cons(quote_marker(), Sexp::cons(x, Sexp::Nil))
}

/// The expression that the text holds from `i` on, after blanks, and the
/// place behind it. An expression is a token, a parenthesised row of
/// expressions, or a quote sign in front of an expression. There is none
/// where the text ends, where a closing parenthesis stands, where a number is
/// too large, or where lists and quotes nest deeper than `depth`.
pub open spec fn read_form(s: Seq<u8>, i: int, depth: nat) -> Option<(Sexp, int)>
    decreases s.len() - i, 0nat,
{
    let j = skip(s, i);
    if i < 0 || j < i || j >= s.len() || depth == 0 {
        None
    } else if s[j] == 40 {
        read_tail(s, j + 1, (depth - 1) as nat)
    } else if s[j] == 41 {
        None
    } else if s[j] == 39 {
        match read_form(s, j + 1, (depth - 1) as nat) {
            Some((x, k)) => Some((quote_form(x), k)),
            None => None,
        }
    } else {
        let k = token_end(s, j);
        match atom_of(s.subrange(j, k)) {
            Some(a) => Some((a, k)),
            None => None,
        }
    }
}

/// The list of the expressions that the text holds from `i` up to the
/// closing parenthesis, and the place behind that parenthesis.
pub open spec fn read_tail(s: Seq<u8>, i: int, depth: nat) -> Option<(Sexp, int)>
    decreases s.len() - i, 1nat,
{
    let j = skip(s, i);
    if i < 0 || j < i || j >= s.len() {
        None
    } else if s[j] == 41 {
        Some((Sexp::Nil, j + 1))
    } else {
        match read_form(s, j, depth) {
            Some((x, k)) => if k <= j || k > s.len() {
                None
            } else {
                match read_tail(s, k, depth) {
                    Some((rest, m)) => Some((Sexp::cons(x, rest), m)),
                    None => None,
                }
            },
            None => None,
        }
    }
}

/// Skipping blanks moves forward only, and stops inside the text on a byte
/// that is no blank.
pub proof fn lemma_skip(s: Seq<u8>, i: int)
    requires
        0 <= i <= s.len(),
    ensures
        i <= skip(s, i) <= s.len(),
        skip(s, i) < s.len() ==> !is_blank(s[skip(s, i)]),
        skip(s, skip(s, i)) == skip(s, i),
    decreases s.len() - i,
{
    if i < s.len() && is_blank(s[i]) {
        lemma_skip(s, i + 1);
    }
}

/// A token ends inside the text or at its end.
pub proof fn lemma_token_end(s: Seq<u8>, i: int)
    requires
        0 <= i <= s.len(),
    ensures
        i <= token_end(s, i) <= s.len(),
        i < s.len() && !is_break(s[i]) ==> i < token_end(s, i),
    decreases s.len() - i,
{
    if i < s.len() && !is_break(s[i]) {
        lemma_token_end(s, i + 1);
    }
}

/// A row of digits stands for no less than any row it starts with.
pub proof fn lemma_digits_grow(t: Seq<u8>, n: int)
    requires
        0 <= n <= t.len(),
    ensures
        digits_value(t.take(n)) <= digits_value(t),
    decreases t.len() - n,
{
    if n < t.len() {
        lemma_digits_grow(t, n + 1);
        assert(t.take(n + 1).drop_last() =~= t.take(n));
    } else {
        assert(t.take(n) =~= t);
    }
}

/// Whether `b` is a blank.
pub fn blank(b: u8) -> (r: bool)
    ensures
        r == is_blank(b),
{
    b == 32 || b == 9 || b == 10 || b == 13
}

/// The first place at or after `i` that holds no blank.
pub fn skip_blanks(s: &[u8], i: usize) -> (j: usize)
    requires
        i <= s@.len(),
    ensures
        j == skip(s@, i as int),
        i <= j <= s@.len(),
{
    let mut j: usize = i;
    while j < s.len() && blank(s[j])
        invariant
            i <= j <= s@.len(),
            skip(s@, i as int) == skip(s@, j as int),
        decreases s@.len() - j,
    {
        j = j + 1;
    }
    j
}

/// The place where the token that starts at `i` ends.
pub fn end_of_token(s: &[u8], i: usize) -> (k: usize)
    requires
        i <= s@.len(),
    ensures
        k == token_end(s@, i as int),
        i <= k <= s@.len(),
{
    let mut k: usize = i;
    while k < s.len() && !(blank(s[k]) || s[k] == 40 || s[k] == 41 || s[k] == 39)
        invariant
            i <= k <= s@.len(),
            token_end(s@, i as int) == token_end(s@, k as int),
        decreases s@.len() - k,
    {
        k = k + 1;
    }
    k
}

/// Whether the token is exactly `text`.
fn token_is(t: &[u8], text: &[u8]) -> (b: bool)
    ensures
        b == (t@ == text@),
{
    if t.len() != text.len() {
        return false;
    }
    let mut i: usize = 0;
    while i < t.len()
        invariant
            i <= t@.len(),
            t@.len() == text@.len(),
            forall|k: int| 0 <= k < i ==> t@[k] == text@[k],
        decreases t@.len() - i,
    {
        if t[i] != text[i] {
            return false;
        }
        i = i + 1;
    }
    assert(t@ =~= text@);
    true
}

/// Whether the bytes are digits, one or more.
fn digits_only(t: &[u8]) -> (b: bool)
    ensures
        b == all_digits(t@),
{
    if t.len() == 0 {
        return false;
    }
    let mut i: usize = 0;
    while i < t.len()
        invariant
            i <= t@.len(),
            forall|k: int| 0 <= k < i ==> is_digit(#[trigger] t@[k]),
        decreases t@.len() - i,
    {
        if t[i] < 48 || t[i] > 57 {
            return false;
        }
        i = i + 1;
    }
    true
}

/// The number that a row of digits stands for, if it is not above
/// `MAGNITUDE_LIMIT`.
fn magnitude(t: &[u8]) -> (r: Option<u128>)
    requires
        all_digits(t@),
    ensures
        match r {
            Some(v) => v == digits_value(t@) && v <= MAGNITUDE_LIMIT,
            None => digits_value(t@) > MAGNITUDE_LIMIT,
        },
{
    let mut acc: u128 = 0;
    let mut i: usize = 0;
    proof {
        assert(t@.take(0) =~= Seq::<u8>::empty());
    }
    while i < t.len()
        invariant
            i <= t@.len(),
            all_digits(t@),
            acc == digits_value(t@.take(i as int)),
            acc <= MAGNITUDE_LIMIT,
        decreases t@.len() - i,
    {
        let d: u128 = (t[i] - 48) as u128;
        proof {
            assert(t@.take(i + 1).drop_last() =~= t@.take(i as int));
            assert(t@.take(i + 1).last() == t@[i as int]);
        }
        acc = acc * 10 + d;
        i = i + 1;
        if acc > MAGNITUDE_LIMIT {
            proof {
                lemma_digits_grow(t@, i as int);
            }
            return None;
        }
    }
    proof {
        assert(t@.take(i as int) =~= t@);
    }
    Some(acc)
}

/// The node of the atom that a token stands for.
pub fn token_node(t: &[u8]) -> (r: Option<Node>)
    ensures
        match r {
            Some(node) => !(node is Pair) && atom_of(t@) == Some(leaf_tree(node)),
            None => atom_of(t@) is None,
        },
{
    let nil: [u8; 3] = [78, 73, 76];
    let truth: [u8; 1] = [84];
    let wild: [u8; 1] = [95];
    proof {
        assert(nil@ =~= nil_text());
        assert(truth@ =~= true_text());
        assert(wild@ =~= wildcard_text());
    }
    if token_is(t, nil.as_slice()) {
        return Some(Node::Nil);
    }
    if token_is(t, truth.as_slice()) {
        return Some(Node::True);
    }
    if token_is(t, wild.as_slice()) {
        return Some(Node::Wildcard);
    }
    let negative: bool = t.len() > 0 && t[0] == 45;
    let digits: &[u8] = if negative {
        slice_subrange(t, 1, t.len())
    } else {
        t
    };
    proof {
        if negative {
            assert(digits@ =~= t@.drop_first());
        }
    }
    if !digits_only(digits) {
        return Some(Node::Symbol(Name::new(t)));
    }
    match magnitude(digits) {
        None => None,
        Some(v) => {
            if negative {
                if v == MAGNITUDE_LIMIT {
                    Some(Node::Number(i64::MIN))
                } else {
                    Some(Node::Number(-(v as i64)))
                }
            } else if v == MAGNITUDE_LIMIT {
                None
            } else {
                Some(Node::Number(v as i64))
            }
        },
    }
}

/// The chain of pairs that holds the items of `items` from the `j`th on and
/// ends in `rest`.
pub open spec fn chain(items: Seq<Sexp>, j: int, rest: Sexp) -> Sexp
    decreases items.len() - j,
{
    if 0 <= j < items.len() {
        Sexp::cons(items[j], chain(items, j + 1, rest))
    } else {
        rest
    }
}

/// What was read, with `front` put before the list.
pub open spec fn onto(front: Seq<Sexp>, r: Option<(Sexp, int)>) -> Option<(Sexp, int)> {
    match r {
        Some((rest, m)) => Some((chain(front, 0, rest), m)),
        None => None,
    }
}

/// An item at the end of a chain is the first item of what the chain ends in.
pub proof fn lemma_chain_push(front: Seq<Sexp>, x: Sexp, rest: Sexp, j: int)
    requires
        0 <= j <= front.len(),
    ensures
        chain(front.push(x), j, rest) == chain(front, j, Sexp::cons(x, rest)),
    decreases front.len() - j,
{
    if j < front.len() {
        lemma_chain_push(front, x, rest, j + 1);
        assert(front.push(x)[j] == front[j]);
    } else {
        assert(chain(front.push(x), j + 1, rest) == rest);
    }
}

/// Every item of a list is counted at least once.
pub proof fn lemma_tally_has(s: Seq<Ref>, k: int)
    requires
        0 <= k < s.len(),
    ensures
        tally(s, s[k]) >= 1,
    decreases s.len(),
{
    if k < s.len() - 1 {
        lemma_tally_has(s.drop_last(), k);
    }
}

/// `r` is the outcome of reading an expression of which `meaning` is the
/// value and the end: on success a reference to an atom of that value, with
/// one more handle held on it, and that end; on failure a syntax error where
/// there is no such expression, or exhaustion of the arena, with no change
/// to what is held.
pub open spec fn reads(
    before: Graph,
    after: Graph,
    r: Result<(Ref, usize), Error>,
    meaning: Option<(Sexp, int)>,
) -> bool {
    match r {
        Ok((x, k)) => after.has(x) && meaning == Some((after.value(x), k as int)) && forall|q: Ref| #[trigger]
            after.held(q) == before.held(q) + if q == x {
                1nat
            } else {
                0nat
            },
        Err(e) => (e == Error::OutOfSpace || (e == Error::Syntax && meaning is None)) && forall|
            q: Ref,
        | #[trigger] after.held(q) == before.held(q),
    }
}

/// The proper list of the atoms that `items` refer to. The handles on the
/// items are consumed, also where the list cannot be made.
pub fn list_of(heap: &mut Heap, refs: Vec<Ref>) -> (r: Result<Ref, Error>)
    requires
        old(heap).wf(),
        forall|q: Ref| tally(refs@, q) <= #[trigger] old(heap)@.held(q),
    ensures
        final(heap).wf(),
        old(heap)@.grows(final(heap)@),
        old(heap)@.agrees(final(heap)@),
        old(heap)@.within(final(heap)@, refs@.len() + 1),
        old(heap)@.affords(refs@.len() + 1) ==> r is Ok,
        forall|q: Ref| #[trigger]
            final(heap)@.held(q) == old(heap)@.held(q) - tally(refs@, q) + (if r == Ok::<Ref, Error>(
                q,
            ) {
                1int
            } else {
                0int
            }),
        match r {
            Ok(x) => final(heap)@.has(x) && final(heap)@.value(x) == chain(
                values(old(heap)@, refs@),
                0,
                Sexp::Nil,
            ),
            Err(e) => e == Error::OutOfSpace,
        },
{
    let ghost g0 = heap@;
    let ghost all = refs@;
    let ghost vals = values(g0, refs@);
    let mut items = refs;
    proof {
        assert forall|k: int| 0 <= k < all.len() implies g0.has(#[trigger] all[k]) by {
            lemma_tally_has(all, k);
            assert(g0.held(all[k]) >= 1);
        }
    }
    let ghost total = all.len() + 1;
    let mut acc: Ref = match heap.leaf(Node::Nil) {
        Ok(x) => x,
        Err(e) => {
            heap.release_all(&items);
            proof {
                g0.lemma_agrees(heap@);
                g0.lemma_within_more(heap@, 0, total);
                if g0.affords(total) {
                    g0.lemma_affords_less(total, 1);
                }
            }
            return Err(e);
        },
    };
    proof {
        assert(all.take(all.len() as int) =~= all);
    }
    while items.len() > 0
        invariant
            heap.wf(),
            g0 == old(heap)@,
            g0.sound(),
            g0.grows(heap@),
            all == refs@,
            total == all.len() + 1,
            g0.within(heap@, (1 + all.len() - items@.len()) as nat),
            all_there(g0, all),
            vals == values(g0, all),
            items@ == all.take(items@.len() as int),
            items@.len() <= all.len(),
            heap@.has(acc),
            heap@.value(acc) == chain(vals, items@.len() as int, Sexp::Nil),
            forall|q: Ref| tally(all, q) <= #[trigger] g0.held(q),
            forall|q: Ref| #[trigger]
                heap@.held(q) == g0.held(q) - tally(all, q) + tally(items@, q) + if q == acc {
                    1nat
                } else {
                    0nat
                },
        decreases items@.len(),
    {
        let ghost g1 = heap@;
        let ghost before = items@;
        let n: usize = items.len();
        let x: Ref = items[n - 1];
        items.pop();
        proof {
            assert(items@ =~= before.drop_last());
            assert(items@ =~= all.take(items@.len() as int));
            assert(before.last() == x);
            assert(tally(before, x) == tally(items@, x) + 1);
            assert(g1.held(x) >= 1) by {
                assert(g1.held(x) == g0.held(x) - tally(all, x) + tally(before, x) + if x == acc {
                    1nat
                } else {
                    0nat
                });
            }
            assert(g1.held(acc) >= 1);
            g0.lemma_agrees(g1);
            assert(g0.has(x));
            assert(g1.has(x));
            assert(g1.value(x) == g0.value(x));
            assert(vals[n - 1] == g0.value(all[n - 1]));
        }
        let ghost so_far = (all.len() - before.len() + 1) as nat;
        proof {
            if g0.affords(total) {
                g0.lemma_affords_rest(g1, so_far, (total - so_far) as nat);
            }
        }
        let r = heap.cons(x, acc);
        proof {
            g0.lemma_grows_trans(g1, heap@);
            g0.lemma_within_trans(g1, heap@, so_far, 1);
        }
        match r {
            Ok(p) => {
                proof {
                    assert forall|q: Ref| #[trigger]
                        heap@.held(q) == g0.held(q) - tally(all, q) + tally(items@, q) + if q == p {
                            1nat
                        } else {
                            0nat
                        } by {
                        assert(g1.held(q) == g0.held(q) - tally(all, q) + tally(before, q) + if q
                            == acc {
                            1nat
                        } else {
                            0nat
                        });
                    }
                }
                acc = p;
            },
            Err(e) => {
                let ghost g2 = heap@;
                proof {
                    assert forall|q: Ref| tally(items@, q) <= #[trigger] g2.held(q) by {
                        assert(g1.held(q) == g0.held(q) - tally(all, q) + tally(before, q) + if q
                            == acc {
                            1nat
                        } else {
                            0nat
                        });
                    }
                }
                heap.release_all(&items);
                proof {
                    g0.lemma_within_trans(g2, heap@, so_far + 1, 0);
                    g0.lemma_within_more(heap@, so_far + 1, total);
                    g0.lemma_grows_trans(g2, heap@);
                    g0.lemma_agrees(heap@);
                    assert forall|q: Ref| #[trigger]
                        heap@.held(q) == g0.held(q) - tally(all, q) by {
                        assert(heap@.held(q) == g2.held(q) - tally(items@, q));
                        assert(g1.held(q) == g0.held(q) - tally(all, q) + tally(before, q) + if q
                            == acc {
                            1nat
                        } else {
                            0nat
                        });
                    }
                }
                return Err(e);
            },
        }
    }
    proof {
        g0.lemma_agrees(heap@);
        assert(items@ =~= Seq::<Ref>::empty());
    }
    Ok(acc)
}

/// The expression `x`, quoted. The handle on `x` is consumed.
pub fn quote_of(heap: &mut Heap, x: Ref) -> (r: Result<Ref, Error>)
    requires
        old(heap).wf(),
        old(heap)@.held(x) >= 1,
    ensures
        final(heap).wf(),
        old(heap)@.grows(final(heap)@),
        old(heap)@.agrees(final(heap)@),
        old(heap)@.within(final(heap)@, 4),
        old(heap)@.affords(4) ==> r is Ok,
        forall|q: Ref| #[trigger]
            final(heap)@.held(q) == old(heap)@.held(q) - (if q == x {
                1int
            } else {
                0int
            }) + (if r == Ok::<Ref, Error>(q) {
                1int
            } else {
                0int
            }),
        match r {
            Ok(y) => final(heap)@.has(y) && final(heap)@.value(y) == quote_form(old(heap)@.value(x)),
            Err(e) => e == Error::OutOfSpace,
        },
{
    let ghost g0 = heap@;
    let q: [u8; 5] = [113, 117, 111, 116, 101];
    proof {
        assert(q@ =~= quote_text());
        crate::name::lemma_clipped_plain(quote_text());
    }
    let marker: Ref = match heap.leaf(Node::Symbol(Name::new(q.as_slice()))) {
        Ok(m) => m,
        Err(e) => {
            let _ = heap.release(x);
            proof {
                g0.lemma_agrees(heap@);
                g0.lemma_within_more(heap@, 0, 4);
                if g0.affords(4) {
                    g0.lemma_affords_less(4, 1);
                }
            }
            return Err(e);
        },
    };
    let ghost g1 = heap@;
    proof {
        if g0.affords(4) {
            g0.lemma_affords_rest(g1, 1, 3);
        }
    }
    let mut items: Vec<Ref> = Vec::new();
    items.push(marker);
    items.push(x);
    proof {
        let none = Seq::<Ref>::empty();
        assert(items@ =~= none.push(marker).push(x));
        assert forall|t: Ref| #[trigger]
            tally(items@, t) == (if t == marker {
                1nat
            } else {
                0nat
            }) + (if t == x {
                1nat
            } else {
                0nat
            }) by {
            lemma_tally_push(none, marker, t);
            lemma_tally_push(none.push(marker), x, t);
        }
        assert forall|t: Ref| tally(items@, t) <= #[trigger] g1.held(t) by {
            assert(g1.held(t) == g0.held(t) + if t == marker { 1nat } else { 0nat });
        }
        assert(g1.has(x));
        assert(values(g1, items@) =~= seq![quote_marker(), g0.value(x)]);
        let vs = seq![quote_marker(), g0.value(x)];
        assert(chain(vs, 2, Sexp::Nil) == Sexp::Nil);
        assert(chain(vs, 1, Sexp::Nil) == Sexp::cons(vs[1], Sexp::Nil));
        assert(chain(vs, 0, Sexp::Nil) == quote_form(g0.value(x)));
    }
    let r = list_of(heap, items);
    proof {
        g0.lemma_within_trans(g1, heap@, 1, 3);
        g0.lemma_grows_trans(g1, heap@);
        g0.lemma_agrees(heap@);
        assert forall|t: Ref| #[trigger]
            heap@.held(t) == g0.held(t) - (if t == x {
                1int
            } else {
                0int
            }) + (if r == Ok::<Ref, Error>(t) {
                1int
            } else {
                0int
            }) by {
            assert(g1.held(t) == g0.held(t) + if t == marker { 1nat } else { 0nat });
        }
    }
    r
}

/// Reads the expression that the text holds from `i` on and makes the atom
/// of it.
pub fn read_form_at(heap: &mut Heap, s: &[u8], i: usize, depth: usize) -> (r: Result<
    (Ref, usize),
    Error,
>)
    requires
        old(heap).wf(),
        i <= s@.len(),
    ensures
        final(heap).wf(),
        old(heap)@.carries(final(heap)@),
        reads(old(heap)@, final(heap)@, r, read_form(s@, i as int, depth as nat)),
        r matches Ok((_, k)) ==> skip(s@, i as int) < k <= s@.len(),
        old(heap)@.within(final(heap)@, (4 * (s@.len() - i)) as nat),
        r matches Ok((_, k)) ==> old(heap)@.within(final(heap)@, (4 * (k - i) - 1) as nat),
        old(heap)@.affords((4 * (s@.len() - i)) as nat) ==> (r matches Err(e) ==> e == Error::Syntax),
    decreases s@.len() - i, 0nat,
{
    let ghost g0 = heap@;
    let ghost most = (4 * (s@.len() - i)) as nat;
    proof {
        g0.lemma_carries_self();
        g0.lemma_within_more(g0, 0, most);
        lemma_skip(s@, i as int);
    }
    let j: usize = skip_blanks(s, i);
    if j >= s.len() || depth == 0 {
        return Err(Error::Syntax);
    }
    let b: u8 = s[j];
    if b == 40 {
        proof {
            if g0.affords(most) {
                g0.lemma_affords_less(most, (4 * (s@.len() - (j + 1))) as nat);
            }
        }
        let r = read_tail_at(heap, s, j + 1, depth - 1);
        proof {
            lemma_skip(s@, j + 1);
            g0.lemma_within_more(heap@, (4 * (s@.len() - (j + 1))) as nat, most);
            if let Ok((_, k)) = r {
                g0.lemma_within_more(heap@, (4 * (k - (j + 1))) as nat, (4 * (k - i) - 1) as nat);
            }
        }
        r
    } else if b == 41 {
        Err(Error::Syntax)
    } else if b == 39 {
        proof {
            if g0.affords(most) {
                g0.lemma_affords_less(most, (4 * (s@.len() - (j + 1))) as nat);
            }
        }
        match read_form_at(heap, s, j + 1, depth - 1) {
            Err(e) => {
                proof {
                    g0.lemma_within_more(heap@, (4 * (s@.len() - (j + 1))) as nat, most);
                }
                Err(e)
            },
            Ok((x, k)) => {
                let ghost g1 = heap@;
                let ghost inner = (4 * (k - (j + 1)) - 1) as nat;
                proof {
                    lemma_skip(s@, j + 1);
                    assert(g1.held(x) >= 1);
                    if g0.affords(most) {
                        g0.lemma_affords_rest(g1, inner, (most - inner) as nat);
                        g1.lemma_affords_less((most - inner) as nat, 4);
                    }
                }
                let r = quote_of(heap, x);
                proof {
                    g0.lemma_within_trans(g1, heap@, inner, 4);
                    g0.lemma_within_more(heap@, inner + 4, (4 * (k - i) - 1) as nat);
                    g0.lemma_within_more(heap@, inner + 4, most);
                    g0.lemma_grows_trans(g1, heap@);
                    assert forall|q: Ref| g0.held(q) <= #[trigger] heap@.held(q) by {
                        assert(heap@.held(q) == g1.held(q) - (if q == x {
                            1int
                        } else {
                            0int
                        }) + (if r == Ok::<Ref, Error>(q) {
                            1int
                        } else {
                            0int
                        }));
                        assert(g1.held(q) == g0.held(q) + if q == x { 1nat } else { 0nat });
                    }
                    g0.lemma_carries(heap@);
                    assert forall|q: Ref| #[trigger]
                        heap@.held(q) == g0.held(q) + (if r == Ok::<Ref, Error>(q) {
                            1nat
                        } else {
                            0nat
                        }) by {
                        assert(heap@.held(q) == g1.held(q) - (if q == x {
                            1int
                        } else {
                            0int
                        }) + (if r == Ok::<Ref, Error>(q) {
                            1int
                        } else {
                            0int
                        }));
                        assert(g1.held(q) == g0.held(q) + if q == x { 1nat } else { 0nat });
                    }
                }
                match r {
                    Ok(y) => Ok((y, k)),
                    Err(e) => Err(e),
                }
            },
        }
    } else {
        proof {
            lemma_token_end(s@, j as int);
        }
        let k: usize = end_of_token(s, j);
        match token_node(slice_subrange(s, j, k)) {
            None => Err(Error::Syntax),
            Some(node) => {
                proof {
                    if g0.affords(most) {
                        g0.lemma_affords_less(most, 1);
                    }
                }
                let r = heap.leaf(node);
                proof {
                    g0.lemma_carries(heap@);
                    g0.lemma_within_more(heap@, 1, (4 * (k - i) - 1) as nat);
                    g0.lemma_within_more(heap@, 1, most);
                }
                match r {
                    Ok(x) => Ok((x, k)),
                    Err(e) => Err(e),
                }
            },
        }
    }
}

/// Reads the expressions that the text holds from `i` up to the closing
/// parenthesis and makes the list of them.
pub fn read_tail_at(heap: &mut Heap, s: &[u8], i: usize, depth: usize) -> (r: Result<
    (Ref, usize),
    Error,
>)
    requires
        old(heap).wf(),
        i <= s@.len(),
    ensures
        final(heap).wf(),
        old(heap)@.carries(final(heap)@),
        reads(old(heap)@, final(heap)@, r, read_tail(s@, i as int, depth as nat)),
        r matches Ok((_, k)) ==> skip(s@, i as int) < k <= s@.len(),
        old(heap)@.within(final(heap)@, (4 * (s@.len() - i)) as nat),
        r matches Ok((_, k)) ==> old(heap)@.within(final(heap)@, (4 * (k - i)) as nat),
        old(heap)@.affords((4 * (s@.len() - i)) as nat) ==> (r matches Err(e) ==> e == Error::Syntax),
    decreases s@.len() - i, 1nat,
{
    let ghost g0 = heap@;
    let ghost most = (4 * (s@.len() - i)) as nat;
    let ghost whole = read_tail(s@, i as int, depth as nat);
    let mut items: Vec<Ref> = Vec::new();
    let mut cur: usize = i;
    let mut end: usize = 0;
    proof {
        g0.lemma_carries_self();
        lemma_skip(s@, i as int);
        assert(values(g0, items@) =~= Seq::<Sexp>::empty());
        if let Some((rest, m)) = whole {
            assert(chain(Seq::<Sexp>::empty(), 0, rest) == rest);
        }
    }
    loop
        invariant_except_break
            cur == i || skip(s@, i as int) < cur,
            whole == onto(values(heap@, items@), read_tail(s@, cur as int, depth as nat)),
        invariant
            i <= cur <= s@.len(),
            items@.len() <= 4 * (cur - i),
            most == 4 * (s@.len() - i),
            g0.within(heap@, (4 * (cur - i) - items@.len()) as nat),
            heap.wf(),
            g0 == old(heap)@,
            g0.sound(),
            g0.carries(heap@),
            whole == read_tail(s@, i as int, depth as nat),
            all_there(heap@, items@),
            forall|q: Ref| #[trigger] heap@.held(q) == g0.held(q) + tally(items@, q),
        ensures
            skip(s@, i as int) < end <= s@.len(),
            cur < end,
            whole == Some((chain(values(heap@, items@), 0, Sexp::Nil), end as int)),
        decreases s@.len() - cur,
    {
        let ghost g1 = heap@;
        let ghost front = values(g1, items@);
        proof {
            lemma_skip(s@, cur as int);
        }
        let ghost so_far = (4 * (cur - i) - items@.len()) as nat;
        let j: usize = skip_blanks(s, cur);
        if j >= s.len() {
            heap.release_all(&items);
            proof {
                g0.lemma_within_trans(g1, heap@, so_far, 0);
                g0.lemma_within_more(heap@, so_far, most);
                g0.lemma_grows_trans(g1, heap@);
                assert forall|q: Ref| #[trigger] heap@.held(q) == g0.held(q) by {
                    assert(heap@.held(q) == g1.held(q) - tally(items@, q));
                }
                assert forall|q: Ref| g0.held(q) <= #[trigger] heap@.held(q) by {
                    assert(heap@.held(q) == g0.held(q));
                }
                g0.lemma_carries(heap@);
            }
            return Err(Error::Syntax);
        }
        if s[j] == 41 {
            end = j + 1;
            proof {
                lemma_skip(s@, i as int);
            }
            break ;
        }
        proof {
            if g0.affords(most) {
                g0.lemma_affords_rest(g1, so_far, (most - so_far) as nat);
                g1.lemma_affords_less((most - so_far) as nat, (4 * (s@.len() - j)) as nat);
            }
        }
        let r = read_form_at(heap, s, j, depth);
        let ghost g2 = heap@;
        proof {
            g0.lemma_carries_trans(g1, g2);
            lemma_skip(s@, j as int);
        }
        match r {
            Ok((x, k)) => {
                let ghost before = items@;
                items.push(x);
                proof {
                    assert forall|q: Ref| #[trigger] heap@.held(q) == g0.held(q) + tally(items@, q) by {
                        lemma_tally_push(before, x, q);
                        assert(g2.held(q) == g1.held(q) + if q == x { 1nat } else { 0nat });
                    }
                    assert forall|n: int| 0 <= n < items@.len() implies g2.has(#[trigger] items@[n]) by {
                        if n < before.len() {
                            assert(g1.has(before[n]));
                        }
                    }
                    assert(values(g2, items@) =~= front.push(g2.value(x))) by {
                        assert forall|n: int| 0 <= n < before.len() implies values(g2, items@)[n]
                            == front[n] by {
                            assert(g1.has(before[n]));
                            assert(g2.has(before[n]));
                        }
                    }
                    if let Some((rest, m)) = read_tail(s@, k as int, depth as nat) {
                        lemma_chain_push(front, g2.value(x), rest, 0);
                    }
                    g0.lemma_within_trans(g1, g2, so_far, (4 * (k - j) - 1) as nat);
                    g0.lemma_within_more(
                        g2,
                        so_far + (4 * (k - j) - 1) as nat,
                        (4 * (k - i) - items@.len()) as nat,
                    );
                }
                cur = k;
            },
            Err(e) => {
                heap.release_all(&items);
                proof {
                    g0.lemma_within_trans(g1, g2, so_far, (4 * (s@.len() - j)) as nat);
                    g0.lemma_within_trans(g2, heap@, so_far + (4 * (s@.len() - j)) as nat, 0);
                    g0.lemma_within_more(heap@, so_far + (4 * (s@.len() - j)) as nat, most);
                    g0.lemma_grows_trans(g2, heap@);
                    assert forall|q: Ref| #[trigger] heap@.held(q) == g0.held(q) by {
                        assert(heap@.held(q) == g2.held(q) - tally(items@, q));
                        assert(g2.held(q) == g1.held(q));
                    }
                    assert forall|q: Ref| g0.held(q) <= #[trigger] heap@.held(q) by {
                        assert(heap@.held(q) == g0.held(q));
                    }
                    g0.lemma_carries(heap@);
                }
                return Err(e);
            },
        }
    }
    let ghost g3 = heap@;
    proof {
        assert forall|q: Ref| tally(items@, q) <= #[trigger] g3.held(q) by {
            assert(g3.held(q) == g0.held(q) + tally(items@, q));
        }
    }
    let ghost listed = items@;
    let ghost so_far = (4 * (cur - i) - listed.len()) as nat;
    proof {
        if g0.affords(most) {
            g0.lemma_affords_rest(g3, so_far, (most - so_far) as nat);
            g3.lemma_affords_less((most - so_far) as nat, listed.len() + 1);
        }
    }
    let r = list_of(heap, items);
    proof {
        g0.lemma_within_trans(g3, heap@, so_far, listed.len() + 1);
        g0.lemma_within_more(heap@, so_far + listed.len() + 1, (4 * (end - i)) as nat);
        g0.lemma_within_more(heap@, so_far + listed.len() + 1, most);
        g0.lemma_grows_trans(g3, heap@);
        assert forall|q: Ref| #[trigger]
            heap@.held(q) == g0.held(q) + (if r == Ok::<Ref, Error>(q) {
                1nat
            } else {
                0nat
            }) by {
            assert(heap@.held(q) == g3.held(q) - tally(listed, q) + (if r == Ok::<Ref, Error>(q) {
                1int
            } else {
                0int
            }));
            assert(g3.held(q) == g0.held(q) + tally(listed, q));
        }
        assert forall|q: Ref| g0.held(q) <= #[trigger] heap@.held(q) by {
            assert(heap@.held(q) == g0.held(q) + (if r == Ok::<Ref, Error>(q) {
                1nat
            } else {
                0nat
            }));
        }
        g0.lemma_carries(heap@);
    }
    match r {
        Ok(x) => Ok((x, end)),
        Err(e) => Err(e),
    }
}

} // verus!
