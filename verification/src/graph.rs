//! The state of the memory as a graph of atoms, its invariant, and what
//! follows from the invariant.

use vstd::prelude::*;
use crate::cell::{Cell, Node};
use crate::sexp::Sexp;
use crate::slab::{used, Cells, MAX_SLOTS, lemma_used_same};

verus! {

/// A reference to an atom that owns nothing: the slot the atom lives in and
/// the stamp it was made with.
#[derive(Clone, Copy, Debug, PartialEq, Eq, Structural)]
pub struct Ref {
    pub slot: usize,
    pub stamp: u64,
}

/// How often `node` names slot `t` as a part.
pub open spec fn names(node: Node, t: int) -> nat {
    match node {
        Node::Pair(a, b) => (if a == t { 1nat } else { 0nat }) + (if b == t { 1nat } else { 0nat }),
        _ => 0,
    }
}

/// How often the cell `x` names slot `t` as a part.
pub open spec fn out_refs(x: Option<Cell>, t: int) -> nat {
    match x {
        Some(c) => names(c.node, t),
        None => 0,
    }
}

/// The cell `c` with `by` more links.
pub open spec fn linked(c: Cell, by: nat) -> Cell {
    Cell { links: (c.links + by) as u64, ..c }
}

/// The cell `c` with the number of handles held on it changed by `by`.
pub open spec fn handled(c: Cell, by: int) -> Cell {
    Cell { held: (c.held + by) as u64, ..c }
}

/// How often the first `n` slots name slot `t` as a part.
pub open spec fn refs_in(cells: Cells, n: int, t: int) -> nat
    decreases n,
{
    if n <= 0 {
        0
    } else {
        refs_in(cells, n - 1, t) + out_refs(cells[n - 1], t)
    }
}

/// How often `x` occurs in `s`.
pub open spec fn count_of(s: Seq<usize>, x: int) -> nat
    decreases s.len(),
{
    if s.len() == 0 {
        0
    } else {
        count_of(s.drop_last(), x) + if s.last() == x { 1nat } else { 0nat }
    }
}

/// How often `q` occurs in `s`.
pub open spec fn tally(s: Seq<Ref>, q: Ref) -> nat
    decreases s.len(),
{
    if s.len() == 0 {
        0
    } else {
        tally(s.drop_last(), q) + if s.last() == q { 1nat } else { 0nat }
    }
}

/// Appending to a list of references counts the new one.
pub proof fn lemma_tally_push(s: Seq<Ref>, a: Ref, q: Ref)
    ensures
        tally(s.push(a), q) == tally(s, q) + if a == q { 1nat } else { 0nat },
{
    assert(s.push(a).drop_last() =~= s);
}

/// The value of a node that is not a pair.
pub open spec fn leaf_tree(node: Node) -> Sexp {
    match node {
        Node::Absent => Sexp::Absent,
        Node::Nil => Sexp::Nil,
        Node::True => Sexp::True,
        Node::Char(c) => Sexp::Char(c),
        Node::Number(n) => Sexp::Number(n),
        Node::Pair(_, _) => Sexp::Absent,
        Node::Symbol(n) => Sexp::Symbol(n@),
        Node::Wildcard => Sexp::Wildcard,
    }
}

/// The state of the memory of an interpreter: the cells of its arena and the
/// stamp that the next atom will get.
pub struct Graph {
    pub cells: Cells,
    pub clock: nat,
}

impl Graph {
    /// Slot `i` holds an atom.
    pub open spec fn live(self, i: int) -> bool {
        0 <= i < self.cells.len() && self.cells[i] is Some
    }

    /// The cell in slot `i`.
    pub open spec fn cell(self, i: int) -> Cell {
        self.cells[i]->0
    }

    /// The atom that `r` refers to is there.
    pub open spec fn has(self, r: Ref) -> bool {
        self.live(r.slot as int) && self.cell(r.slot as int).stamp == r.stamp
    }

    /// Number of handles held on the atom that `r` refers to; none if the
    /// atom is gone.
    pub open spec fn held(self, r: Ref) -> nat {
        if self.has(r) {
            self.cell(r.slot as int).held as nat
        } else {
            0
        }
    }

    /// The reference to the atom in slot `i`.
    pub open spec fn at(self, i: int) -> Ref {
        Ref { slot: i as usize, stamp: self.cell(i).stamp }
    }

    /// Slot `a` holds an atom older than the one in slot `i`.
    pub open spec fn part_ok(self, i: int, a: int) -> bool {
        self.live(a) && self.cell(a).stamp < self.cell(i).stamp
    }

    /// How often the atoms of the arena name slot `t` as a part.
    pub open spec fn refs_to(self, t: int) -> nat {
        refs_in(self.cells, self.cells.len() as int, t)
    }

    /// Number of atoms in the arena.
    pub open spec fn occupancy(self) -> nat {
        used(self.cells)
    }

    /// Number of slots of the arena.
    pub open spec fn capacity(self) -> nat {
        self.cells.len()
    }

    /// Number of atoms that can still be made: each takes a free slot and a
    /// stamp.
    pub open spec fn room(self) -> int {
        let slots = self.capacity() - self.occupancy();
        let stamps = u64::MAX - self.clock;
        if slots < stamps {
            slots
        } else {
            stamps
        }
    }

    /// The invariant of the memory, with `queue` listing the slots whose link
    /// count is one too high for each time they are listed. Every atom is
    /// older than the clock, both parts of a pair are there and older than the
    /// pair, the link count of an atom says how often it is a part of a pair,
    /// and every atom is held or linked.
    pub open spec fn sound_but(self, queue: Seq<usize>) -> bool {
        &&& self.cells.len() <= MAX_SLOTS
        &&& forall|k: int| 0 <= k < queue.len() ==> self.live(#[trigger] queue[k] as int)
        &&& forall|i: int| #[trigger]
            self.live(i) ==> {
                &&& self.cell(i).stamp < self.clock
                &&& self.cell(i).held + self.cell(i).links > 0
                &&& self.cell(i).links == self.refs_to(i) + count_of(queue, i)
                &&& (self.cell(i).node matches Node::Pair(a, b) ==> self.part_ok(i, a as int)
                    && self.part_ok(i, b as int))
            }
    }

    /// The invariant of the memory.
    pub open spec fn sound(self) -> bool {
        self.sound_but(Seq::empty())
    }

    /// The value of the atom in slot `i`, as a tree.
    pub open spec fn tree(self, i: int) -> Sexp
        decreases (if self.live(i) { self.cell(i).stamp + 1 } else { 0 }),
    {
        if !self.live(i) {
            Sexp::Absent
        } else {
            match self.cell(i).node {
                Node::Absent => Sexp::Absent,
                Node::Nil => Sexp::Nil,
                Node::True => Sexp::True,
                Node::Char(c) => Sexp::Char(c),
                Node::Number(n) => Sexp::Number(n),
                Node::Pair(a, b) => if self.part_ok(i, a as int) && self.part_ok(i, b as int) {
                    Sexp::cons(self.tree(a as int), self.tree(b as int))
                } else {
                    Sexp::Absent
                },
                Node::Symbol(n) => Sexp::Symbol(n@),
                Node::Wildcard => Sexp::Wildcard,
            }
        }
    }

    /// The value of the atom that `r` refers to, as a tree.
    pub open spec fn value(self, r: Ref) -> Sexp {
        self.tree(r.slot as int)
    }

    /// Every atom that is there in both states has the same value in both.
    pub open spec fn agrees(self, next: Graph) -> bool {
        forall|q: Ref| self.has(q) && next.has(q) ==> #[trigger] next.value(q) == self.value(q)
    }

    /// Every atom of this state is still there in `next`.
    pub open spec fn retains(self, next: Graph) -> bool {
        forall|q: Ref| self.has(q) ==> #[trigger] next.has(q)
    }

    /// `next` is a later state in which every atom of this state is still
    /// there, with the value it had.
    pub open spec fn carries(self, next: Graph) -> bool {
        self.grows(next) && self.agrees(next) && self.retains(next)
    }

    /// `next` is a later state of this memory: the clock has not gone back,
    /// and every atom of `next` that is older than this clock was already
    /// there, the same atom.
    pub open spec fn grows(self, next: Graph) -> bool {
        &&& self.cells.len() == next.cells.len()
        &&& self.clock <= next.clock
        &&& forall|i: int| #[trigger]
            next.live(i) && next.cell(i).stamp < self.clock ==> self.live(i) && self.cell(i).stamp
                == next.cell(i).stamp && self.cell(i).node == next.cell(i).node
    }

    /// `next` is reached from this state in `n` steps at most, where making
    /// an atom and taking a handle are one step each: the clock is at most
    /// `n` later, the arena has grown by no more atoms than the clock has
    /// advanced, and on no atom are more than `n` handles more held.
    pub open spec fn within(self, next: Graph, n: nat) -> bool {
        &&& next.capacity() == self.capacity()
        &&& self.clock <= next.clock <= self.clock + n
        &&& next.occupancy() - next.clock <= self.occupancy() - self.clock
        &&& forall|q: Ref| #[trigger] next.held(q) <= self.held(q) + n
    }

    /// The memory can take `n` steps: it has room for `n` atoms, and `n`
    /// more handles can be counted on every atom.
    pub open spec fn affords(self, n: nat) -> bool {
        &&& self.room() >= n
        &&& forall|q: Ref| #[trigger] self.held(q) + n <= u64::MAX
    }

    /// No handle has been given up between this state and `next`.
    pub open spec fn keeps(self, next: Graph) -> bool {
        forall|r: Ref| self.held(r) <= #[trigger] next.held(r)
    }
}

/// Counting parts over slots that differ in one place only.
pub proof fn lemma_refs_diff(c: Cells, d: Cells, n: int, t: int, i: int)
    requires
        c.len() == d.len(),
        0 <= n <= c.len(),
        forall|j: int| 0 <= j < n && j != i ==> out_refs(c[j], t) == out_refs(d[j], t),
    ensures
        refs_in(d, n, t) + (if 0 <= i < n { out_refs(c[i], t) } else { 0 }) == refs_in(c, n, t) + (if 0
            <= i < n { out_refs(d[i], t) } else { 0 }),
    decreases n,
{
    if n > 0 {
        lemma_refs_diff(c, d, n - 1, t, i);
    }
}

/// A slot that is named at all is named by some cell, and the count is bounded.
pub proof fn lemma_refs_witness(c: Cells, n: int, t: int) -> (p: int)
    requires
        0 <= n <= c.len(),
        refs_in(c, n, t) > 0,
    ensures
        0 <= p < n,
        out_refs(c[p], t) > 0,
    decreases n,
{
    if out_refs(c[n - 1], t) > 0 {
        n - 1
    } else {
        lemma_refs_witness(c, n - 1, t)
    }
}

/// A cell that names a slot is counted.
pub proof fn lemma_refs_counted(c: Cells, n: int, t: int, p: int)
    requires
        0 <= p < n <= c.len(),
    ensures
        refs_in(c, n, t) >= out_refs(c[p], t),
        refs_in(c, n, t) <= 2 * n,
    decreases n,
{
    if p < n - 1 {
        lemma_refs_counted(c, n - 1, t, p);
    } else {
        lemma_refs_bound(c, n - 1, t);
    }
}

/// Each cell names at most two slots.
pub proof fn lemma_refs_bound(c: Cells, n: int, t: int)
    requires
        0 <= n <= c.len(),
    ensures
        refs_in(c, n, t) <= 2 * n,
    decreases n,
{
    if n > 0 {
        lemma_refs_bound(c, n - 1, t);
    }
}

/// Appending to a list counts the new item.
pub proof fn lemma_count_push(s: Seq<usize>, a: usize, x: int)
    ensures
        count_of(s.push(a), x) == count_of(s, x) + if a == x { 1nat } else { 0nat },
{
    assert(s.push(a).drop_last() =~= s);
}

/// An item that is not counted does not occur, and the count is bounded.
pub proof fn lemma_count_none(s: Seq<usize>, x: int)
    ensures
        count_of(s, x) <= s.len(),
        count_of(s, x) == 0 ==> forall|k: int| 0 <= k < s.len() ==> s[k] != x,
    decreases s.len(),
{
    if s.len() > 0 {
        lemma_count_none(s.drop_last(), x);
        assert forall|k: int| 0 <= k < s.len() && count_of(s, x) == 0 implies s[k] != x by {
            if k < s.len() - 1 {
                assert(s.drop_last()[k] == s[k]);
            }
        }
    }
}

impl Graph {
    /// A node can be put into the memory: both parts of a pair are there.
    pub open spec fn fits(self, node: Node) -> bool {
        node matches Node::Pair(a, b) ==> self.live(a as int) && self.live(b as int)
    }

    /// No atom names an empty slot as a part.
    pub proof fn lemma_unnamed(self, queue: Seq<usize>, t: int)
        requires
            self.sound_but(queue),
            !self.live(t),
        ensures
            self.refs_to(t) == 0,
    {
        if self.refs_to(t) > 0 {
            let p = lemma_refs_witness(self.cells, self.cells.len() as int, t);
            assert(self.live(p));
        }
    }

    /// The link count of an atom is small.
    pub proof fn lemma_links_small(self, i: int)
        requires
            self.sound(),
            self.live(i),
        ensures
            self.cell(i).links <= 2 * MAX_SLOTS,
    {
        lemma_refs_bound(self.cells, self.cells.len() as int, i);
        assert(count_of(Seq::<usize>::empty(), i) == 0);
    }

    /// The memory stays sound when a new atom takes an empty slot and each of
    /// its parts gets one more link.
    pub proof fn lemma_make(self, next: Graph, slot: int, node: Node)
        requires
            self.sound(),
            self.fits(node),
            0 <= slot < self.cells.len(),
            !self.live(slot),
            self.clock < u64::MAX,
            next.cells.len() == self.cells.len(),
            next.clock == self.clock + 1,
            next.cells[slot] == Some(Cell { node, stamp: self.clock as u64, held: 1, links: 0 }),
            forall|i: int| i != slot ==> (next.live(i) <==> self.live(i)),
            forall|i: int| #[trigger]
                self.live(i) ==> next.cell(i).node == self.cell(i).node && next.cell(i).stamp
                    == self.cell(i).stamp && next.cell(i).held == self.cell(i).held && next.cell(
                    i,
                ).links == self.cell(i).links + out_refs(next.cells[slot], i),
        ensures
            next.sound(),
            self.grows(next),
    {
        let n = self.cells.len() as int;
        let none = Seq::<usize>::empty();
        assert(next.live(slot));
        assert forall|i: int| #[trigger] next.live(i) implies {
            &&& next.cell(i).stamp < next.clock
            &&& next.cell(i).held + next.cell(i).links > 0
            &&& next.cell(i).links == next.refs_to(i) + count_of(none, i)
            &&& (next.cell(i).node matches Node::Pair(a, b) ==> next.part_ok(i, a as int)
                && next.part_ok(i, b as int))
        } by {
            assert(count_of(none, i) == 0);
            assert forall|j: int| 0 <= j < n && j != slot implies out_refs(self.cells[j], i)
                == out_refs(next.cells[j], i) by {
                if self.live(j) {
                    assert(next.live(j));
                }
            }
            lemma_refs_diff(self.cells, next.cells, n, i, slot);
            if i == slot {
                self.lemma_unnamed(none, slot);
                match node {
                    Node::Pair(a, b) => {
                        assert(self.live(a as int));
                        assert(self.live(b as int));
                    },
                    _ => {},
                }
            } else {
                assert(self.live(i));
                match self.cell(i).node {
                    Node::Pair(a, b) => {
                        assert(self.part_ok(i, a as int));
                        assert(self.part_ok(i, b as int));
                        assert(self.live(a as int));
                        assert(self.live(b as int));
                    },
                    _ => {},
                }
            }
        }
        assert forall|i: int| #[trigger]
            next.live(i) && next.cell(i).stamp < self.clock implies self.live(i) && self.cell(i).stamp
            == next.cell(i).stamp && self.cell(i).node == next.cell(i).node by {
            if i != slot {
                assert(self.live(i));
            }
        }
    }

    /// The memory stays sound when the counts of one atom change in step with
    /// the list of pending slots.
    pub proof fn lemma_recount(self, queue: Seq<usize>, next: Graph, later: Seq<usize>, i: int)
        requires
            self.sound_but(queue),
            self.live(i),
            next.clock == self.clock,
            next.cells == self.cells.update(
                i,
                Some(Cell { held: next.cell(i).held, links: next.cell(i).links, ..self.cell(i) }),
            ),
            next.cell(i).held + next.cell(i).links > 0,
            next.cell(i).links - count_of(later, i) == self.cell(i).links - count_of(queue, i),
            forall|t: int| t != i ==> count_of(later, t) == count_of(queue, t),
            forall|k: int| 0 <= k < later.len() ==> self.live(#[trigger] later[k] as int),
        ensures
            next.sound_but(later),
            self.grows(next),
            next.grows(self),
            used(next.cells) == used(self.cells),
    {
        let n = self.cells.len() as int;
        assert(next.live(i));
        assert forall|t: int| #[trigger] next.live(t) implies {
            &&& next.cell(t).stamp < next.clock
            &&& next.cell(t).held + next.cell(t).links > 0
            &&& next.cell(t).links == next.refs_to(t) + count_of(later, t)
            &&& (next.cell(t).node matches Node::Pair(a, b) ==> next.part_ok(t, a as int)
                && next.part_ok(t, b as int))
        } by {
            assert(self.live(t));
            lemma_refs_diff(self.cells, next.cells, n, t, i);
            match self.cell(t).node {
                Node::Pair(a, b) => {
                    assert(self.part_ok(t, a as int));
                    assert(self.part_ok(t, b as int));
                    assert(next.live(a as int));
                    assert(next.live(b as int));
                },
                _ => {},
            }
        }
        assert forall|k: int| 0 <= k < later.len() implies next.live(#[trigger] later[k] as int) by {
            assert(self.live(later[k] as int));
        }
        assert forall|t: int| #[trigger]
            next.live(t) && next.cell(t).stamp < self.clock implies self.live(t) && self.cell(t).stamp
            == next.cell(t).stamp && self.cell(t).node == next.cell(t).node by {
            assert(self.live(t));
        }
        assert forall|t: int| #[trigger]
            self.live(t) && self.cell(t).stamp < next.clock implies next.live(t) && self.cell(t).stamp
            == next.cell(t).stamp && self.cell(t).node == next.cell(t).node by {
            assert(next.live(t));
        }
        lemma_used_same(self.cells, next.cells, n);
    }

    /// The last pending slot has a link to give up.
    pub proof fn lemma_pending(self, queue: Seq<usize>)
        requires
            self.sound_but(queue),
            queue.len() > 0,
        ensures
            self.live(queue.last() as int),
            self.cell(queue.last() as int).links >= 1,
            count_of(queue, queue.last() as int) == count_of(queue.drop_last(), queue.last() as int) + 1,
            forall|t: int| t != queue.last() ==> count_of(queue.drop_last(), t) == count_of(queue, t),
    {
        assert(self.live(queue[queue.len() - 1] as int));
    }

    /// The memory stays sound when an atom that is neither held nor linked
    /// leaves its slot and its parts become pending.
    pub proof fn lemma_reap(self, queue: Seq<usize>, next: Graph, later: Seq<usize>, i: int)
        requires
            self.sound_but(queue),
            queue.len() > 0,
            i == queue.last(),
            self.cell(i).held == 0,
            self.cell(i).links == 1,
            next.clock == self.clock,
            next.cells == self.cells.update(i, None),
            later == match self.cell(i).node {
                Node::Pair(a, b) => queue.drop_last().push(a).push(b),
                _ => queue.drop_last(),
            },
        ensures
            next.sound_but(later),
            self.grows(next),
            used(next.cells) + 1 == used(self.cells),
            later.len() <= queue.len() + 1,
    {
        let n = self.cells.len() as int;
        let rest = queue.drop_last();
        self.lemma_pending(queue);
        assert(self.live(i));
        assert(count_of(rest, i) == 0 && self.refs_to(i) == 0);
        lemma_count_none(rest, i);
        let node = self.cell(i).node;
        assert forall|t: int| #[trigger] next.live(t) implies {
            &&& next.cell(t).stamp < next.clock
            &&& next.cell(t).held + next.cell(t).links > 0
            &&& next.cell(t).links == next.refs_to(t) + count_of(later, t)
            &&& (next.cell(t).node matches Node::Pair(a, b) ==> next.part_ok(t, a as int)
                && next.part_ok(t, b as int))
        } by {
            assert(self.live(t));
            assert(t != i);
            lemma_refs_diff(self.cells, next.cells, n, t, i);
            match node {
                Node::Pair(a, b) => {
                    lemma_count_push(rest, a, t);
                    lemma_count_push(rest.push(a), b, t);
                },
                _ => {},
            }
            lemma_refs_counted(self.cells, n, i, t);
            match self.cell(t).node {
                Node::Pair(a, b) => {
                    assert(self.part_ok(t, a as int));
                    assert(self.part_ok(t, b as int));
                    assert(out_refs(self.cells[t], i) == 0);
                    assert(next.live(a as int));
                    assert(next.live(b as int));
                },
                _ => {},
            }
        }
        assert forall|k: int| 0 <= k < later.len() implies next.live(#[trigger] later[k] as int) by {
            if k < rest.len() {
                assert(later[k] == rest[k]);
                assert(rest[k] == queue[k]);
                assert(self.live(queue[k] as int));
            } else {
                match node {
                    Node::Pair(a, b) => {
                        assert(self.part_ok(i, a as int));
                        assert(self.part_ok(i, b as int));
                    },
                    _ => {},
                }
            }
        }
        assert forall|t: int| #[trigger]
            next.live(t) && next.cell(t).stamp < self.clock implies self.live(t) && self.cell(t).stamp
            == next.cell(t).stamp && self.cell(t).node == next.cell(t).node by {
            assert(self.live(t));
        }
        crate::slab::lemma_used_update(self.cells, n, i, None);
    }

    /// An atom that no handle holds is a part of some pair.
    pub proof fn lemma_parent(self, i: int) -> (p: int)
        requires
            self.sound(),
            self.live(i),
            self.cell(i).held == 0,
        ensures
            self.live(p),
            self.cell(p).node matches Node::Pair(a, b) && (a == i || b == i),
            self.cell(p).stamp > self.cell(i).stamp,
    {
        assert(count_of(Seq::<usize>::empty(), i) == 0);
        let p = lemma_refs_witness(self.cells, self.cells.len() as int, i);
        assert(self.live(p));
        p
    }

    /// Later states of later states are later states.
    pub proof fn lemma_grows_trans(self, mid: Graph, next: Graph)
        requires
            self.grows(mid),
            mid.grows(next),
        ensures
            self.grows(next),
    {
        assert forall|i: int| #[trigger]
            next.live(i) && next.cell(i).stamp < self.clock implies self.live(i) && self.cell(i).stamp
            == next.cell(i).stamp && self.cell(i).node == next.cell(i).node by {
            assert(mid.live(i));
        }
    }

    /// An atom that is there in a state and in a later one has the same
    /// value in both.
    pub proof fn lemma_tree_same(self, next: Graph, i: int)
        requires
            self.sound(),
            next.sound(),
            self.grows(next),
            next.live(i),
            next.cell(i).stamp < self.clock,
        ensures
            self.live(i),
            next.tree(i) == self.tree(i),
        decreases next.cell(i).stamp,
    {
        assert(self.live(i));
        match next.cell(i).node {
            Node::Pair(a, b) => {
                assert(next.part_ok(i, a as int));
                assert(next.part_ok(i, b as int));
                self.lemma_tree_same(next, a as int);
                self.lemma_tree_same(next, b as int);
                assert(self.part_ok(i, a as int));
                assert(self.part_ok(i, b as int));
            },
            _ => {},
        }
    }

    /// A later state agrees with an earlier one on the atoms they share.
    pub proof fn lemma_agrees(self, next: Graph)
        requires
            self.sound(),
            next.sound(),
            self.grows(next),
        ensures
            self.agrees(next),
    {
        assert forall|q: Ref| self.has(q) && next.has(q) implies #[trigger] next.value(q)
            == self.value(q) by {
            assert(self.live(q.slot as int));
            self.lemma_tree_same(next, q.slot as int);
        }
    }

    /// The value of a pair is the pair of the values of its parts, and the
    /// value of any other atom is that of its node.
    pub proof fn lemma_unfold(self, r: Ref)
        requires
            self.sound(),
            self.has(r),
        ensures
            match self.cell(r.slot as int).node {
                Node::Pair(a, b) => self.live(a as int) && self.live(b as int) && self.has(
                    self.at(a as int),
                ) && self.has(self.at(b as int)) && self.value(r) == Sexp::cons(
                    self.tree(a as int),
                    self.tree(b as int),
                ) && self.cell(a as int).stamp < r.stamp && self.cell(b as int).stamp < r.stamp,
                node => self.value(r) == leaf_tree(node),
            },
    {
        assert(self.live(r.slot as int));
    }

    /// As long as no handle is given up, no atom goes away.
    pub proof fn lemma_kept(self, next: Graph, i: int)
        requires
            self.sound(),
            next.sound(),
            self.grows(next),
            self.keeps(next),
            self.live(i),
        ensures
            next.live(i),
            next.cell(i).stamp == self.cell(i).stamp,
            next.cell(i).node == self.cell(i).node,
            next.tree(i) == self.tree(i),
        decreases self.clock - self.cell(i).stamp,
    {
        if self.cell(i).held > 0 {
            let r = self.at(i);
            assert(self.held(r) > 0);
            assert(next.held(r) > 0);
            assert(next.has(r));
        } else {
            let p = self.lemma_parent(i);
            self.lemma_kept(next, p);
            assert(next.live(p));
            assert(next.part_ok(p, i));
            assert(next.live(i));
        }
        self.lemma_tree_same(next, i);
    }

    /// As long as no handle is given up, every atom stays, with its value.
    pub proof fn lemma_carries(self, next: Graph)
        requires
            self.sound(),
            next.sound(),
            self.grows(next),
            self.keeps(next),
        ensures
            self.carries(next),
    {
        self.lemma_agrees(next);
        assert forall|q: Ref| self.has(q) implies #[trigger] next.has(q) by {
            self.lemma_kept(next, q.slot as int);
        }
    }

    /// A state carries itself.
    pub proof fn lemma_carries_self(self)
        ensures
            self.carries(self),
    {
    }

    /// What a state carries, carried on, is carried.
    pub proof fn lemma_carries_trans(self, mid: Graph, next: Graph)
        requires
            self.carries(mid),
            mid.carries(next),
        ensures
            self.carries(next),
    {
        self.lemma_grows_trans(mid, next);
        assert forall|q: Ref| self.has(q) implies #[trigger] next.has(q) by {
            assert(mid.has(q));
        }
        assert forall|q: Ref| self.has(q) && next.has(q) implies #[trigger] next.value(q)
            == self.value(q) by {
            assert(mid.has(q));
            assert(mid.value(q) == self.value(q));
        }
    }

    /// An atom of a later state on which the same handles are held as before
    /// was there before.
    pub proof fn lemma_was_there(self, next: Graph, i: int)
        requires
            self.sound(),
            next.sound(),
            self.grows(next),
            forall|r: Ref| self.held(r) == #[trigger] next.held(r),
            next.live(i),
        ensures
            self.live(i),
            next.cell(i).stamp == self.cell(i).stamp,
        decreases next.clock - next.cell(i).stamp,
    {
        if next.cell(i).held > 0 {
            let r = next.at(i);
            assert(next.held(r) > 0);
            assert(self.held(r) > 0);
            assert(self.has(r));
        } else {
            let p = next.lemma_parent(i);
            self.lemma_was_there(next, p);
            assert(next.live(p));
            assert(self.part_ok(p, i));
            assert(next.part_ok(p, i));
            assert(next.live(i));
        }
    }

    /// Steps add up.
    pub proof fn lemma_within_trans(self, mid: Graph, next: Graph, n: nat, m: nat)
        requires
            self.within(mid, n),
            mid.within(next, m),
        ensures
            self.within(next, n + m),
    {
        assert forall|q: Ref| #[trigger] next.held(q) <= self.held(q) + n + m by {
            assert(mid.held(q) <= self.held(q) + n);
        }
    }

    /// What is reached in some steps is reached in more.
    pub proof fn lemma_within_more(self, next: Graph, n: nat, m: nat)
        requires
            self.within(next, n),
            n <= m,
        ensures
            self.within(next, m),
    {
        assert forall|q: Ref| #[trigger] next.held(q) <= self.held(q) + m by {
            assert(next.held(q) <= self.held(q) + n);
        }
    }

    /// A memory that can take some steps can, after some of them, take the
    /// others.
    pub proof fn lemma_affords_rest(self, next: Graph, n: nat, m: nat)
        requires
            self.within(next, n),
            self.affords(n + m),
        ensures
            next.affords(m),
    {
        assert forall|q: Ref| #[trigger] next.held(q) + m <= u64::MAX by {
            assert(next.held(q) <= self.held(q) + n);
            assert(self.held(q) + (n + m) <= u64::MAX);
        }
    }

    /// Each step takes the room of one atom at most.
    pub proof fn lemma_room_after(self, next: Graph, n: nat)
        requires
            self.within(next, n),
        ensures
            next.room() >= self.room() - n,
    {
    }

    /// A memory that can take some steps can take fewer.
    pub proof fn lemma_affords_less(self, n: nat, m: nat)
        requires
            self.affords(n),
            m <= n,
        ensures
            self.affords(m),
    {
        assert forall|q: Ref| #[trigger] self.held(q) + m <= u64::MAX by {
            assert(self.held(q) + n <= u64::MAX);
        }
    }

    /// Where no handle is held, no atom is there.
    pub proof fn lemma_unheld(self, i: int)
        requires
            self.sound(),
            forall|r: Ref| #[trigger] self.held(r) == 0,
        ensures
            !self.live(i),
        decreases
                (if self.live(i) {
                    self.clock - self.cell(i).stamp
                } else {
                    0
                }),
    {
        if self.live(i) {
            assert(self.held(self.at(i)) == 0);
            let p = self.lemma_parent(i);
            self.lemma_unheld(p);
        }
    }

    /// Where no handle is held, the arena is empty.
    pub proof fn lemma_unheld_empty(self)
        requires
            self.sound(),
            forall|r: Ref| #[trigger] self.held(r) == 0,
        ensures
            self.occupancy() == 0,
    {
        assert forall|i: int| 0 <= i < self.cells.len() implies self.cells[i] is None by {
            self.lemma_unheld(i);
        }
        crate::slab::lemma_used_empty(self.cells, self.cells.len() as int);
    }

    /// Where the same handles are held in a state and in a later one, the
    /// same slots are in use in both.
    pub proof fn lemma_balanced(self, next: Graph)
        requires
            self.sound(),
            next.sound(),
            self.grows(next),
            forall|r: Ref| self.held(r) == #[trigger] next.held(r),
        ensures
            forall|i: int| self.live(i) <==> next.live(i),
            self.occupancy() == next.occupancy(),
    {
        assert forall|i: int| self.live(i) <==> next.live(i) by {
            if self.live(i) {
                self.lemma_kept(next, i);
            }
            if next.live(i) {
                self.lemma_was_there(next, i);
            }
        }
        assert forall|i: int| 0 <= i < self.cells.len() implies (self.cells[i] is Some
            <==> next.cells[i] is Some) by {
            assert(self.live(i) <==> next.live(i));
        }
        lemma_used_same(self.cells, next.cells, self.cells.len() as int);
    }

    /// An atom of one of two states that both come from this state without a
    /// new atom, and in which the same handles are held, is an atom of the
    /// other.
    pub proof fn lemma_same_atom(self, one: Graph, other: Graph, i: int)
        requires
            one.sound(),
            other.sound(),
            self.grows(one),
            self.grows(other),
            one.clock == self.clock,
            other.clock == self.clock,
            forall|r: Ref| one.held(r) == #[trigger] other.held(r),
            one.live(i),
        ensures
            other.live(i),
            other.cell(i).stamp == one.cell(i).stamp,
            other.cell(i).node == one.cell(i).node,
        decreases one.clock - one.cell(i).stamp,
    {
        if one.cell(i).held > 0 {
            let r = one.at(i);
            assert(one.held(r) > 0);
            assert(other.held(r) > 0);
            assert(other.has(r));
        } else {
            let p = one.lemma_parent(i);
            self.lemma_same_atom(one, other, p);
            assert(other.live(p));
            assert(one.part_ok(p, i));
            assert(other.part_ok(p, i));
            assert(other.live(i));
        }
        assert(self.live(i));
    }
}

} // verus!
