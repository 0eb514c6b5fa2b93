//! The memory: atoms in an arena, kept as long as a handle or a pair
//! refers to them.

use vstd::prelude::*;
use crate::cell::{Cell, Node};
use crate::error::Error;
use crate::graph::{
    count_of, handled, leaf_tree, lemma_count_push, linked, names, tally, Graph, Ref,
};
use crate::sexp::Sexp;
use crate::slab::{lemma_used_none, used, Slab};

verus! {

/// The memory of an interpreter: an arena whose cells are atoms, each with
/// the number of handles held on it and the number of pairs it is a part of.
/// An atom leaves the arena when both numbers have come down to zero.
pub struct Heap {
    slab: Slab,
    clock: u64,
}

impl View for Heap {
    type V = Graph;

    closed spec fn view(&self) -> Graph {
        Graph { cells: self.slab@, clock: self.clock as nat }
    }
}

impl Heap {
    /// The arena under the memory is well-formed.
    pub closed spec fn arena_wf(&self) -> bool {
        self.slab.wf()
    }

    /// The invariant of the memory.
    pub open spec fn wf(&self) -> bool {
        self.arena_wf() && self@.sound()
    }

    /// Makes a memory on an empty arena; nothing on one that is in use.
    pub fn new(slab: Slab) -> (r: Option<Heap>)
        requires
            slab.wf(),
        ensures
            r is Some <==> slab.occupancy() == 0,
            r matches Some(h) ==> h.wf() && h@.cells == slab@ && h@.clock == 0
                && h@.occupancy() == 0,
    {
        if slab.in_use() != 0 {
            return None;
        }
        proof {
            lemma_used_none(slab@, slab@.len() as int);
            slab.lemma_capacity();
        }
        let h = Heap { slab, clock: 0 };
        proof {
            assert forall|i: int| !h@.live(i) by {}
        }
        Some(h)
    }

    /// Gives the arena back. Atoms that are still in it stay there.
    pub fn into_slab(self) -> (slab: Slab)
        requires
            self.wf(),
        ensures
            slab.wf(),
            slab@ == self@.cells,
    {
        self.slab
    }

    /// Number of atoms in the arena.
    pub fn occupancy(&self) -> (n: usize)
        requires
            self.wf(),
        ensures
            n == self@.occupancy(),
    {
        self.slab.in_use()
    }

    /// Number of slots of the arena.
    pub fn capacity(&self) -> (n: usize)
        ensures
            n == self@.capacity(),
    {
        self.slab.slots()
    }

    /// Number of handles held on the atom that `r` refers to.
    pub fn holders(&self, r: Ref) -> (n: u64)
        ensures
            n == self@.held(r),
    {
        match self.slab.get(r.slot) {
            Some(c) => if c.stamp == r.stamp {
                c.held
            } else {
                0
            },
            None => 0,
        }
    }

    /// The node of the atom that `r` refers to.
    pub fn node(&self, r: Ref) -> (n: Node)
        requires
            self@.has(r),
        ensures
            n == self@.cell(r.slot as int).node,
    {
        match self.slab.get(r.slot) {
            Some(c) => c.node,
            None => Node::Absent,
        }
    }

    /// The reference to the atom in `slot`.
    pub fn part(&self, slot: usize) -> (r: Ref)
        requires
            self@.live(slot as int),
        ensures
            r == self@.at(slot as int),
            self@.has(r),
    {
        match self.slab.get(slot) {
            Some(c) => Ref { slot, stamp: c.stamp },
            None => Ref { slot, stamp: 0 },
        }
    }

    /// Adds one link to the atom in `slot`.
    fn link(&mut self, slot: usize)
        requires
            old(self).arena_wf(),
            old(self)@.live(slot as int),
            old(self)@.cell(slot as int).links < u64::MAX,
        ensures
            final(self).arena_wf(),
            final(self)@.clock == old(self)@.clock,
            final(self)@.cells == old(self)@.cells.update(
                slot as int,
                Some(
                    Cell {
                        links: (old(self)@.cell(slot as int).links + 1) as u64,
                        ..old(self)@.cell(slot as int)
                    },
                ),
            ),
    {
        match self.slab.get(slot) {
            Some(c) => {
                let _ = self.slab.put(slot, Cell { links: c.links + 1, ..c });
            },
            None => {},
        }
    }

    /// Puts a new atom into the arena and returns the reference to it, with
    /// one handle held on it. The parts of a pair get one more link each; the
    /// handles held on them stay as they are.
    pub fn make(&mut self, node: Node) -> (r: Result<Ref, Error>)
        requires
            old(self).wf(),
        ensures
            final(self).wf(),
            old(self)@.grows(final(self)@),
            old(self)@.agrees(final(self)@),
            old(self)@.within(final(self)@, 1),
            r is Ok <==> old(self)@.fits(node) && old(self)@.occupancy() < old(self)@.capacity()
                && old(self)@.clock < u64::MAX,
            match r {
                Ok(x) => {
                    &&& !old(self)@.live(x.slot as int)
                    &&& x.stamp == old(self)@.clock
                    &&& final(self)@.clock == old(self)@.clock + 1
                    &&& final(self)@.has(x)
                    &&& final(self)@.cells[x.slot as int] == Some(
                        Cell { node, stamp: x.stamp, held: 1, links: 0 },
                    )
                    &&& forall|i: int| #[trigger]
                        old(self)@.live(i) ==> final(self)@.cells[i] == Some(
                            linked(old(self)@.cell(i), names(node, i)),
                        )
                    &&& forall|i: int|
                        i != x.slot && !old(self)@.live(i) ==> !#[trigger] final(self)@.live(i)
                    &&& final(self)@.occupancy() == old(self)@.occupancy() + 1
                    &&& forall|q: Ref| old(self)@.has(q) ==> #[trigger] final(self)@.has(q)
                    &&& forall|q: Ref| #[trigger]
                        final(self)@.held(q) == old(self)@.held(q) + if q == x {
                            1nat
                        } else {
                            0nat
                        }
                },
                Err(e) => final(self)@ == old(self)@ && (e == Error::StaleHandle || e
                    == Error::OutOfSpace) && (e == Error::StaleHandle <==> !old(self)@.fits(node)),
            },
    {
        let ghost g = self@;
        if let Node::Pair(a, b) = node {
            if self.slab.get(a).is_none() || self.slab.get(b).is_none() {
                return Err(Error::StaleHandle);
            }
        }
        if self.clock == u64::MAX {
            return Err(Error::OutOfSpace);
        }
        let cell = Cell { node, stamp: self.clock, held: 1, links: 0 };
        let slot: usize = match self.slab.allocate(cell) {
            Ok(s) => s,
            Err(e) => {
                return Err(e);
            },
        };
        proof {
            crate::slab::lemma_used_update(g.cells, g.cells.len() as int, slot as int, Some(cell));
        }
        if let Node::Pair(a, b) = node {
            proof {
                g.lemma_links_small(a as int);
                g.lemma_links_small(b as int);
            }
            self.link(a);
            self.link(b);
        }
        self.clock = self.clock + 1;
        proof {
            g.lemma_make(self@, slot as int, node);
            g.lemma_agrees(self@);
            crate::slab::lemma_used_same(
                g.cells.update(slot as int, Some(cell)),
                self@.cells,
                g.cells.len() as int,
            );
        }
        Ok(Ref { slot, stamp: cell.stamp })
    }

    /// Counts one more handle on the atom that `r` refers to.
    pub fn retain(&mut self, r: Ref) -> (res: Result<(), Error>)
        requires
            old(self).wf(),
        ensures
            final(self).wf(),
            old(self)@.grows(final(self)@),
            old(self)@.agrees(final(self)@),
            old(self)@.within(final(self)@, 1),
            final(self)@.clock == old(self)@.clock,
            res is Ok <==> old(self)@.has(r) && old(self)@.held(r) < u64::MAX,
            match res {
                Ok(()) => {
                    &&& final(self)@.cells == old(self)@.cells.update(
                        r.slot as int,
                        Some(handled(old(self)@.cell(r.slot as int), 1)),
                    )
                    &&& final(self)@.occupancy() == old(self)@.occupancy()
                    &&& forall|q: Ref| old(self)@.has(q) <==> #[trigger] final(self)@.has(q)
                    &&& forall|q: Ref| #[trigger]
                        final(self)@.held(q) == old(self)@.held(q) + if q == r {
                            1nat
                        } else {
                            0nat
                        }
                },
                Err(e) => final(self)@ == old(self)@ && (e == Error::StaleHandle || e
                    == Error::OutOfSpace) && (e == Error::StaleHandle <==> !old(self)@.has(r)),
            },
    {
        let ghost g = self@;
        let c = match self.slab.get(r.slot) {
            Some(c) => c,
            None => {
                return Err(Error::StaleHandle);
            },
        };
        if c.stamp != r.stamp {
            return Err(Error::StaleHandle);
        }
        if c.held == u64::MAX {
            return Err(Error::OutOfSpace);
        }
        let _ = self.slab.put(r.slot, Cell { held: c.held + 1, ..c });
        proof {
            let none = Seq::<usize>::empty();
            g.lemma_recount(none, self@, none, r.slot as int);
            g.lemma_agrees(self@);
        }
        Ok(())
    }

    /// Gives up one handle on the atom that `r` refers to. An atom that is
    /// then neither held nor a part of a pair leaves the arena, and so in
    /// turn do its parts, as far as nothing else keeps them.
    pub fn release(&mut self, r: Ref) -> (res: Result<(), Error>)
        requires
            old(self).wf(),
        ensures
            final(self).wf(),
            old(self)@.grows(final(self)@),
            old(self)@.agrees(final(self)@),
            old(self)@.within(final(self)@, 0),
            final(self)@.clock == old(self)@.clock,
            final(self)@.occupancy() <= old(self)@.occupancy(),
            final(self)@.has(r) ==> final(self)@.occupancy() == old(self)@.occupancy(),
            old(self)@.held(r) > 1 || (old(self)@.held(r) == 1 && old(self)@.cell(
                r.slot as int,
            ).links > 0) ==> final(self)@.cells == old(self)@.cells.update(
                r.slot as int,
                Some(handled(old(self)@.cell(r.slot as int), -1)),
            ),
            res is Ok <==> old(self)@.held(r) > 0,
            match res {
                Ok(()) => forall|q: Ref| #[trigger]
                    final(self)@.held(q) == old(self)@.held(q) - if q == r {
                        1int
                    } else {
                        0int
                    },
                Err(e) => final(self)@ == old(self)@ && e == Error::StaleHandle,
            },
    {
        let ghost g = self@;
        let c = match self.slab.get(r.slot) {
            Some(c) => c,
            None => {
                return Err(Error::StaleHandle);
            },
        };
        if c.stamp != r.stamp || c.held == 0 {
            return Err(Error::StaleHandle);
        }
        proof {
            g.lemma_links_small(r.slot as int);
        }
        // The handle becomes a link that is queued to be given up: from here
        // on the loop only ever takes links away, one queued slot at a time.
        let _ = self.slab.put(r.slot, Cell { held: c.held - 1, links: c.links + 1, ..c });
        let mut queue: Vec<usize> = Vec::new();
        queue.push(r.slot);
        proof {
            let none = Seq::<usize>::empty();
            assert(queue@ =~= none.push(r.slot));
            assert forall|t: int| count_of(queue@, t) == count_of(none, t) + if r.slot == t {
                1nat
            } else {
                0nat
            } by {
                lemma_count_push(none, r.slot, t);
            }
            g.lemma_recount(none, self@, queue@, r.slot as int);
        }
        let ghost mut first = true;
        while queue.len() > 0
            invariant
                self.arena_wf(),
                g.has(r),
                c == g.cell(r.slot as int),
                c.held >= 1,
                c.links < u64::MAX,
                first ==> queue@ == seq![r.slot] && self@.cells == g.cells.update(
                    r.slot as int,
                    Some(Cell { held: (c.held - 1) as u64, links: (c.links + 1) as u64, ..c }),
                ),
                !first && (c.held > 1 || c.links > 0) ==> queue.len() == 0 && self@.cells
                    == g.cells.update(r.slot as int, Some(handled(c, -1))),
                self@.sound_but(queue@),
                g.grows(self@),
                self@.clock == g.clock,
                used(self@.cells) <= used(g.cells),
                self@.has(r) ==> used(self@.cells) == used(g.cells) && (queue.len() == 0 || queue@
                    == seq![r.slot]),
                forall|q: Ref| #[trigger]
                    self@.held(q) == g.held(q) - if q == r {
                        1int
                    } else {
                        0int
                    },
            decreases 2 * used(self@.cells) + queue.len(),
        {
            let ghost now = self@;
            let ghost pending = queue@;
            proof {
                now.lemma_pending(pending);
            }
            let i: usize = queue[queue.len() - 1];
            queue.pop();
            assert(queue@ =~= pending.drop_last());
            let ghost was_first = first;
            proof {
                first = false;
            }
            match self.slab.get(i) {
                Some(cell) => {
                    let links: u64 = cell.links - 1;
                    if cell.held == 0 && links == 0 {
                        // Nothing refers to the atom any more: it leaves, and
                        // each of its parts loses a link in turn.
                        let _ = self.slab.free(i);
                        if let Node::Pair(a, b) = cell.node {
                            queue.push(a);
                            queue.push(b);
                        }
                        proof {
                            now.lemma_reap(pending, self@, queue@, i as int);
                            g.lemma_grows_trans(now, self@);
                            assert forall|q: Ref| #[trigger] self@.held(q) == now.held(q) by {}
                        }
                    } else {
                        let _ = self.slab.put(i, Cell { links, ..cell });
                        proof {
                            if was_first {
                                assert(self@.cells =~= g.cells.update(
                                    r.slot as int,
                                    Some(handled(g.cell(r.slot as int), -1)),
                                ));
                            }
                            now.lemma_recount(pending, self@, queue@, i as int);
                            g.lemma_grows_trans(now, self@);
                            assert forall|q: Ref| #[trigger] self@.held(q) == now.held(q) by {}
                        }
                    }
                },
                None => {},
            }
        }
        proof {
            g.lemma_agrees(self@);
        }
        Ok(())
    }

    /// Puts a new atom that is not a pair into the arena, with one handle
    /// held on it.
    pub fn leaf(&mut self, node: Node) -> (r: Result<Ref, Error>)
        requires
            old(self).wf(),
            !(node is Pair),
        ensures
            final(self).wf(),
            old(self)@.grows(final(self)@),
            old(self)@.agrees(final(self)@),
            old(self)@.within(final(self)@, 1),
            r is Ok <==> old(self)@.room() >= 1,
            match r {
                Ok(x) => {
                    &&& !old(self)@.has(x)
                    &&& final(self)@.has(x)
                    &&& final(self)@.value(x) == leaf_tree(node)
                    &&& final(self)@.clock == old(self)@.clock + 1
                    &&& final(self)@.occupancy() == old(self)@.occupancy() + 1
                    &&& forall|q: Ref| old(self)@.has(q) ==> #[trigger] final(self)@.has(q)
                    &&& forall|q: Ref| #[trigger]
                        final(self)@.held(q) == old(self)@.held(q) + if q == x {
                            1nat
                        } else {
                            0nat
                        }
                },
                Err(e) => final(self)@ == old(self)@ && e == Error::OutOfSpace,
            },
    {
        let r = self.make(node);
        proof {
            if let Ok(x) = r {
                self@.lemma_unfold(x);
            }
        }
        r
    }

    /// Puts the pair of the atoms that `a` and `b` refer to into the arena,
    /// with one handle held on it. The handles held on `a` and `b` stay as
    /// they are.
    pub fn pair(&mut self, a: Ref, b: Ref) -> (r: Result<Ref, Error>)
        requires
            old(self).wf(),
            old(self)@.has(a),
            old(self)@.has(b),
        ensures
            final(self).wf(),
            old(self)@.grows(final(self)@),
            old(self)@.agrees(final(self)@),
            old(self)@.within(final(self)@, 1),
            r is Ok <==> old(self)@.room() >= 1,
            match r {
                Ok(x) => {
                    &&& !old(self)@.has(x)
                    &&& final(self)@.has(x)
                    &&& final(self)@.value(x) == Sexp::cons(old(self)@.value(a), old(self)@.value(b))
                    &&& final(self)@.cell(x.slot as int).node == Node::Pair(a.slot, b.slot)
                    &&& final(self)@.cell(a.slot as int).links >= 1
                    &&& final(self)@.cell(b.slot as int).links >= 1
                    &&& forall|i: int| #[trigger]
                        old(self)@.live(i) ==> final(self)@.live(i) && final(self)@.cell(i).links
                            >= old(self)@.cell(i).links
                    &&& final(self)@.clock == old(self)@.clock + 1
                    &&& final(self)@.occupancy() == old(self)@.occupancy() + 1
                    &&& forall|q: Ref| old(self)@.has(q) ==> #[trigger] final(self)@.has(q)
                    &&& forall|q: Ref| #[trigger]
                        final(self)@.held(q) == old(self)@.held(q) + if q == x {
                            1nat
                        } else {
                            0nat
                        }
                },
                Err(e) => final(self)@ == old(self)@ && e == Error::OutOfSpace,
            },
    {
        proof {
            old(self)@.lemma_links_small(a.slot as int);
            old(self)@.lemma_links_small(b.slot as int);
        }
        let r = self.make(Node::Pair(a.slot, b.slot));
        proof {
            if let Ok(x) = r {
                self@.lemma_unfold(x);
                assert(old(self)@.live(a.slot as int));
                assert(old(self)@.live(b.slot as int));
                assert(self@.has(a));
                assert(self@.has(b));
                assert(self@.value(a) == old(self)@.value(a));
                assert(self@.value(b) == old(self)@.value(b));
            }
        }
        r
    }

    /// Makes the pair of the atoms that `a` and `b` refer to and gives up one
    /// handle on each of the two, also where no pair can be made.
    pub fn cons(&mut self, a: Ref, b: Ref) -> (r: Result<Ref, Error>)
        requires
            old(self).wf(),
            old(self)@.held(a) >= 1,
            old(self)@.held(b) >= 1,
            a == b ==> old(self)@.held(a) >= 2,
        ensures
            final(self).wf(),
            old(self)@.grows(final(self)@),
            old(self)@.agrees(final(self)@),
            old(self)@.within(final(self)@, 1),
            r is Ok <==> old(self)@.room() >= 1,
            forall|q: Ref| #[trigger]
                final(self)@.held(q) == old(self)@.held(q) - (if q == a {
                    1int
                } else {
                    0int
                }) - (if q == b {
                    1int
                } else {
                    0int
                }) + (if r == Ok::<Ref, Error>(q) {
                    1int
                } else {
                    0int
                }),
            match r {
                Ok(x) => {
                    &&& !old(self)@.has(x)
                    &&& final(self)@.has(x)
                    &&& final(self)@.value(x) == Sexp::cons(old(self)@.value(a), old(self)@.value(b))
                    &&& final(self)@.clock == old(self)@.clock + 1
                    &&& final(self)@.occupancy() == old(self)@.occupancy() + 1
                },
                Err(e) => e == Error::OutOfSpace && final(self)@.occupancy() <= old(
                    self,
                )@.occupancy() && final(self)@.clock == old(self)@.clock,
            },
    {
        let ghost g0 = self@;
        let r = self.pair(a, b);
        let ghost g1 = self@;
        assert(g1.held(a) >= 1);
        let _ = self.release(a);
        let ghost g2 = self@;
        assert(g2.held(b) >= 1) by {
            assert(g2.held(b) == g1.held(b) - if b == a { 1int } else { 0int });
        }
        let _ = self.release(b);
        proof {
            g0.lemma_grows_trans(g1, g2);
            g0.lemma_grows_trans(g2, self@);
            g0.lemma_agrees(self@);
            assert forall|q: Ref| #[trigger]
                self@.held(q) == g0.held(q) - (if q == a {
                    1int
                } else {
                    0int
                }) - (if q == b {
                    1int
                } else {
                    0int
                }) + (if r == Ok::<Ref, Error>(q) {
                    1int
                } else {
                    0int
                }) by {
                assert(self@.held(q) == g2.held(q) - if q == b { 1int } else { 0int });
                assert(g2.held(q) == g1.held(q) - if q == a { 1int } else { 0int });
                if let Ok(x) = r {
                    assert(g1.held(q) == g0.held(q) + if q == x { 1nat } else { 0nat });
                }
            }
            if let Ok(x) = r {
                assert(g1.held(x) == 1);
                assert(x != a && x != b);
                assert(g2.held(x) >= 1);
                assert(self@.held(x) >= 1);
                assert(self@.value(x) == g2.value(x));
                assert(g2.value(x) == g1.value(x));
                assert(g1.live(a.slot as int) && g1.live(b.slot as int));
                assert(g2.has(a));
                assert(g2.cell(b.slot as int).links >= 1);
                assert(self@.has(b));
            }
        }
        r
    }

    /// Gives up one handle on the atom that `r` refers to, if it refers to one.
    pub fn release_some(&mut self, r: Option<Ref>)
        requires
            old(self).wf(),
            r matches Some(x) ==> old(self)@.held(x) >= 1,
        ensures
            final(self).wf(),
            old(self)@.grows(final(self)@),
            old(self)@.agrees(final(self)@),
            old(self)@.within(final(self)@, 0),
            final(self)@.clock == old(self)@.clock,
            final(self)@.occupancy() <= old(self)@.occupancy(),
            forall|q: Ref| #[trigger]
                final(self)@.held(q) == old(self)@.held(q) - if r == Some(q) {
                    1int
                } else {
                    0int
                },
    {
        proof {
            self@.lemma_agrees(self@);
        }
        if let Some(x) = r {
            let _ = self.release(x);
        }
    }

    /// Gives up one handle for each reference in `refs`.
    pub fn release_all(&mut self, refs: &Vec<Ref>)
        requires
            old(self).wf(),
            forall|q: Ref| tally(refs@, q) <= #[trigger] old(self)@.held(q),
        ensures
            final(self).wf(),
            old(self)@.grows(final(self)@),
            old(self)@.agrees(final(self)@),
            old(self)@.within(final(self)@, 0),
            final(self)@.clock == old(self)@.clock,
            final(self)@.occupancy() <= old(self)@.occupancy(),
            forall|q: Ref| #[trigger] final(self)@.held(q) == old(self)@.held(q) - tally(refs@, q),
    {
        let ghost g = self@;
        let mut n: usize = refs.len();
        proof {
            assert(refs@.take(n as int) =~= refs@);
        }
        while n > 0
            invariant
                n <= refs.len(),
                self.wf(),
                g.grows(self@),
                self@.clock == g.clock,
                self@.occupancy() <= g.occupancy(),
                forall|q: Ref|
                    self@.held(q) == #[trigger] g.held(q) - tally(refs@, q) + tally(
                        refs@.take(n as int),
                        q,
                    ),
                forall|q: Ref| tally(refs@, q) <= #[trigger] g.held(q),
            decreases n,
        {
            let ghost now = self@;
            let r: Ref = refs[n - 1];
            proof {
                assert(refs@.take(n as int).drop_last() =~= refs@.take(n - 1));
                assert(refs@.take(n as int).last() == r);
                assert(now.held(r) == g.held(r) - tally(refs@, r) + tally(refs@.take(n as int), r));
            }
            let _ = self.release(r);
            n = n - 1;
            proof {
                g.lemma_grows_trans(now, self@);
                assert forall|q: Ref|
                    self@.held(q) == #[trigger] g.held(q) - tally(refs@, q) + tally(
                        refs@.take(n as int),
                        q,
                    ) by {
                    assert(self@.held(q) == now.held(q) - if q == r { 1int } else { 0int });
                }
            }
        }
        proof {
            assert(refs@.take(0) =~= Seq::<Ref>::empty());
            g.lemma_agrees(self@);
        }
    }
}

} // verus!
