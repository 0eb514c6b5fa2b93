//! The arena: a fixed number of slots that are handed out and taken back.

use vstd::prelude::*;
use crate::cell::Cell;
use crate::error::Error;

verus! {

/// The most slots an arena can be made with.
pub const MAX_SLOTS: usize = 0x4000_0000;

/// The number of slots of an arena made by `Slab::default`.
pub const DEFAULT_SLOTS: usize = 0x1_0000;

/// The contents of an arena: for each slot, the cell in it, if any.
pub type Cells = Seq<Option<Cell>>;

/// Number of occupied slots among the first `n`.
pub open spec fn used_in(cells: Cells, n: int) -> nat
    decreases n,
{
    if n <= 0 {
        0
    } else {
        used_in(cells, n - 1) + if cells[n - 1] is Some { 1nat } else { 0nat }
    }
}

/// Number of occupied slots.
pub open spec fn used(cells: Cells) -> nat {
    used_in(cells, cells.len() as int)
}

/// Writing one slot changes the count by what that slot gains or loses.
pub proof fn lemma_used_update(cells: Cells, n: int, i: int, x: Option<Cell>)
    requires
        0 <= i < cells.len(),
        0 <= n <= cells.len(),
    ensures
        used_in(cells.update(i, x), n) + (if i < n && cells[i] is Some { 1int } else { 0int })
            == used_in(cells, n) + (if i < n && x is Some { 1int } else { 0int }),
    decreases n,
{
    if n > 0 {
        lemma_used_update(cells, n - 1, i, x);
    }
}

/// No more slots are occupied than there are, and where all are, none is empty.
pub proof fn lemma_used_bound(cells: Cells, n: int)
    requires
        0 <= n <= cells.len(),
    ensures
        used_in(cells, n) <= n,
        used_in(cells, n) == n ==> forall|i: int| 0 <= i < n ==> cells[i] is Some,
    decreases n,
{
    if n > 0 {
        lemma_used_bound(cells, n - 1);
    }
}

/// Where no slot is occupied, every slot is empty.
pub proof fn lemma_used_none(cells: Cells, n: int)
    requires
        0 <= n <= cells.len(),
        used_in(cells, n) == 0,
    ensures
        forall|i: int| 0 <= i < n ==> cells[i] is None,
    decreases n,
{
    if n > 0 {
        lemma_used_none(cells, n - 1);
    }
}

/// Where every slot is empty, none is occupied.
pub proof fn lemma_used_empty(cells: Cells, n: int)
    requires
        0 <= n <= cells.len(),
        forall|i: int| 0 <= i < n ==> cells[i] is None,
    ensures
        used_in(cells, n) == 0,
    decreases n,
{
    if n > 0 {
        lemma_used_empty(cells, n - 1);
    }
}

/// Two arenas that occupy the same slots occupy the same number of them.
pub proof fn lemma_used_same(a: Cells, b: Cells, n: int)
    requires
        0 <= n <= a.len(),
        n <= b.len(),
        forall|i: int| 0 <= i < n ==> (a[i] is Some <==> b[i] is Some),
    ensures
        used_in(a, n) == used_in(b, n),
    decreases n,
{
    if n > 0 {
        lemma_used_same(a, b, n - 1);
    }
}

/// A fixed-capacity arena of slots. It hands out free slots and takes them
/// back, and knows nothing of what the cells in them mean.
pub struct Slab {
    slots: Vec<Option<Cell>>,
    free: Vec<usize>,
}

impl View for Slab {
    type V = Cells;

    closed spec fn view(&self) -> Cells {
        self.slots@
    }
}

impl Slab {
    /// The free list names each empty slot once, and nothing else.
    pub closed spec fn wf(&self) -> bool {
        &&& self.slots.len() <= MAX_SLOTS
        &&& self.free.len() + used(self.slots@) == self.slots.len()
        &&& forall|k: int| 0 <= k < self.free.len() ==> 0 <= #[trigger] self.free[k] < self.slots.len()
        &&& forall|k: int| 0 <= k < self.free.len() ==> self.slots[#[trigger] self.free[k] as int] is None
        &&& forall|j: int, k: int| 0 <= j < k < self.free.len() ==> self.free[j] != self.free[k]
    }

    /// The slot that the next allocation takes: the one freed last, or, in a
    /// new arena, the lowest.
    pub closed spec fn next_free(&self) -> int {
        self.free@.last() as int
    }

    /// Number of slots, fixed when the arena is made.
    pub open spec fn capacity(&self) -> nat {
        self@.len()
    }

    /// Number of slots in use.
    pub open spec fn occupancy(&self) -> nat {
        used(self@)
    }

    /// A well-formed arena never has more than `MAX_SLOTS` slots.
    pub proof fn lemma_capacity(&self)
        requires
            self.wf(),
        ensures
            self.capacity() <= MAX_SLOTS,
            self.occupancy() <= self.capacity(),
    {
        lemma_used_bound(self@, self@.len() as int);
    }

    /// Makes an arena of `capacity` empty slots, or nothing when that is more
    /// than `MAX_SLOTS`.
    pub fn new(capacity: usize) -> (r: Option<Slab>)
        ensures
            r is Some <==> capacity <= MAX_SLOTS,
            r matches Some(s) ==> s.wf() && s@.len() == capacity && s.occupancy() == 0 && (capacity
                > 0 ==> s.next_free() == 0) && forall|i: int| 0 <= i < capacity ==> s@[i] is None,
    {
        if capacity > MAX_SLOTS {
            return None;
        }
        let mut slots: Vec<Option<Cell>> = Vec::new();
        let mut free: Vec<usize> = Vec::new();
        let mut i: usize = 0;
        while i < capacity
            invariant
                i <= capacity,
                slots.len() == i,
                free.len() == i,
                used(slots@) == 0,
                forall|k: int| 0 <= k < i ==> slots[k] is None,
                forall|k: int| 0 <= k < i ==> free[k] == capacity - 1 - k,
            decreases capacity - i,
        {
            let ghost before = slots@;
            slots.push(None);
            free.push(capacity - 1 - i);
            i = i + 1;
            proof {
                assert(slots@.drop_last() =~= before);
                lemma_used_same(slots@, before, before.len() as int);
            }
        }
        Some(Slab { slots, free })
    }

    /// Number of slots.
    pub fn slots(&self) -> (n: usize)
        ensures
            n == self.capacity(),
    {
        self.slots.len()
    }

    /// Number of slots in use.
    pub fn in_use(&self) -> (n: usize)
        requires
            self.wf(),
        ensures
            n == self.occupancy(),
    {
        self.slots.len() - self.free.len()
    }

    /// Puts `cell` into a free slot and returns the slot. Fails when every
    /// slot is in use.
    pub fn allocate(&mut self, cell: Cell) -> (r: Result<usize, Error>)
        requires
            old(self).wf(),
        ensures
            final(self).wf(),
            r is Ok <==> old(self).occupancy() < old(self).capacity(),
            match r {
                Ok(slot) => slot == old(self).next_free() && slot < old(self)@.len()
                    && old(self)@[slot as int] is None
                    && final(self)@ == old(self)@.update(slot as int, Some(cell)),
                Err(e) => e == Error::OutOfSpace && final(self)@ == old(self)@,
            },
    {
        proof {
            lemma_used_bound(self.slots@, self.slots@.len() as int);
        }
        match self.free.pop() {
            None => Err(Error::OutOfSpace),
            Some(slot) => {
                proof {
                    lemma_used_update(self.slots@, self.slots@.len() as int, slot as int, Some(cell));
                }
                self.slots.set(slot, Some(cell));
                Ok(slot)
            },
        }
    }

    /// Empties `slot`. Fails when the slot is not in use.
    pub fn free(&mut self, slot: usize) -> (r: Result<(), Error>)
        requires
            old(self).wf(),
        ensures
            final(self).wf(),
            r is Ok <==> slot < old(self)@.len() && old(self)@[slot as int] is Some,
            match r {
                Ok(()) => final(self)@ == old(self)@.update(slot as int, None)
                    && final(self).next_free() == slot,
                Err(e) => e == Error::StaleHandle && final(self)@ == old(self)@,
            },
    {
        if slot >= self.slots.len() {
            return Err(Error::StaleHandle);
        }
        if self.slots[slot].is_none() {
            return Err(Error::StaleHandle);
        }
        proof {
            lemma_used_update(self.slots@, self.slots@.len() as int, slot as int, None);
        }
        self.slots.set(slot, None);
        self.free.push(slot);
        Ok(())
    }

    /// The cell in `slot`, if the slot is in use.
    pub fn get(&self, slot: usize) -> (c: Option<Cell>)
        ensures
            c == if slot < self@.len() { self@[slot as int] } else { None },
    {
        if slot < self.slots.len() {
            self.slots[slot]
        } else {
            None
        }
    }

    /// Replaces the cell in `slot`. Fails when the slot is not in use.
    pub fn put(&mut self, slot: usize, cell: Cell) -> (r: Result<(), Error>)
        requires
            old(self).wf(),
        ensures
            final(self).wf(),
            r is Ok <==> slot < old(self)@.len() && old(self)@[slot as int] is Some,
            match r {
                Ok(()) => final(self)@ == old(self)@.update(slot as int, Some(cell)),
                Err(e) => e == Error::StaleHandle && final(self)@ == old(self)@,
            },
    {
        if slot >= self.slots.len() {
            return Err(Error::StaleHandle);
        }
        if self.slots[slot].is_none() {
            return Err(Error::StaleHandle);
        }
        proof {
            lemma_used_update(self.slots@, self.slots@.len() as int, slot as int, Some(cell));
        }
        self.slots.set(slot, Some(cell));
        Ok(())
    }
}

impl Default for Slab {
    /// An empty arena of `DEFAULT_SLOTS` slots.
    fn default() -> (s: Slab)
        ensures
            s.wf(),
            s@.len() == DEFAULT_SLOTS,
            s.occupancy() == 0,
    {
        match Slab::new(DEFAULT_SLOTS) {
            Some(s) => s,
            None => Slab { slots: Vec::new(), free: Vec::new() },
        }
    }
}

} // verus!
