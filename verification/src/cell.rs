//! What one slot of the arena holds.

use vstd::prelude::*;
use crate::name::Name;

verus! {

/// What a slot of the arena holds for one atom: its tag and payload. The two
/// parts of a pair are named by the slots they live in.
#[derive(Clone, Copy, Debug)]
pub enum Node {
    Absent,
    Nil,
    True,
    Char(i8),
    Number(i64),
    Pair(usize, usize),
    Symbol(Name),
    Wildcard,
}

/// One occupied slot of the arena.
#[derive(Clone, Copy, Debug)]
pub struct Cell {
    /// The atom itself.
    pub node: Node,
    /// When the atom was made. No two atoms ever share a stamp, so a stamp
    /// tells an atom from a later one that reuses its slot.
    pub stamp: u64,
    /// Number of handles that the host holds on the atom.
    pub held: u64,
    /// Number of times the atom is a part of a pair.
    pub links: u64,
}

} // verus!
