//! Values as trees.

use vstd::prelude::*;

verus! {

/// The value of an atom as a tree: what the atom is once the slots, stamps
/// and counts of the arena are forgotten. A symbol is given by the text of
/// its name.
pub enum Sexp {
    Absent,
    Nil,
    True,
    Char(i8),
    Number(i64),
    Pair(Box<Sexp>, Box<Sexp>),
    Symbol(Seq<u8>),
    Wildcard,
}

impl Sexp {
    /// The pair of `a` and `b`.
    pub open spec fn cons(a: Sexp, b: Sexp) -> Sexp {
        Sexp::Pair(Box::new(a), Box::new(b))
    }

    /// The first part of a pair.
    pub open spec fn first(self) -> Sexp {
        match self {
            Sexp::Pair(a, _) => *a,
            _ => Sexp::Absent,
        }
    }

    /// The second part of a pair.
    pub open spec fn rest(self) -> Sexp {
        match self {
            Sexp::Pair(_, b) => *b,
            _ => Sexp::Absent,
        }
    }

    /// The items of a proper list, or nothing if the chain of pairs does not
    /// end in `Nil`.
    pub open spec fn items(self) -> Option<Seq<Sexp>>
        decreases self,
    {
        match self {
            Sexp::Nil => Some(Seq::empty()),
            Sexp::Pair(a, b) => match b.items() {
                Some(tail) => Some(seq![*a] + tail),
                None => None,
            },
            _ => None,
        }
    }
}

} // verus!
