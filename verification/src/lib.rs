//! An embeddable runtime for a minimal symbolic-expression language.
//!
//! Every runtime value is an atom that lives in a fixed-capacity arena
//! ([`Slab`]). The host makes an interpreter ([`Lisp`]) on an arena and works
//! with move-only handles ([`Atom`]), each of which stands for one reference
//! that is released exactly once or handed over to a consuming operation.
//! An atom leaves the arena when no handle and no pair refers to it any more.
//!
//! Expressions are evaluated by a recursive evaluator with lexical
//! environments, closures and a small table of builtins. What evaluation
//! means is defined on values as trees (`sexp`, `semantics`); the evaluator
//! (`eval`), the reader (`reader`) and the loader (`load`) work on the atoms
//! in the memory (`heap`, `graph`) and are proved to compute that meaning.
//! Evaluation nests no deeper than a fixed limit, and so does the reader.

pub mod atom;
pub mod cell;
pub mod error;
pub mod eval;
pub mod graph;
pub mod heap;
pub mod io;
pub mod laws;
pub mod lisp;
pub mod load;
pub mod module;
pub mod name;
pub mod reader;
pub mod semantics;
pub mod sexp;
pub mod slab;
pub mod value;

pub use atom::Atom;
pub use error::Error;
pub use lisp::Lisp;
pub use slab::Slab;
pub use value::Value;
