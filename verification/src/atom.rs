//! Handles: what the host holds of the atoms of an interpreter.

use vstd::prelude::*;
use crate::cell::Node;
use crate::error::Error;
use crate::graph::Ref;
use crate::lisp::Lisp;
use crate::sexp::Sexp;
use crate::value::{shows, tag_of, text_lossy, Value};

verus! {

/// A handle on an atom of an interpreter: one reference that its holder
/// gives up exactly once, by releasing it or by handing it to an operation
/// that consumes it. A handle cannot be copied. The empty handle refers to
/// nothing. A handle that is dropped without being released leaves its atom
/// in the arena for as long as the interpreter lives.
#[derive(Debug)]
pub struct Atom {
    target: Option<Ref>,
}

impl View for Atom {
    type V = Option<Ref>;

    /// What the handle refers to.
    closed spec fn view(&self) -> Option<Ref> {
        self.target
    }
}

impl Atom {
    /// The empty handle.
    pub fn empty() -> (a: Atom)
        ensures
            a@ is None,
    {
        Atom { target: None }
    }

    /// Whether this is the empty handle.
    pub fn is_empty(&self) -> (b: bool)
        ensures
            b == (self@ is None),
    {
        self.target.is_none()
    }

    /// The handle for one reference to the atom that `r` refers to.
    pub(crate) fn holding(r: Ref) -> (a: Atom)
        ensures
            a@ == Some(r),
    {
        Atom { target: Some(r) }
    }

    /// What the handle refers to.
    pub(crate) fn target(&self) -> (r: Option<Ref>)
        ensures
            r == self@,
    {
        self.target
    }

    /// A new handle on the first part of the pair. The pair stays as it is.
    pub fn car(&self, lisp: &mut Lisp) -> (r: Result<Atom, Error>)
        requires
            old(lisp).wf(),
        ensures
            old(lisp).steps(final(lisp)),
            old(lisp).memory().within(final(lisp).memory(), 1),
            r is Ok <==> old(lisp).owns(self) && old(lisp).value(self) is Pair && old(
                lisp,
            ).memory().held(old(lisp).part(self, false)) < u64::MAX,
            old(lisp).made(final(lisp), r, old(lisp).value(self).first()),
            r matches Err(e) ==> final(lisp).memory() == old(lisp).memory() && e == (if !old(
                lisp,
            ).owns(self) {
                Error::StaleHandle
            } else if !(old(lisp).value(self) is Pair) {
                Error::TypeMismatch
            } else {
                Error::OutOfSpace
            }),
    {
        lisp.part_of(self, false)
    }

    /// A new handle on the second part of the pair. The pair stays as it is.
    pub fn cdr(&self, lisp: &mut Lisp) -> (r: Result<Atom, Error>)
        requires
            old(lisp).wf(),
        ensures
            old(lisp).steps(final(lisp)),
            old(lisp).memory().within(final(lisp).memory(), 1),
            r is Ok <==> old(lisp).owns(self) && old(lisp).value(self) is Pair && old(
                lisp,
            ).memory().held(old(lisp).part(self, true)) < u64::MAX,
            old(lisp).made(final(lisp), r, old(lisp).value(self).rest()),
            r matches Err(e) ==> final(lisp).memory() == old(lisp).memory() && e == (if !old(
                lisp,
            ).owns(self) {
                Error::StaleHandle
            } else if !(old(lisp).value(self) is Pair) {
                Error::TypeMismatch
            } else {
                Error::OutOfSpace
            }),
    {
        lisp.part_of(self, true)
    }

    /// What the atom holds. Of a pair only the tag is given; the name of a
    /// symbol is decoded as UTF-8, lossily.
    pub fn value(&self, lisp: &Lisp) -> (r: Result<Value, Error>)
        requires
            lisp.wf(),
        ensures
            r is Ok <==> lisp.owns(self),
            match r {
                Ok(v) => shows(v, lisp.value(self)),
                Err(e) => e == Error::StaleHandle,
            },
    {
        let node: Node = match lisp.look(self) {
            Ok(n) => n,
            Err(e) => {
                return Err(e);
            },
        };
        Ok(
            match node {
                Node::Absent => Value::Absent,
                Node::Nil => Value::Nil,
                Node::True => Value::True,
                Node::Char(c) => Value::Char(c),
                Node::Number(n) => Value::Number(n),
                Node::Pair(_, _) => Value::Pair,
                Node::Symbol(name) => {
                    let bytes: Vec<u8> = name.text();
                    Value::Symbol(text_lossy(bytes.as_slice()))
                },
                Node::Wildcard => Value::Wildcard,
            },
        )
    }

    /// The number of the tag of the atom, from 0 to 7.
    pub fn type_of(&self, lisp: &Lisp) -> (r: Result<i32, Error>)
        requires
            lisp.wf(),
        ensures
            r is Ok <==> lisp.owns(self),
            match r {
                Ok(t) => t == tag_of(lisp.value(self)),
                Err(e) => e == Error::StaleHandle,
            },
    {
        match lisp.look(self) {
            Ok(Node::Absent) => Ok(0),
            Ok(Node::Nil) => Ok(1),
            Ok(Node::True) => Ok(2),
            Ok(Node::Char(_)) => Ok(3),
            Ok(Node::Number(_)) => Ok(4),
            Ok(Node::Pair(_, _)) => Ok(5),
            Ok(Node::Symbol(_)) => Ok(6),
            Ok(Node::Wildcard) => Ok(7),
            Err(e) => Err(e),
        }
    }

    /// The character that the atom holds.
    pub fn char_value(&self, lisp: &Lisp) -> (r: Result<i8, Error>)
        requires
            lisp.wf(),
        ensures
            match r {
                Ok(c) => lisp.owns(self) && lisp.value(self) == Sexp::Char(c),
                Err(e) => e == (if !lisp.owns(self) {
                    Error::StaleHandle
                } else {
                    Error::TypeMismatch
                }) && !(lisp.owns(self) && lisp.value(self) is Char),
            },
    {
        match lisp.look(self) {
            Ok(Node::Char(c)) => Ok(c),
            Ok(_) => Err(Error::TypeMismatch),
            Err(e) => Err(e),
        }
    }

    /// The number that the atom holds.
    pub fn number_value(&self, lisp: &Lisp) -> (r: Result<i64, Error>)
        requires
            lisp.wf(),
        ensures
            match r {
                Ok(n) => lisp.owns(self) && lisp.value(self) == Sexp::Number(n),
                Err(e) => e == (if !lisp.owns(self) {
                    Error::StaleHandle
                } else {
                    Error::TypeMismatch
                }) && !(lisp.owns(self) && lisp.value(self) is Number),
            },
    {
        match lisp.look(self) {
            Ok(Node::Number(n)) => Ok(n),
            Ok(_) => Err(Error::TypeMismatch),
            Err(e) => Err(e),
        }
    }

    /// The bytes of the name of the symbol that the atom holds.
    pub fn symbol_name(&self, lisp: &Lisp) -> (r: Result<Vec<u8>, Error>)
        requires
            lisp.wf(),
        ensures
            match r {
                Ok(v) => lisp.owns(self) && lisp.value(self) == Sexp::Symbol(v@),
                Err(e) => e == (if !lisp.owns(self) {
                    Error::StaleHandle
                } else {
                    Error::TypeMismatch
                }) && !(lisp.owns(self) && lisp.value(self) is Symbol),
            },
    {
        match lisp.look(self) {
            Ok(Node::Symbol(name)) => Ok(name.text()),
            Ok(_) => Err(Error::TypeMismatch),
            Err(e) => Err(e),
        }
    }
}

} // verus!
