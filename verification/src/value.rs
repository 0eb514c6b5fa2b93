//! What the host sees of an atom, and how it is printed.

use vstd::prelude::*;
use crate::sexp::Sexp;

verus! {

/// The text that lossy UTF-8 decoding makes of `bytes`.
pub uninterp spec fn lossy_text(bytes: Seq<u8>) -> Seq<char>;

/// `String::from_utf8_lossy`, made into an owned string: the bytes decoded
/// as UTF-8, with the replacement character in place of every part that is
/// no valid sequence. The result is a function of the bytes alone; the
/// contract gives it a name and says nothing more of it.
#[verifier::external_body]
pub(crate) fn text_lossy(bytes: &[u8]) -> (s: String)
    ensures
        s@ == lossy_text(bytes@),
{
    String::from_utf8_lossy(bytes).into_owned()
}

/// What an atom holds, as the host sees it.
#[derive(Debug, PartialEq, Eq)]
pub enum Value {
    /// Absence of a value; not the same as `Nil`.
    Absent,
    /// The empty list, which is also the false value.
    Nil,
    /// The truth value.
    True,
    /// A single character, as a signed byte.
    Char(i8),
    /// An integer.
    Number(i64),
    /// A cons cell; its two parts are reached through the accessors.
    Pair,
    /// An identifier, by its name.
    Symbol(String),
    /// The placeholder that matches anything.
    Wildcard,
}

/// The character of a decimal digit.
pub open spec fn digit_char(d: nat) -> char {
    (48 + d) as char
}

/// The decimal digits of `n`, without leading zeros.
pub open spec fn digits(n: nat) -> Seq<char>
    decreases n,
{
    if n < 10 {
        seq![digit_char(n)]
    } else {
        digits(n / 10).push(digit_char(n % 10))
    }
}

/// The decimal form of `n`, with a minus sign in front if it is negative.
pub open spec fn decimal(n: int) -> Seq<char> {
    if n < 0 {
        seq!['-'] + digits((-n) as nat)
    } else {
        digits(n as nat)
    }
}

/// The byte that a signed character is stored as.
pub open spec fn unsigned(c: i8) -> u8 {
    if c >= 0 {
        c as u8
    } else {
        (c + 256) as u8
    }
}

/// How a value is printed.
pub open spec fn shown(v: Value) -> Seq<char> {
    match v {
        Value::Absent => "None"@,
        Value::Nil => "Nil"@,
        Value::True => "T"@,
        Value::Char(c) => seq![unsigned(c) as char],
        Value::Number(n) => decimal(n as int),
        Value::Pair => "Pair"@,
        Value::Symbol(text) => text@,
        Value::Wildcard => "_"@,
    }
}

/// `i64::to_string`: the decimal form of the number, with a minus sign in
/// front of a negative one and no leading zeros.
#[verifier::external_body]
fn number_text(n: i64) -> (s: String)
    ensures
        s@ == decimal(n as int),
{
    n.to_string()
}

/// `String::from` for a character: the string of that one character.
#[verifier::external_body]
fn char_text(c: char) -> (s: String)
    ensures
        s@ == seq![c],
{
    String::from(c)
}

impl Value {
    /// The printed form of the value: the number in decimal, the character
    /// or the name of the symbol as it is, and a fixed word for each of the
    /// other tags.
    pub fn to_string(&self) -> (s: String)
        ensures
            s@ == shown(*self),
    {
        match self {
            Value::Absent => String::from_str("None"),
            Value::Nil => String::from_str("Nil"),
            Value::True => String::from_str("T"),
            Value::Char(c) => {
                let b: u8 = if *c >= 0 {
                    *c as u8
                } else {
                    (*c as i16 + 256) as u8
                };
                char_text(b as char)
            },
            Value::Number(n) => number_text(*n),
            Value::Pair => String::from_str("Pair"),
            Value::Symbol(text) => text.clone(),
            Value::Wildcard => String::from_str("_"),
        }
    }
}

/// `v` is what the host sees of an atom of value `t`.
pub open spec fn shows(v: Value, t: Sexp) -> bool {
    match t {
        Sexp::Absent => v is Absent,
        Sexp::Nil => v is Nil,
        Sexp::True => v is True,
        Sexp::Char(c) => v == Value::Char(c),
        Sexp::Number(n) => v == Value::Number(n),
        Sexp::Pair(_, _) => v is Pair,
        Sexp::Symbol(name) => v matches Value::Symbol(text) && text@ == lossy_text(name),
        Sexp::Wildcard => v is Wildcard,
    }
}

/// The number of the tag of an atom of value `t`.
pub open spec fn tag_of(t: Sexp) -> int {
    match t {
        Sexp::Absent => 0,
        Sexp::Nil => 1,
        Sexp::True => 2,
        Sexp::Char(_) => 3,
        Sexp::Number(_) => 4,
        Sexp::Pair(_, _) => 5,
        Sexp::Symbol(_) => 6,
        Sexp::Wildcard => 7,
    }
}

} // verus!
