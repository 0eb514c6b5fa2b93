//! What expressions mean: evaluation as a function on values.

use vstd::prelude::*;
use crate::error::Error;
use crate::sexp::Sexp;

verus! {

/// The text of the symbol that marks a quoted expression: `quote`.
pub open spec fn quote_text() -> Seq<u8> {
    seq![113u8, 117u8, 111u8, 116u8, 101u8]
}

/// The symbol that marks a quoted expression.
pub open spec fn quote_marker() -> Sexp {
    Sexp::Symbol(quote_text())
}

/// The operations that the interpreter itself provides under a name.
#[derive(Clone, Copy, Debug, PartialEq, Eq, Structural)]
pub enum Builtin {
    /// `cons`: the pair of its two arguments.
    Cons,
    /// `car`: the first part of its argument, a pair.
    Car,
    /// `cdr`: the second part of its argument, a pair.
    Cdr,
}

/// The text `cons`.
pub open spec fn cons_text() -> Seq<u8> {
    seq![99u8, 111u8, 110u8, 115u8]
}

/// The text `car`.
pub open spec fn car_text() -> Seq<u8> {
    seq![99u8, 97u8, 114u8]
}

/// The text `cdr`.
pub open spec fn cdr_text() -> Seq<u8> {
    seq![99u8, 100u8, 114u8]
}

/// The name under which a builtin is known.
pub open spec fn builtin_text(b: Builtin) -> Seq<u8> {
    match b {
        Builtin::Cons => cons_text(),
        Builtin::Car => car_text(),
        Builtin::Cdr => cdr_text(),
    }
}

/// The builtin that a symbol of the given name denotes, if any.
pub open spec fn builtin_of(name: Seq<u8>) -> Option<Builtin> {
    if name == cons_text() {
        Some(Builtin::Cons)
    } else if name == car_text() {
        Some(Builtin::Car)
    } else if name == cdr_text() {
        Some(Builtin::Cdr)
    } else {
        None
    }
}

/// The value that an environment binds `name` to. An environment is a chain
/// of pairs; each entry that is a pair of a symbol and a value binds that
/// symbol, the first such entry wins, and the chain ends where it meets
/// anything but a pair.
pub open spec fn lookup(env: Sexp, name: Seq<u8>) -> Option<Sexp>
    decreases env,
{
    match env {
        Sexp::Pair(entry, rest) => match *entry {
            Sexp::Pair(key, value) => if *key == Sexp::Symbol(name) {
                Some(*value)
            } else {
                lookup(*rest, name)
            },
            _ => lookup(*rest, name),
        },
        _ => None,
    }
}

/// What a symbol evaluates to: its binding in the lexical environment, else
/// its global binding.
pub open spec fn resolve(globals: Sexp, env: Sexp, name: Seq<u8>) -> Result<Sexp, Error> {
    match lookup(env, name) {
        Some(v) => Ok(v),
        None => match lookup(globals, name) {
            Some(v) => Ok(v),
            None => Err(Error::UnboundSymbol),
        },
    }
}

/// The environment `env` with one entry in front of it for each of the
/// parameters from the `j`th on, bound to the value at the same place.
pub open spec fn bind(names: Seq<Sexp>, values: Seq<Sexp>, env: Sexp, j: int) -> Sexp
    decreases names.len() - j,
{
    if 0 <= j < names.len() {
        Sexp::cons(Sexp::cons(names[j], values[j]), bind(names, values, env, j + 1))
    } else {
        env
    }
}

/// What a quote form evaluates to, given what follows the marker: the one
/// expression there, as it stands.
pub open spec fn quoted(args: Sexp) -> Result<Sexp, Error> {
    match args {
        Sexp::Pair(x, tail) => match *tail {
            Sexp::Nil => Ok(*x),
            Sexp::Pair(_, _) => Err(Error::ArityMismatch),
            _ => Err(Error::IllFormedList),
        },
        Sexp::Nil => Err(Error::ArityMismatch),
        _ => Err(Error::IllFormedList),
    }
}

/// What a builtin returns for the given arguments.
pub open spec fn call(b: Builtin, values: Seq<Sexp>) -> Result<Sexp, Error> {
    match b {
        Builtin::Cons => if values.len() == 2 {
            Ok(Sexp::cons(values[0], values[1]))
        } else {
            Err(Error::ArityMismatch)
        },
        Builtin::Car => if values.len() == 1 {
            match values[0] {
                Sexp::Pair(a, _) => Ok(*a),
                _ => Err(Error::TypeMismatch),
            }
        } else {
            Err(Error::ArityMismatch)
        },
        Builtin::Cdr => if values.len() == 1 {
            match values[0] {
                Sexp::Pair(_, b) => Ok(*b),
                _ => Err(Error::TypeMismatch),
            }
        } else {
            Err(Error::ArityMismatch)
        },
    }
}

/// What `expr` evaluates to in the lexical environment `env`, with `globals`
/// as the global environment, when evaluation may nest `depth` levels deep.
///
/// A symbol evaluates to what it is bound to. A pair whose first part is the
/// quote marker evaluates to the quoted expression. Any other pair is an
/// application: its first part is evaluated, then the items of its second
/// part from left to right, and the first value is applied to the others.
/// Every other atom evaluates to itself.
pub open spec fn eval(globals: Sexp, env: Sexp, expr: Sexp, depth: nat) -> Result<Sexp, Error>
    decreases depth, 1nat, expr,
{
    if depth == 0 {
        Err(Error::DepthExceeded)
    } else {
        match expr {
            Sexp::Symbol(name) => resolve(globals, env, name),
            Sexp::Pair(op, args) => if *op == quote_marker() {
                quoted(*args)
            } else {
                match eval(globals, env, *op, (depth - 1) as nat) {
                    Err(e) => Err(e),
                    Ok(f) => match eval_each(globals, env, *args, depth) {
                        Err(e) => Err(e),
                        Ok(values) => apply(globals, f, values, (depth - 1) as nat),
                    },
                }
            },
            _ => Ok(expr),
        }
    }
}

/// The values of the items of `list`, evaluated from left to right. The
/// first item that fails ends the evaluation, and so does a chain of pairs
/// that does not end in `Nil`, once the items in front of its end are done.
pub open spec fn eval_each(globals: Sexp, env: Sexp, list: Sexp, depth: nat) -> Result<
    Seq<Sexp>,
    Error,
>
    decreases depth, 1nat, list,
{
    match list {
        Sexp::Nil => Ok(Seq::empty()),
        Sexp::Pair(x, rest) => if depth == 0 {
            Err(Error::DepthExceeded)
        } else {
            match eval(globals, env, *x, (depth - 1) as nat) {
                Err(e) => Err(e),
                Ok(v) => match eval_each(globals, env, *rest, depth) {
                    Err(e) => Err(e),
                    Ok(vs) => Ok(seq![v] + vs),
                },
            }
        },
        _ => Err(Error::IllFormedList),
    }
}

/// What `f` returns when it is applied to `values`. A symbol that names a
/// builtin stands for that builtin. A closure is a pair of a parameter list
/// and a pair of a body and a captured environment; its body is evaluated
/// with each parameter bound to the value at the same place, in front of the
/// captured environment. Nothing else can be applied.
pub open spec fn apply(globals: Sexp, f: Sexp, values: Seq<Sexp>, depth: nat) -> Result<
    Sexp,
    Error,
>
    decreases depth, 2nat, f,
{
    match f {
        Sexp::Symbol(name) => match builtin_of(name) {
            Some(b) => call(b, values),
            None => Err(Error::TypeMismatch),
        },
        Sexp::Pair(params, tail) => match *tail {
            Sexp::Pair(body, captured) => match params.items() {
                None => Err(Error::IllFormedList),
                Some(names) => if names.len() != values.len() {
                    Err(Error::ArityMismatch)
                } else {
                    eval(globals, bind(names, values, *captured, 0), *body, depth)
                },
            },
            _ => Err(Error::TypeMismatch),
        },
        _ => Err(Error::TypeMismatch),
    }
}

/// What the application of the operator `op` to the arguments `args`
/// evaluates to, for `depth` above zero.
pub open spec fn applied(globals: Sexp, env: Sexp, op: Sexp, args: Sexp, depth: nat) -> Result<
    Sexp,
    Error,
> {
    match eval(globals, env, op, (depth - 1) as nat) {
        Err(e) => Err(e),
        Ok(f) => match eval_each(globals, env, args, depth) {
            Err(e) => Err(e),
            Ok(values) => apply(globals, f, values, (depth - 1) as nat),
        },
    }
}

/// A bound on the steps that the application of `op` to `args` takes, for
/// `depth` above zero.
pub open spec fn spent_applied(globals: Sexp, env: Sexp, op: Sexp, args: Sexp, depth: nat) -> nat {
    spent(globals, env, op, (depth - 1) as nat) + match eval(globals, env, op, (depth - 1) as nat) {
        Err(_) => 0,
        Ok(f) => spent_each(globals, env, args, depth) + match eval_each(globals, env, args, depth) {
            Err(_) => 0,
            Ok(values) => spent_apply(globals, f, values, (depth - 1) as nat),
        },
    }
}

/// A bound on the steps that the evaluation of `expr` takes, where making
/// an atom and taking a handle are one step each: one for a symbol, a
/// quote form or an atom that evaluates to itself; for an application those
/// of its operator, of its arguments as far as they are evaluated, and of
/// the call.
pub open spec fn spent(globals: Sexp, env: Sexp, expr: Sexp, depth: nat) -> nat
    decreases depth, 1nat, expr,
{
    if depth == 0 {
        0
    } else {
        match expr {
            Sexp::Pair(op, args) => if *op == quote_marker() {
                1
            } else {
                spent(globals, env, *op, (depth - 1) as nat) + match eval(
                    globals,
                    env,
                    *op,
                    (depth - 1) as nat,
                ) {
                    Err(_) => 0,
                    Ok(f) => spent_each(globals, env, *args, depth) + match eval_each(
                        globals,
                        env,
                        *args,
                        depth,
                    ) {
                        Err(_) => 0,
                        Ok(values) => spent_apply(globals, f, values, (depth - 1) as nat),
                    },
                }
            },
            _ => 1,
        }
    }
}

/// A bound on the steps that the evaluation of the items of `list` takes:
/// those of each item up to the first that fails.
pub open spec fn spent_each(globals: Sexp, env: Sexp, list: Sexp, depth: nat) -> nat
    decreases depth, 1nat, list,
{
    match list {
        Sexp::Pair(x, rest) => if depth == 0 {
            0
        } else {
            spent(globals, env, *x, (depth - 1) as nat) + match eval(
                globals,
                env,
                *x,
                (depth - 1) as nat,
            ) {
                Err(_) => 0,
                Ok(_) => spent_each(globals, env, *rest, depth),
            }
        },
        _ => 0,
    }
}

/// A bound on the steps that applying `f` to `values` takes: one for a
/// builtin; for a closure one, two for each parameter, and those of its
/// body.
pub open spec fn spent_apply(globals: Sexp, f: Sexp, values: Seq<Sexp>, depth: nat) -> nat
    decreases depth, 2nat, f,
{
    match f {
        Sexp::Symbol(_) => 1,
        Sexp::Pair(params, tail) => match *tail {
            Sexp::Pair(body, captured) => match params.items() {
                Some(names) => if names.len() == values.len() {
                    1 + 2 * names.len() + spent(
                        globals,
                        bind(names, values, *captured, 0),
                        *body,
                        depth,
                    )
                } else {
                    0
                },
                None => 0,
            },
            _ => 0,
        },
        _ => 0,
    }
}

} // verus!
