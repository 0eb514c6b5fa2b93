use rikiki::{Atom, Error, Lisp, Slab, Value};

fn interpreter(slots: usize) -> Lisp {
    Lisp::new(Slab::new(slots).unwrap()).unwrap()
}

fn list(lisp: &mut Lisp, items: Vec<Atom>) -> Atom {
    let mut acc = lisp.nil().unwrap();
    for item in items.into_iter().rev() {
        acc = lisp.cons(item, acc).unwrap();
    }
    acc
}

fn items(lisp: &mut Lisp, list: Atom) -> Vec<Value> {
    let mut out = Vec::new();
    let mut cur = list;
    while cur.value(lisp).unwrap() == Value::Pair {
        let first = cur.car(lisp).unwrap();
        out.push(first.value(lisp).unwrap());
        lisp.release(first).unwrap();
        let rest = cur.cdr(lisp).unwrap();
        lisp.release(cur).unwrap();
        cur = rest;
    }
    assert_eq!(cur.value(lisp).unwrap(), Value::Nil);
    lisp.release(cur).unwrap();
    out
}

fn quoted(lisp: &mut Lisp, x: Atom) -> Atom {
    let q = lisp.quote().unwrap();
    list(lisp, vec![q, x])
}

fn binding(lisp: &mut Lisp, name: &str, value: Atom) -> Atom {
    let key = lisp.symbol(name).unwrap();
    lisp.cons(key, value).unwrap()
}

fn closure(lisp: &mut Lisp, params: Vec<&str>, body: Atom, env: Atom) -> Atom {
    let mut names = Vec::new();
    for p in params {
        names.push(lisp.symbol(p).unwrap());
    }
    let params = list(lisp, names);
    let tail = lisp.cons(body, env).unwrap();
    lisp.cons(params, tail).unwrap()
}

#[test]
fn quote_of_a_list_is_the_list_unevaluated() {
    let mut lisp = interpreter(256);
    let one = lisp.number(1).unwrap();
    let two = lisp.number(2).unwrap();
    let three = lisp.number(3).unwrap();
    let inner = list(&mut lisp, vec![one, two, three]);
    let expr = quoted(&mut lisp, inner);
    let env = lisp.nil().unwrap();
    let result = lisp.eval(&env, expr).unwrap();
    assert_eq!(
        items(&mut lisp, result),
        vec![Value::Number(1), Value::Number(2), Value::Number(3)]
    );
    lisp.release(env).unwrap();
}

#[test]
fn quote_does_not_look_at_the_environment() {
    let mut lisp = interpreter(256);
    let n = lisp.number(9).unwrap();
    let b = binding(&mut lisp, "x", n);
    let env = list(&mut lisp, vec![b]);
    let x = lisp.symbol("x").unwrap();
    let expr = quoted(&mut lisp, x);
    let result = lisp.eval(&env, expr).unwrap();
    assert_eq!(result.value(&lisp).unwrap(), Value::Symbol("x".to_string()));
    lisp.release(result).unwrap();
    lisp.release(env).unwrap();
}

#[test]
fn quote_of_an_application_is_not_applied() {
    let mut lisp = interpreter(256);
    let f = lisp.symbol("nothing").unwrap();
    let a = lisp.number(1).unwrap();
    let call = list(&mut lisp, vec![f, a]);
    let expr = quoted(&mut lisp, call);
    let env = lisp.nil().unwrap();
    let result = lisp.eval(&env, expr).unwrap();
    assert_eq!(
        items(&mut lisp, result),
        vec![Value::Symbol("nothing".to_string()), Value::Number(1)]
    );
    lisp.release(env).unwrap();
}

#[test]
fn quote_with_no_or_two_arguments_is_an_arity_mismatch() {
    let mut lisp = interpreter(256);
    let env = lisp.nil().unwrap();
    let q = lisp.quote().unwrap();
    let none = list(&mut lisp, vec![q]);
    assert_eq!(lisp.eval(&env, none).unwrap_err(), Error::ArityMismatch);
    let q = lisp.quote().unwrap();
    let a = lisp.number(1).unwrap();
    let b = lisp.number(2).unwrap();
    let two = list(&mut lisp, vec![q, a, b]);
    assert_eq!(lisp.eval(&env, two).unwrap_err(), Error::ArityMismatch);
    lisp.release(env).unwrap();
}

#[test]
fn quote_with_a_dotted_argument_is_ill_formed() {
    let mut lisp = interpreter(256);
    let env = lisp.nil().unwrap();
    let q = lisp.quote().unwrap();
    let a = lisp.number(1).unwrap();
    let expr = lisp.cons(q, a).unwrap();
    assert_eq!(lisp.eval(&env, expr).unwrap_err(), Error::IllFormedList);
    lisp.release(env).unwrap();
}

#[test]
fn symbol_bound_in_the_environment_evaluates_to_its_value() {
    let mut lisp = interpreter(256);
    let n = lisp.number(42).unwrap();
    let b = binding(&mut lisp, "x", n);
    let env = list(&mut lisp, vec![b]);
    let x = lisp.symbol("x").unwrap();
    let result = lisp.eval(&env, x).unwrap();
    assert_eq!(result.value(&lisp).unwrap(), Value::Number(42));
    lisp.release(result).unwrap();
    lisp.release(env).unwrap();
}

#[test]
fn unbound_symbol_is_an_error() {
    let mut lisp = interpreter(256);
    let n = lisp.number(42).unwrap();
    let b = binding(&mut lisp, "x", n);
    let env = list(&mut lisp, vec![b]);
    let y = lisp.symbol("y").unwrap();
    let before = lisp.occupancy();
    assert_eq!(lisp.eval(&env, y).unwrap_err(), Error::UnboundSymbol);
    assert_eq!(lisp.occupancy(), before - 1);
    lisp.release(env).unwrap();
}

#[test]
fn innermost_binding_wins() {
    let mut lisp = interpreter(256);
    let inner = lisp.number(1).unwrap();
    let outer = lisp.number(2).unwrap();
    let a = binding(&mut lisp, "x", inner);
    let b = binding(&mut lisp, "x", outer);
    let env = list(&mut lisp, vec![a, b]);
    let x = lisp.symbol("x").unwrap();
    let result = lisp.eval(&env, x).unwrap();
    assert_eq!(result.value(&lisp).unwrap(), Value::Number(1));
    lisp.release(result).unwrap();
    lisp.release(env).unwrap();
}

#[test]
fn entries_that_bind_nothing_are_passed_over() {
    let mut lisp = interpreter(256);
    let junk = lisp.number(0).unwrap();
    let n = lisp.number(3).unwrap();
    let b = binding(&mut lisp, "x", n);
    let env = list(&mut lisp, vec![junk, b]);
    let x = lisp.symbol("x").unwrap();
    let result = lisp.eval(&env, x).unwrap();
    assert_eq!(result.value(&lisp).unwrap(), Value::Number(3));
    lisp.release(result).unwrap();
    lisp.release(env).unwrap();
}

#[test]
fn any_atom_can_stand_for_an_environment() {
    let mut lisp = interpreter(256);
    let env = lisp.number(5).unwrap();
    let x = lisp.symbol("x").unwrap();
    assert_eq!(lisp.eval(&env, x).unwrap_err(), Error::UnboundSymbol);
    let n = lisp.number(1).unwrap();
    let result = lisp.eval(&env, n).unwrap();
    assert_eq!(result.value(&lisp).unwrap(), Value::Number(1));
    lisp.release(result).unwrap();
    lisp.release(env).unwrap();
}

#[test]
fn builtin_names_are_bound_globally() {
    let mut lisp = interpreter(256);
    let env = lisp.nil().unwrap();
    for name in ["cons", "car", "cdr"] {
        let s = lisp.symbol(name).unwrap();
        let result = lisp.eval(&env, s).unwrap();
        assert_eq!(result.value(&lisp).unwrap(), Value::Symbol(name.to_string()));
        lisp.release(result).unwrap();
    }
    lisp.release(env).unwrap();
}

#[test]
fn self_evaluating_atoms_are_fixed_points() {
    let mut lisp = interpreter(256);
    let n = lisp.number(1).unwrap();
    let b = binding(&mut lisp, "x", n);
    let env = list(&mut lisp, vec![b]);
    let before = lisp.occupancy();

    let a = lisp.nil().unwrap();
    let r = lisp.eval(&env, a).unwrap();
    assert_eq!(r.value(&lisp).unwrap(), Value::Nil);
    lisp.release(r).unwrap();

    let a = lisp.t().unwrap();
    let r = lisp.eval(&env, a).unwrap();
    assert_eq!(r.value(&lisp).unwrap(), Value::True);
    lisp.release(r).unwrap();

    let a = lisp.number(-7).unwrap();
    let r = lisp.eval(&env, a).unwrap();
    assert_eq!(r.value(&lisp).unwrap(), Value::Number(-7));
    lisp.release(r).unwrap();

    let s = lisp.string("c").unwrap();
    let a = s.car(&mut lisp).unwrap();
    lisp.release(s).unwrap();
    let r = lisp.eval(&env, a).unwrap();
    assert_eq!(r.value(&lisp).unwrap(), Value::Char(99));
    lisp.release(r).unwrap();

    let a = lisp.load(b"_").unwrap();
    assert_eq!(a.value(&lisp).unwrap(), Value::Wildcard);
    let r = lisp.eval(&env, a).unwrap();
    assert_eq!(r.value(&lisp).unwrap(), Value::Wildcard);
    lisp.release(r).unwrap();

    let a = lisp.load(b"").unwrap();
    assert_eq!(a.value(&lisp).unwrap(), Value::Absent);
    let r = lisp.eval(&env, a).unwrap();
    assert_eq!(r.value(&lisp).unwrap(), Value::Absent);
    assert_eq!(r.type_of(&lisp).unwrap(), 0);
    lisp.release(r).unwrap();

    assert_eq!(lisp.occupancy(), before);
    lisp.release(env).unwrap();
}

#[test]
fn evaluation_consumes_the_expression() {
    let mut lisp = interpreter(256);
    let env = lisp.nil().unwrap();
    let before = lisp.occupancy();
    let one = lisp.number(1).unwrap();
    let inner = list(&mut lisp, vec![one]);
    let expr = quoted(&mut lisp, inner);
    assert_eq!(lisp.occupancy(), before + 7);
    let result = lisp.eval(&env, expr).unwrap();
    assert_eq!(lisp.occupancy(), before + 3);
    lisp.release(result).unwrap();
    assert_eq!(lisp.occupancy(), before);
    lisp.release(env).unwrap();
}

#[test]
fn builtin_cons_makes_a_pair() {
    let mut lisp = interpreter(256);
    let env = lisp.nil().unwrap();
    let f = lisp.symbol("cons").unwrap();
    let a = lisp.number(1).unwrap();
    let b = lisp.number(2).unwrap();
    let expr = list(&mut lisp, vec![f, a, b]);
    let result = lisp.eval(&env, expr).unwrap();
    let first = result.car(&mut lisp).unwrap();
    let rest = result.cdr(&mut lisp).unwrap();
    assert_eq!(first.value(&lisp).unwrap(), Value::Number(1));
    assert_eq!(rest.value(&lisp).unwrap(), Value::Number(2));
    for h in [first, rest, result, env] {
        lisp.release(h).unwrap();
    }
    assert_eq!(lisp.occupancy(), 10);
}

#[test]
fn builtin_car_and_cdr_take_a_pair_apart() {
    let mut lisp = interpreter(256);
    let env = lisp.nil().unwrap();
    for (name, expected) in [("car", Value::Number(1)), ("cdr", Value::Number(2))] {
        let f = lisp.symbol(name).unwrap();
        let a = lisp.number(1).unwrap();
        let b = lisp.number(2).unwrap();
        let p = lisp.cons(a, b).unwrap();
        let arg = quoted(&mut lisp, p);
        let expr = list(&mut lisp, vec![f, arg]);
        let result = lisp.eval(&env, expr).unwrap();
        assert_eq!(result.value(&lisp).unwrap(), expected);
        lisp.release(result).unwrap();
    }
    lisp.release(env).unwrap();
    assert_eq!(lisp.occupancy(), 10);
}

#[test]
fn builtin_with_the_wrong_number_of_arguments_is_an_arity_mismatch() {
    let mut lisp = interpreter(256);
    let env = lisp.nil().unwrap();
    let f = lisp.symbol("cons").unwrap();
    let a = lisp.number(1).unwrap();
    let expr = list(&mut lisp, vec![f, a]);
    assert_eq!(lisp.eval(&env, expr).unwrap_err(), Error::ArityMismatch);
    let f = lisp.symbol("car").unwrap();
    let expr = list(&mut lisp, vec![f]);
    assert_eq!(lisp.eval(&env, expr).unwrap_err(), Error::ArityMismatch);
    lisp.release(env).unwrap();
    assert_eq!(lisp.occupancy(), 10);
}

#[test]
fn builtin_car_of_a_number_is_a_type_mismatch() {
    let mut lisp = interpreter(256);
    let env = lisp.nil().unwrap();
    let f = lisp.symbol("car").unwrap();
    let a = lisp.number(1).unwrap();
    let expr = list(&mut lisp, vec![f, a]);
    assert_eq!(lisp.eval(&env, expr).unwrap_err(), Error::TypeMismatch);
    lisp.release(env).unwrap();
    assert_eq!(lisp.occupancy(), 10);
}

#[test]
fn number_cannot_be_applied() {
    let mut lisp = interpreter(256);
    let env = lisp.nil().unwrap();
    let f = lisp.number(1).unwrap();
    let a = lisp.number(2).unwrap();
    let expr = list(&mut lisp, vec![f, a]);
    assert_eq!(lisp.eval(&env, expr).unwrap_err(), Error::TypeMismatch);
    lisp.release(env).unwrap();
}

#[test]
fn symbol_that_names_no_builtin_cannot_be_applied() {
    let mut lisp = interpreter(256);
    let s = lisp.symbol("other").unwrap();
    let b = binding(&mut lisp, "f", s);
    let env = list(&mut lisp, vec![b]);
    let f = lisp.symbol("f").unwrap();
    let expr = list(&mut lisp, vec![f]);
    assert_eq!(lisp.eval(&env, expr).unwrap_err(), Error::TypeMismatch);
    lisp.release(env).unwrap();
}

#[test]
fn argument_list_that_does_not_end_in_nil_is_ill_formed() {
    let mut lisp = interpreter(256);
    let env = lisp.nil().unwrap();
    let f = lisp.symbol("cons").unwrap();
    let a = lisp.number(1).unwrap();
    let b = lisp.number(2).unwrap();
    let tail = lisp.cons(a, b).unwrap();
    let expr = lisp.cons(f, tail).unwrap();
    assert_eq!(lisp.eval(&env, expr).unwrap_err(), Error::IllFormedList);
    lisp.release(env).unwrap();
    assert_eq!(lisp.occupancy(), 10);
}

#[test]
fn arguments_are_evaluated_from_left_to_right() {
    let mut lisp = interpreter(256);
    let env = lisp.nil().unwrap();
    let f = lisp.symbol("cons").unwrap();
    let unbound = lisp.symbol("nowhere").unwrap();
    let g = lisp.number(1).unwrap();
    let h = lisp.number(2).unwrap();
    let bad = list(&mut lisp, vec![g, h]);
    let expr = list(&mut lisp, vec![f, unbound, bad]);
    assert_eq!(lisp.eval(&env, expr).unwrap_err(), Error::UnboundSymbol);
    let f = lisp.symbol("cons").unwrap();
    let unbound = lisp.symbol("nowhere").unwrap();
    let g = lisp.number(1).unwrap();
    let h = lisp.number(2).unwrap();
    let bad = list(&mut lisp, vec![g, h]);
    let expr = list(&mut lisp, vec![f, bad, unbound]);
    assert_eq!(lisp.eval(&env, expr).unwrap_err(), Error::TypeMismatch);
    lisp.release(env).unwrap();
}

#[test]
fn closure_binds_its_parameters() {
    let mut lisp = interpreter(256);
    let env = lisp.nil().unwrap();
    let body = lisp.symbol("y").unwrap();
    let captured = lisp.nil().unwrap();
    let c = closure(&mut lisp, vec!["x", "y"], body, captured);
    let f = quoted(&mut lisp, c);
    let a = lisp.number(1).unwrap();
    let b = lisp.number(2).unwrap();
    let expr = list(&mut lisp, vec![f, a, b]);
    let result = lisp.eval(&env, expr).unwrap();
    assert_eq!(result.value(&lisp).unwrap(), Value::Number(2));
    lisp.release(result).unwrap();
    lisp.release(env).unwrap();
    assert_eq!(lisp.occupancy(), 10);
}

#[test]
fn closure_sees_its_captured_environment_and_not_the_callers() {
    let mut lisp = interpreter(256);
    let caller = lisp.number(100).unwrap();
    let b = binding(&mut lisp, "z", caller);
    let w = lisp.number(200).unwrap();
    let b2 = binding(&mut lisp, "w", w);
    let env = list(&mut lisp, vec![b, b2]);

    let kept = lisp.number(5).unwrap();
    let kb = binding(&mut lisp, "z", kept);
    let captured = list(&mut lisp, vec![kb]);
    let body = lisp.symbol("z").unwrap();
    let c = closure(&mut lisp, vec!["x"], body, captured);
    let f = quoted(&mut lisp, c);
    let a = lisp.number(1).unwrap();
    let expr = list(&mut lisp, vec![f, a]);
    let result = lisp.eval(&env, expr).unwrap();
    assert_eq!(result.value(&lisp).unwrap(), Value::Number(5));
    lisp.release(result).unwrap();

    let captured = lisp.nil().unwrap();
    let body = lisp.symbol("w").unwrap();
    let c = closure(&mut lisp, vec!["x"], body, captured);
    let f = quoted(&mut lisp, c);
    let a = lisp.number(1).unwrap();
    let expr = list(&mut lisp, vec![f, a]);
    assert_eq!(lisp.eval(&env, expr).unwrap_err(), Error::UnboundSymbol);
    lisp.release(env).unwrap();
    assert_eq!(lisp.occupancy(), 10);
}

#[test]
fn parameter_shadows_the_captured_binding() {
    let mut lisp = interpreter(256);
    let env = lisp.nil().unwrap();
    let kept = lisp.number(5).unwrap();
    let kb = binding(&mut lisp, "x", kept);
    let captured = list(&mut lisp, vec![kb]);
    let body = lisp.symbol("x").unwrap();
    let c = closure(&mut lisp, vec!["x"], body, captured);
    let f = quoted(&mut lisp, c);
    let a = lisp.number(1).unwrap();
    let expr = list(&mut lisp, vec![f, a]);
    let result = lisp.eval(&env, expr).unwrap();
    assert_eq!(result.value(&lisp).unwrap(), Value::Number(1));
    lisp.release(result).unwrap();
    lisp.release(env).unwrap();
}

#[test]
fn closure_applied_to_the_wrong_number_of_arguments_is_an_arity_mismatch() {
    let mut lisp = interpreter(256);
    let env = lisp.nil().unwrap();
    for given in [0usize, 1, 3, 4] {
        let body = lisp.symbol("x").unwrap();
        let captured = lisp.nil().unwrap();
        let c = closure(&mut lisp, vec!["x", "y"], body, captured);
        let f = quoted(&mut lisp, c);
        let mut parts = vec![f];
        for i in 0..given {
            parts.push(lisp.number(i as i64).unwrap());
        }
        let expr = list(&mut lisp, parts);
        assert_eq!(lisp.eval(&env, expr).unwrap_err(), Error::ArityMismatch);
    }
    let body = lisp.symbol("x").unwrap();
    let captured = lisp.nil().unwrap();
    let c = closure(&mut lisp, vec![], body, captured);
    let f = quoted(&mut lisp, c);
    let a = lisp.number(1).unwrap();
    let expr = list(&mut lisp, vec![f, a]);
    assert_eq!(lisp.eval(&env, expr).unwrap_err(), Error::ArityMismatch);
    lisp.release(env).unwrap();
    assert_eq!(lisp.occupancy(), 10);
}

#[test]
fn closure_without_parameters_is_applied_to_nothing() {
    let mut lisp = interpreter(256);
    let env = lisp.nil().unwrap();
    let body = lisp.number(8).unwrap();
    let captured = lisp.nil().unwrap();
    let c = closure(&mut lisp, vec![], body, captured);
    let f = quoted(&mut lisp, c);
    let expr = list(&mut lisp, vec![f]);
    let result = lisp.eval(&env, expr).unwrap();
    assert_eq!(result.value(&lisp).unwrap(), Value::Number(8));
    lisp.release(result).unwrap();
    lisp.release(env).unwrap();
}

#[test]
fn closure_with_a_dotted_parameter_list_is_ill_formed() {
    let mut lisp = interpreter(256);
    let env = lisp.nil().unwrap();
    let x = lisp.symbol("x").unwrap();
    let y = lisp.symbol("y").unwrap();
    let params = lisp.cons(x, y).unwrap();
    let body = lisp.symbol("x").unwrap();
    let captured = lisp.nil().unwrap();
    let tail = lisp.cons(body, captured).unwrap();
    let c = lisp.cons(params, tail).unwrap();
    let f = quoted(&mut lisp, c);
    let a = lisp.number(1).unwrap();
    let expr = list(&mut lisp, vec![f, a]);
    assert_eq!(lisp.eval(&env, expr).unwrap_err(), Error::IllFormedList);
    lisp.release(env).unwrap();
}

#[test]
fn pair_without_a_body_cannot_be_applied() {
    let mut lisp = interpreter(256);
    let env = lisp.nil().unwrap();
    let x = lisp.symbol("x").unwrap();
    let params = list(&mut lisp, vec![x]);
    let n = lisp.number(1).unwrap();
    let c = lisp.cons(params, n).unwrap();
    let f = quoted(&mut lisp, c);
    let a = lisp.number(1).unwrap();
    let expr = list(&mut lisp, vec![f, a]);
    assert_eq!(lisp.eval(&env, expr).unwrap_err(), Error::TypeMismatch);
    lisp.release(env).unwrap();
}

#[test]
fn endless_application_stops_at_the_depth_limit() {
    let mut lisp = interpreter(4096);
    let env = lisp.nil().unwrap();
    let before = lisp.occupancy();
    let mut halves = Vec::new();
    for _ in 0..2 {
        let f1 = lisp.symbol("f").unwrap();
        let f2 = lisp.symbol("f").unwrap();
        let body = list(&mut lisp, vec![f1, f2]);
        let captured = lisp.nil().unwrap();
        let c = closure(&mut lisp, vec!["f"], body, captured);
        halves.push(quoted(&mut lisp, c));
    }
    let expr = list(&mut lisp, halves);
    assert_eq!(lisp.eval(&env, expr).unwrap_err(), Error::DepthExceeded);
    assert_eq!(lisp.occupancy(), before);
    lisp.release(env).unwrap();
}

#[test]
fn evaluation_with_an_empty_handle_is_stale() {
    let mut lisp = interpreter(256);
    let env = lisp.nil().unwrap();
    assert_eq!(lisp.eval(&env, Atom::empty()).unwrap_err(), Error::StaleHandle);
    let before = lisp.occupancy();
    let n = lisp.number(1).unwrap();
    assert_eq!(lisp.eval(&Atom::empty(), n).unwrap_err(), Error::StaleHandle);
    assert_eq!(lisp.occupancy(), before);
    lisp.release(env).unwrap();
}

#[test]
fn application_fails_when_the_arena_has_no_room_for_the_frame() {
    let mut lisp = interpreter(10 + 17);
    let env = lisp.nil().unwrap();
    let body = lisp.symbol("x").unwrap();
    let captured = lisp.nil().unwrap();
    let c = closure(&mut lisp, vec!["x"], body, captured);
    let f = quoted(&mut lisp, c);
    let a = lisp.number(1).unwrap();
    let expr = list(&mut lisp, vec![f, a]);
    let used = lisp.occupancy();
    assert!(lisp.capacity() - used < 2);
    assert_eq!(lisp.eval(&env, expr).unwrap_err(), Error::OutOfSpace);
    lisp.release(env).unwrap();
    assert_eq!(lisp.occupancy(), 10);
}
