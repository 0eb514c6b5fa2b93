use rikiki::load::path_buffer;
use rikiki::{Atom, Error, Lisp, Slab, Value};

fn interpreter(slots: usize) -> Lisp {
    Lisp::new(Slab::new(slots).unwrap()).unwrap()
}

fn items(lisp: &mut Lisp, list: Atom) -> Vec<Value> {
    let mut out = Vec::new();
    let mut cur = list;
    while cur.value(lisp).unwrap() == Value::Pair {
        let first = cur.car(lisp).unwrap();
        out.push(first.value(lisp).unwrap());
        lisp.release(first).unwrap();
        let rest = cur.cdr(lisp).unwrap();
        lisp.release(cur).unwrap();
        cur = rest;
    }
    assert_eq!(cur.value(lisp).unwrap(), Value::Nil);
    lisp.release(cur).unwrap();
    out
}

fn symbol(name: &str) -> Value {
    Value::Symbol(name.to_string())
}

fn value_of(text: &str) -> Result<Value, Error> {
    let mut lisp = interpreter(1024);
    let a = lisp.load(text.as_bytes())?;
    let v = a.value(&lisp).unwrap();
    lisp.release(a).unwrap();
    Ok(v)
}

#[test]
fn load_returns_the_result_of_the_last_expression() {
    let mut lisp = interpreter(256);
    let result = lisp.load(b"42 (quote (a b))").unwrap();
    assert_eq!(items(&mut lisp, result), vec![symbol("a"), symbol("b")]);
    assert_eq!(lisp.occupancy(), 10);
}

#[test]
fn load_without_definitions_leaves_the_arena_as_it_was() {
    let mut lisp = interpreter(256);
    for text in ["42", "'(1 2 3)", "(cons 1 2)", "('((x) x) 42)", "(car '(1 2)) T"] {
        let a = lisp.load(text.as_bytes()).unwrap();
        lisp.release(a).unwrap();
        assert_eq!(lisp.occupancy(), 10);
    }
    for text in ["nowhere", "(car 1)", "(1 2", "(cons 1)", "1 2 )"] {
        assert!(lisp.load(text.as_bytes()).is_err());
        assert_eq!(lisp.occupancy(), 10);
    }
}

#[test]
fn load_of_one_number() {
    assert_eq!(value_of("42"), Ok(Value::Number(42)));
    assert_eq!(value_of("  42\n"), Ok(Value::Number(42)));
    assert_eq!(value_of("-42"), Ok(Value::Number(-42)));
    assert_eq!(value_of("0"), Ok(Value::Number(0)));
    assert_eq!(value_of("007"), Ok(Value::Number(7)));
}

#[test]
fn load_of_an_empty_text_gives_the_absent_value() {
    assert_eq!(value_of(""), Ok(Value::Absent));
    assert_eq!(value_of(" \t\r\n "), Ok(Value::Absent));
}

#[test]
fn load_reads_the_words_for_nil_true_and_the_wildcard() {
    assert_eq!(value_of("NIL"), Ok(Value::Nil));
    assert_eq!(value_of("T"), Ok(Value::True));
    assert_eq!(value_of("_"), Ok(Value::Wildcard));
    assert_eq!(value_of("()"), Ok(Value::Nil));
    assert_eq!(value_of("'nil"), Ok(symbol("nil")));
}

#[test]
fn load_reads_the_extreme_numbers() {
    assert_eq!(value_of("9223372036854775807"), Ok(Value::Number(i64::MAX)));
    assert_eq!(value_of("-9223372036854775808"), Ok(Value::Number(i64::MIN)));
    assert_eq!(value_of("0000000000000000000000000000000000000012"), Ok(Value::Number(12)));
}

#[test]
fn load_rejects_a_number_that_does_not_fit() {
    assert_eq!(value_of("9223372036854775808"), Err(Error::Syntax));
    assert_eq!(value_of("-9223372036854775809"), Err(Error::Syntax));
    assert_eq!(value_of("99999999999999999999999999999999999999999999"), Err(Error::Syntax));
}

#[test]
fn load_reads_other_tokens_as_symbols() {
    assert_eq!(value_of("'abc"), Ok(symbol("abc")));
    assert_eq!(value_of("'-"), Ok(symbol("-")));
    assert_eq!(value_of("'12ab"), Ok(symbol("12ab")));
    assert_eq!(value_of("'-x"), Ok(symbol("-x")));
    assert_eq!(value_of("'a.b"), Ok(symbol("a.b")));
    assert_eq!(value_of("'abcdefghijklmnopqrst"), Ok(symbol("abcdefghijklmno")));
}

#[test]
fn load_reads_the_quote_sign() {
    let mut lisp = interpreter(256);
    let result = lisp.load(b"'(1 (2) x)").unwrap();
    assert_eq!(
        items(&mut lisp, result),
        vec![Value::Number(1), Value::Pair, symbol("x")]
    );
    let result = lisp.load(b"''x").unwrap();
    assert_eq!(items(&mut lisp, result), vec![symbol("quote"), symbol("x")]);
    assert_eq!(lisp.occupancy(), 10);
}

#[test]
fn load_applies_builtins() {
    let mut lisp = interpreter(256);
    let result = lisp.load(b"(cons 1 '(2 3))").unwrap();
    assert_eq!(
        items(&mut lisp, result),
        vec![Value::Number(1), Value::Number(2), Value::Number(3)]
    );
    assert_eq!(value_of("(car '(1 2))"), Ok(Value::Number(1)));
    assert_eq!(value_of("(car (cdr '(1 2)))"), Ok(Value::Number(2)));
    assert_eq!(value_of("(cdr '(1))"), Ok(Value::Nil));
}

#[test]
fn load_applies_closures() {
    assert_eq!(value_of("('((x) x) 42)"), Ok(Value::Number(42)));
    assert_eq!(value_of("('((x y) (car y)) 1 '(2 3))"), Ok(Value::Number(2)));
    assert_eq!(value_of("('((f x) (f x)) car '(5 6))"), Ok(Value::Number(5)));
}

#[test]
fn load_keeps_definitions_for_what_follows() {
    assert_eq!(value_of("(def x 5) x"), Ok(Value::Number(5)));
    assert_eq!(value_of("(def x 5)"), Ok(Value::Number(5)));
    assert_eq!(value_of("(def id '((x) x)) (id 7)"), Ok(Value::Number(7)));
    assert_eq!(
        value_of("(def second '((l) (car (cdr l)))) (second '(1 2 3))"),
        Ok(Value::Number(2))
    );
    assert_eq!(value_of("(def x 1) (def x 2) x"), Ok(Value::Number(2)));
    assert_eq!(value_of("(def x 1) (def y x) y"), Ok(Value::Number(1)));
}

#[test]
fn definitions_stay_after_the_load() {
    let mut lisp = interpreter(256);
    let before = lisp.occupancy();
    let a = lisp.load(b"(def answer 42)").unwrap();
    lisp.release(a).unwrap();
    assert_eq!(lisp.occupancy(), before + 4);
    let env = lisp.nil().unwrap();
    let s = lisp.symbol("answer").unwrap();
    let v = lisp.eval(&env, s).unwrap();
    assert_eq!(v.value(&lisp).unwrap(), Value::Number(42));
    lisp.release(v).unwrap();
    let again = lisp.load(b"answer").unwrap();
    assert_eq!(again.value(&lisp).unwrap(), Value::Number(42));
    lisp.release(again).unwrap();
    lisp.release(env).unwrap();
    assert_eq!(lisp.occupancy(), before + 4);
}

#[test]
fn definition_of_a_builtin_name_shadows_it() {
    let mut lisp = interpreter(256);
    let result = lisp.load(b"(def car cdr) (car '(1 2))").unwrap();
    assert_eq!(items(&mut lisp, result), vec![Value::Number(2)]);
}

#[test]
fn lexical_binding_shadows_a_definition() {
    assert_eq!(value_of("(def x 1) ('((x) x) 2)"), Ok(Value::Number(2)));
}

#[test]
fn def_that_is_no_definition_is_an_application() {
    assert_eq!(value_of("(def x)"), Err(Error::UnboundSymbol));
    assert_eq!(value_of("(def 1 2)"), Err(Error::UnboundSymbol));
    assert_eq!(value_of("(def x 1 2)"), Err(Error::UnboundSymbol));
}

#[test]
fn definition_inside_an_expression_is_an_application() {
    assert_eq!(value_of("(car (def x '(1)))"), Err(Error::UnboundSymbol));
}

#[test]
fn load_defaults_defines_for_later_loads() {
    let mut lisp = interpreter(256);
    assert_eq!(lisp.load_defaults(b"(def first car) (def two 2)"), Ok(()));
    let a = lisp.load(b"(first '(9 8))").unwrap();
    assert_eq!(a.value(&lisp).unwrap(), Value::Number(9));
    lisp.release(a).unwrap();
    let b = lisp.load(b"two").unwrap();
    assert_eq!(b.value(&lisp).unwrap(), Value::Number(2));
    lisp.release(b).unwrap();
    assert_eq!(lisp.load_defaults(b"(").unwrap_err(), Error::Syntax);
}

#[test]
fn load_stops_at_the_first_error() {
    assert_eq!(value_of("1 y 2"), Err(Error::UnboundSymbol));
    assert_eq!(value_of("1 (car 1) y"), Err(Error::TypeMismatch));
    assert_eq!(value_of("(cons 1) y"), Err(Error::ArityMismatch));
    assert_eq!(value_of("y )"), Err(Error::UnboundSymbol));
}

#[test]
fn load_keeps_what_was_defined_before_an_error() {
    let mut lisp = interpreter(256);
    assert_eq!(lisp.load(b"(def x 3) nowhere").unwrap_err(), Error::UnboundSymbol);
    let a = lisp.load(b"x").unwrap();
    assert_eq!(a.value(&lisp).unwrap(), Value::Number(3));
    lisp.release(a).unwrap();
}

#[test]
fn load_rejects_unbalanced_parentheses() {
    assert_eq!(value_of(")"), Err(Error::Syntax));
    assert_eq!(value_of("("), Err(Error::Syntax));
    assert_eq!(value_of("(1 2"), Err(Error::Syntax));
    assert_eq!(value_of("'(1 2))"), Err(Error::Syntax));
    assert_eq!(value_of("'"), Err(Error::Syntax));
    assert_eq!(value_of("(quote"), Err(Error::Syntax));
}

#[test]
fn load_rejects_text_that_nests_too_deep() {
    let mut deep = String::from("'");
    for _ in 0..200 {
        deep.push('(');
    }
    for _ in 0..200 {
        deep.push(')');
    }
    assert_eq!(value_of(&deep), Err(Error::Syntax));
    let mut fine = String::from("'");
    for _ in 0..100 {
        fine.push('(');
    }
    for _ in 0..100 {
        fine.push(')');
    }
    assert_eq!(value_of(&fine), Ok(Value::Pair));
}

#[test]
fn load_reads_a_long_list() {
    let mut lisp = interpreter(8192);
    let mut text = String::from("'(");
    for i in 0..1000 {
        text.push_str(&format!("{} ", i));
    }
    text.push(')');
    let result = lisp.load(text.as_bytes()).unwrap();
    let values = items(&mut lisp, result);
    assert_eq!(values.len(), 1000);
    assert_eq!(values[0], Value::Number(0));
    assert_eq!(values[999], Value::Number(999));
    assert_eq!(lisp.occupancy(), 10);
}

#[test]
fn load_fails_when_the_arena_is_too_small() {
    let mut lisp = interpreter(12);
    assert_eq!(lisp.load(b"'(1 2 3)").unwrap_err(), Error::OutOfSpace);
    assert_eq!(lisp.occupancy(), 10);
    let a = lisp.load(b"1").unwrap();
    assert_eq!(a.value(&lisp).unwrap(), Value::Number(1));
    lisp.release(a).unwrap();
}

#[test]
fn load_leaves_the_stack_of_contexts_as_it_was() {
    let mut lisp = interpreter(256);
    assert_eq!(lisp.io_depth(), 1);
    let a = lisp.load(b"1 2 3").unwrap();
    assert_eq!(lisp.io_depth(), 1);
    lisp.release(a).unwrap();
    assert_eq!(lisp.load(b")").unwrap_err(), Error::Syntax);
    assert_eq!(lisp.io_depth(), 1);
}

#[test]
fn path_of_255_bytes_fits_the_buffer() {
    let path = "p".repeat(255);
    let buffer = path_buffer(&path).unwrap();
    assert_eq!(&buffer[..255], path.as_bytes());
    assert_eq!(buffer[255], 0);
}

#[test]
fn short_path_is_padded_with_zero_bytes() {
    let buffer = path_buffer("a/b.l").unwrap();
    assert_eq!(&buffer[..5], b"a/b.l");
    assert!(buffer[5..].iter().all(|&b| b == 0));
    let empty = path_buffer("").unwrap();
    assert!(empty.iter().all(|&b| b == 0));
}

#[test]
fn path_of_256_bytes_does_not_fit() {
    assert!(path_buffer(&"p".repeat(256)).is_none());
    assert!(path_buffer(&"p".repeat(1000)).is_none());
}

#[test]
fn host_definition_is_seen_by_evaluation() {
    let mut lisp = interpreter(256);
    let before = lisp.occupancy();
    let n = lisp.number(42).unwrap();
    assert_eq!(lisp.define("answer", n), Ok(()));
    assert_eq!(lisp.occupancy(), before + 4);
    let env = lisp.nil().unwrap();
    let s = lisp.symbol("answer").unwrap();
    let v = lisp.eval(&env, s).unwrap();
    assert_eq!(v.value(&lisp).unwrap(), Value::Number(42));
    lisp.release(v).unwrap();
    lisp.release(env).unwrap();
    let a = lisp.load(b"answer").unwrap();
    assert_eq!(a.value(&lisp).unwrap(), Value::Number(42));
    lisp.release(a).unwrap();
    assert_eq!(lisp.occupancy(), before + 4);
}

#[test]
fn later_host_definition_wins() {
    let mut lisp = interpreter(256);
    let one = lisp.number(1).unwrap();
    let two = lisp.number(2).unwrap();
    lisp.define("x", one).unwrap();
    lisp.define("x", two).unwrap();
    let a = lisp.load(b"x").unwrap();
    assert_eq!(a.value(&lisp).unwrap(), Value::Number(2));
    lisp.release(a).unwrap();
}

#[test]
fn host_definition_of_a_long_name_is_found_by_its_first_fifteen_bytes() {
    let mut lisp = interpreter(256);
    let one = lisp.number(1).unwrap();
    lisp.define("abcdefghijklmnopqrst", one).unwrap();
    let a = lisp.load(b"abcdefghijklmno").unwrap();
    assert_eq!(a.value(&lisp).unwrap(), Value::Number(1));
    lisp.release(a).unwrap();
    let b = lisp.load(b"abcdefghijklmnoXYZ").unwrap();
    assert_eq!(b.value(&lisp).unwrap(), Value::Number(1));
    lisp.release(b).unwrap();
}

#[test]
fn host_definition_with_an_empty_handle_is_stale() {
    let mut lisp = interpreter(256);
    let before = lisp.occupancy();
    assert_eq!(lisp.define("x", Atom::empty()).unwrap_err(), Error::StaleHandle);
    assert_eq!(lisp.occupancy(), before);
    assert_eq!(lisp.load(b"x").unwrap_err(), Error::UnboundSymbol);
}

#[test]
fn host_definition_in_a_full_arena_fails_and_consumes_the_value() {
    let mut lisp = interpreter(13);
    let n = lisp.number(1).unwrap();
    assert_eq!(lisp.define("x", n).unwrap_err(), Error::OutOfSpace);
    assert_eq!(lisp.occupancy(), 10);
    let mut lisp = interpreter(14);
    let n = lisp.number(1).unwrap();
    assert_eq!(lisp.define("x", n), Ok(()));
    assert_eq!(lisp.occupancy(), 14);
}

#[test]
fn registered_builtin_is_called_under_its_new_name() {
    let mut lisp = interpreter(256);
    let before = lisp.occupancy();
    assert_eq!(lisp.register("first", rikiki::semantics::Builtin::Car), Ok(()));
    assert_eq!(lisp.register("rest", rikiki::semantics::Builtin::Cdr), Ok(()));
    assert_eq!(lisp.register("pair", rikiki::semantics::Builtin::Cons), Ok(()));
    assert_eq!(lisp.occupancy(), before + 12);
    let a = lisp.load(b"(first (rest (pair 1 '(2 3))))").unwrap();
    assert_eq!(a.value(&lisp).unwrap(), Value::Number(2));
    lisp.release(a).unwrap();
    let b = lisp.load(b"first").unwrap();
    assert_eq!(b.value(&lisp).unwrap(), Value::Symbol("car".to_string()));
    lisp.release(b).unwrap();
    assert_eq!(lisp.occupancy(), before + 12);
}

#[test]
fn registration_needs_room_for_four_atoms() {
    let mut lisp = interpreter(13);
    assert_eq!(
        lisp.register("first", rikiki::semantics::Builtin::Car).unwrap_err(),
        Error::OutOfSpace
    );
    assert_eq!(lisp.occupancy(), 10);
    assert_eq!(lisp.load(b"first").unwrap_err(), Error::UnboundSymbol);
}
