use rikiki::{Atom, Error, Lisp, Slab, Value};

fn interpreter(slots: usize) -> Lisp {
    Lisp::new(Slab::new(slots).unwrap()).unwrap()
}

#[test]
fn nil_is_nil() {
    let mut lisp = interpreter(64);
    let a = lisp.nil().unwrap();
    assert_eq!(a.value(&lisp).unwrap(), Value::Nil);
    assert_eq!(a.type_of(&lisp).unwrap(), 1);
    lisp.release(a).unwrap();
}

#[test]
fn t_is_true() {
    let mut lisp = interpreter(64);
    let a = lisp.t().unwrap();
    assert_eq!(a.value(&lisp).unwrap(), Value::True);
    assert_eq!(a.type_of(&lisp).unwrap(), 2);
    lisp.release(a).unwrap();
}

#[test]
fn number_keeps_any_value() {
    let mut lisp = interpreter(64);
    for n in [0i64, 1, -1, 42, i64::MAX, i64::MIN] {
        let a = lisp.number(n).unwrap();
        assert_eq!(a.value(&lisp).unwrap(), Value::Number(n));
        assert_eq!(a.number_value(&lisp).unwrap(), n);
        assert_eq!(a.type_of(&lisp).unwrap(), 4);
        lisp.release(a).unwrap();
    }
}

#[test]
fn quote_is_the_symbol_quote() {
    let mut lisp = interpreter(64);
    let a = lisp.quote().unwrap();
    assert_eq!(a.value(&lisp).unwrap(), Value::Symbol("quote".to_string()));
    assert_eq!(a.symbol_name(&lisp).unwrap(), b"quote".to_vec());
    assert_eq!(a.type_of(&lisp).unwrap(), 6);
    lisp.release(a).unwrap();
}

#[test]
fn symbol_keeps_a_short_name() {
    let mut lisp = interpreter(64);
    let a = lisp.symbol("hello").unwrap();
    assert_eq!(a.value(&lisp).unwrap(), Value::Symbol("hello".to_string()));
    lisp.release(a).unwrap();
}

#[test]
fn symbol_keeps_fifteen_bytes() {
    let mut lisp = interpreter(64);
    let a = lisp.symbol("abcdefghijklmno").unwrap();
    assert_eq!(a.value(&lisp).unwrap(), Value::Symbol("abcdefghijklmno".to_string()));
    lisp.release(a).unwrap();
}

#[test]
fn symbol_of_twenty_bytes_is_cut_to_fifteen() {
    let mut lisp = interpreter(64);
    let a = lisp.symbol("abcdefghijklmnopqrst").unwrap();
    assert_eq!(a.value(&lisp).unwrap(), Value::Symbol("abcdefghijklmno".to_string()));
    assert_eq!(a.symbol_name(&lisp).unwrap(), b"abcdefghijklmno".to_vec());
    let b = lisp.symbol("abcdefghijklmnopqrst").unwrap();
    assert_eq!(b.symbol_name(&lisp).unwrap(), a.symbol_name(&lisp).unwrap());
    lisp.release(a).unwrap();
    lisp.release(b).unwrap();
}

#[test]
fn symbol_ends_at_a_zero_byte() {
    let mut lisp = interpreter(64);
    let a = lisp.symbol("ab\0cd").unwrap();
    assert_eq!(a.symbol_name(&lisp).unwrap(), b"ab".to_vec());
    lisp.release(a).unwrap();
}

#[test]
fn symbol_cut_inside_a_character_is_shown_with_a_replacement() {
    let mut lisp = interpreter(64);
    let a = lisp.symbol("aaaaaaaaaaaaaa\u{e9}").unwrap();
    let mut bytes = b"aaaaaaaaaaaaaa".to_vec();
    bytes.push(0xc3);
    assert_eq!(a.symbol_name(&lisp).unwrap(), bytes);
    assert_eq!(a.value(&lisp).unwrap(), Value::Symbol("aaaaaaaaaaaaaa\u{fffd}".to_string()));
    lisp.release(a).unwrap();
}

#[test]
fn symbol_of_two_byte_characters_is_decoded() {
    let mut lisp = interpreter(64);
    let a = lisp.symbol("\u{e9}t\u{e9}").unwrap();
    assert_eq!(a.value(&lisp).unwrap(), Value::Symbol("\u{e9}t\u{e9}".to_string()));
    lisp.release(a).unwrap();
}

#[test]
fn string_is_a_list_of_characters() {
    let mut lisp = interpreter(64);
    let before = lisp.occupancy();
    let s = lisp.string("ab").unwrap();
    assert_eq!(lisp.occupancy(), before + 5);
    assert_eq!(s.value(&lisp).unwrap(), Value::Pair);
    let a = s.car(&mut lisp).unwrap();
    assert_eq!(a.value(&lisp).unwrap(), Value::Char(97));
    assert_eq!(a.char_value(&lisp).unwrap(), 97);
    let rest = s.cdr(&mut lisp).unwrap();
    let b = rest.car(&mut lisp).unwrap();
    assert_eq!(b.value(&lisp).unwrap(), Value::Char(98));
    let end = rest.cdr(&mut lisp).unwrap();
    assert_eq!(end.value(&lisp).unwrap(), Value::Nil);
    for h in [a, b, rest, end, s] {
        lisp.release(h).unwrap();
    }
    assert_eq!(lisp.occupancy(), before);
}

#[test]
fn string_of_a_high_byte_is_a_negative_character() {
    let mut lisp = interpreter(64);
    let s = lisp.string("\u{e9}").unwrap();
    let a = s.car(&mut lisp).unwrap();
    assert_eq!(a.char_value(&lisp).unwrap(), 0xc3u8 as i8);
    lisp.release(a).unwrap();
    lisp.release(s).unwrap();
}

#[test]
fn empty_string_is_nil() {
    let mut lisp = interpreter(64);
    let s = lisp.string("").unwrap();
    assert_eq!(s.value(&lisp).unwrap(), Value::Nil);
    lisp.release(s).unwrap();
}

#[test]
fn first_and_rest_of_a_pair() {
    let mut lisp = interpreter(64);
    let a = lisp.number(1).unwrap();
    let b = lisp.symbol("b").unwrap();
    let p = lisp.cons(a, b).unwrap();
    assert_eq!(p.value(&lisp).unwrap(), Value::Pair);
    assert_eq!(p.type_of(&lisp).unwrap(), 5);
    let first = p.car(&mut lisp).unwrap();
    let rest = p.cdr(&mut lisp).unwrap();
    assert_eq!(first.value(&lisp).unwrap(), Value::Number(1));
    assert_eq!(rest.value(&lisp).unwrap(), Value::Symbol("b".to_string()));
    assert_eq!(p.value(&lisp).unwrap(), Value::Pair);
    lisp.release(first).unwrap();
    lisp.release(rest).unwrap();
    lisp.release(p).unwrap();
}

#[test]
fn pair_of_pairs() {
    let mut lisp = interpreter(64);
    let a = lisp.number(1).unwrap();
    let b = lisp.number(2).unwrap();
    let inner = lisp.cons(a, b).unwrap();
    let c = lisp.number(3).unwrap();
    let outer = lisp.cons(inner, c).unwrap();
    let first = outer.car(&mut lisp).unwrap();
    assert_eq!(first.value(&lisp).unwrap(), Value::Pair);
    let one = first.car(&mut lisp).unwrap();
    let two = first.cdr(&mut lisp).unwrap();
    assert_eq!(one.value(&lisp).unwrap(), Value::Number(1));
    assert_eq!(two.value(&lisp).unwrap(), Value::Number(2));
    for h in [one, two, first, outer] {
        lisp.release(h).unwrap();
    }
}

#[test]
fn type_is_stable_across_borrowing_calls() {
    let mut lisp = interpreter(64);
    let a = lisp.number(7).unwrap();
    let b = lisp.nil().unwrap();
    let p = lisp.cons(a, b).unwrap();
    for _ in 0..10 {
        assert_eq!(p.type_of(&lisp).unwrap(), 5);
        let x = p.car(&mut lisp).unwrap();
        assert_eq!(x.type_of(&lisp).unwrap(), 4);
        assert_eq!(x.value(&lisp).unwrap(), Value::Number(7));
        let y = p.cdr(&mut lisp).unwrap();
        assert_eq!(y.type_of(&lisp).unwrap(), 1);
        lisp.release(x).unwrap();
        lisp.release(y).unwrap();
    }
    assert_eq!(p.type_of(&lisp).unwrap(), 5);
    lisp.release(p).unwrap();
}

#[test]
fn first_of_an_atom_that_is_no_pair_is_a_type_mismatch() {
    let mut lisp = interpreter(64);
    let a = lisp.number(1).unwrap();
    assert_eq!(a.car(&mut lisp).unwrap_err(), Error::TypeMismatch);
    assert_eq!(a.cdr(&mut lisp).unwrap_err(), Error::TypeMismatch);
    assert_eq!(a.value(&lisp).unwrap(), Value::Number(1));
    lisp.release(a).unwrap();
}

#[test]
fn readers_check_the_tag() {
    let mut lisp = interpreter(64);
    let n = lisp.number(1).unwrap();
    let s = lisp.symbol("s").unwrap();
    assert_eq!(n.char_value(&lisp).unwrap_err(), Error::TypeMismatch);
    assert_eq!(n.symbol_name(&lisp).unwrap_err(), Error::TypeMismatch);
    assert_eq!(s.number_value(&lisp).unwrap_err(), Error::TypeMismatch);
    assert_eq!(s.char_value(&lisp).unwrap_err(), Error::TypeMismatch);
    lisp.release(n).unwrap();
    lisp.release(s).unwrap();
}

#[test]
fn empty_handle_is_released_without_effect() {
    let mut lisp = interpreter(64);
    let before = lisp.occupancy();
    let e = Atom::empty();
    assert!(e.is_empty());
    assert_eq!(lisp.release(e), Ok(()));
    assert_eq!(lisp.occupancy(), before);
}

#[test]
fn empty_handle_cannot_be_read() {
    let mut lisp = interpreter(64);
    let e = Atom::empty();
    assert_eq!(e.value(&lisp).unwrap_err(), Error::StaleHandle);
    assert_eq!(e.type_of(&lisp).unwrap_err(), Error::StaleHandle);
    assert_eq!(e.car(&mut lisp).unwrap_err(), Error::StaleHandle);
    assert_eq!(e.number_value(&lisp).unwrap_err(), Error::StaleHandle);
}

#[test]
fn handle_of_another_interpreter_is_stale() {
    let mut one = interpreter(64);
    let mut two = interpreter(64);
    let a = one.number(1).unwrap();
    let b = one.number(2).unwrap();
    assert_eq!(b.value(&two).unwrap_err(), Error::StaleHandle);
    assert_eq!(two.release(b).unwrap_err(), Error::StaleHandle);
    one.release(a).unwrap();
}

#[test]
fn cons_with_an_empty_handle_is_stale_and_consumes_the_other() {
    let mut lisp = interpreter(64);
    let before = lisp.occupancy();
    let a = lisp.number(1).unwrap();
    assert_eq!(lisp.occupancy(), before + 1);
    assert_eq!(lisp.cons(a, Atom::empty()).unwrap_err(), Error::StaleHandle);
    assert_eq!(lisp.occupancy(), before);
}

#[test]
fn constructors_fail_when_the_arena_is_full() {
    let mut lisp = interpreter(12);
    let a = lisp.number(1).unwrap();
    let b = lisp.number(2).unwrap();
    assert_eq!(lisp.occupancy(), lisp.capacity());
    assert_eq!(lisp.number(3).unwrap_err(), Error::OutOfSpace);
    assert_eq!(lisp.nil().unwrap_err(), Error::OutOfSpace);
    assert_eq!(lisp.symbol("x").unwrap_err(), Error::OutOfSpace);
    assert_eq!(lisp.string("x").unwrap_err(), Error::OutOfSpace);
    lisp.release(a).unwrap();
    let c = lisp.number(3).unwrap();
    assert_eq!(c.value(&lisp).unwrap(), Value::Number(3));
    lisp.release(b).unwrap();
    lisp.release(c).unwrap();
}

#[test]
fn cons_in_a_full_arena_consumes_both() {
    let mut lisp = interpreter(12);
    let a = lisp.number(1).unwrap();
    let b = lisp.number(2).unwrap();
    assert_eq!(lisp.cons(a, b).unwrap_err(), Error::OutOfSpace);
    assert_eq!(lisp.occupancy(), 10);
}

#[test]
fn string_needs_two_atoms_for_each_byte_and_one_more() {
    let mut lisp = interpreter(14);
    assert_eq!(lisp.string("ab").unwrap_err(), Error::OutOfSpace);
    assert_eq!(lisp.occupancy(), 10);
    let mut lisp = interpreter(15);
    let s = lisp.string("ab").unwrap();
    assert_eq!(lisp.occupancy(), 15);
    lisp.release(s).unwrap();
    assert_eq!(lisp.occupancy(), 10);
}

#[test]
fn balanced_operations_leave_the_arena_as_it_was() {
    let mut lisp = interpreter(256);
    let before = lisp.occupancy();
    let a = lisp.number(1).unwrap();
    let b = lisp.number(2).unwrap();
    let p = lisp.cons(a, b).unwrap();
    let n = lisp.nil().unwrap();
    let l = lisp.cons(p, n).unwrap();
    let s = lisp.string("hello").unwrap();
    let q = lisp.cons(l, s).unwrap();
    let x = q.car(&mut lisp).unwrap();
    let y = x.car(&mut lisp).unwrap();
    assert!(lisp.occupancy() > before);
    lisp.release(q).unwrap();
    assert_eq!(y.value(&lisp).unwrap(), Value::Pair);
    lisp.release(x).unwrap();
    let z = y.cdr(&mut lisp).unwrap();
    lisp.release(y).unwrap();
    assert_eq!(z.value(&lisp).unwrap(), Value::Number(2));
    lisp.release(z).unwrap();
    assert_eq!(lisp.occupancy(), before);
}

#[test]
fn shared_atom_stays_until_the_last_reference_goes() {
    let mut lisp = interpreter(64);
    let before = lisp.occupancy();
    let a = lisp.number(5).unwrap();
    let n = lisp.nil().unwrap();
    let p = lisp.cons(a, n).unwrap();
    let first = p.car(&mut lisp).unwrap();
    lisp.release(p).unwrap();
    assert_eq!(lisp.occupancy(), before + 1);
    assert_eq!(first.value(&lisp).unwrap(), Value::Number(5));
    lisp.release(first).unwrap();
    assert_eq!(lisp.occupancy(), before);
}

#[test]
fn a_long_list_is_released_whole() {
    let mut lisp = interpreter(4096);
    let before = lisp.occupancy();
    let mut list = lisp.nil().unwrap();
    for i in 0..1000 {
        let n = lisp.number(i).unwrap();
        list = lisp.cons(n, list).unwrap();
    }
    assert_eq!(lisp.occupancy(), before + 2001);
    lisp.release(list).unwrap();
    assert_eq!(lisp.occupancy(), before);
}
