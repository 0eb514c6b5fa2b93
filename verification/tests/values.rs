use rikiki::Value;

#[test]
fn absent_is_printed_as_none() {
    assert_eq!(Value::Absent.to_string(), "None");
}

#[test]
fn nil_is_printed_as_nil() {
    assert_eq!(Value::Nil.to_string(), "Nil");
}

#[test]
fn true_is_printed_as_t() {
    assert_eq!(Value::True.to_string(), "T");
}

#[test]
fn pair_is_printed_as_pair() {
    assert_eq!(Value::Pair.to_string(), "Pair");
}

#[test]
fn wildcard_is_printed_as_an_underscore() {
    assert_eq!(Value::Wildcard.to_string(), "_");
}

#[test]
fn character_is_printed_as_itself() {
    assert_eq!(Value::Char(97).to_string(), "a");
    assert_eq!(Value::Char(48).to_string(), "0");
    assert_eq!(Value::Char(0).to_string(), "\0");
}

#[test]
fn negative_character_is_printed_as_the_byte_it_is_stored_as() {
    assert_eq!(Value::Char(-23).to_string(), "\u{e9}");
    assert_eq!(Value::Char(-1).to_string(), "\u{ff}");
    assert_eq!(Value::Char(-128).to_string(), "\u{80}");
}

#[test]
fn number_is_printed_in_decimal() {
    assert_eq!(Value::Number(0).to_string(), "0");
    assert_eq!(Value::Number(7).to_string(), "7");
    assert_eq!(Value::Number(42).to_string(), "42");
    assert_eq!(Value::Number(-42).to_string(), "-42");
    assert_eq!(Value::Number(1000).to_string(), "1000");
    assert_eq!(Value::Number(i64::MAX).to_string(), "9223372036854775807");
    assert_eq!(Value::Number(i64::MIN).to_string(), "-9223372036854775808");
}

#[test]
fn symbol_is_printed_as_its_name() {
    assert_eq!(Value::Symbol("car".to_string()).to_string(), "car");
    assert_eq!(Value::Symbol(String::new()).to_string(), "");
}
