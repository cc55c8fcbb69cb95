use granat::entry::{Entry, ExpiryState};

#[test]
fn create_a_basic_entry() {
    let mut ev = Entry::new("1234567");
    assert_eq!(ev.render(), "1234567".to_string());
    assert!(ev.expiry == ExpiryState::NoExpiry);

    ev = Entry::new("123456.7");
    assert_eq!(ev.render(), "123456.7".to_string());
    assert!(ev.expiry == ExpiryState::NoExpiry);

    ev = Entry::new("i am a string");
    assert_eq!(ev.render(), "i am a string".to_string());
    assert!(ev.expiry == ExpiryState::NoExpiry);
}

#[test]
fn integer_text_normalizes_to_same_value() {
    assert_eq!(Entry::new("+00123").render(), "123".to_string());
    assert_eq!(Entry::new("-0").render(), "0".to_string());
    assert_eq!(Entry::new("007").render(), "7".to_string());
    // Re-converting the canonical form reproduces the same value.
    assert_eq!(Entry::new("123").render(), "123".to_string());
    assert_eq!(Entry::new("-9223372036854775808").render(), "-9223372036854775808".to_string());
    assert_eq!(Entry::new("9223372036854775807").render(), "9223372036854775807".to_string());
}

#[test]
fn float_text_is_kept_verbatim() {
    assert_eq!(Entry::new("347.84").render(), "347.84".to_string());
    assert_eq!(Entry::new("1e5").render(), "1e5".to_string());
    assert_eq!(Entry::new("-.5E-2").render(), "-.5E-2".to_string());
    assert_eq!(Entry::new("inf").render(), "inf".to_string());
    assert_eq!(Entry::new("Infinity").render(), "Infinity".to_string());
    assert_eq!(Entry::new("NaN").render(), "NaN".to_string());
    // Integer syntax too large for an i64 still reads as a numeral.
    assert_eq!(Entry::new("9223372036854775808").render(), "9223372036854775808".to_string());
}

#[test]
fn non_numeric_text_is_kept_verbatim() {
    assert_eq!(Entry::new(" 1.5").render(), " 1.5".to_string());
    assert_eq!(Entry::new("0x10").render(), "0x10".to_string());
    assert_eq!(Entry::new("1.2.3").render(), "1.2.3".to_string());
    assert_eq!(Entry::new("").render(), "".to_string());
    assert_eq!(Entry::new("+").render(), "+".to_string());
    assert_eq!(Entry::new("1e").render(), "1e".to_string());
    assert_eq!(Entry::new(".").render(), ".".to_string());
}

#[test]
fn classification_follows_the_standard_grammar() {
    let integers = ["0", "-5", "+7", "007", "9223372036854775807", "-9223372036854775808"];
    for s in integers {
        assert!(Entry::new(s).value.is_integer(), "{}", s);
        assert!(s.parse::<i64>().is_ok(), "{}", s);
    }

    let numerals = [
        "1.5", "-.5", "5.", "+3.", "1e5", "1E5", "1e+5", "1e-5", "inf", "-inf", "INFINITY",
        "Infinity", "nan", "NaN", "9223372036854775808",
    ];
    for s in numerals {
        assert!(Entry::new(s).value.is_float(), "{}", s);
        // The recognizer agrees with the standard library's parser.
        assert!(s.parse::<f64>().is_ok(), "{}", s);
    }

    let texts = ["", ".", "+", "-", "1e", "e5", "1.2.3", " 1", "1 ", "0x1", "na", "infx", "1_000"];
    for s in texts {
        assert!(Entry::new(s).value.is_text(), "{}", s);
        assert!(s.parse::<f64>().is_err(), "{}", s);
    }
}

#[test]
fn lazy_expiry_memoizes() {
    let mut e = Entry::new("x").expires_at(5);
    assert!(e.ttl_at(3) == ExpiryState::Active(5));
    assert!(e.ttl_at(10) == ExpiryState::Expired);
    // Once observed expired the state never reverts, even for an earlier
    // instant.
    assert!(e.ttl_at(0) == ExpiryState::Expired);
}

#[test]
fn expiry_against_the_clock() {
    let mut e = Entry::new("x").expires_in(100000);
    assert!(matches!(e.ttl(), ExpiryState::Active(_)));

    let mut gone = Entry::new("x").expires_at(1);
    assert!(gone.ttl() == ExpiryState::Expired);

    let mut plain = Entry::new("x");
    assert!(plain.ttl() == ExpiryState::NoExpiry);
}
