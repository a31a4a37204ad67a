use shortener::{increment, is_valid_alphabet, ALPHABET};

const DIGITS: &str = "0123456789";

#[test]
fn increment_of_empty_is_first_digit() {
    assert_eq!(increment(DIGITS, ""), "0");
    assert_eq!(increment(DIGITS, "9"), "00");
    assert_eq!(increment(DIGITS, "99"), "000");
    assert_eq!(increment(ALPHABET, ""), "A");
}

#[test]
fn odometer_wrap_examples() {
    let cases = [
        ("0", "1"),
        ("8", "9"),
        ("9", "00"),
        ("09", "10"),
        ("89", "90"),
        ("98", "99"),
        ("99", "000"),
        ("998", "999"),
    ];
    for (from, to) in cases {
        assert_eq!(increment(DIGITS, from), to, "after {}", from);
    }
}

#[test]
fn default_alphabet_counts_letters_then_digits() {
    assert_eq!(increment(ALPHABET, "Z"), "a");
    assert_eq!(increment(ALPHABET, "z"), "0");
    assert_eq!(increment(ALPHABET, "9"), "AA");
    assert_eq!(increment(ALPHABET, "A9"), "BA");
}

#[test]
fn foreign_character_carries() {
    assert_eq!(increment(DIGITS, "x"), "00");
    assert_eq!(increment(DIGITS, "1x"), "20");
    assert_eq!(increment(DIGITS, "x5"), "x6");
}

#[test]
fn increment_never_stands_still() {
    let mut s = String::new();
    for _ in 0..500 {
        let next = increment(DIGITS, &s);
        assert_ne!(next, s);
        assert!(next.len() == s.len() || next.len() == s.len() + 1);
        s = next;
    }
}

#[test]
fn one_digit_wraps_once_in_alphabet_len_plus_one_steps() {
    for start in ["0", "5", "9"] {
        let mut s = start.to_string();
        let mut grown = 0;
        for _ in 0..DIGITS.len() + 1 {
            let next = increment(DIGITS, &s);
            if next.len() == s.len() + 1 {
                grown += 1;
            }
            s = next;
        }
        assert_eq!(grown, 1, "from {}", start);
    }
}

#[test]
fn alphabet_validity() {
    assert!(is_valid_alphabet(DIGITS));
    assert!(is_valid_alphabet(ALPHABET));
    assert!(!is_valid_alphabet(""));
    assert!(!is_valid_alphabet("aba"));
}

#[test]
fn near_wrap_symbol_grows_once() {
    for start in ["89", "95", "99", "999"] {
        let mut s = start.to_string();
        let mut grown = 0;
        for _ in 0..DIGITS.len() + 1 {
            let next = increment(DIGITS, &s);
            if next.len() == s.len() + 1 {
                grown += 1;
            }
            s = next;
        }
        assert_eq!(grown, 1, "from {}", start);
    }
    assert_eq!(increment(DIGITS, "00"), "01");
}
