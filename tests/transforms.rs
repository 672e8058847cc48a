use cipherlang::interpret::{apply_transform, Dictionary};
use cipherlang::transform::{
    is_special, transform_lower, transform_prune, transform_prune_ascii, transform_prune_numeric,
    transform_rc_decode, transform_rc_encode, transform_shift, transform_trim_alpha,
    transform_trim_numeric, transform_trim_special, transform_trim_whitespace, transform_upper,
};

fn s(x: &str) -> String {
    x.to_string()
}

#[test]
fn case_mapping_touches_ascii_letters_only() {
    assert_eq!(transform_upper(&s("abz-Q\u{e9}")).unwrap(), "ABZ-Q\u{e9}");
    assert_eq!(transform_lower(&s("ABZ-q\u{c9}")).unwrap(), "abz-q\u{c9}");
}

#[test]
fn trimming_and_pruning() {
    let t = s("a1 B2!\t\u{e9}");
    assert_eq!(transform_trim_numeric(&t).unwrap(), "a B!\t\u{e9}");
    assert_eq!(transform_trim_alpha(&t).unwrap(), "1 2!\t\u{e9}");
    assert_eq!(transform_trim_special(&t).unwrap(), "a1 B2\t\u{e9}");
    assert_eq!(transform_trim_whitespace(&t).unwrap(), "a1B2!\u{e9}");
    assert_eq!(transform_prune(&t).unwrap(), "aB");
    assert_eq!(transform_prune_numeric(&t).unwrap(), "12");
    assert_eq!(transform_prune_ascii(&t).unwrap(), "a1 B2!\t");
    assert!(is_special('~') && is_special('!') && !is_special('a') && !is_special(' '));
}

#[test]
fn caesar_shift() {
    assert_eq!(transform_shift(&s("Hello, World"), 3).unwrap(), "Khoor, Zruog");
    assert_eq!(transform_shift(&s("abc"), -1).unwrap(), "zab");
    assert_eq!(transform_shift(&s("abc"), 26 * 100 + 1).unwrap(), "bcd");
    assert_eq!(transform_shift(&s("Zebra"), i16::MIN).unwrap(), transform_shift(&s("Zebra"), -32768 % 26).unwrap());
    assert!(transform_shift(&s("caf\u{e9}"), 1).is_err());
}

#[test]
fn caesar_shift_inverts() {
    for k in [-32767i16, -300, -27, -1, 0, 1, 5, 25, 26, 1000, 32767] {
        let t = s("The Quick brown fox, 123!");
        let there = transform_shift(&t, k).unwrap();
        assert_eq!(transform_shift(&there, -k).unwrap(), t);
    }
}

#[test]
fn rail_fence() {
    assert_eq!(transform_rc_encode(&s("WEAREDISCOVEREDFLEEATONCE"), 3).unwrap(), "WECRLTEERDSOEEFEAOCAIVDEN");
    assert_eq!(transform_rc_decode(&s("WECRLTEERDSOEEFEAOCAIVDEN"), 3).unwrap(), "WEAREDISCOVEREDFLEEATONCE");
    assert_eq!(transform_rc_encode(&s("abcdef"), 2).unwrap(), "acebdf");
    assert_eq!(transform_rc_encode(&s("hello"), 4).unwrap(), "helol");
    assert_eq!(transform_rc_encode(&s("hello"), 1).unwrap(), "hello");
    assert_eq!(transform_rc_encode(&s("hello"), 9).unwrap(), "hello");
    assert_eq!(transform_rc_encode(&s(""), 3).unwrap(), "");
    assert!(transform_rc_encode(&s("hello"), 0).is_err());
    assert!(transform_rc_decode(&s("hello"), 0).is_err());
}

#[test]
fn rail_fence_inverts() {
    let t = s("The quick brown fox jumps");
    for n in 1..=(t.len() as u16) {
        let e = transform_rc_encode(&t, n).unwrap();
        assert_eq!(transform_rc_decode(&e, n).unwrap(), t);
    }
}

#[test]
fn transform_dispatch() {
    let d = Dictionary::new();
    assert_eq!(apply_transform(&s("ab"), &s("upper"), &vec![], 0, &d).unwrap(), "AB");
    assert_eq!(apply_transform(&s("ab"), &s("shift"), &vec![s("1")], 0, &d).unwrap(), "bc");
    assert!(apply_transform(&s("ab"), &s("shift"), &vec![], 0, &d).is_err());
    assert!(apply_transform(&s("ab"), &s("shift"), &vec![s("x")], 0, &d).is_err());
    assert_eq!(apply_transform(&s("abcdef"), &s("rc"), &vec![s("2")], 0, &d).unwrap(), "acebdf");
    assert_eq!(apply_transform(&s("acebdf"), &s("rc_dec"), &vec![s("2")], 0, &d).unwrap(), "abcdef");
    assert!(apply_transform(&s("ab"), &s("rc"), &vec![s("2"), s("3")], 0, &d).is_err());
    assert!(apply_transform(&s("ab"), &s("rc"), &vec![s("-2")], 0, &d).is_err());
    assert!(apply_transform(&s("ab"), &s("unknown"), &vec![], 0, &d).is_err());
}
