use http_server::text::{
    append, append_decimal, bytes_eq, find, find_byte, has_prefix, is_space_byte, occurs_at, trimmed,
};

#[test]
fn find_gives_the_first_occurrence() {
    assert_eq!(find(b"a\r\nb\r\n", b"\r\n"), Some(1));
    assert_eq!(find(b"\r\n", b"\r\n"), Some(0));
    assert_eq!(find(b"\r\r\n", b"\r\n"), Some(1));
    assert_eq!(find(b"abc\r", b"\r\n"), None);
    assert_eq!(find(b"\n\r", b"\r\n"), None);
    assert_eq!(find(b"", b"\r\n"), None);
    assert_eq!(find(b"a", b"abc"), None);
    assert_eq!(find(b"Host: a: b", b": "), Some(4));
}

#[test]
fn find_with_an_empty_pattern() {
    assert_eq!(find(b"abc", b""), Some(0));
    assert_eq!(find(b"", b""), Some(0));
}

#[test]
fn find_byte_gives_the_first_occurrence() {
    assert_eq!(find_byte(b"GET / HTTP/1.1", b' '), Some(3));
    assert_eq!(find_byte(b" x", b' '), Some(0));
    assert_eq!(find_byte(b"GET", b' '), None);
    assert_eq!(find_byte(b"", b' '), None);
}

#[test]
fn occurrence_at_one_index() {
    assert!(occurs_at(b"abcabc", b"bc", 1));
    assert!(occurs_at(b"abcabc", b"bc", 4));
    assert!(!occurs_at(b"abcabc", b"bc", 0));
    assert!(!occurs_at(b"abcabc", b"bc", 5));
    assert!(!occurs_at(b"abcabc", b"bc", 6));
    assert!(!occurs_at(b"abcabc", b"bc", 100));
    assert!(occurs_at(b"abc", b"", 3));
    assert!(!occurs_at(b"abc", b"", 4));
}

#[test]
fn prefixes() {
    assert!(has_prefix(b"/echo/abc", b"/echo"));
    assert!(has_prefix(b"/echo", b"/echo"));
    assert!(!has_prefix(b"/ech", b"/echo"));
    assert!(!has_prefix(b"x/echo", b"/echo"));
    assert!(has_prefix(b"", b""));
}

#[test]
fn equality_of_byte_strings() {
    assert!(bytes_eq(b"GET", b"GET"));
    assert!(!bytes_eq(b"GET", b"GEt"));
    assert!(!bytes_eq(b"GET", b"GET "));
    assert!(bytes_eq(b"", b""));
}

#[test]
fn trimming_takes_whitespace_off_both_ends() {
    assert_eq!(trimmed(b"xyz\r\n"), b"xyz");
    assert_eq!(trimmed(b"  xyz \t\r\n"), b"xyz");
    assert_eq!(trimmed(b"a b"), b"a b");
    assert_eq!(trimmed(b" a b "), b"a b");
    assert_eq!(trimmed(b"\r\n"), b"");
    assert_eq!(trimmed(b"   "), b"");
    assert_eq!(trimmed(b""), b"");
    assert_eq!(trimmed(b"\x0b\x0cx\x0b\x0c"), b"x");
}

#[test]
fn whitespace_bytes() {
    for b in [b' ', b'\t', b'\n', 0x0b, 0x0c, b'\r'] {
        assert!(is_space_byte(b));
    }
    for b in [0u8, 8, 14, 31, 33, b'a', 0x85, 0xa0, 255] {
        assert!(!is_space_byte(b));
    }
}

#[test]
fn decimal_notation() {
    let mut out = b"n=".to_vec();
    append_decimal(&mut out, 0);
    assert_eq!(out, b"n=0".to_vec());
    let mut out = Vec::new();
    append_decimal(&mut out, 9);
    append_decimal(&mut out, 10);
    append_decimal(&mut out, 4096);
    assert_eq!(out, b"9104096".to_vec());
    let mut out = Vec::new();
    append_decimal(&mut out, usize::MAX);
    assert_eq!(out, usize::MAX.to_string().into_bytes());
}

#[test]
fn appending_keeps_what_was_there() {
    let mut out = b"ab".to_vec();
    append(&mut out, b"cd");
    append(&mut out, b"");
    assert_eq!(out, b"abcd".to_vec());
}
