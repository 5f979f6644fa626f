use webrequest::bytes::{
    ascii_lowercase, lstrip_bytes, percent_decode, split_bytes_on, split_bytes_on_crlf,
};
use webrequest::Environ;

#[test]
fn split_bounded_on_separator() {
    let r = split_bytes_on(b"a b c d", b' ', 2);
    assert_eq!(r, vec![b"a".to_vec(), b"b".to_vec(), b"c d".to_vec()]);
    let r = split_bytes_on(b"abc", b' ', 2);
    assert_eq!(r, vec![b"abc".to_vec()]);
    let r = split_bytes_on(b"k:v:w", b':', 0);
    assert_eq!(r, vec![b"k:v:w".to_vec()]);
    let r = split_bytes_on(b":", b':', 1);
    assert_eq!(r, vec![Vec::<u8>::new(), Vec::<u8>::new()]);
}

#[test]
fn split_on_crlf_keeps_trailing_empty_line() {
    let r = split_bytes_on_crlf(b"A\r\nB\r\n\r\n");
    assert_eq!(r, vec![b"A".to_vec(), b"B".to_vec(), Vec::new(), Vec::new()]);
    let r = split_bytes_on_crlf(b"");
    assert_eq!(r, vec![Vec::<u8>::new()]);
    let r = split_bytes_on_crlf(b"a\rb\nc");
    assert_eq!(r, vec![b"a\rb\nc".to_vec()]);
}

#[test]
fn lowercase_only_ascii_letters() {
    assert_eq!(ascii_lowercase(b"AbZ-@[\xC3"), b"abz-@[\xC3".to_vec());
}

#[test]
fn lstrip_leading_whitespace() {
    assert_eq!(lstrip_bytes(b" \t\r\n\x0cx y "), b"x y ".to_vec());
    assert_eq!(lstrip_bytes(b"   "), Vec::<u8>::new());
}

#[test]
fn percent_decode_escapes() {
    assert_eq!(percent_decode(b"a%20b%2fc%2F"), b"a b/c/".to_vec());
    assert_eq!(percent_decode(b"%"), b"%".to_vec());
    assert_eq!(percent_decode(b"%g1%1"), b"%g1%1".to_vec());
    assert_eq!(percent_decode(b"%ff"), vec![255u8]);
}

#[test]
fn environ_insert_and_get() {
    let mut e = Environ::new();
    assert!(e.get(b"k").is_none());
    e.insert(b"k".to_vec(), b"1".to_vec());
    e.insert(b"j".to_vec(), b"2".to_vec());
    e.insert(b"k".to_vec(), b"3".to_vec());
    assert_eq!(e.get(b"k"), Some(&b"3".to_vec()));
    assert_eq!(e.get(b"j"), Some(&b"2".to_vec()));
    assert!(e.contains_key(b"j"));
    assert!(!e.contains_key(b"x"));
}

#[test]
fn environ_keys_listed_once() {
    let mut e = Environ::new();
    e.insert(b"a".to_vec(), b"1".to_vec());
    e.insert(b"b".to_vec(), b"2".to_vec());
    e.insert(b"a".to_vec(), b"3".to_vec());
    let mut keys = e.keys();
    keys.sort();
    assert_eq!(keys, vec![b"a".to_vec(), b"b".to_vec()]);
}
