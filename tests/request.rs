use webrequest::{parse_request, ParseError, WebRequest};

fn parse_ok(s: &[u8]) -> WebRequest {
    match parse_request(s) {
        Ok(r) => r,
        Err(e) => panic!("unexpected error {:?}", e),
    }
}

fn parse_err(s: &[u8]) -> ParseError {
    match parse_request(s) {
        Ok(_) => panic!("request was accepted"),
        Err(e) => e,
    }
}

fn field(r: &WebRequest, key: &[u8]) -> Vec<u8> {
    r.environ.get(key).expect("missing field").clone()
}

#[test]
fn test_request_1() {
    let s = b"GET /foo%20bar HTTP/1.0\r\nFoo: Bar\r\nA B C: D E F\r\n\r\n";
    let r = parse_ok(s);
    assert_eq!(field(&r, b"method"), b"get".to_vec());
    assert_eq!(field(&r, b"path"), b"/foo%20bar".to_vec());
    assert_eq!(field(&r, b"protocol"), b"http/1.0".to_vec());

    assert_eq!(field(&r, b"http_foo").as_slice(), b"Bar");
    assert_eq!(field(&r, b"http_a b c").as_slice(), b"D E F");

    assert_eq!(r.path, "/foo bar");
}

#[test]
fn query_split_at_first_question_mark() {
    let r = parse_ok(b"GET /a?b=1&c=2 HTTP/1.1\r\n\r\n");
    assert_eq!(field(&r, b"path"), b"/a".to_vec());
    assert_eq!(field(&r, b"query_string"), b"b=1&c=2".to_vec());

    let r = parse_ok(b"GET /a?b=1?c=2 HTTP/1.1\r\n\r\n");
    assert_eq!(field(&r, b"path"), b"/a".to_vec());
    assert_eq!(field(&r, b"query_string"), b"b=1?c=2".to_vec());
}

#[test]
fn no_question_mark_gives_empty_query() {
    let r = parse_ok(b"GET /a/b HTTP/1.1\r\n\r\n");
    assert_eq!(field(&r, b"path"), b"/a/b".to_vec());
    assert_eq!(field(&r, b"query_string"), Vec::<u8>::new());
    assert_eq!(r.path, "/a/b");
}

#[test]
fn asterisk_form_for_options() {
    let r = parse_ok(b"OPTIONS * HTTP/1.1\r\n\r\n");
    assert_eq!(field(&r, b"method"), b"options".to_vec());
    assert_eq!(field(&r, b"path"), b"*".to_vec());
    assert_eq!(field(&r, b"query_string"), Vec::<u8>::new());
    assert_eq!(r.path, "*");
}

#[test]
fn asterisk_form_rejected_for_get() {
    assert_eq!(parse_err(b"GET * HTTP/1.1\r\n\r\n"), ParseError::MissingLeadingSlash);
}

#[test]
fn rejections_are_distinct() {
    assert_eq!(parse_err(b"BADLINE\r\n\r\n"), ParseError::MalformedRequestLine);
    assert_eq!(parse_err(b"GET / HTTP/9.9\r\n\r\n"), ParseError::UnsupportedProtocolVersion);
    assert_eq!(parse_err(b"GET foo HTTP/1.1\r\n\r\n"), ParseError::MissingLeadingSlash);
    assert_eq!(parse_err(b"GET / HTTP/1.1\r\nBadHeader\r\n\r\n"), ParseError::MalformedHeaderLine);
}

#[test]
fn empty_input_is_malformed_request_line() {
    assert_eq!(parse_err(b""), ParseError::MalformedRequestLine);
    assert_eq!(parse_err(b"GET /\r\n\r\n"), ParseError::MalformedRequestLine);
}

#[test]
fn fourth_token_stays_in_protocol() {
    assert_eq!(parse_err(b"GET / HTTP/1.1 extra\r\n\r\n"), ParseError::UnsupportedProtocolVersion);
}

#[test]
fn empty_target_lacks_slash() {
    assert_eq!(parse_err(b"GET  HTTP/1.1\r\n\r\n"), ParseError::MissingLeadingSlash);
}

#[test]
fn parse_is_deterministic() {
    let s = b"POST /x?y=1 HTTP/1.1\r\nHost: example\r\nAccept: */*\r\n\r\n";
    let a = parse_ok(s);
    let b = parse_ok(s);
    for key in [&b"method"[..], b"protocol", b"path", b"query_string", b"http_host", b"http_accept"] {
        assert_eq!(field(&a, key), field(&b, key));
    }
    assert_eq!(a.path, b.path);
}

#[test]
fn method_and_protocol_are_lowercased() {
    let r = parse_ok(b"GeT / HtTp/1.1\r\n\r\n");
    assert_eq!(field(&r, b"method"), b"get".to_vec());
    assert_eq!(field(&r, b"protocol"), b"http/1.1".to_vec());
}

#[test]
fn header_keys_prefixed_and_lowercased() {
    let r = parse_ok(b"GET / HTTP/1.1\r\nX-Custom-Header: Value\r\n\r\n");
    assert_eq!(field(&r, b"http_x-custom-header"), b"Value".to_vec());
    assert!(!r.environ.contains_key(b"X-Custom-Header"));
    assert!(!r.environ.contains_key(b"http_X-Custom-Header"));
}

#[test]
fn header_value_only_left_stripped() {
    let r = parse_ok(b"GET / HTTP/1.1\r\nFoo:  \t bar: baz  \r\n\r\n");
    assert_eq!(field(&r, b"http_foo"), b"bar: baz  ".to_vec());
    let r = parse_ok(b"GET / HTTP/1.1\r\nEmpty:\r\n\r\n");
    assert_eq!(field(&r, b"http_empty"), Vec::<u8>::new());
}

#[test]
fn repeated_header_last_wins() {
    let r = parse_ok(b"GET / HTTP/1.1\r\nFoo: one\r\nfoo: two\r\n\r\n");
    assert_eq!(field(&r, b"http_foo"), b"two".to_vec());
}

#[test]
fn header_cannot_shadow_reserved_field() {
    let r = parse_ok(b"GET /p HTTP/1.1\r\nPath: /other\r\n\r\n");
    assert_eq!(field(&r, b"path"), b"/p".to_vec());
    assert_eq!(field(&r, b"http_path"), b"/other".to_vec());
}

#[test]
fn plain_path_decodes_to_itself() {
    let r = parse_ok(b"GET /abc-DEF_0.9~/x HTTP/1.0\r\n\r\n");
    assert_eq!(field(&r, b"path"), b"/abc-DEF_0.9~/x".to_vec());
    assert_eq!(r.path, "/abc-DEF_0.9~/x");
}

#[test]
fn decoded_path_is_utf8() {
    let r = parse_ok(b"GET /caf%C3%A9 HTTP/1.1\r\n\r\n");
    assert_eq!(r.path, "/caf\u{e9}");
    assert_eq!(field(&r, b"path"), b"/caf%C3%A9".to_vec());
}

#[test]
fn decoded_path_is_lossy() {
    let r = parse_ok(b"GET /a%FFb HTTP/1.1\r\n\r\n");
    assert_eq!(r.path, "/a\u{fffd}b");
}

#[test]
fn stray_percent_is_kept() {
    let r = parse_ok(b"GET /a%zz%4 HTTP/1.1\r\n\r\n");
    assert_eq!(r.path, "/a%zz%4");
    let r = parse_ok(b"GET /%41%62 HTTP/1.1\r\n\r\n");
    assert_eq!(r.path, "/Ab");
}

#[test]
fn query_is_not_decoded_into_path() {
    let r = parse_ok(b"GET /a%20b?q=%20 HTTP/1.1\r\n\r\n");
    assert_eq!(r.path, "/a b");
    assert_eq!(field(&r, b"query_string"), b"q=%20".to_vec());
}

#[test]
fn every_non_reserved_key_is_a_header_key() {
    let r = parse_ok(b"GET / HTTP/1.1\r\nHost: h\r\nUSER-AGENT: x\r\nAccept-Language: en\r\n\r\n");
    let keys = r.environ.keys();
    assert_eq!(keys.len(), 7);
    let reserved: [&[u8]; 4] = [b"method", b"protocol", b"path", b"query_string"];
    for k in keys {
        if reserved.contains(&k.as_slice()) {
            continue;
        }
        assert!(k.starts_with(b"http_"));
        assert!(!k.iter().any(|c| c.is_ascii_uppercase()));
    }
    assert_eq!(field(&r, b"http_user-agent"), b"x".to_vec());
}
