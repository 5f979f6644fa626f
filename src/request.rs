//! Parsing of a complete HTTP/1.x request head (request line and header
//! lines, ending in an empty line) into a [`WebRequest`].

use vstd::prelude::*;
use crate::bytes::{
    ascii_lowercase, crlf_lines, lemma_lines_nonempty, lemma_lower_no_upper, lemma_pct_decode_plain,
    lemma_split_nonempty, lower, lstrip, lstrip_bytes, no_upper, pct_decode, percent_decode,
    split_bounded, split_bytes_on, split_bytes_on_crlf, views, PERCENT, SP,
};
use crate::environ::{bytes_eq, Environ};

verus! {

/// `:`, which ends a header name.
pub const COLON: u8 = 58;

/// `?`, which opens the query.
pub const QUESTION: u8 = 63;

/// `/`, which starts an origin-form target.
pub const SLASH: u8 = 47;

/// `*`, the asterisk-form target.
pub const STAR: u8 = 42;

/// Why a request was rejected.
#[derive(Debug, Clone, Copy, PartialEq, Eq, Structural)]
pub enum ParseError {
    /// The request line does not split into method, target and protocol.
    MalformedRequestLine,
    /// The protocol is neither `http/1.0` nor `http/1.1`.
    UnsupportedProtocolVersion,
    /// An origin-form target does not begin with `/`.
    MissingLeadingSlash,
    /// A header line has no `:`.
    MalformedHeaderLine,
}

/// A parsed request.
pub struct WebRequest {
    /// The CGI-style environment. Keys:
    ///
    /// * `method`: lowercased, e.g. `get`, `options`
    /// * `protocol`: `http/1.0` or `http/1.1`
    /// * `path`: the raw (still percent-encoded) path
    /// * `query_string`: what followed the first `?` of the target, or empty
    /// * `http_<name>`: each header, its name lowercased, its value with
    ///   leading whitespace stripped
    pub environ: Environ,
    /// The path, percent-decoded and then decoded as UTF-8 with lossy
    /// substitution. Dot segments are not normalized.
    pub path: String,
}

/// What `String::from_utf8_lossy` makes of a byte string.
pub uninterp spec fn utf8_lossy(b: Seq<u8>) -> Seq<char>;

/// True when every byte is ASCII.
pub open spec fn is_ascii(b: Seq<u8>) -> bool {
    forall|i: int| 0 <= i < b.len() ==> #[trigger] b[i] < 128
}

/// The characters of an ASCII byte string, one per byte.
pub open spec fn ascii_chars(b: Seq<u8>) -> Seq<char> {
    b.map_values(|c: u8| c as char)
}

/// Relies on `String::from_utf8_lossy`: the result depends on the bytes
/// alone, and ASCII bytes, being valid UTF-8, come back as the same text.
#[verifier::external_body]
fn decode_utf8_lossy(b: &[u8]) -> (r: String)
    ensures
        r@ == utf8_lossy(b@),
        is_ascii(b@) ==> r@ == ascii_chars(b@),
{
    String::from_utf8_lossy(b).into_owned()
}

/// `method`
pub open spec fn key_method() -> Seq<u8> {
    seq![109, 101, 116, 104, 111, 100]
}

/// `protocol`
pub open spec fn key_protocol() -> Seq<u8> {
    seq![112, 114, 111, 116, 111, 99, 111, 108]
}

/// `path`
pub open spec fn key_path() -> Seq<u8> {
    seq![112, 97, 116, 104]
}

/// `query_string`
pub open spec fn key_query_string() -> Seq<u8> {
    seq![113, 117, 101, 114, 121, 95, 115, 116, 114, 105, 110, 103]
}

/// `http_`, the prefix of every header-derived key.
pub open spec fn http_prefix() -> Seq<u8> {
    seq![104, 116, 116, 112, 95]
}

/// `http/1.0`
pub open spec fn http_1_0() -> Seq<u8> {
    seq![104, 116, 116, 112, 47, 49, 46, 48]
}

/// `http/1.1`
pub open spec fn http_1_1() -> Seq<u8> {
    seq![104, 116, 116, 112, 47, 49, 46, 49]
}

/// `options`
pub open spec fn options_method() -> Seq<u8> {
    seq![111, 112, 116, 105, 111, 110, 115]
}

/// True for the four keys that do not come from headers.
pub open spec fn is_reserved_key(k: Seq<u8>) -> bool {
    k == key_method() || k == key_protocol() || k == key_path() || k == key_query_string()
}

/// The lines of the request; the first is the request line.
pub open spec fn request_lines(b: Seq<u8>) -> Seq<Seq<u8>> {
    crlf_lines(b)
}

/// The request line split on spaces into at most three tokens.
pub open spec fn request_tokens(b: Seq<u8>) -> Seq<Seq<u8>> {
    split_bounded(request_lines(b)[0], SP, 2)
}

/// The lowercased method token.
pub open spec fn method_of(b: Seq<u8>) -> Seq<u8> {
    lower(request_tokens(b)[0])
}

/// The request target, as sent.
pub open spec fn target_of(b: Seq<u8>) -> Seq<u8> {
    request_tokens(b)[1]
}

/// The lowercased protocol token.
pub open spec fn protocol_of(b: Seq<u8>) -> Seq<u8> {
    lower(request_tokens(b)[2])
}

/// A server-wide `OPTIONS *` request.
pub open spec fn is_asterisk_form(b: Seq<u8>) -> bool {
    method_of(b) == options_method() && target_of(b) == seq![STAR]
}

/// The target split at its first `?`.
pub open spec fn target_parts(b: Seq<u8>) -> Seq<Seq<u8>> {
    split_bounded(target_of(b), QUESTION, 1)
}

/// The raw path: `*` in asterisk form, else the target up to its first `?`.
pub open spec fn raw_path_of(b: Seq<u8>) -> Seq<u8> {
    if is_asterisk_form(b) {
        seq![STAR]
    } else {
        target_parts(b)[0]
    }
}

/// What follows the first `?` of the target, or empty when there is none.
pub open spec fn query_string_of(b: Seq<u8>) -> Seq<u8> {
    if is_asterisk_form(b) || target_parts(b).len() < 2 {
        Seq::empty()
    } else {
        target_parts(b)[1]
    }
}

/// The path as the caller sees it: percent-decoded, then decoded as UTF-8.
pub open spec fn decoded_path_of(b: Seq<u8>) -> Seq<char> {
    utf8_lossy(pct_decode(raw_path_of(b)))
}

/// A header line split at its first `:`.
pub open spec fn header_parts(line: Seq<u8>) -> Seq<Seq<u8>> {
    split_bounded(line, COLON, 1)
}

/// An empty line is skipped; any other must hold a `:`.
pub open spec fn header_line_ok(line: Seq<u8>) -> bool {
    line.len() == 0 || header_parts(line).len() == 2
}

/// The key a header line is stored under: `http_` and its name, lowercased.
pub open spec fn header_key(line: Seq<u8>) -> Seq<u8> {
    lower(http_prefix() + header_parts(line)[0])
}

/// The value a header line is stored with: what follows the `:`, without
/// leading whitespace.
pub open spec fn header_value(line: Seq<u8>) -> Seq<u8> {
    lstrip(header_parts(line)[1])
}

/// `m` with the first `n` header lines of `hs` stored in order; a later
/// line overwrites an earlier one with the same key.
pub open spec fn with_headers(m: Map<Seq<u8>, Seq<u8>>, hs: Seq<Seq<u8>>, n: int) -> Map<
    Seq<u8>,
    Seq<u8>,
>
    decreases n,
{
    if n <= 0 {
        m
    } else {
        let prev = with_headers(m, hs, n - 1);
        let line = hs[n - 1];
        if line.len() == 0 {
            prev
        } else {
            prev.insert(header_key(line), header_value(line))
        }
    }
}

/// The lines after the request line.
pub open spec fn header_lines(b: Seq<u8>) -> Seq<Seq<u8>> {
    request_lines(b).drop_first()
}

/// The entries taken from the request line.
pub open spec fn base_environ(b: Seq<u8>) -> Map<Seq<u8>, Seq<u8>> {
    map![
        key_method() => method_of(b),
        key_protocol() => protocol_of(b),
        key_path() => raw_path_of(b),
        key_query_string() => query_string_of(b),
    ]
}

/// The environment of a well-formed request.
pub open spec fn environ_of(b: Seq<u8>) -> Map<Seq<u8>, Seq<u8>> {
    with_headers(base_environ(b), header_lines(b), header_lines(b).len() as int)
}

/// Why the request line of `b` is rejected, checked in order; `None` when
/// it is accepted.
pub open spec fn request_line_error(b: Seq<u8>) -> Option<ParseError> {
    if request_tokens(b).len() != 3 {
        Some(ParseError::MalformedRequestLine)
    } else if protocol_of(b) != http_1_0() && protocol_of(b) != http_1_1() {
        Some(ParseError::UnsupportedProtocolVersion)
    } else if !is_asterisk_form(b) && !(target_of(b).len() > 0 && target_of(b)[0] == SLASH) {
        Some(ParseError::MissingLeadingSlash)
    } else {
        None
    }
}

/// Why `b` is rejected, checked in order; `None` when it is accepted.
pub open spec fn parse_error_of(b: Seq<u8>) -> Option<ParseError> {
    if request_line_error(b) is Some {
        request_line_error(b)
    } else if exists|i: int|
        0 <= i < header_lines(b).len() && !header_line_ok(#[trigger] header_lines(b)[i]) {
        Some(ParseError::MalformedHeaderLine)
    } else {
        None
    }
}

/// True when every byte is an unreserved URI character (letter, digit,
/// `-`, `.`, `_`, `~`) or the path separator `/`.
pub open spec fn is_plain_path(p: Seq<u8>) -> bool {
    forall|i: int|
        0 <= i < p.len() ==> {
            let c = #[trigger] p[i];
            (48 <= c <= 57) || (65 <= c <= 90) || (97 <= c <= 122) || c == 45 || c == 46 || c
                == 95 || c == 126 || c == SLASH
        }
}

fn copy_bytes(s: &[u8]) -> (r: Vec<u8>)
    ensures
        r@ == s@,
{
    vstd::slice::slice_to_vec(s)
}

fn bytes_method() -> (r: Vec<u8>)
    ensures
        r@ == key_method(),
{
    vec![109, 101, 116, 104, 111, 100]
}

fn bytes_protocol() -> (r: Vec<u8>)
    ensures
        r@ == key_protocol(),
{
    vec![112, 114, 111, 116, 111, 99, 111, 108]
}

fn bytes_path() -> (r: Vec<u8>)
    ensures
        r@ == key_path(),
{
    vec![112, 97, 116, 104]
}

fn bytes_query_string() -> (r: Vec<u8>)
    ensures
        r@ == key_query_string(),
{
    vec![113, 117, 101, 114, 121, 95, 115, 116, 114, 105, 110, 103]
}

fn bytes_http_prefix() -> (r: Vec<u8>)
    ensures
        r@ == http_prefix(),
{
    vec![104, 116, 116, 112, 95]
}

/// Parses a complete request head, `request_bytes` including the final
/// empty line. On success the environment and the decoded path are those
/// of the request model; on failure the error is the first check that the
/// request fails.
pub fn parse_request(request_bytes: &[u8]) -> (r: Result<WebRequest, ParseError>)
    ensures
        match r {
            Ok(w) => {
                &&& parse_error_of(request_bytes@) is None
                &&& w.environ.wf()
                &&& w.environ@ == environ_of(request_bytes@)
                &&& w.path@ == decoded_path_of(request_bytes@)
                &&& is_plain_path(raw_path_of(request_bytes@)) ==> w.path@ == ascii_chars(
                    raw_path_of(request_bytes@),
                )
            },
            Err(e) => parse_error_of(request_bytes@) == Some(e),
        },
{
    let ghost b = request_bytes@;
    let lines = split_bytes_on_crlf(request_bytes);
    proof {
        lemma_lines_nonempty(b);
        assert(views(lines@)[0] == lines@[0]@);
    }
    let tokens = split_bytes_on(lines[0].as_slice(), SP, 2);
    if tokens.len() != 3 {
        return Err(ParseError::MalformedRequestLine);
    }
    proof {
        assert(views(tokens@)[0] == tokens@[0]@);
        assert(views(tokens@)[1] == tokens@[1]@);
        assert(views(tokens@)[2] == tokens@[2]@);
    }
    assert(tokens@[0]@ == request_tokens(b)[0]);
    let method = ascii_lowercase(tokens[0].as_slice());
    let target = tokens[1].as_slice();
    let protocol = ascii_lowercase(tokens[2].as_slice());
    let v10: Vec<u8> = vec![104, 116, 116, 112, 47, 49, 46, 48];
    let v11: Vec<u8> = vec![104, 116, 116, 112, 47, 49, 46, 49];
    if !bytes_eq(protocol.as_slice(), v10.as_slice()) && !bytes_eq(protocol.as_slice(), v11.as_slice()) {
        return Err(ParseError::UnsupportedProtocolVersion);
    }
    let options: Vec<u8> = vec![111, 112, 116, 105, 111, 110, 115];
    let star: Vec<u8> = vec![STAR];
    let asterisk = bytes_eq(method.as_slice(), options.as_slice()) && bytes_eq(target, star.as_slice());
    assert(star@ == seq![STAR]);
    assert(options@ == options_method());
    assert(asterisk == is_asterisk_form(b));
    let path: Vec<u8>;
    let query: Vec<u8>;
    if asterisk {
        path = star;
        query = Vec::new();
    } else {
        if target.len() == 0 || target[0] != SLASH {
            return Err(ParseError::MissingLeadingSlash);
        }
        let parts = split_bytes_on(target, QUESTION, 1);
        proof {
            lemma_split_nonempty(target@, QUESTION, 1);
            assert(views(parts@)[0] == parts@[0]@);
        }
        path = copy_bytes(parts[0].as_slice());
        if parts.len() > 1 {
            proof {
                assert(views(parts@)[1] == parts@[1]@);
            }
            query = copy_bytes(parts[1].as_slice());
        } else {
            query = Vec::new();
        }
    }
    assert(path@ == raw_path_of(b));
    assert(query@ =~= query_string_of(b));

    let decoded = percent_decode(path.as_slice());
    let decoded_path = decode_utf8_lossy(decoded.as_slice());
    proof {
        if is_plain_path(path@) {
            assert forall|i: int| 0 <= i < path@.len() implies #[trigger] path@[i] != PERCENT by {
                assert(is_plain_path(path@));
            }
            lemma_pct_decode_plain(path@);
        }
    }

    let mut environ = Environ::new();
    environ.insert(bytes_method(), method);
    environ.insert(bytes_protocol(), protocol);
    environ.insert(bytes_path(), path);
    environ.insert(bytes_query_string(), query);
    assert(environ@ =~= base_environ(b));

    assert(request_line_error(b) is None);
    let ghost hs = header_lines(b);
    let mut i: usize = 1;
    while i < lines.len()
        invariant
            1 <= i <= lines@.len(),
            b == request_bytes@,
            request_line_error(b) is None,
            views(lines@) == request_lines(b),
            hs == request_lines(b).drop_first(),
            environ.wf(),
            environ@ == with_headers(base_environ(b), hs, i - 1),
            forall|j: int| 0 <= j < i - 1 ==> header_line_ok(#[trigger] hs[j]),
        decreases lines@.len() - i,
    {
        let line = lines[i].as_slice();
        assert(line@ == hs[i - 1]);
        if line.len() != 0 {
            let parts = split_bytes_on(line, COLON, 1);
            if parts.len() != 2 {
                assert(!header_line_ok(header_lines(b)[i - 1]));
                assert(parse_error_of(b) == Some(ParseError::MalformedHeaderLine));
                return Err(ParseError::MalformedHeaderLine);
            }
            proof {
                assert(views(parts@)[0] == parts@[0]@);
                assert(views(parts@)[1] == parts@[1]@);
            }
            let mut name = bytes_http_prefix();
            let mut raw_name = copy_bytes(parts[0].as_slice());
            name.append(&mut raw_name);
            let key = ascii_lowercase(name.as_slice());
            let value = lstrip_bytes(parts[1].as_slice());
            environ.insert(key, value);
        }
        i = i + 1;
    }
    assert(hs.len() == i - 1);
    assert(!exists|j: int| 0 <= j < hs.len() && !header_line_ok(#[trigger] hs[j]));
    Ok(WebRequest { environ, path: decoded_path })
}

/// A header-derived key starts with `http_` and holds no uppercase letter.
pub open spec fn is_header_key(k: Seq<u8>) -> bool {
    k.len() >= 5 && k.take(5) == http_prefix() && no_upper(k)
}

proof fn lemma_header_key_shape(line: Seq<u8>)
    ensures
        is_header_key(header_key(line)),
        !is_reserved_key(header_key(line)),
{
    let k = header_key(line);
    let raw = http_prefix() + header_parts(line)[0];
    lemma_lower_no_upper(raw);
    assert(k.len() == raw.len());
    assert forall|j: int| 0 <= j < 5 implies k[j] == http_prefix()[j] by {
        assert(raw[j] == http_prefix()[j]);
    }
    assert(k.take(5) =~= http_prefix());
    assert(k[0] == 104);
    assert(key_method()[0] == 109);
    assert(key_protocol()[0] == 112);
    assert(key_path()[0] == 112);
    assert(key_query_string()[0] == 113);
}

proof fn lemma_with_headers_keys(m: Map<Seq<u8>, Seq<u8>>, hs: Seq<Seq<u8>>, n: int)
    requires
        0 <= n <= hs.len(),
        forall|k: Seq<u8>| #[trigger] m.contains_key(k) ==> is_reserved_key(k),
    ensures
        forall|k: Seq<u8>|
            #[trigger] with_headers(m, hs, n).contains_key(k) && !is_reserved_key(k)
                ==> is_header_key(k),
        forall|k: Seq<u8>|
            is_reserved_key(k) ==> (#[trigger] with_headers(m, hs, n).contains_key(k)
                == m.contains_key(k) && (m.contains_key(k) ==> with_headers(m, hs, n)[k]
                == m[k])),
    decreases n,
{
    if n > 0 {
        lemma_with_headers_keys(m, hs, n - 1);
        let prev = with_headers(m, hs, n - 1);
        let cur = with_headers(m, hs, n);
        let line = hs[n - 1];
        if line.len() != 0 {
            lemma_header_key_shape(line);
            assert(cur == prev.insert(header_key(line), header_value(line)));
            assert forall|k: Seq<u8>| #[trigger] cur.contains_key(k) && !is_reserved_key(k)
                implies is_header_key(k) by {
                if k != header_key(line) {
                    assert(prev.contains_key(k));
                }
            }
            assert forall|k: Seq<u8>| is_reserved_key(k) implies (#[trigger] cur.contains_key(k)
                == m.contains_key(k) && (m.contains_key(k) ==> cur[k] == m[k])) by {
                assert(k != header_key(line));
            }
        } else {
            assert(cur == prev);
        }
    }
}

proof fn lemma_protocols_ascii()
    ensures
        is_ascii(http_1_0()) && no_upper(http_1_0()),
        is_ascii(http_1_1()) && no_upper(http_1_1()),
{
    assert forall|i: int| 0 <= i < 8 implies #[trigger] http_1_0()[i] < 128 && !crate::bytes::is_upper(
        http_1_0()[i],
    ) && http_1_1()[i] < 128 && !crate::bytes::is_upper(http_1_1()[i]) by {
        assert(i == 0 || i == 1 || i == 2 || i == 3 || i == 4 || i == 5 || i == 6 || i == 7);
    }
}

/// Parsing is a function of the input bytes alone: equal inputs give the
/// same verdict, the same environment and the same decoded path.
pub proof fn lemma_parse_deterministic(a: Seq<u8>, b: Seq<u8>)
    requires
        a == b,
    ensures
        parse_error_of(a) == parse_error_of(b),
        environ_of(a) == environ_of(b),
        decoded_path_of(a) == decoded_path_of(b),
{
}

/// On an accepted request, `method` and `protocol` hold no uppercase letter;
/// `protocol` is `http/1.0` or `http/1.1`, hence ASCII, and `method` is ASCII
/// whenever the method token sent was.
pub proof fn lemma_method_protocol_lowercase(b: Seq<u8>)
    requires
        parse_error_of(b) is None,
    ensures
        environ_of(b).contains_key(key_method()),
        environ_of(b).contains_key(key_protocol()),
        environ_of(b)[key_method()] == method_of(b),
        no_upper(environ_of(b)[key_method()]),
        is_ascii(request_tokens(b)[0]) ==> is_ascii(environ_of(b)[key_method()]),
        environ_of(b)[key_protocol()] == http_1_0() || environ_of(b)[key_protocol()]
            == http_1_1(),
        no_upper(environ_of(b)[key_protocol()]),
        is_ascii(environ_of(b)[key_protocol()]),
{
    let m = base_environ(b);
    assert(key_method().len() == 6 && key_protocol().len() == 8);
    assert(key_path().len() == 4 && key_query_string().len() == 12);
    assert(m[key_method()] == method_of(b));
    assert(m[key_protocol()] == protocol_of(b));
    lemma_protocols_ascii();
    lemma_with_headers_keys(m, header_lines(b), header_lines(b).len() as int);
    assert(is_reserved_key(key_method()));
    assert(is_reserved_key(key_protocol()));
    lemma_lower_no_upper(request_tokens(b)[0]);
    lemma_lower_no_upper(request_tokens(b)[2]);
    assert(environ_of(b).contains_key(key_method()));
    assert(environ_of(b).contains_key(key_protocol()));
    let t = request_tokens(b)[0];
    if is_ascii(t) {
        assert forall|i: int| 0 <= i < lower(t).len() implies #[trigger] lower(t)[i] < 128 by {
            assert(t[i] < 128);
        }
    }
}

/// On an accepted request, every key other than `method`, `protocol`,
/// `path` and `query_string` came from a header: it begins with `http_` and
/// holds no uppercase letter.
pub proof fn lemma_header_keys_prefixed(b: Seq<u8>, k: Seq<u8>)
    requires
        parse_error_of(b) is None,
        environ_of(b).contains_key(k),
        !is_reserved_key(k),
    ensures
        k.len() >= 5,
        k.take(5) == http_prefix(),
        no_upper(k),
{
    lemma_with_headers_keys(base_environ(b), header_lines(b), header_lines(b).len() as int);
}

} // verus!
