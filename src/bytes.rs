//! Byte-level primitives: ASCII case folding, line and field splitting,
//! whitespace stripping and percent-decoding, each with its own model.

use vstd::prelude::*;

verus! {

/// Carriage return.
pub const CR: u8 = 13;

/// Line feed.
pub const LF: u8 = 10;

/// Space.
pub const SP: u8 = 32;

/// Horizontal tab.
pub const HT: u8 = 9;

/// Form feed.
pub const FF: u8 = 12;

/// `%`, which opens an escape.
pub const PERCENT: u8 = 37;

/// The ASCII lowercase form of one byte; every other byte is kept.
pub open spec fn lower_byte(c: u8) -> u8 {
    if 65 <= c && c <= 90 {
        (c + 32) as u8
    } else {
        c
    }
}

/// True when the byte is an ASCII uppercase letter.
pub open spec fn is_upper(c: u8) -> bool {
    65 <= c && c <= 90
}

/// The ASCII lowercase form of a byte string.
pub open spec fn lower(s: Seq<u8>) -> Seq<u8> {
    s.map_values(|c: u8| lower_byte(c))
}

/// True when no byte of `s` is an ASCII uppercase letter.
pub open spec fn no_upper(s: Seq<u8>) -> bool {
    forall|i: int| 0 <= i < s.len() ==> !is_upper(#[trigger] s[i])
}

/// Lowercasing leaves no uppercase letter behind.
pub proof fn lemma_lower_no_upper(s: Seq<u8>)
    ensures
        no_upper(lower(s)),
{
}

/// Returns a copy of `s` with ASCII letters folded to lowercase.
pub fn ascii_lowercase(s: &[u8]) -> (r: Vec<u8>)
    ensures
        r@ == lower(s@),
{
    let mut r: Vec<u8> = Vec::with_capacity(s.len());
    let mut i: usize = 0;
    while i < s.len()
        invariant
            i <= s.len(),
            r@ == lower(s@.take(i as int)),
        decreases s.len() - i,
    {
        let c = s[i];
        let d: u8 = if 65 <= c && c <= 90 { c + 32 } else { c };
        r.push(d);
        i = i + 1;
        assert(lower(s@.take(i as int)) =~= lower(s@.take(i - 1)).push(d));
    }
    assert(s@.take(s.len() as int) =~= s@);
    r
}

/// The views of a sequence of byte vectors.
pub open spec fn views(v: Seq<Vec<u8>>) -> Seq<Seq<u8>> {
    v.map_values(|x: Vec<u8>| x@)
}

/// Splits `s` on `sep`, left to right, making at most `n` more splits.
/// `start` is where the current piece began and `i` the byte under scan.
pub open spec fn split_from(s: Seq<u8>, sep: u8, n: nat, start: int, i: int) -> Seq<Seq<u8>>
    decreases s.len() - i,
{
    if i >= s.len() {
        seq![s.subrange(start, s.len() as int)]
    } else if n > 0 && s[i] == sep {
        seq![s.subrange(start, i)] + split_from(s, sep, (n - 1) as nat, i + 1, i + 1)
    } else {
        split_from(s, sep, n, start, i + 1)
    }
}

/// The pieces of `s` split on `sep` at its first `n` occurrences at most:
/// never more than `n + 1` pieces, the last holding the rest verbatim.
pub open spec fn split_bounded(s: Seq<u8>, sep: u8, n: nat) -> Seq<Seq<u8>> {
    split_from(s, sep, n, 0, 0)
}

/// The lines of `s` from `start`, scanning at `i`: pieces separated by CR LF.
pub open spec fn lines_from(s: Seq<u8>, start: int, i: int) -> Seq<Seq<u8>>
    decreases s.len() - i,
{
    if i + 1 >= s.len() {
        seq![s.subrange(start, s.len() as int)]
    } else if s[i] == CR && s[i + 1] == LF {
        seq![s.subrange(start, i)] + lines_from(s, i + 2, i + 2)
    } else {
        lines_from(s, start, i + 1)
    }
}

/// The lines of `s`, split on every CR LF; the text after the last one is
/// the last line, empty when `s` ends in CR LF.
pub open spec fn crlf_lines(s: Seq<u8>) -> Seq<Seq<u8>> {
    lines_from(s, 0, 0)
}

proof fn lemma_split_from_nonempty(s: Seq<u8>, sep: u8, n: nat, start: int, i: int)
    ensures
        split_from(s, sep, n, start, i).len() >= 1,
    decreases s.len() - i,
{
    if i < s.len() {
        if n > 0 && s[i] == sep {
            lemma_split_from_nonempty(s, sep, (n - 1) as nat, i + 1, i + 1);
        } else {
            lemma_split_from_nonempty(s, sep, n, start, i + 1);
        }
    }
}

proof fn lemma_lines_from_nonempty(s: Seq<u8>, start: int, i: int)
    ensures
        lines_from(s, start, i).len() >= 1,
    decreases s.len() - i,
{
    if i + 1 < s.len() {
        if s[i] == CR && s[i + 1] == LF {
            lemma_lines_from_nonempty(s, i + 2, i + 2);
        } else {
            lemma_lines_from_nonempty(s, start, i + 1);
        }
    }
}

/// Splitting always yields at least one piece.
pub proof fn lemma_split_nonempty(s: Seq<u8>, sep: u8, n: nat)
    ensures
        split_bounded(s, sep, n).len() >= 1,
{
    lemma_split_from_nonempty(s, sep, n, 0, 0);
}

/// There is always at least one line.
pub proof fn lemma_lines_nonempty(s: Seq<u8>)
    ensures
        crlf_lines(s).len() >= 1,
{
    lemma_lines_from_nonempty(s, 0, 0);
}

/// Splits `s` on `sep` at most `max_splits` times, left to right.
pub fn split_bytes_on(s: &[u8], sep: u8, max_splits: usize) -> (r: Vec<Vec<u8>>)
    ensures
        views(r@) == split_bounded(s@, sep, max_splits as nat),
{
    let mut r: Vec<Vec<u8>> = Vec::new();
    let mut n: usize = max_splits;
    let mut start: usize = 0;
    let mut i: usize = 0;
    while i < s.len()
        invariant
            start <= i <= s.len(),
            views(r@) + split_from(s@, sep, n as nat, start as int, i as int)
                == split_bounded(s@, sep, max_splits as nat),
        decreases s.len() - i,
    {
        if n > 0 && s[i] == sep {
            let piece = vstd::slice::slice_to_vec(vstd::slice::slice_subrange(s, start, i));
            proof {
                assert(views(r@.push(piece)) =~= views(r@).push(piece@));
                assert(seq![piece@] + split_from(s@, sep, (n - 1) as nat, i + 1, i + 1)
                    == split_from(s@, sep, n as nat, start as int, i as int));
                assert(views(r@) + split_from(s@, sep, n as nat, start as int, i as int)
                    =~= views(r@).push(piece@) + split_from(s@, sep, (n - 1) as nat, i + 1, i + 1));
            }
            r.push(piece);
            n = n - 1;
            start = i + 1;
        }
        i = i + 1;
    }
    let last = vstd::slice::slice_to_vec(vstd::slice::slice_subrange(s, start, s.len()));
    proof {
        assert(views(r@.push(last)) =~= views(r@) + seq![last@]);
    }
    r.push(last);
    r
}

/// Splits `s` into lines on every CR LF.
pub fn split_bytes_on_crlf(s: &[u8]) -> (r: Vec<Vec<u8>>)
    ensures
        views(r@) == crlf_lines(s@),
{
    let mut r: Vec<Vec<u8>> = Vec::new();
    let mut start: usize = 0;
    let mut i: usize = 0;
    while s.len() - i > 1
        invariant
            start <= i <= s.len(),
            views(r@) + lines_from(s@, start as int, i as int) == crlf_lines(s@),
        decreases s.len() - i,
    {
        if s[i] == CR && s[i + 1] == LF {
            let line = vstd::slice::slice_to_vec(vstd::slice::slice_subrange(s, start, i));
            proof {
                assert(views(r@.push(line)) =~= views(r@).push(line@));
                assert(views(r@) + lines_from(s@, start as int, i as int)
                    =~= views(r@).push(line@) + lines_from(s@, i + 2, i + 2));
            }
            r.push(line);
            start = i + 2;
            i = i + 2;
        } else {
            i = i + 1;
        }
    }
    let last = vstd::slice::slice_to_vec(vstd::slice::slice_subrange(s, start, s.len()));
    proof {
        assert(views(r@.push(last)) =~= views(r@) + seq![last@]);
    }
    r.push(last);
    r
}

/// True for the ASCII whitespace bytes: space, tab, line feed, form feed
/// and carriage return.
pub open spec fn is_ws(c: u8) -> bool {
    c == SP || c == HT || c == LF || c == FF || c == CR
}

/// `s` without its leading whitespace.
pub open spec fn lstrip(s: Seq<u8>) -> Seq<u8>
    decreases s.len(),
{
    if s.len() > 0 && is_ws(s[0]) {
        lstrip(s.drop_first())
    } else {
        s
    }
}

/// Returns a copy of `s` with its leading whitespace removed.
pub fn lstrip_bytes(s: &[u8]) -> (r: Vec<u8>)
    ensures
        r@ == lstrip(s@),
{
    let mut i: usize = 0;
    assert(s@.skip(0) =~= s@);
    while i < s.len() && (s[i] == SP || s[i] == HT || s[i] == LF || s[i] == FF || s[i] == CR)
        invariant
            i <= s.len(),
            lstrip(s@.skip(i as int)) == lstrip(s@),
        decreases s.len() - i,
    {
        assert(s@.skip(i as int).drop_first() =~= s@.skip(i + 1));
        i = i + 1;
    }
    let r = vstd::slice::slice_to_vec(vstd::slice::slice_subrange(s, i, s.len()));
    assert(r@ =~= s@.skip(i as int));
    r
}

/// The value of an ASCII hexadecimal digit, either case.
pub open spec fn hex_val(c: u8) -> int {
    if 48 <= c <= 57 {
        c - 48
    } else if 97 <= c <= 102 {
        c - 87
    } else if 65 <= c <= 70 {
        c - 55
    } else {
        -1
    }
}

/// True when the byte is an ASCII hexadecimal digit.
pub open spec fn is_hex(c: u8) -> bool {
    hex_val(c) >= 0
}

/// Percent-decoding: each `%` followed by two hexadecimal digits stands
/// for the byte they spell; every other byte, a stray `%` included, is kept.
pub open spec fn pct_decode(s: Seq<u8>) -> Seq<u8>
    decreases s.len(),
{
    if s.len() == 0 {
        Seq::empty()
    } else if s.len() >= 3 && s[0] == PERCENT && is_hex(s[1]) && is_hex(s[2]) {
        seq![(hex_val(s[1]) * 16 + hex_val(s[2])) as u8] + pct_decode(s.skip(3))
    } else {
        seq![s[0]] + pct_decode(s.skip(1))
    }
}

/// A byte string with no `%` decodes to itself.
pub proof fn lemma_pct_decode_plain(s: Seq<u8>)
    requires
        forall|i: int| 0 <= i < s.len() ==> #[trigger] s[i] != PERCENT,
    ensures
        pct_decode(s) == s,
    decreases s.len(),
{
    if s.len() > 0 {
        lemma_pct_decode_plain(s.skip(1));
        assert(seq![s[0]] + s.skip(1) =~= s);
    }
}

fn hex_digit(c: u8) -> (r: Option<u8>)
    ensures
        match r {
            Some(v) => is_hex(c) && v as int == hex_val(c),
            None => !is_hex(c),
        },
{
    if 48 <= c && c <= 57 {
        Some(c - 48)
    } else if 97 <= c && c <= 102 {
        Some(c - 87)
    } else if 65 <= c && c <= 70 {
        Some(c - 55)
    } else {
        None
    }
}

/// Reverses the `%XX` escapes of `s`.
pub fn percent_decode(s: &[u8]) -> (r: Vec<u8>)
    ensures
        r@ == pct_decode(s@),
{
    let mut r: Vec<u8> = Vec::new();
    let mut i: usize = 0;
    assert(s@.skip(0) =~= s@);
    while i < s.len()
        invariant
            i <= s.len(),
            r@ + pct_decode(s@.skip(i as int)) == pct_decode(s@),
        decreases s.len() - i,
    {
        let rest = Ghost(s@.skip(i as int));
        let mut step: usize = 1;
        let mut byte: u8 = s[i];
        if s[i] == PERCENT && s.len() - i >= 3 {
            match (hex_digit(s[i + 1]), hex_digit(s[i + 2])) {
                (Some(hi), Some(lo)) => {
                    assert(hi < 16 && lo < 16);
                    byte = hi * 16 + lo;
                    step = 3;
                },
                _ => {},
            }
        }
        proof {
            assert(rest@[0] == s@[i as int]);
            if s.len() - i >= 3 {
                assert(rest@[1] == s@[i + 1]);
                assert(rest@[2] == s@[i + 2]);
            }
            assert(rest@.skip(step as int) =~= s@.skip(i + step));
            assert(pct_decode(rest@) == seq![byte] + pct_decode(s@.skip(i + step)));
            assert(r@.push(byte) + pct_decode(s@.skip(i + step)) =~= r@ + pct_decode(rest@));
        }
        r.push(byte);
        i = i + step;
    }
    assert(pct_decode(s@.skip(i as int)) =~= Seq::<u8>::empty());
    assert(r@ + Seq::<u8>::empty() =~= r@);
    r
}

} // verus!
