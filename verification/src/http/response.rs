//! The HTTP/1.1 response parser: a pure, incremental parser over the bytes
//! read so far. It reports that more bytes are needed, that the prefix is
//! malformed, or the parsed response with how many bytes it consumed —
//! exactly as `spec_parse_response` says, for every input.

use vstd::prelude::*;

verus! {

use crate::text::{all_digits, dec_val};

// ---------------------------------------------------------------------------
// Byte utilities
// ---------------------------------------------------------------------------

/// Index of the first occurrence of `b` in `s`, or -1 when absent.
pub open spec fn find_byte(s: Seq<u8>, b: u8) -> int
    decreases s.len(),
{
    if s.len() == 0 {
        -1
    } else if s[0] == b {
        0
    } else {
        let r = find_byte(s.subrange(1, s.len() as int), b);
        if r < 0 {
            -1
        } else {
            r + 1
        }
    }
}

pub proof fn lemma_find_byte(s: Seq<u8>, b: u8)
    ensures
        find_byte(s, b) == -1 || (0 <= find_byte(s, b) < s.len()),
        find_byte(s, b) >= 0 ==> s[find_byte(s, b)] == b,
        forall|i: int| 0 <= i < s.len() && #[trigger] s[i] == b ==> find_byte(s, b) >= 0,
        forall|i: int| 0 <= i < find_byte(s, b) ==> s[i] != b,
    decreases s.len(),
{
    if s.len() > 0 && s[0] != b {
        let tail = s.subrange(1, s.len() as int);
        lemma_find_byte(tail, b);
        assert forall|i: int| 0 <= i < s.len() && #[trigger] s[i] == b implies find_byte(s, b)
            >= 0 by {
            if i > 0 {
                assert(tail[i - 1] == b);
            }
        }
        assert forall|i: int| 0 <= i < find_byte(s, b) implies s[i] != b by {
            if i > 0 {
                assert(s[i] == tail[i - 1]);
            }
        }
    }
}

/// First occurrence of `b` in `v` at or after `from`, without copying.
pub fn find_byte_from(v: &Vec<u8>, from: usize, b: u8) -> (r: Option<usize>)
    requires
        from <= v@.len(),
    ensures
        v@.len() <= usize::MAX,
        ({
            let s = v@.subrange(from as int, v@.len() as int);
            match r {
                Some(i) => from <= i < v@.len() && i - from == find_byte(s, b) && v@[i as int] == b,
                None => find_byte(s, b) == -1,
            }
        }),
{
    let ghost s = v@.subrange(from as int, v@.len() as int);
    proof {
        lemma_find_byte(s, b);
    }
    let mut i: usize = from;
    while i < v.len()
        invariant
            from <= i <= v@.len(),
            s == v@.subrange(from as int, v@.len() as int),
            forall|j: int| 0 <= j < i - from ==> s[j] != b,
            find_byte(s, b) == -1 || (0 <= find_byte(s, b) < s.len() && s[find_byte(s, b)] == b),
            forall|j: int| 0 <= j < s.len() && #[trigger] s[j] == b ==> find_byte(s, b) >= 0,
            forall|j: int| 0 <= j < find_byte(s, b) ==> s[j] != b,
        decreases v@.len() - i,
    {
        if v[i] == b {
            proof {
                assert(s[i - from] == b);
            }
            return Some(i);
        }
        proof {
            assert(s[i - from] == v@[i as int]);
        }
        i = i + 1;
    }
    None
}

/// ASCII whitespace, as `trim_ascii` sees it.
pub open spec fn is_space_byte(b: u8) -> bool {
    b == 32 || b == 9 || b == 10 || b == 13 || b == 12
}

pub open spec fn trim_start_bytes(s: Seq<u8>) -> Seq<u8>
    decreases s.len(),
{
    if s.len() > 0 && is_space_byte(s[0]) {
        trim_start_bytes(s.subrange(1, s.len() as int))
    } else {
        s
    }
}

pub open spec fn trim_end_bytes(s: Seq<u8>) -> Seq<u8>
    decreases s.len(),
{
    if s.len() > 0 && is_space_byte(s[s.len() - 1]) {
        trim_end_bytes(s.subrange(0, s.len() - 1))
    } else {
        s
    }
}

/// `s` with ASCII whitespace removed from both ends.
pub open spec fn trim_bytes(s: Seq<u8>) -> Seq<u8> {
    trim_end_bytes(trim_start_bytes(s))
}

fn is_space_byte_exec(b: u8) -> (r: bool)
    ensures
        r == is_space_byte(b),
{
    b == 32 || b == 9 || b == 10 || b == 13 || b == 12
}

fn trim_start_bytes_exec(v: Vec<u8>) -> (r: Vec<u8>)
    ensures
        r@ == trim_start_bytes(v@),
    decreases v@.len(),
{
    if v.len() > 0 && is_space_byte_exec(v[0]) {
        trim_start_bytes_exec(crate::text::subvec(&v, 1, v.len()))
    } else {
        v
    }
}

pub fn trim_end_bytes_exec(v: Vec<u8>) -> (r: Vec<u8>)
    ensures
        r@ == trim_end_bytes(v@),
    decreases v@.len(),
{
    if v.len() > 0 && is_space_byte_exec(v[v.len() - 1]) {
        trim_end_bytes_exec(crate::text::subvec(&v, 0, v.len() - 1))
    } else {
        v
    }
}

pub fn trim_bytes_exec(v: Vec<u8>) -> (r: Vec<u8>)
    ensures
        r@ == trim_bytes(v@),
{
    trim_end_bytes_exec(trim_start_bytes_exec(v))
}

// ---------------------------------------------------------------------------
// Numbers on the wire
// ---------------------------------------------------------------------------

pub open spec fn is_digit_byte(b: u8) -> bool {
    48 <= b && b <= 57
}

pub open spec fn is_hex_byte(b: u8) -> bool {
    is_digit_byte(b) || (97 <= b && b <= 102) || (65 <= b && b <= 70)
}

pub open spec fn hex_val_byte(b: u8) -> int {
    if is_digit_byte(b) {
        b - 48
    } else if 97 <= b && b <= 102 {
        b - 87
    } else {
        b - 55
    }
}

pub open spec fn all_digit_bytes(s: Seq<u8>) -> bool {
    forall|i: int| 0 <= i < s.len() ==> is_digit_byte(#[trigger] s[i])
}

pub open spec fn all_hex_bytes(s: Seq<u8>) -> bool {
    forall|i: int| 0 <= i < s.len() ==> is_hex_byte(#[trigger] s[i])
}

/// The numeric value of a decimal digit-byte string.
pub open spec fn dec_val_bytes(s: Seq<u8>) -> int
    decreases s.len(),
{
    if s.len() == 0 {
        0
    } else {
        dec_val_bytes(s.subrange(0, s.len() - 1)) * 10 + (s[s.len() - 1] - 48)
    }
}

/// The numeric value of a hex digit-byte string.
pub open spec fn hex_val_bytes(s: Seq<u8>) -> int
    decreases s.len(),
{
    if s.len() == 0 {
        0
    } else {
        hex_val_bytes(s.subrange(0, s.len() - 1)) * 16 + hex_val_byte(s[s.len() - 1])
    }
}

/// What `u16` parsing of a decimal byte string yields.
pub open spec fn parse_u16_bytes(s: Seq<u8>) -> Option<u16> {
    if s.len() > 0 && all_digit_bytes(s) && dec_val_bytes(s) <= 0xffff {
        Some(dec_val_bytes(s) as u16)
    } else {
        None
    }
}

/// What `usize` parsing of a decimal byte string yields.
pub open spec fn parse_usize_bytes(s: Seq<u8>) -> Option<usize> {
    if s.len() > 0 && all_digit_bytes(s) && dec_val_bytes(s) <= usize::MAX {
        Some(dec_val_bytes(s) as usize)
    } else {
        None
    }
}

/// What `usize` parsing of a hex byte string yields.
pub open spec fn parse_hex_usize_bytes(s: Seq<u8>) -> Option<usize> {
    if s.len() > 0 && all_hex_bytes(s) && hex_val_bytes(s) <= usize::MAX {
        Some(hex_val_bytes(s) as usize)
    } else {
        None
    }
}

proof fn lemma_dec_val_bytes_too_big(s: Seq<u8>, k: int, b: int)
    requires
        0 <= k <= s.len(),
        all_digit_bytes(s),
        b >= 0,
        dec_val_bytes(s.subrange(0, k)) > b,
    ensures
        dec_val_bytes(s) > b,
    decreases s.len() - k,
{
    if k < s.len() {
        let next = s.subrange(0, k + 1);
        assert(next.subrange(0, k) =~= s.subrange(0, k));
        assert(is_digit_byte(s[k]));
        assert(next[next.len() - 1] == s[k]);
        assert(dec_val_bytes(next) == dec_val_bytes(s.subrange(0, k)) * 10 + (s[k] - 48));
        lemma_dec_val_bytes_too_big(s, k + 1, b);
    } else {
        assert(s.subrange(0, k) =~= s);
    }
}

proof fn lemma_hex_val_bytes_too_big(s: Seq<u8>, k: int, b: int)
    requires
        0 <= k <= s.len(),
        all_hex_bytes(s),
        b >= 0,
        hex_val_bytes(s.subrange(0, k)) > b,
    ensures
        hex_val_bytes(s) > b,
    decreases s.len() - k,
{
    if k < s.len() {
        let next = s.subrange(0, k + 1);
        assert(next.subrange(0, k) =~= s.subrange(0, k));
        assert(is_hex_byte(s[k]));
        assert(next[next.len() - 1] == s[k]);
        assert(hex_val_bytes(next) == hex_val_bytes(s.subrange(0, k)) * 16 + hex_val_byte(s[k]));
        lemma_hex_val_bytes_too_big(s, k + 1, b);
    } else {
        assert(s.subrange(0, k) =~= s);
    }
}

/// Parses `v` as a decimal number no bigger than `cap`, exactly as
/// `parse_usize_bytes` says (with `cap == usize::MAX`).
pub fn parse_usize_bytes_exec(v: &Vec<u8>) -> (r: Option<usize>)
    ensures
        r == parse_usize_bytes(v@),
{
    let ghost s = v@;
    if v.len() == 0 {
        return None;
    }
    let mut acc: usize = 0;
    let mut i: usize = 0;
    while i < v.len()
        invariant
            i <= v@.len(),
            s == v@,
            all_digit_bytes(s.subrange(0, i as int)),
            acc == dec_val_bytes(s.subrange(0, i as int)),
        decreases v@.len() - i,
    {
        let b = v[i];
        if !(48 <= b && b <= 57) {
            proof {
                assert(s[i as int] == b);
                assert(!all_digit_bytes(s));
            }
            return None;
        }
        let d: usize = (b - 48) as usize;
        proof {
            assert(s.subrange(0, i + 1).subrange(0, i as int) =~= s.subrange(0, i as int));
            assert(s.subrange(0, i + 1)[i as int] == b);
        }
        if acc > usize::MAX / 10 || (acc == usize::MAX / 10 && d > usize::MAX % 10) {
            proof {
                if all_digit_bytes(s) {
                    lemma_dec_val_bytes_too_big(s, i + 1, usize::MAX as int);
                }
            }
            return None;
        }
        acc = acc * 10 + d;
        i = i + 1;
    }
    proof {
        assert(s.subrange(0, s.len() as int) =~= s);
    }
    Some(acc)
}

pub fn parse_u16_bytes_exec(v: &Vec<u8>) -> (r: Option<u16>)
    ensures
        r == parse_u16_bytes(v@),
{
    let ghost s = v@;
    if v.len() == 0 {
        return None;
    }
    let mut acc: u32 = 0;
    let mut i: usize = 0;
    while i < v.len()
        invariant
            i <= v@.len(),
            s == v@,
            all_digit_bytes(s.subrange(0, i as int)),
            acc == dec_val_bytes(s.subrange(0, i as int)),
            acc <= 0xffff,
        decreases v@.len() - i,
    {
        let b = v[i];
        if !(48 <= b && b <= 57) {
            proof {
                assert(s[i as int] == b);
                assert(!all_digit_bytes(s));
            }
            return None;
        }
        let d: u32 = (b - 48) as u32;
        proof {
            assert(s.subrange(0, i + 1).subrange(0, i as int) =~= s.subrange(0, i as int));
            assert(s.subrange(0, i + 1)[i as int] == b);
        }
        if acc > 6553 || (acc == 6553 && d > 5) {
            proof {
                if all_digit_bytes(s) {
                    lemma_dec_val_bytes_too_big(s, i + 1, 0xffff);
                }
            }
            return None;
        }
        acc = acc * 10 + d;
        i = i + 1;
    }
    proof {
        assert(s.subrange(0, s.len() as int) =~= s);
    }
    Some(acc as u16)
}

fn hex_digit_value(b: u8) -> (r: Option<u8>)
    ensures
        match r {
            Some(d) => is_hex_byte(b) && d == hex_val_byte(b),
            None => !is_hex_byte(b),
        },
{
    if 48 <= b && b <= 57 {
        Some(b - 48)
    } else if 97 <= b && b <= 102 {
        Some(b - 87)
    } else if 65 <= b && b <= 70 {
        Some(b - 55)
    } else {
        None
    }
}

pub fn parse_hex_usize_bytes_exec(v: &Vec<u8>) -> (r: Option<usize>)
    ensures
        r == parse_hex_usize_bytes(v@),
{
    let ghost s = v@;
    if v.len() == 0 {
        return None;
    }
    let mut acc: usize = 0;
    let mut i: usize = 0;
    while i < v.len()
        invariant
            i <= v@.len(),
            s == v@,
            all_hex_bytes(s.subrange(0, i as int)),
            acc == hex_val_bytes(s.subrange(0, i as int)),
        decreases v@.len() - i,
    {
        let b = v[i];
        let d = match hex_digit_value(b) {
            Some(d) => d,
            None => {
                proof {
                    assert(s[i as int] == b);
                    assert(!all_hex_bytes(s));
                }
                return None;
            },
        };
        proof {
            assert(s.subrange(0, i + 1).subrange(0, i as int) =~= s.subrange(0, i as int));
            assert(s.subrange(0, i + 1)[i as int] == b);
        }
        if acc > usize::MAX / 16 || (acc == usize::MAX / 16 && (d as usize) > usize::MAX % 16) {
            proof {
                if all_hex_bytes(s) {
                    lemma_hex_val_bytes_too_big(s, i + 1, usize::MAX as int);
                }
            }
            return None;
        }
        acc = acc * 16 + (d as usize);
        i = i + 1;
    }
    proof {
        assert(s.subrange(0, s.len() as int) =~= s);
    }
    Some(acc)
}

/// What `usize` parsing of a decimal character string yields (for the
/// `Content-Length` header value).
pub open spec fn parse_usize_chars(s: Seq<char>) -> Option<usize> {
    if s.len() > 0 && all_digits(s) && dec_val(s) <= usize::MAX {
        Some(dec_val(s) as usize)
    } else {
        None
    }
}

pub fn parse_usize_chars_exec(v: &Vec<char>) -> (r: Option<usize>)
    ensures
        r == parse_usize_chars(v@),
{
    let ghost s = v@;
    if v.len() == 0 {
        return None;
    }
    let mut acc: usize = 0;
    let mut i: usize = 0;
    while i < v.len()
        invariant
            i <= v@.len(),
            s == v@,
            all_digits(s.subrange(0, i as int)),
            acc == dec_val(s.subrange(0, i as int)),
        decreases v@.len() - i,
    {
        let c = v[i];
        if !('0' <= c && c <= '9') {
            proof {
                assert(s[i as int] == c);
                assert(!all_digits(s));
            }
            return None;
        }
        let d: usize = (c as usize) - 48;
        proof {
            assert(s.subrange(0, i + 1).subrange(0, i as int) =~= s.subrange(0, i as int));
            assert(s.subrange(0, i + 1)[i as int] == c);
        }
        if acc > usize::MAX / 10 || (acc == usize::MAX / 10 && d > usize::MAX % 10) {
            proof {
                if all_digits(s) {
                    crate::text::lemma_dec_val_too_big(s, i + 1, usize::MAX as int);
                }
            }
            return None;
        }
        acc = acc * 10 + d;
        i = i + 1;
    }
    proof {
        assert(s.subrange(0, s.len() as int) =~= s);
    }
    Some(acc)
}

// ---------------------------------------------------------------------------
// The response grammar
// ---------------------------------------------------------------------------

use crate::http::headers::{Headers, HeaderEntryView, lookup, spec_set};
use vstd::utf8::{valid_utf8, decode_utf8};

/// Index just past the first `\n` at or after `from`, or -1 when the data
/// holds no complete line yet.
pub open spec fn line_end(s: Seq<u8>, from: int) -> int {
    if 0 <= from <= s.len() {
        let i = find_byte(s.subrange(from, s.len() as int), 10);
        if i < 0 {
            -1
        } else {
            from + i + 1
        }
    } else {
        -1
    }
}

/// What parsing a status line yields: the second of three space-separated
/// tokens, read as a decimal status code.
pub open spec fn spec_status_line(line: Seq<u8>) -> Option<u16> {
    let t = trim_bytes(line);
    let sp1 = find_byte(t, 32);
    if sp1 < 0 {
        None
    } else {
        let rest = t.subrange(sp1 + 1, t.len() as int);
        let sp2 = find_byte(rest, 32);
        if sp2 < 0 {
            None
        } else {
            parse_u16_bytes(rest.subrange(0, sp2))
        }
    }
}

pub enum SpecHeaders {
    Incomplete,
    Malformed,
    Done(Seq<HeaderEntryView>, int),
}

/// Header lines folded into the store until the bare `\r\n` line: each line
/// is trimmed, split at its first `:`, both parts trimmed and UTF-8 decoded.
pub open spec fn spec_headers(s: Seq<u8>, from: int, acc: Seq<HeaderEntryView>) -> SpecHeaders
    decreases s.len() - from,
{
    let e = line_end(s, from);
    if e < 0 {
        SpecHeaders::Incomplete
    } else if !(from < e && e <= s.len()) {
        SpecHeaders::Malformed
    } else {
        let line = s.subrange(from, e);
        if line == seq![13u8, 10u8] {
            SpecHeaders::Done(acc, e)
        } else {
            let t = trim_bytes(line);
            let c = find_byte(t, 58);
            if c < 0 {
                SpecHeaders::Malformed
            } else {
                let name_b = trim_bytes(t.subrange(0, c));
                let value_b = trim_bytes(t.subrange(c + 1, t.len() as int));
                if valid_utf8(name_b) && valid_utf8(value_b) {
                    spec_headers(s, e, spec_set(acc, decode_utf8(name_b), decode_utf8(value_b)))
                } else {
                    SpecHeaders::Malformed
                }
            }
        }
    }
}

pub enum SpecBody {
    Incomplete,
    Malformed,
    Done(Seq<u8>, int),
}

/// Chunked framing: a hex size line, that many raw bytes, then `\r\n`,
/// repeated until a zero-size chunk.
pub open spec fn spec_chunks(s: Seq<u8>, from: int, acc: Seq<u8>) -> SpecBody
    decreases s.len() - from,
{
    let e = line_end(s, from);
    if e < 0 {
        SpecBody::Incomplete
    } else if !(from < e && e <= s.len()) {
        SpecBody::Malformed
    } else {
        match parse_hex_usize_bytes(trim_end_bytes(s.subrange(from, e))) {
            None => SpecBody::Malformed,
            Some(n) => {
                if e + n + 2 > s.len() {
                    SpecBody::Incomplete
                } else if s[e + n] == 13 && s[e + n + 1] == 10 {
                    if n == 0 {
                        SpecBody::Done(acc, e + 2)
                    } else {
                        spec_chunks(s, e + n + 2, acc + s.subrange(e, e + n))
                    }
                } else {
                    SpecBody::Malformed
                }
            },
        }
    }
}

pub open spec fn te_key() -> Seq<char> {
    seq!['t', 'r', 'a', 'n', 's', 'f', 'e', 'r', '-', 'e', 'n', 'c', 'o', 'd', 'i', 'n', 'g']
}

pub open spec fn cl_key() -> Seq<char> {
    seq!['c', 'o', 'n', 't', 'e', 'n', 't', '-', 'l', 'e', 'n', 'g', 't', 'h']
}

pub open spec fn chunked_chars() -> Seq<char> {
    seq!['c', 'h', 'u', 'n', 'k', 'e', 'd']
}

/// A parsed response in the mathematical model. `consumed` says how many of
/// the input bytes belong to this response; the rest are a later response on
/// the same persistent connection.
pub struct SpecResponse {
    pub status: u16,
    pub headers: Seq<HeaderEntryView>,
    pub body: Seq<u8>,
    pub consumed: int,
}

pub enum SpecParse {
    Incomplete,
    Malformed,
    UnhandledTransferEncoding,
    Done(SpecResponse),
}

/// What parsing the bytes read so far yields, for every input: status line,
/// header lines, then the body framed either by `Transfer-Encoding: chunked`
/// (which wins, and any other value of it is refused) or by an exact
/// `Content-Length` (whose absence is malformed).
pub open spec fn spec_parse_response(s: Seq<u8>) -> SpecParse {
    let e0 = line_end(s, 0);
    if e0 < 0 {
        SpecParse::Incomplete
    } else {
        match spec_status_line(s.subrange(0, e0)) {
            None => SpecParse::Malformed,
            Some(status) => match spec_headers(s, e0, Seq::<HeaderEntryView>::empty()) {
                SpecHeaders::Incomplete => SpecParse::Incomplete,
                SpecHeaders::Malformed => SpecParse::Malformed,
                SpecHeaders::Done(hs, after) => match lookup(hs, te_key()) {
                    Some(v) => if v != chunked_chars() {
                        SpecParse::UnhandledTransferEncoding
                    } else {
                        match spec_chunks(s, after, Seq::<u8>::empty()) {
                            SpecBody::Incomplete => SpecParse::Incomplete,
                            SpecBody::Malformed => SpecParse::Malformed,
                            SpecBody::Done(body, consumed) => SpecParse::Done(
                                SpecResponse { status, headers: hs, body, consumed },
                            ),
                        }
                    },
                    None => match lookup(hs, cl_key()) {
                        None => SpecParse::Malformed,
                        Some(v) => match parse_usize_chars(v) {
                            None => SpecParse::Malformed,
                            Some(n) => if after + n > s.len() {
                                SpecParse::Incomplete
                            } else {
                                SpecParse::Done(
                                    SpecResponse {
                                        status,
                                        headers: hs,
                                        body: s.subrange(after, after + n),
                                        consumed: after + n,
                                    },
                                )
                            },
                        },
                    },
                },
            },
        }
    }
}

// ---------------------------------------------------------------------------
// The executable parser
// ---------------------------------------------------------------------------

/// A parsed response: status code, header store, raw body bytes, and how
/// many input bytes the response occupied.
pub struct Response {
    pub status: u16,
    pub headers: Headers,
    pub body: Vec<u8>,
    pub consumed: usize,
}

pub enum Parsed {
    /// The data so far is a prefix of a response: read more.
    Incomplete,
    /// The data cannot be a response.
    Malformed,
    /// A `Transfer-Encoding` other than `chunked`.
    UnhandledTransferEncoding,
    Done(Response),
}

/// How the executable result reflects the specified one.
pub open spec fn parsed_matches(r: Parsed, o: SpecParse) -> bool {
    match (r, o) {
        (Parsed::Incomplete, SpecParse::Incomplete) => true,
        (Parsed::Malformed, SpecParse::Malformed) => true,
        (Parsed::UnhandledTransferEncoding, SpecParse::UnhandledTransferEncoding) => true,
        (Parsed::Done(resp), SpecParse::Done(d)) => resp.status == d.status && resp.headers@
            == d.headers && resp.headers.wf() && resp.body@ == d.body && resp.consumed == d.consumed
,
        _ => false,
    }
}

fn parse_status_line_exec(line: Vec<u8>) -> (r: Option<u16>)
    ensures
        r == spec_status_line(line@),
{
    let t = trim_bytes_exec(line);
    let sp1 = match find_byte_from(&t, 0, 32) {
        None => {
            proof {
                assert(t@.subrange(0, t@.len() as int) =~= t@);
            }
            return None;
        },
        Some(i) => i,
    };
    proof {
        assert(t@.subrange(0, t@.len() as int) =~= t@);
    }
    let rest = crate::text::subvec(&t, sp1 + 1, t.len());
    let sp2 = match find_byte_from(&rest, 0, 32) {
        None => {
            proof {
                assert(rest@.subrange(0, rest@.len() as int) =~= rest@);
            }
            return None;
        },
        Some(i) => i,
    };
    proof {
        assert(rest@.subrange(0, rest@.len() as int) =~= rest@);
    }
    let tok = crate::text::subvec(&rest, 0, sp2);
    parse_u16_bytes_exec(&tok)
}

enum HeadersPhase {
    Incomplete,
    Malformed,
    Done(Headers, usize),
}

fn parse_headers_exec(data: &Vec<u8>, start: usize) -> (r: HeadersPhase)
    requires
        start <= data@.len(),
    ensures
        match r {
            HeadersPhase::Incomplete => spec_headers(data@, start as int, Seq::empty())
                is Incomplete,
            HeadersPhase::Malformed => spec_headers(data@, start as int, Seq::empty())
                is Malformed,
            HeadersPhase::Done(h, after) => spec_headers(data@, start as int, Seq::empty())
                == SpecHeaders::Done(h@, after as int) && h.wf() && start <= after <= data@.len(),
        },
{
    let mut headers = Headers::new();
    let mut pos = start;
    proof {
        assert(headers@ =~= Seq::<HeaderEntryView>::empty());
    }
    loop
        invariant
            start <= pos <= data@.len(),
            headers.wf(),
            spec_headers(data@, start as int, Seq::empty()) == spec_headers(
                data@,
                pos as int,
                headers@,
            ),
        decreases data@.len() - pos,
    {
        let e = match find_byte_from(data, pos, 10) {
            None => {
                return HeadersPhase::Incomplete;
            },
            Some(i) => i + 1,
        };
        proof {
            assert(line_end(data@, pos as int) == e as int);
        }
        let line = crate::text::subvec(data, pos, e);
        let ghost line_v = line@;
        if line.len() == 2 && line[0] == 13 && line[1] == 10 {
            proof {
                assert(line_v =~= seq![13u8, 10u8]);
            }
            return HeadersPhase::Done(headers, e);
        }
        proof {
            if line_v == seq![13u8, 10u8] {
                assert(line_v.len() == 2 && line_v[0] == 13 && line_v[1] == 10);
                assert(false);
            }
        }
        let t = trim_bytes_exec(line);
        let c = match find_byte_from(&t, 0, 58) {
            None => {
                proof {
                    assert(t@.subrange(0, t@.len() as int) =~= t@);
                }
                return HeadersPhase::Malformed;
            },
            Some(c) => c,
        };
        proof {
            assert(t@.subrange(0, t@.len() as int) =~= t@);
        }
        let name_b = trim_bytes_exec(crate::text::subvec(&t, 0, c));
        let value_b = trim_bytes_exec(crate::text::subvec(&t, c + 1, t.len()));
        let name_s = match crate::text::utf8_to_string(&name_b) {
            None => {
                return HeadersPhase::Malformed;
            },
            Some(s) => s,
        };
        let value_s = match crate::text::utf8_to_string(&value_b) {
            None => {
                return HeadersPhase::Malformed;
            },
            Some(s) => s,
        };
        let ghost prev = headers@;
        headers.set(name_s.as_str(), value_s.as_str());
        proof {
            assert(headers@ == spec_set(prev, name_s@, value_s@));
            assert(spec_headers(data@, pos as int, prev) == spec_headers(
                data@,
                e as int,
                headers@,
            ));
        }
        pos = e;
    }
}

enum BodyPhase {
    Incomplete,
    Malformed,
    Done(Vec<u8>, usize),
}

fn parse_chunks_exec(data: &Vec<u8>, start: usize) -> (r: BodyPhase)
    requires
        start <= data@.len(),
    ensures
        match r {
            BodyPhase::Incomplete => spec_chunks(data@, start as int, Seq::empty()) is Incomplete,
            BodyPhase::Malformed => spec_chunks(data@, start as int, Seq::empty()) is Malformed,
            BodyPhase::Done(body, after) => spec_chunks(data@, start as int, Seq::empty())
                == SpecBody::Done(body@, after as int) && start <= after <= data@.len(),
        },
{
    let mut body: Vec<u8> = Vec::new();
    let mut pos = start;
    proof {
        assert(body@ =~= Seq::<u8>::empty());
    }
    loop
        invariant
            start <= pos <= data@.len(),
            spec_chunks(data@, start as int, Seq::empty()) == spec_chunks(
                data@,
                pos as int,
                body@,
            ),
        decreases data@.len() - pos,
    {
        let e = match find_byte_from(data, pos, 10) {
            None => {
                return BodyPhase::Incomplete;
            },
            Some(i) => i + 1,
        };
        proof {
            assert(line_end(data@, pos as int) == e as int);
        }
        let size_line = trim_end_bytes_exec(crate::text::subvec(data, pos, e));
        let n = match parse_hex_usize_bytes_exec(&size_line) {
            None => {
                return BodyPhase::Malformed;
            },
            Some(n) => n,
        };
        if data.len() - e < 2 || n > data.len() - e - 2 {
            proof {
                assert(e + n + 2 > data@.len());
            }
            return BodyPhase::Incomplete;
        }
        if !(data[e + n] == 13 && data[e + n + 1] == 10) {
            return BodyPhase::Malformed;
        }
        if n == 0 {
            return BodyPhase::Done(body, e + 2);
        }
        let ghost prev = body@;
        let mut chunk = crate::text::subvec(data, e, e + n);
        body.append(&mut chunk);
        proof {
            assert(body@ == prev + data@.subrange(e as int, e + n));
            assert(spec_chunks(data@, pos as int, prev) == spec_chunks(
                data@,
                (e + n + 2) as int,
                body@,
            ));
        }
        pos = e + n + 2;
    }
}

/// Parses the bytes read so far as one HTTP/1.1 response; the result is
/// exactly `spec_parse_response` of the input.
pub fn parse_response(data: &Vec<u8>) -> (r: Parsed)
    ensures
        parsed_matches(r, spec_parse_response(data@)),
        r matches Parsed::Done(resp) ==> resp.consumed <= data@.len(),
{
    let e0 = match find_byte_from(data, 0, 10) {
        None => {
            proof {
                assert(data@.subrange(0, data@.len() as int) =~= data@);
            }
            return Parsed::Incomplete;
        },
        Some(i) => i + 1,
    };
    proof {
        assert(data@.subrange(0, data@.len() as int) =~= data@);
        assert(line_end(data@, 0) == e0 as int);
    }
    let status_line = crate::text::subvec(data, 0, e0);
    let status = match parse_status_line_exec(status_line) {
        None => {
            return Parsed::Malformed;
        },
        Some(st) => st,
    };
    let (headers, after) = match parse_headers_exec(data, e0) {
        HeadersPhase::Incomplete => {
            return Parsed::Incomplete;
        },
        HeadersPhase::Malformed => {
            return Parsed::Malformed;
        },
        HeadersPhase::Done(h, after) => (h, after),
    };
    proof {
        reveal_strlit("transfer-encoding");
        reveal_strlit("content-length");
        reveal_strlit("chunked");
        assert(crate::text::lower("transfer-encoding"@) =~= te_key());
        assert(crate::text::lower("content-length"@) =~= cl_key());
        assert("chunked"@ =~= chunked_chars());
    }
    let te = headers.get("transfer-encoding");
    match te {
        Some(v) => {
            let vc = crate::text::chars_of(v);
            let ck = crate::text::chars_of("chunked");
            if !crate::text::chars_eq(&vc, &ck) {
                return Parsed::UnhandledTransferEncoding;
            }
            match parse_chunks_exec(data, after) {
                BodyPhase::Incomplete => Parsed::Incomplete,
                BodyPhase::Malformed => Parsed::Malformed,
                BodyPhase::Done(body, consumed) => Parsed::Done(
                    Response { status, headers, body, consumed },
                ),
            }
        },
        None => {
            let cl = match headers.get("content-length") {
                None => {
                    return Parsed::Malformed;
                },
                Some(v) => v,
            };
            let clc = crate::text::chars_of(cl);
            let n = match parse_usize_chars_exec(&clc) {
                None => {
                    return Parsed::Malformed;
                },
                Some(n) => n,
            };
            if n > data.len() - after {
                return Parsed::Incomplete;
            }
            let body = crate::text::subvec(data, after, after + n);
            Parsed::Done(Response { status, headers, body, consumed: after + n })
        },
    }
}

} // verus!
