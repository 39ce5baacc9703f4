//! Character-level utilities shared by the URL parser, the header store and
//! the markup lexer: ASCII case folding, searching, decimal digits, and the
//! conversions between `String` and `Vec<char>`.

use vstd::prelude::*;

verus! {

// ---------------------------------------------------------------------------
// String <-> Vec<char>
// ---------------------------------------------------------------------------

/// The characters of `s`, in order.
pub fn chars_of(s: &str) -> (r: Vec<char>)
    ensures
        r@ == s@,
{
    let n = s.unicode_len();
    let mut r: Vec<char> = Vec::new();
    let mut i: usize = 0;
    while i < n
        invariant
            i <= n,
            n == s@.len(),
            r@ == s@.take(i as int),
        decreases n - i,
    {
        r.push(s.get_char(i));
        i = i + 1;
        proof {
            assert(s@.take(i as int) =~= s@.take(i - 1).push(s@[i - 1]));
        }
    }
    proof {
        assert(s@.take(n as int) =~= s@);
    }
    r
}

/// Relies on `String::push`: it appends exactly one character.
#[verifier::external_body]
fn push_char(s: &mut String, c: char)
    ensures
        final(s)@ == old(s)@.push(c),
{
    s.push(c);
}

/// The string made of exactly the characters of `v`, in order.
pub fn string_of(v: &Vec<char>) -> (r: String)
    ensures
        r@ == v@,
{
    let mut r = String::new();
    let mut i: usize = 0;
    while i < v.len()
        invariant
            i <= v@.len(),
            r@ == v@.take(i as int),
        decreases v@.len() - i,
    {
        push_char(&mut r, v[i]);
        i = i + 1;
        proof {
            assert(v@.take(i as int) =~= v@.take(i - 1).push(v@[i - 1]));
        }
    }
    proof {
        assert(v@.take(v@.len() as int) =~= v@);
    }
    r
}

/// What `str::to_lowercase` returns: Unicode lowercasing is a function of
/// the characters alone.
pub uninterp spec fn lower_of(s: Seq<char>) -> Seq<char>;

/// Relies on `str::to_lowercase`: the result depends on the characters
/// alone, and an empty string lowercases to an empty string.
#[verifier::external_body]
pub(crate) fn lowercase(s: &str) -> (r: String)
    ensures
        r@ == lower_of(s@),
        s@.len() == 0 ==> r@.len() == 0,
{
    s.to_lowercase()
}

/// Relies on `String::from_utf8`: it succeeds exactly on valid UTF-8 and
/// decodes the bytes into their characters.
#[verifier::external_body]
pub(crate) fn utf8_to_string(bytes: &Vec<u8>) -> (r: Option<String>)
    ensures
        match r {
            Some(s) => vstd::utf8::valid_utf8(bytes@) && s@ == vstd::utf8::decode_utf8(bytes@),
            None => !vstd::utf8::valid_utf8(bytes@),
        },
{
    match String::from_utf8(bytes.clone()) {
        Ok(s) => Some(s),
        Err(_) => None,
    }
}

// ---------------------------------------------------------------------------
// ASCII case folding
// ---------------------------------------------------------------------------

/// ASCII lowercase of one character; anything outside `A`..`Z` is unchanged.
pub open spec fn lower_char(c: char) -> char {
    if 'A' <= c && c <= 'Z' {
        ((c as u8) + 32) as char
    } else {
        c
    }
}

/// ASCII lowercase of a character sequence.
pub open spec fn lower(s: Seq<char>) -> Seq<char> {
    s.map_values(|c: char| lower_char(c))
}

pub fn lower_char_exec(c: char) -> (r: char)
    ensures
        r == lower_char(c),
{
    if 'A' <= c && c <= 'Z' {
        ((c as u8) + 32) as char
    } else {
        c
    }
}

pub fn to_lower(v: &Vec<char>) -> (r: Vec<char>)
    ensures
        r@ == lower(v@),
{
    let mut r: Vec<char> = Vec::new();
    let mut i: usize = 0;
    while i < v.len()
        invariant
            i <= v@.len(),
            r@ =~= lower(v@.take(i as int)),
        decreases v@.len() - i,
    {
        r.push(lower_char_exec(v[i]));
        i = i + 1;
        proof {
            assert(v@.take(i as int) =~= v@.take(i - 1).push(v@[i - 1]));
        }
    }
    proof {
        assert(v@.take(v@.len() as int) =~= v@);
    }
    r
}

// ---------------------------------------------------------------------------
// Searching
// ---------------------------------------------------------------------------

/// Index of the first occurrence of `c` in `s`, or -1 when absent.
pub open spec fn find_char(s: Seq<char>, c: char) -> int
    decreases s.len(),
{
    if s.len() == 0 {
        -1
    } else if s[0] == c {
        0
    } else {
        let r = find_char(s.subrange(1, s.len() as int), c);
        if r < 0 {
            -1
        } else {
            r + 1
        }
    }
}

/// Index of the last occurrence of `c` in `s`, or -1 when absent.
pub open spec fn rfind_char(s: Seq<char>, c: char) -> int
    decreases s.len(),
{
    if s.len() == 0 {
        -1
    } else if s[s.len() - 1] == c {
        s.len() - 1
    } else {
        rfind_char(s.subrange(0, s.len() - 1), c)
    }
}

pub proof fn lemma_find_char(s: Seq<char>, c: char)
    ensures
        find_char(s, c) == -1 || (0 <= find_char(s, c) < s.len()),
        find_char(s, c) >= 0 ==> s[find_char(s, c)] == c,
        forall|i: int| 0 <= i < s.len() && #[trigger] s[i] == c ==> find_char(s, c) >= 0,
        forall|i: int| 0 <= i < find_char(s, c) ==> s[i] != c,
    decreases s.len(),
{
    if s.len() > 0 && s[0] != c {
        let tail = s.subrange(1, s.len() as int);
        lemma_find_char(tail, c);
        assert forall|i: int| 0 <= i < s.len() && #[trigger] s[i] == c implies find_char(s, c)
            >= 0 by {
            if i > 0 {
                assert(tail[i - 1] == c);
            }
        }
        assert forall|i: int| 0 <= i < find_char(s, c) implies s[i] != c by {
            if i > 0 {
                assert(s[i] == tail[i - 1]);
            }
        }
    }
}

pub proof fn lemma_rfind_char(s: Seq<char>, c: char)
    ensures
        rfind_char(s, c) == -1 || (0 <= rfind_char(s, c) < s.len()),
        rfind_char(s, c) >= 0 ==> s[rfind_char(s, c)] == c,
        forall|i: int| 0 <= i < s.len() && #[trigger] s[i] == c ==> rfind_char(s, c) >= 0,
        forall|i: int| rfind_char(s, c) < i < s.len() ==> s[i] != c,
    decreases s.len(),
{
    if s.len() > 0 && s[s.len() - 1] != c {
        let head = s.subrange(0, s.len() - 1);
        lemma_rfind_char(head, c);
        assert forall|i: int| 0 <= i < s.len() && #[trigger] s[i] == c implies rfind_char(s, c)
            >= 0 by {
            if i < s.len() - 1 {
                assert(head[i] == c);
            }
        }
        assert forall|i: int| rfind_char(s, c) < i < s.len() implies s[i] != c by {
            if i < s.len() - 1 {
                assert(s[i] == head[i]);
            }
        }
    }
}

/// First occurrence of `c` in `v`, as an exec search.
pub fn find_char_exec(v: &Vec<char>, c: char) -> (r: Option<usize>)
    ensures
        match r {
            Some(i) => i == find_char(v@, c) && i < v@.len() && v@[i as int] == c,
            None => find_char(v@, c) == -1,
        },
{
    proof {
        lemma_find_char(v@, c);
    }
    let mut i: usize = 0;
    while i < v.len()
        invariant
            i <= v@.len(),
            forall|j: int| 0 <= j < i ==> v@[j] != c,
            find_char(v@, c) == -1 || (0 <= find_char(v@, c) < v@.len() && v@[find_char(v@, c)]
                == c),
            forall|j: int| 0 <= j < v@.len() && #[trigger] v@[j] == c ==> find_char(v@, c) >= 0,
            forall|j: int| 0 <= j < find_char(v@, c) ==> v@[j] != c,
        decreases v@.len() - i,
    {
        if v[i] == c {
            return Some(i);
        }
        i = i + 1;
    }
    None
}

/// Last occurrence of `c` in `v`, as an exec search.
pub fn rfind_char_exec(v: &Vec<char>, c: char) -> (r: Option<usize>)
    ensures
        match r {
            Some(i) => i == rfind_char(v@, c) && i < v@.len() && v@[i as int] == c,
            None => rfind_char(v@, c) == -1,
        },
{
    proof {
        lemma_rfind_char(v@, c);
    }
    let mut i: usize = v.len();
    while i > 0
        invariant
            i <= v@.len(),
            forall|j: int| i <= j < v@.len() ==> v@[j] != c,
            rfind_char(v@, c) == -1 || (0 <= rfind_char(v@, c) < v@.len() && v@[rfind_char(v@, c)]
                == c),
            forall|j: int| 0 <= j < v@.len() && #[trigger] v@[j] == c ==> rfind_char(v@, c) >= 0,
            forall|j: int| rfind_char(v@, c) < j < v@.len() ==> v@[j] != c,
        decreases i,
    {
        i = i - 1;
        if v[i] == c {
            return Some(i);
        }
    }
    None
}

// ---------------------------------------------------------------------------
// Prefix tests
// ---------------------------------------------------------------------------

/// Whether `p` is a prefix of `s`.
pub open spec fn has_prefix(s: Seq<char>, p: Seq<char>) -> bool {
    s.len() >= p.len() && s.subrange(0, p.len() as int) == p
}

pub fn has_prefix_exec(v: &Vec<char>, p: &Vec<char>) -> (r: bool)
    ensures
        r == has_prefix(v@, p@),
{
    if v.len() < p.len() {
        proof {
            assert(!has_prefix(v@, p@));
        }
        return false;
    }
    let mut i: usize = 0;
    while i < p.len()
        invariant
            i <= p@.len() <= v@.len(),
            forall|j: int| 0 <= j < i ==> v@[j] == p@[j],
        decreases p@.len() - i,
    {
        if v[i] != p[i] {
            proof {
                assert(v@.subrange(0, p@.len() as int)[i as int] == v@[i as int]);
            }
            return false;
        }
        i = i + 1;
    }
    proof {
        assert(v@.subrange(0, p@.len() as int) =~= p@);
    }
    true
}

/// Whether `p` occurs in `s` starting at index `i`.
pub open spec fn occurs_at(s: Seq<char>, p: Seq<char>, i: int) -> bool {
    0 <= i && i + p.len() <= s.len() && s.subrange(i, i + p.len()) == p
}

/// Index of the first occurrence of `p` in `s`, or -1 when absent.
pub open spec fn find_str(s: Seq<char>, p: Seq<char>) -> int
    decreases s.len(),
{
    if p.len() == 0 {
        0
    } else if s.len() < p.len() {
        -1
    } else if s.subrange(0, p.len() as int) == p {
        0
    } else {
        let r = find_str(s.subrange(1, s.len() as int), p);
        if r < 0 {
            -1
        } else {
            r + 1
        }
    }
}

pub proof fn lemma_find_str(s: Seq<char>, p: Seq<char>)
    ensures
        find_str(s, p) == -1 || (0 <= find_str(s, p) && find_str(s, p) + p.len() <= s.len()),
        find_str(s, p) >= 0 ==> occurs_at(s, p, find_str(s, p)),
        forall|i: int| #[trigger] occurs_at(s, p, i) ==> find_str(s, p) >= 0,
        forall|i: int| 0 <= i < find_str(s, p) ==> !occurs_at(s, p, i),
    decreases s.len(),
{
    if p.len() == 0 {
        assert(s.subrange(0, 0) =~= p);
        assert(occurs_at(s, p, 0));
    }
    if p.len() > 0 && s.len() >= p.len() && s.subrange(0, p.len() as int) != p {
        let tail = s.subrange(1, s.len() as int);
        lemma_find_str(tail, p);
        if find_str(tail, p) >= 0 {
            let r = find_str(tail, p);
            assert(s.subrange(r + 1, r + 1 + p.len()) =~= tail.subrange(r, r + p.len()));
        }
        assert forall|i: int| #[trigger] occurs_at(s, p, i) implies find_str(s, p) >= 0 by {
            if i > 0 {
                assert(tail.subrange(i - 1, i - 1 + p.len()) =~= s.subrange(i, i + p.len()));
                assert(occurs_at(tail, p, i - 1));
            }
        }
        assert forall|i: int| 0 <= i < find_str(s, p) implies !occurs_at(s, p, i) by {
            if i > 0 && occurs_at(s, p, i) {
                assert(tail.subrange(i - 1, i - 1 + p.len()) =~= s.subrange(i, i + p.len()));
                assert(occurs_at(tail, p, i - 1));
            }
        }
    }
}

/// First occurrence of `p` in `v`, as an exec search.
pub fn find_str_exec(v: &Vec<char>, p: &Vec<char>) -> (r: Option<usize>)
    ensures
        match r {
            Some(i) => i == find_str(v@, p@),
            None => find_str(v@, p@) == -1,
        },
{
    proof {
        lemma_find_str(v@, p@);
    }
    if v.len() < p.len() {
        return None;
    }
    let mut i: usize = 0;
    while i <= v.len() - p.len()
        invariant
            p@.len() <= v@.len(),
            i <= v@.len() - p@.len() + 1,
            forall|j: int| 0 <= j < i ==> !occurs_at(v@, p@, j),
            find_str(v@, p@) == -1 || (0 <= find_str(v@, p@) && occurs_at(v@, p@, find_str(v@, p@))),
            forall|j: int| #[trigger] occurs_at(v@, p@, j) ==> find_str(v@, p@) >= 0,
            forall|j: int| 0 <= j < find_str(v@, p@) ==> !occurs_at(v@, p@, j),
        decreases v@.len() - p@.len() - i + 1,
    {
        let mut k: usize = 0;
        let mut matched = true;
        while k < p.len()
            invariant
                v@.len() <= usize::MAX,
                i + p@.len() <= v@.len(),
                k <= p@.len(),
                matched <==> (forall|m: int| 0 <= m < k ==> v@[i + m] == p@[m]),
            decreases p@.len() - k,
        {
            if v[i + k] != p[k] {
                matched = false;
                proof {
                    assert(v@[i + k as int] != p@[k as int]);
                }
                k = p.len();
            } else {
                proof {
                    assert(v@[i + k as int] == p@[k as int]);
                }
                k = k + 1;
            }
        }
        if matched {
            proof {
                assert(v@.subrange(i as int, i + p@.len()) =~= p@);
                assert(occurs_at(v@, p@, i as int));
            }
            return Some(i);
        }
        proof {
            if occurs_at(v@, p@, i as int) {
                assert forall|m: int| 0 <= m < p@.len() implies v@[i + m] == p@[m] by {
                    assert(v@.subrange(i as int, i + p@.len())[m] == v@[i + m]);
                }
            }
        }
        i = i + 1;
    }
    None
}

/// Element-wise equality of two character vectors.
pub fn chars_eq(a: &Vec<char>, b: &Vec<char>) -> (r: bool)
    ensures
        r == (a@ == b@),
{
    if a.len() != b.len() {
        return false;
    }
    let mut i: usize = 0;
    while i < a.len()
        invariant
            a@.len() == b@.len(),
            i <= a@.len(),
            forall|j: int| 0 <= j < i ==> a@[j] == b@[j],
        decreases a@.len() - i,
    {
        if a[i] != b[i] {
            return false;
        }
        i = i + 1;
    }
    proof {
        assert(a@ =~= b@);
    }
    true
}

/// A copy of `v[from..to]`.
pub fn subvec<T: Copy>(v: &Vec<T>, from: usize, to: usize) -> (r: Vec<T>)
    requires
        from <= to <= v@.len(),
    ensures
        r@ == v@.subrange(from as int, to as int),
{
    let mut r: Vec<T> = Vec::new();
    let mut i: usize = from;
    while i < to
        invariant
            from <= i <= to <= v@.len(),
            r@ =~= v@.subrange(from as int, i as int),
        decreases to - i,
    {
        r.push(v[i]);
        i = i + 1;
        proof {
            assert(v@.subrange(from as int, i as int) =~= v@.subrange(from as int, i - 1).push(
                v@[i - 1],
            ));
        }
    }
    r
}

// ---------------------------------------------------------------------------
// Decimal digits
// ---------------------------------------------------------------------------

pub open spec fn is_digit_char(c: char) -> bool {
    '0' <= c && c <= '9'
}

pub open spec fn digit_of(c: char) -> int {
    c as int - '0' as int
}

pub open spec fn dec_digit_char(d: int) -> char {
    ((d + 48) as u8) as char
}

/// The canonical decimal representation of `n >= 0`, with no leading zero.
pub open spec fn dec_chars(n: int) -> Seq<char>
    decreases n,
{
    if n < 10 {
        seq![dec_digit_char(n)]
    } else {
        dec_chars(n / 10).push(dec_digit_char(n % 10))
    }
}

pub proof fn lemma_dec_chars_digits(n: int)
    requires
        n >= 0,
    ensures
        dec_chars(n).len() >= 1,
        forall|i: int| 0 <= i < dec_chars(n).len() ==> is_digit_char(#[trigger] dec_chars(n)[i]),
    decreases n,
{
    if n >= 10 {
        lemma_dec_chars_digits(n / 10);
    }
}

/// Appends the decimal representation of `n` to `out`.
pub fn push_dec_u64(out: &mut Vec<char>, n: u64)
    ensures
        final(out)@ == old(out)@ + dec_chars(n as int),
    decreases n,
{
    if n < 10 {
        out.push(((n as u8) + 48) as char);
    } else {
        push_dec_u64(out, n / 10);
        out.push((((n % 10) as u8) + 48) as char);
    }
}

/// The numeric value of a digit sequence (most significant digit first).
pub open spec fn dec_val(s: Seq<char>) -> int
    decreases s.len(),
{
    if s.len() == 0 {
        0
    } else {
        dec_val(s.subrange(0, s.len() - 1)) * 10 + digit_of(s[s.len() - 1])
    }
}

pub open spec fn all_digits(s: Seq<char>) -> bool {
    forall|i: int| 0 <= i < s.len() ==> is_digit_char(#[trigger] s[i])
}

/// What `u16` parsing of a digit string yields: a value when the string is
/// non-empty, all digits, and in range; nothing otherwise.
pub open spec fn parse_u16(s: Seq<char>) -> Option<u16> {
    if s.len() > 0 && all_digits(s) && dec_val(s) <= 0xffff {
        Some(dec_val(s) as u16)
    } else {
        None
    }
}

/// The decimal representation evaluates back to the number it came from.
pub proof fn lemma_dec_val_of_dec_chars(n: int)
    requires
        n >= 0,
    ensures
        dec_val(dec_chars(n)) == n,
    decreases n,
{
    if n < 10 {
        let s = seq![dec_digit_char(n)];
        assert(dec_chars(n) == s);
        assert(s.subrange(0, 0) =~= Seq::<char>::empty());
        assert(dec_val(s.subrange(0, 0)) == 0);
        assert(s[s.len() - 1] == dec_digit_char(n));
        assert(dec_val(s) == dec_val(s.subrange(0, 0)) * 10 + digit_of(s[s.len() - 1]));
        assert(digit_of(dec_digit_char(n)) == n);
    } else {
        lemma_dec_val_of_dec_chars(n / 10);
        let x = dec_chars(n / 10);
        let d = dec_digit_char(n % 10);
        let s = x.push(d);
        assert(s.subrange(0, s.len() - 1) =~= x);
        assert(s[s.len() - 1] == d);
        assert(digit_of(d) == n % 10);
    }
}

pub fn parse_u16_exec(v: &Vec<char>, from: usize, to: usize) -> (r: Option<u16>)
    requires
        from <= to <= v@.len(),
    ensures
        r == parse_u16(v@.subrange(from as int, to as int)),
{
    let ghost s = v@.subrange(from as int, to as int);
    if from == to {
        return None;
    }
    let mut acc: u64 = 0;
    let mut i: usize = from;
    while i < to
        invariant
            from <= i <= to <= v@.len(),
            s == v@.subrange(from as int, to as int),
            all_digits(s.subrange(0, i - from)),
            acc == dec_val(s.subrange(0, i - from)),
            acc <= 0xffff,
        decreases to - i,
    {
        let c = v[i];
        if !('0' <= c && c <= '9') {
            proof {
                assert(s[i - from] == c);
                assert(!all_digits(s));
            }
            return None;
        }
        let d: u64 = (c as u64) - 48;
        proof {
            assert(s.subrange(0, i + 1 - from).subrange(0, i - from) =~= s.subrange(0, i - from));
            assert(s.subrange(0, i + 1 - from)[i - from] == c);
        }
        if acc > 6553 || (acc == 6553 && d > 5) {
            proof {
                if all_digits(s) {
                    lemma_dec_val_too_big(s, i + 1 - from, 0xffff);
                }
            }
            return None;
        }
        acc = acc * 10 + d;
        i = i + 1;
    }
    proof {
        assert(s.subrange(0, to - from) =~= s);
    }
    Some(acc as u16)
}

/// Once a digit-string prefix exceeds a bound, the whole string does.
pub proof fn lemma_dec_val_too_big(s: Seq<char>, k: int, b: int)
    requires
        0 <= k <= s.len(),
        all_digits(s),
        b >= 0,
        dec_val(s.subrange(0, k)) > b,
    ensures
        dec_val(s) > b,
    decreases s.len() - k,
{
    if k < s.len() {
        let next = s.subrange(0, k + 1);
        assert(next.subrange(0, k) =~= s.subrange(0, k));
        assert(is_digit_char(s[k]));
        assert(next[next.len() - 1] == s[k]);
        assert(dec_val(next) == dec_val(s.subrange(0, k)) * 10 + digit_of(s[k]));
        lemma_dec_val_too_big(s, k + 1, b);
    } else {
        assert(s.subrange(0, k) =~= s);
    }
}

/// What `u64` parsing of a digit string yields: a value when the string is
/// non-empty, all digits, and in range; nothing otherwise.
pub open spec fn parse_u64(s: Seq<char>) -> Option<u64> {
    if s.len() > 0 && all_digits(s) && dec_val(s) <= 0xffff_ffff_ffff_ffff {
        Some(dec_val(s) as u64)
    } else {
        None
    }
}

pub fn parse_u64_exec(v: &Vec<char>, from: usize, to: usize) -> (r: Option<u64>)
    requires
        from <= to <= v@.len(),
    ensures
        r == parse_u64(v@.subrange(from as int, to as int)),
{
    let ghost s = v@.subrange(from as int, to as int);
    if from == to {
        return None;
    }
    let mut acc: u64 = 0;
    let mut i: usize = from;
    while i < to
        invariant
            from <= i <= to <= v@.len(),
            s == v@.subrange(from as int, to as int),
            all_digits(s.subrange(0, i - from)),
            acc == dec_val(s.subrange(0, i - from)),
        decreases to - i,
    {
        let c = v[i];
        if !('0' <= c && c <= '9') {
            proof {
                assert(s[i - from] == c);
                assert(!all_digits(s));
            }
            return None;
        }
        let d: u64 = (c as u64) - 48;
        proof {
            assert(s.subrange(0, i + 1 - from).subrange(0, i - from) =~= s.subrange(0, i - from));
            assert(s.subrange(0, i + 1 - from)[i - from] == c);
        }
        if acc > 0xffff_ffff_ffff_ffff / 10 || (acc == 0xffff_ffff_ffff_ffff / 10 && d > 5) {
            proof {
                if all_digits(s) {
                    lemma_dec_val_too_big(s, i + 1 - from, 0xffff_ffff_ffff_ffff);
                }
            }
            return None;
        }
        acc = acc * 10 + d;
        i = i + 1;
    }
    proof {
        assert(s.subrange(0, to - from) =~= s);
    }
    Some(acc)
}

// ---------------------------------------------------------------------------
// ASCII whitespace trimming
// ---------------------------------------------------------------------------

/// ASCII whitespace, as byte-level trimming recognizes it.
pub open spec fn is_space_char(c: char) -> bool {
    c == ' ' || c == '\t' || c == '\n' || c == '\r' || c == '\u{c}'
}

pub open spec fn trim_start(s: Seq<char>) -> Seq<char>
    decreases s.len(),
{
    if s.len() > 0 && is_space_char(s[0]) {
        trim_start(s.subrange(1, s.len() as int))
    } else {
        s
    }
}

pub open spec fn trim_end(s: Seq<char>) -> Seq<char>
    decreases s.len(),
{
    if s.len() > 0 && is_space_char(s[s.len() - 1]) {
        trim_end(s.subrange(0, s.len() - 1))
    } else {
        s
    }
}

/// `s` with ASCII whitespace removed from both ends.
pub open spec fn trim(s: Seq<char>) -> Seq<char> {
    trim_end(trim_start(s))
}

pub fn is_space_char_exec(c: char) -> (r: bool)
    ensures
        r == is_space_char(c),
{
    c == ' ' || c == '\t' || c == '\n' || c == '\r' || c == '\u{c}'
}

fn trim_start_exec(v: Vec<char>) -> (r: Vec<char>)
    ensures
        r@ == trim_start(v@),
    decreases v@.len(),
{
    if v.len() > 0 && is_space_char_exec(v[0]) {
        trim_start_exec(subvec(&v, 1, v.len()))
    } else {
        v
    }
}

fn trim_end_exec(v: Vec<char>) -> (r: Vec<char>)
    ensures
        r@ == trim_end(v@),
    decreases v@.len(),
{
    if v.len() > 0 && is_space_char_exec(v[v.len() - 1]) {
        trim_end_exec(subvec(&v, 0, v.len() - 1))
    } else {
        v
    }
}

pub fn trim_exec(v: Vec<char>) -> (r: Vec<char>)
    ensures
        r@ == trim(v@),
{
    trim_end_exec(trim_start_exec(v))
}

} // verus!
