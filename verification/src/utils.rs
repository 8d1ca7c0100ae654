//! Verified text utilities shared by the parsers of the dictionary files.
use vstd::prelude::*;

use crate::errors::{Fault, VibratoError};
use vstd::string::*;
use vstd::utf8::*;

verus! {

// ---------------------------------------------------------------------
// Integers written in text
// ---------------------------------------------------------------------

/// The value of `c` as a digit in the given radix (10 or 16), or -1 if it is none.
pub open spec fn digit_of(c: char, radix: int) -> int {
    let u = c as u32;
    if 0x30 <= u <= 0x39 && (u - 0x30) < radix {
        u - 0x30
    } else if radix == 16 && 0x61 <= u <= 0x66 {
        u - 0x61 + 10
    } else if radix == 16 && 0x41 <= u <= 0x46 {
        u - 0x41 + 10
    } else {
        -1
    }
}

/// All characters of `s` are digits in the radix.
pub open spec fn all_digits(s: Seq<char>, radix: int) -> bool {
    forall|i: int| 0 <= i < s.len() ==> #[trigger] digit_of(s[i], radix) >= 0
}

/// The value of a sequence of digits (most significant first).
pub open spec fn digits_value(s: Seq<char>, radix: int) -> int
    decreases s.len(),
{
    if s.len() == 0 {
        0
    } else {
        digits_value(s.drop_last(), radix) * radix + digit_of(s.last(), radix)
    }
}

/// The integer that `str::parse` (radix 10) or `from_str_radix` reads from `s`:
/// an optional `+` (or `-` when `signed`), then one or more digits, nothing else.
/// The bounds of the target type are checked separately.
pub open spec fn spec_parse_int(s: Seq<char>, signed: bool, radix: int) -> Option<int> {
    let neg = signed && s.len() > 0 && s[0] == '-';
    let body = if s.len() > 0 && (s[0] == '+' || neg) {
        s.drop_first()
    } else {
        s
    };
    if body.len() > 0 && all_digits(body, radix) {
        if neg {
            Some(-digits_value(body, radix))
        } else {
            Some(digits_value(body, radix))
        }
    } else {
        None
    }
}

/// `s` denotes an integer in `[lo, hi]`; the value then is `spec_parse_int(..)->0`.
pub open spec fn parses_in(s: Seq<char>, signed: bool, radix: int, lo: int, hi: int) -> bool {
    spec_parse_int(s, signed, radix) matches Some(v) && lo <= v <= hi
}

pub proof fn lemma_digits_value_nonneg(s: Seq<char>, radix: int)
    requires
        all_digits(s, radix),
        radix == 10 || radix == 16,
    ensures
        digits_value(s, radix) >= 0,
    decreases s.len(),
{
    if s.len() > 0 {
        assert(all_digits(s.drop_last(), radix)) by {
            assert forall|i: int| 0 <= i < s.drop_last().len() implies #[trigger] digit_of(
                s.drop_last()[i],
                radix,
            ) >= 0 by {
                assert(s.drop_last()[i] == s[i]);
            }
        }
        assert(digit_of(s[s.len() - 1], radix) >= 0);
        lemma_digits_value_nonneg(s.drop_last(), radix);
        assert(digits_value(s.drop_last(), radix) * radix >= 0) by (nonlinear_arith)
            requires
                digits_value(s.drop_last(), radix) >= 0,
                radix >= 0,
        ;
    }
}

proof fn lemma_digits_value_prefix(s: Seq<char>, radix: int, k: int)
    requires
        all_digits(s, radix),
        radix == 10 || radix == 16,
        0 <= k <= s.len(),
    ensures
        digits_value(s.take(k), radix) <= digits_value(s, radix),
    decreases s.len(),
{
    if k < s.len() {
        let t = s.drop_last();
        assert(all_digits(t, radix)) by {
            assert forall|i: int| 0 <= i < t.len() implies #[trigger] digit_of(t[i], radix)
                >= 0 by {
                assert(t[i] == s[i]);
            }
        }
        assert(s.take(k) =~= t.take(k));
        lemma_digits_value_prefix(t, radix, k);
        lemma_digits_value_nonneg(t, radix);
        assert(digit_of(s[s.len() - 1], radix) >= 0);
        assert(digits_value(t, radix) <= digits_value(t, radix) * radix) by (nonlinear_arith)
            requires
                digits_value(t, radix) >= 0,
                radix >= 1,
        ;
    } else {
        assert(s.take(k) =~= s);
    }
}

/// Reads an integer from `s` as `str::parse` does for radix 10, or
/// `from_str_radix` for radix 16, and returns it if it lies in `[lo, hi]`.
pub fn parse_int(s: &[char], signed: bool, radix: u32, lo: i128, hi: i128) -> (r: Option<i128>)
    requires
        radix == 10 || radix == 16,
        -0x1_0000_0000_0000_0000 <= lo <= 0 <= hi <= 0x1_0000_0000_0000_0000,
    ensures
        r is Some <==> parses_in(s@, signed, radix as int, lo as int, hi as int),
        r matches Some(v) ==> spec_parse_int(s@, signed, radix as int) == Some(v as int),
{
    let n = s.len();
    let neg = signed && n > 0 && s[0] == '-';
    let start: usize = if n > 0 && (s[0] == '+' || neg) {
        1
    } else {
        0
    };
    if start >= n {
        return None;
    }
    let ghost body = s@.subrange(start as int, n as int);
    assert(body =~= (if n > 0 && (s@[0] == '+' || neg) {
        s@.drop_first()
    } else {
        s@
    }));
    let bound: i128 = if neg {
        -lo
    } else {
        hi
    };
    let r: i128 = radix as i128;
    let mut acc: i128 = 0;
    let mut i: usize = start;
    while i < n
        invariant
            start <= i <= n,
            n == s@.len(),
            1 <= start || start == 0,
            start < n,
            body == s@.subrange(start as int, n as int),
            r == radix as i128,
            radix == 10 || radix == 16,
            neg == (signed && n > 0 && s@[0] == '-'),
            start == (if n > 0 && (s@[0] == '+' || neg) { 1usize } else { 0usize }),
            bound == (if neg { -lo } else { hi as int }),
            -0x1_0000_0000_0000_0000 <= lo <= 0 <= hi <= 0x1_0000_0000_0000_0000,
            body =~= (if n > 0 && (s@[0] == '+' || neg) { s@.drop_first() } else { s@ }),
            0 <= bound <= 0x1_0000_0000_0000_0000,
            all_digits(body.take(i - start), radix as int),
            acc == digits_value(body.take(i - start), radix as int),
            0 <= acc <= bound,
        decreases n - i,
    {
        let c = s[i];
        let u = c as u32;
        let d: i128 = if 0x30 <= u && u <= 0x39 && (u - 0x30) < radix {
            (u - 0x30) as i128
        } else if radix == 16 && 0x61 <= u && u <= 0x66 {
            (u - 0x61 + 10) as i128
        } else if radix == 16 && 0x41 <= u && u <= 0x46 {
            (u - 0x41 + 10) as i128
        } else {
            -1
        };
        assert(d == digit_of(c, radix as int));
        let ghost k = i - start;
        assert(body[k] == c);
        if d < 0 {
            assert(!all_digits(body, radix as int)) by {
                assert(digit_of(body[k], radix as int) < 0);
            }
            return None;
        }
        assert(body.take(k + 1).drop_last() =~= body.take(k));
        assert(body.take(k + 1).last() == c);
        let next: i128 = acc * r + d;
        assert(all_digits(body.take(k + 1), radix as int)) by {
            assert forall|j: int| 0 <= j < body.take(k + 1).len() implies #[trigger] digit_of(
                body.take(k + 1)[j],
                radix as int,
            ) >= 0 by {
                if j < k {
                    assert(body.take(k + 1)[j] == body.take(k)[j]);
                }
            }
        }
        if next > bound {
            proof {
                if all_digits(body, radix as int) {
                    lemma_digits_value_prefix(body, radix as int, k + 1);
                }
            }
            return None;
        }
        acc = next;
        i = i + 1;
    }
    assert(body.take(n - start) =~= body);
    if neg {
        Some(-acc)
    } else {
        if acc < lo {
            return None;
        }
        Some(acc)
    }
}

/// The `u16` that `str::parse::<u16>` reads from `s`, if any.
pub open spec fn spec_u16(s: Seq<char>) -> Option<u16> {
    if parses_in(s, false, 10, 0, 0xffff) {
        Some(spec_parse_int(s, false, 10)->0 as u16)
    } else {
        None
    }
}

/// The `i16` that `str::parse::<i16>` reads from `s`, if any.
pub open spec fn spec_i16(s: Seq<char>) -> Option<i16> {
    if parses_in(s, true, 10, -0x8000, 0x7fff) {
        Some(spec_parse_int(s, true, 10)->0 as i16)
    } else {
        None
    }
}

/// The `i32` that `str::parse::<i32>` reads from `s`, if any.
pub open spec fn spec_i32(s: Seq<char>) -> Option<i32> {
    if parses_in(s, true, 10, -0x8000_0000, 0x7fff_ffff) {
        Some(spec_parse_int(s, true, 10)->0 as i32)
    } else {
        None
    }
}

/// The `u32` that `str::parse::<u32>` reads from `s`, if any.
pub open spec fn spec_u32(s: Seq<char>) -> Option<u32> {
    if parses_in(s, false, 10, 0, 0xffff_ffff) {
        Some(spec_parse_int(s, false, 10)->0 as u32)
    } else {
        None
    }
}

/// The `usize` that `usize::from_str_radix` reads from `s` in the radix, if any.
pub open spec fn spec_usize(s: Seq<char>, radix: int) -> Option<usize> {
    if parses_in(s, false, radix, 0, usize::MAX as int) {
        Some(spec_parse_int(s, false, radix)->0 as usize)
    } else {
        None
    }
}

/// Reads a `u16` written in decimal, as `str::parse::<u16>` does.
pub fn parse_u16(s: &[char]) -> (r: Result<u16, VibratoError>)
    ensures
        r is Ok <==> parses_in(s@, false, 10, 0, 0xffff),
        r matches Ok(v) ==> spec_parse_int(s@, false, 10) == Some(v as int),
        r matches Ok(v) ==> spec_u16(s@) == Some(v),
        r is Err ==> spec_u16(s@) is None,
        r matches Err(e) ==> e is ParseInt,
{
    match parse_int(s, false, 10, 0, 0xffff) {
        Some(v) => Ok(v as u16),
        None => Err(VibratoError::ParseInt),
    }
}

/// Reads an `i16` written in decimal, as `str::parse::<i16>` does.
pub fn parse_i16(s: &[char]) -> (r: Result<i16, VibratoError>)
    ensures
        r is Ok <==> parses_in(s@, true, 10, -0x8000, 0x7fff),
        r matches Ok(v) ==> spec_parse_int(s@, true, 10) == Some(v as int),
        r matches Ok(v) ==> spec_i16(s@) == Some(v),
        r is Err ==> spec_i16(s@) is None,
        r matches Err(e) ==> e is ParseInt,
{
    match parse_int(s, true, 10, -0x8000, 0x7fff) {
        Some(v) => Ok(v as i16),
        None => Err(VibratoError::ParseInt),
    }
}

/// Reads an `i32` written in decimal, as `str::parse::<i32>` does.
pub fn parse_i32(s: &[char]) -> (r: Result<i32, VibratoError>)
    ensures
        r is Ok <==> parses_in(s@, true, 10, -0x8000_0000, 0x7fff_ffff),
        r matches Ok(v) ==> spec_parse_int(s@, true, 10) == Some(v as int),
        r matches Ok(v) ==> spec_i32(s@) == Some(v),
        r is Err ==> spec_i32(s@) is None,
        r matches Err(e) ==> e is ParseInt,
{
    match parse_int(s, true, 10, -0x8000_0000, 0x7fff_ffff) {
        Some(v) => Ok(v as i32),
        None => Err(VibratoError::ParseInt),
    }
}

/// Reads a `u32` written in decimal, as `str::parse::<u32>` does.
pub fn parse_u32(s: &[char]) -> (r: Result<u32, VibratoError>)
    ensures
        r is Ok <==> parses_in(s@, false, 10, 0, 0xffff_ffff),
        r matches Ok(v) ==> spec_parse_int(s@, false, 10) == Some(v as int),
        r matches Ok(v) ==> spec_u32(s@) == Some(v),
        r is Err ==> spec_u32(s@) is None,
        r matches Err(e) ==> e is ParseInt,
{
    match parse_int(s, false, 10, 0, 0xffff_ffff) {
        Some(v) => Ok(v as u32),
        None => Err(VibratoError::ParseInt),
    }
}

/// Reads a `usize` written in the radix (10 or 16), as `str::parse::<usize>` or
/// `usize::from_str_radix` does.
pub fn parse_usize(s: &[char], radix: u32) -> (r: Result<usize, VibratoError>)
    requires
        radix == 10 || radix == 16,
    ensures
        r is Ok <==> parses_in(s@, false, radix as int, 0, usize::MAX as int),
        r matches Ok(v) ==> spec_parse_int(s@, false, radix as int) == Some(v as int),
        r matches Ok(v) ==> spec_usize(s@, radix as int) == Some(v),
        r is Err ==> spec_usize(s@, radix as int) is None,
        r matches Err(e) ==> e is ParseInt,
{
    match parse_int(s, false, radix, 0, usize::MAX as i128) {
        Some(v) => Ok(v as usize),
        None => Err(VibratoError::ParseInt),
    }
}

// ---------------------------------------------------------------------
// Characters and strings
// ---------------------------------------------------------------------

/// Unicode `White_Space`, the property that `char::is_whitespace` tests.
pub open spec fn spec_is_whitespace(c: char) -> bool {
    let u = c as u32;
    (0x09 <= u <= 0x0d) || u == 0x20 || u == 0x85 || u == 0xa0 || u == 0x1680 || (0x2000 <= u
        <= 0x200a) || u == 0x2028 || u == 0x2029 || u == 0x202f || u == 0x205f || u == 0x3000
}

/// Whether `c` is white space, as `char::is_whitespace`.
pub fn is_whitespace(c: char) -> (r: bool)
    ensures
        r == spec_is_whitespace(c),
{
    let u = c as u32;
    (0x09 <= u && u <= 0x0d) || u == 0x20 || u == 0x85 || u == 0xa0 || u == 0x1680 || (0x2000
        <= u && u <= 0x200a) || u == 0x2028 || u == 0x2029 || u == 0x202f || u == 0x205f || u
        == 0x3000
}

/// `s` without its leading white space (`str::trim_start`).
pub open spec fn spec_trim_start(s: Seq<char>) -> Seq<char>
    decreases s.len(),
{
    if s.len() > 0 && spec_is_whitespace(s[0]) {
        spec_trim_start(s.drop_first())
    } else {
        s
    }
}

/// `s` without its trailing white space (`str::trim_end`).
pub open spec fn spec_trim_end(s: Seq<char>) -> Seq<char>
    decreases s.len(),
{
    if s.len() > 0 && spec_is_whitespace(s.last()) {
        spec_trim_end(s.drop_last())
    } else {
        s
    }
}

/// `s` without leading and trailing white space (`str::trim`).
pub open spec fn spec_trim(s: Seq<char>) -> Seq<char> {
    spec_trim_end(spec_trim_start(s))
}

/// Returns `(a, b)` such that `s[a..b]` is `s` trimmed of white space.
pub fn trim(s: &[char]) -> (r: (usize, usize))
    ensures
        r.0 <= r.1 <= s@.len(),
        s@.subrange(r.0 as int, r.1 as int) == spec_trim(s@),
{
    let n = s.len();
    let mut a: usize = 0;
    assert(s@.subrange(0, n as int) =~= s@);
    while a < n && is_whitespace(s[a])
        invariant
            a <= n == s@.len(),
            spec_trim_start(s@) == spec_trim_start(s@.subrange(a as int, n as int)),
        decreases n - a,
    {
        assert(s@.subrange(a as int, n as int).drop_first() =~= s@.subrange(a + 1, n as int));
        a = a + 1;
    }
    let ghost t = s@.subrange(a as int, n as int);
    assert(spec_trim_start(s@) == t);
    let mut b: usize = n;
    while b > a && is_whitespace(s[b - 1])
        invariant
            a <= b <= n == s@.len(),
            t == s@.subrange(a as int, n as int),
            spec_trim_end(t) == spec_trim_end(s@.subrange(a as int, b as int)),
        decreases b,
    {
        assert(s@.subrange(a as int, b as int).drop_last() =~= s@.subrange(a as int, b - 1));
        b = b - 1;
    }
    (a, b)
}

/// Index of the first occurrence of `c` in `s`, or `s.len()` if there is none.
pub open spec fn index_of<A>(s: Seq<A>, c: A) -> int
    decreases s.len(),
{
    if s.len() == 0 {
        0
    } else if s[0] == c {
        0
    } else {
        1 + index_of(s.drop_first(), c)
    }
}

pub proof fn lemma_index_of<A>(s: Seq<A>, c: A, k: int)
    requires
        0 <= k <= s.len(),
        forall|j: int| 0 <= j < k ==> s[j] != c,
        k == s.len() || s[k] == c,
    ensures
        index_of(s, c) == k,
    decreases s.len(),
{
    if s.len() > 0 && k > 0 {
        lemma_index_of(s.drop_first(), c, k - 1);
    }
}

/// The pieces of `s` between occurrences of `sep` (`str::split` by a character).
pub open spec fn spec_split(s: Seq<char>, sep: char) -> Seq<Seq<char>>
    decreases s.len(),
{
    let i = index_of(s, sep);
    if i >= s.len() {
        seq![s]
    } else {
        proof {
            lemma_index_of_bound(s, sep);
        }
        seq![s.take(i)] + spec_split(s.skip(i + 1), sep)
    }
}

pub proof fn lemma_index_of_bound<A>(s: Seq<A>, c: A)
    ensures
        0 <= index_of(s, c) <= s.len(),
        index_of(s, c) < s.len() ==> s[index_of(s, c)] == c,
        forall|j: int| 0 <= j < index_of(s, c) ==> s[j] != c,
    decreases s.len(),
{
    if s.len() > 0 && s[0] != c {
        lemma_index_of_bound(s.drop_first(), c);
        assert forall|j: int| 0 <= j < index_of(s, c) implies s[j] != c by {
            if j > 0 {
                assert(s[j] == s.drop_first()[j - 1]);
            }
        }
    }
}

/// Splits `s` at every occurrence of `sep`, as `str::split` with a character.
pub fn split_char(s: &[char], sep: char) -> (r: Vec<Vec<char>>)
    ensures
        r.deep_view() == spec_split(s@, sep),
{
    let n = s.len();
    let mut r: Vec<Vec<char>> = Vec::new();
    let mut start: usize = 0;
    let mut cur: Vec<char> = Vec::new();
    let mut i: usize = 0;
    assert(s@.skip(0) =~= s@);
    assert(r.deep_view() =~= Seq::<Seq<char>>::empty());
    while i < n
        invariant
            start <= i <= n == s@.len(),
            cur@ == s@.subrange(start as int, i as int),
            forall|j: int| start <= j < i ==> s@[j] != sep,
            r.deep_view() + spec_split(s@.skip(start as int), sep) == spec_split(s@, sep),
        decreases n - i,
    {
        if s[i] == sep {
            let ghost t = s@.skip(start as int);
            let ghost piece = s@.subrange(start as int, i as int);
            proof {
                lemma_index_of(t, sep, (i - start) as int);
                assert(t.take((i - start) as int) =~= piece);
                assert(t.skip((i - start) as int + 1) =~= s@.skip(i + 1));
            }
            let ghost old_r = r.deep_view();
            assert(cur.deep_view() =~= piece);
            r.push(cur);
            assert(r.deep_view() =~= old_r.push(piece));
            cur = Vec::new();
            start = i + 1;
            assert(r.deep_view() + spec_split(s@.skip(start as int), sep) =~= old_r + spec_split(
                t,
                sep,
            ));
        } else {
            cur.push(s[i]);
        }
        i = i + 1;
    }
    let ghost t = s@.skip(start as int);
    proof {
        lemma_index_of(t, sep, t.len() as int);
        assert(t =~= cur@);
    }
    let ghost old_r = r.deep_view();
    assert(cur.deep_view() =~= t);
    r.push(cur);
    assert(r.deep_view() =~= old_r + seq![t]);
    r
}

/// Index of the first white space character in `s`, or `s.len()` if there is none.
pub open spec fn index_of_ws(s: Seq<char>) -> int
    decreases s.len(),
{
    if s.len() == 0 {
        0
    } else if spec_is_whitespace(s[0]) {
        0
    } else {
        1 + index_of_ws(s.drop_first())
    }
}

proof fn lemma_index_of_ws(s: Seq<char>, k: int)
    requires
        0 <= k <= s.len(),
        forall|j: int| 0 <= j < k ==> !spec_is_whitespace(s[j]),
        k == s.len() || spec_is_whitespace(s[k]),
    ensures
        index_of_ws(s) == k,
    decreases s.len(),
{
    if s.len() > 0 && k > 0 {
        lemma_index_of_ws(s.drop_first(), k - 1);
    }
}

pub proof fn lemma_trim_start_props(s: Seq<char>)
    ensures
        spec_trim_start(s).len() <= s.len(),
        spec_trim_start(s).len() > 0 ==> !spec_is_whitespace(spec_trim_start(s)[0]),
    decreases s.len(),
{
    if s.len() > 0 && spec_is_whitespace(s[0]) {
        lemma_trim_start_props(s.drop_first());
    }
}

pub proof fn lemma_index_of_ws_bound(s: Seq<char>)
    ensures
        0 <= index_of_ws(s) <= s.len(),
    decreases s.len(),
{
    if s.len() > 0 && !spec_is_whitespace(s[0]) {
        lemma_index_of_ws_bound(s.drop_first());
    }
}

pub proof fn lemma_index_of_ws_pos(s: Seq<char>)
    requires
        s.len() > 0,
        !spec_is_whitespace(s[0]),
    ensures
        1 <= index_of_ws(s) <= s.len(),
{
    lemma_index_of_ws_bound(s.drop_first());
}

/// The white-space separated words of `s` (`str::split_whitespace`).
pub open spec fn spec_split_ws(s: Seq<char>) -> Seq<Seq<char>>
    decreases s.len(),
{
    let t = spec_trim_start(s);
    if t.len() == 0 {
        seq![]
    } else {
        let i = index_of_ws(t);
        proof {
            lemma_trim_start_props(s);
            lemma_index_of_ws_pos(t);
        }
        seq![t.take(i)] + spec_split_ws(t.skip(i))
    }
}

/// Splits `s` into white-space separated words, as `str::split_whitespace`.
pub fn split_whitespace(s: &[char]) -> (r: Vec<Vec<char>>)
    ensures
        r.deep_view() == spec_split_ws(s@),
{
    let n = s.len();
    let mut r: Vec<Vec<char>> = Vec::new();
    let mut i: usize = 0;
    assert(s@.skip(0) =~= s@);
    assert(r.deep_view() =~= Seq::<Seq<char>>::empty());
    while i < n
        invariant
            i <= n == s@.len(),
            r.deep_view() + spec_split_ws(s@.skip(i as int)) == spec_split_ws(s@),
        decreases n - i,
    {
        let ghost i0 = i;
        let mut j = i;
        while j < n && is_whitespace(s[j])
            invariant
                i0 <= j <= n == s@.len(),
                spec_trim_start(s@.skip(i0 as int)) == spec_trim_start(s@.skip(j as int)),
            decreases n - j,
        {
            assert(s@.skip(j as int).drop_first() =~= s@.skip(j + 1));
            j = j + 1;
        }
        let ghost t = s@.skip(j as int);
        assert(spec_trim_start(t) == t);
        if j == n {
            assert(t.len() == 0);
            assert(spec_split_ws(s@.skip(i0 as int)) =~= Seq::<Seq<char>>::empty());
            assert(r.deep_view() + Seq::<Seq<char>>::empty() =~= r.deep_view());
            i = n;
            assert(s@.skip(n as int) =~= Seq::<char>::empty());
            assert(spec_split_ws(s@.skip(n as int)) =~= Seq::<Seq<char>>::empty());
        } else {
            let mut k = j;
            let mut word: Vec<char> = Vec::new();
            while k < n && !is_whitespace(s[k])
                invariant
                    j <= k <= n == s@.len(),
                    word@ == s@.subrange(j as int, k as int),
                    forall|m: int| j <= m < k ==> !spec_is_whitespace(s@[m]),
                decreases n - k,
            {
                word.push(s[k]);
                k = k + 1;
            }
            proof {
                lemma_index_of_ws(t, (k - j) as int);
                assert(t.take((k - j) as int) =~= word@);
                assert(t.skip((k - j) as int) =~= s@.skip(k as int));
            }
            let ghost old_r = r.deep_view();
            assert(word.deep_view() =~= word@);
            r.push(word);
            assert(r.deep_view() =~= old_r.push(t.take((k - j) as int)));
            assert(r.deep_view() + spec_split_ws(s@.skip(k as int)) =~= old_r + spec_split_ws(
                s@.skip(i0 as int),
            ));
            i = k;
        }
    }
    assert(s@.skip(n as int) =~= Seq::<char>::empty());
    assert(spec_split_ws(s@.skip(n as int)) =~= Seq::<Seq<char>>::empty());
    assert(r.deep_view() + Seq::<Seq<char>>::empty() =~= r.deep_view());
    r
}

/// ASCII white space as `u8::is_ascii_whitespace` has it: space, tab, line feed,
/// form feed and carriage return.
pub open spec fn spec_is_ascii_ws(c: char) -> bool {
    c == ' ' || c == '\t' || c == '\n' || c == '\x0C' || c == '\r'
}

/// Whether `c` is ASCII white space.
pub fn is_ascii_ws(c: char) -> (r: bool)
    ensures
        r == spec_is_ascii_ws(c),
{
    c == ' ' || c == '\t' || c == '\n' || c == '\x0C' || c == '\r'
}

/// `s` without its leading ASCII white space.
pub open spec fn skip_ascii_ws(s: Seq<char>) -> Seq<char>
    decreases s.len(),
{
    if s.len() > 0 && spec_is_ascii_ws(s[0]) {
        skip_ascii_ws(s.drop_first())
    } else {
        s
    }
}

/// Index of the first ASCII white space character in `s`, or `s.len()`.
pub open spec fn index_of_ascii_ws(s: Seq<char>) -> int
    decreases s.len(),
{
    if s.len() == 0 {
        0
    } else if spec_is_ascii_ws(s[0]) {
        0
    } else {
        1 + index_of_ascii_ws(s.drop_first())
    }
}

proof fn lemma_index_of_ascii_ws(s: Seq<char>, k: int)
    requires
        0 <= k <= s.len(),
        forall|j: int| 0 <= j < k ==> !spec_is_ascii_ws(s[j]),
        k == s.len() || spec_is_ascii_ws(s[k]),
    ensures
        index_of_ascii_ws(s) == k,
    decreases s.len(),
{
    if s.len() > 0 && k > 0 {
        lemma_index_of_ascii_ws(s.drop_first(), k - 1);
    }
}

pub proof fn lemma_skip_ascii_ws_props(s: Seq<char>)
    ensures
        skip_ascii_ws(s).len() <= s.len(),
        skip_ascii_ws(s).len() > 0 ==> !spec_is_ascii_ws(skip_ascii_ws(s)[0]),
    decreases s.len(),
{
    if s.len() > 0 && spec_is_ascii_ws(s[0]) {
        lemma_skip_ascii_ws_props(s.drop_first());
    }
}

pub proof fn lemma_index_of_ascii_ws_bound(s: Seq<char>)
    ensures
        0 <= index_of_ascii_ws(s) <= s.len(),
        s.len() > 0 && !spec_is_ascii_ws(s[0]) ==> 1 <= index_of_ascii_ws(s),
    decreases s.len(),
{
    if s.len() > 0 && !spec_is_ascii_ws(s[0]) {
        lemma_index_of_ascii_ws_bound(s.drop_first());
    }
}

/// The words of `s` between runs of ASCII white space (`str::split_ascii_whitespace`).
pub open spec fn spec_split_ascii_ws(s: Seq<char>) -> Seq<Seq<char>>
    decreases s.len(),
{
    let t = skip_ascii_ws(s);
    if t.len() == 0 {
        seq![]
    } else {
        let i = index_of_ascii_ws(t);
        proof {
            lemma_skip_ascii_ws_props(s);
            lemma_index_of_ascii_ws_bound(t);
        }
        seq![t.take(i)] + spec_split_ascii_ws(t.skip(i))
    }
}

/// Splits `s` into words between runs of ASCII white space, as
/// `str::split_ascii_whitespace`.
pub fn split_ascii_whitespace(s: &[char]) -> (r: Vec<Vec<char>>)
    ensures
        r.deep_view() == spec_split_ascii_ws(s@),
{
    let n = s.len();
    let mut r: Vec<Vec<char>> = Vec::new();
    let mut i: usize = 0;
    assert(s@.skip(0) =~= s@);
    assert(r.deep_view() =~= Seq::<Seq<char>>::empty());
    while i < n
        invariant
            i <= n == s@.len(),
            r.deep_view() + spec_split_ascii_ws(s@.skip(i as int)) == spec_split_ascii_ws(s@),
        decreases n - i,
    {
        let ghost i0 = i;
        let mut j = i;
        while j < n && is_ascii_ws(s[j])
            invariant
                i0 <= j <= n == s@.len(),
                skip_ascii_ws(s@.skip(i0 as int)) == skip_ascii_ws(s@.skip(j as int)),
            decreases n - j,
        {
            assert(s@.skip(j as int).drop_first() =~= s@.skip(j + 1));
            j = j + 1;
        }
        let ghost t = s@.skip(j as int);
        assert(skip_ascii_ws(t) == t);
        if j == n {
            assert(t.len() == 0);
            assert(spec_split_ascii_ws(s@.skip(i0 as int)) =~= Seq::<Seq<char>>::empty());
            assert(r.deep_view() + Seq::<Seq<char>>::empty() =~= r.deep_view());
            i = n;
            assert(s@.skip(n as int) =~= Seq::<char>::empty());
            assert(spec_split_ascii_ws(s@.skip(n as int)) =~= Seq::<Seq<char>>::empty());
        } else {
            let mut k = j;
            let mut word: Vec<char> = Vec::new();
            while k < n && !is_ascii_ws(s[k])
                invariant
                    j <= k <= n == s@.len(),
                    word@ == s@.subrange(j as int, k as int),
                    forall|m: int| j <= m < k ==> !spec_is_ascii_ws(s@[m]),
                decreases n - k,
            {
                word.push(s[k]);
                k = k + 1;
            }
            proof {
                lemma_index_of_ascii_ws(t, (k - j) as int);
                assert(t.take((k - j) as int) =~= word@);
                assert(t.skip((k - j) as int) =~= s@.skip(k as int));
            }
            let ghost old_r = r.deep_view();
            assert(word.deep_view() =~= word@);
            r.push(word);
            assert(r.deep_view() =~= old_r.push(t.take((k - j) as int)));
            assert(r.deep_view() + spec_split_ascii_ws(s@.skip(k as int)) =~= old_r
                + spec_split_ascii_ws(s@.skip(i0 as int)));
            i = k;
        }
    }
    assert(s@.skip(n as int) =~= Seq::<char>::empty());
    assert(spec_split_ascii_ws(s@.skip(n as int)) =~= Seq::<Seq<char>>::empty());
    assert(r.deep_view() + Seq::<Seq<char>>::empty() =~= r.deep_view());
    r
}

/// Whether `s` starts with `p`.
pub fn starts_with(s: &[char], p: &[char]) -> (r: bool)
    ensures
        r == (p@.len() <= s@.len() && s@.take(p@.len() as int) == p@),
{
    if p.len() > s.len() {
        return false;
    }
    let mut i: usize = 0;
    while i < p.len()
        invariant
            i <= p@.len() <= s@.len(),
            s@.take(i as int) == p@.take(i as int),
        decreases p@.len() - i,
    {
        if s[i] != p[i] {
            assert(s@.take(p@.len() as int)[i as int] != p@[i as int]);
            return false;
        }
        assert(s@.take(i + 1) =~= p@.take(i + 1));
        i = i + 1;
    }
    assert(p@.take(p@.len() as int) =~= p@);
    true
}

/// Whether `a` and `b` hold the same characters.
pub fn chars_eq(a: &[char], b: &[char]) -> (r: bool)
    ensures
        r == (a@ == b@),
{
    if a.len() != b.len() {
        return false;
    }
    let r = starts_with(a, b);
    assert(a@.take(b@.len() as int) =~= a@);
    r
}

// ---------------------------------------------------------------------
// Bytes, lines and UTF-8
// ---------------------------------------------------------------------

/// `l` without a final carriage return.
pub open spec fn strip_cr(l: Seq<u8>) -> Seq<u8> {
    if l.len() > 0 && l.last() == 13u8 {
        l.drop_last()
    } else {
        l
    }
}

/// The lines of `b` as `BufRead::lines` yields them: split at `\n`, with a `\r`
/// before the `\n` removed; no line after a final `\n`.
pub open spec fn spec_lines(b: Seq<u8>) -> Seq<Seq<u8>>
    decreases b.len(),
{
    if b.len() == 0 {
        seq![]
    } else {
        let i = index_of(b, 10u8);
        if i >= b.len() {
            seq![b]
        } else {
            proof {
                lemma_index_of_bound(b, 10u8);
            }
            seq![strip_cr(b.take(i))] + spec_lines(b.skip(i + 1))
        }
    }
}

/// Splits `b` into lines, as `BufRead::lines` does (before UTF-8 decoding).
pub fn lines(b: &[u8]) -> (r: Vec<Vec<u8>>)
    ensures
        r.deep_view() == spec_lines(b@),
{
    let n = b.len();
    let mut r: Vec<Vec<u8>> = Vec::new();
    let mut start: usize = 0;
    let mut cur: Vec<u8> = Vec::new();
    let mut i: usize = 0;
    assert(b@.skip(0) =~= b@);
    assert(r.deep_view() =~= Seq::<Seq<u8>>::empty());
    while i < n
        invariant
            start <= i <= n == b@.len(),
            cur@ == b@.subrange(start as int, i as int),
            forall|j: int| start <= j < i ==> b@[j] != 10u8,
            r.deep_view() + spec_lines(b@.skip(start as int)) == spec_lines(b@),
        decreases n - i,
    {
        if b[i] == 10u8 {
            let ghost t = b@.skip(start as int);
            let ghost piece = b@.subrange(start as int, i as int);
            proof {
                lemma_index_of(t, 10u8, (i - start) as int);
                assert(t.take((i - start) as int) =~= piece);
                assert(t.skip((i - start) as int + 1) =~= b@.skip(i + 1));
            }
            let cl = cur.len();
            if cl > 0 && cur[cl - 1] == 13u8 {
                cur.pop();
            }
            assert(cur@ =~= strip_cr(piece));
            let ghost old_r = r.deep_view();
            assert(cur.deep_view() =~= cur@);
            r.push(cur);
            assert(r.deep_view() =~= old_r.push(strip_cr(piece)));
            cur = Vec::new();
            start = i + 1;
            assert(r.deep_view() + spec_lines(b@.skip(start as int)) =~= old_r + spec_lines(t));
        } else {
            cur.push(b[i]);
        }
        i = i + 1;
    }
    let ghost t = b@.skip(start as int);
    if start < n {
        proof {
            lemma_index_of(t, 10u8, t.len() as int);
            assert(t =~= cur@);
        }
        let ghost old_r = r.deep_view();
        assert(cur.deep_view() =~= t);
        r.push(cur);
        assert(r.deep_view() =~= old_r + seq![t]);
    } else {
        assert(t.len() == 0);
        assert(r.deep_view() + Seq::<Seq<u8>>::empty() =~= r.deep_view());
    }
    r
}

/// Decodes `b` as UTF-8 by `std::str::from_utf8`, which succeeds exactly on valid
/// UTF-8 and then gives the string whose encoding is `b`.
#[verifier::external_body]
pub(crate) fn str_from_utf8(b: &[u8]) -> (r: Option<&str>)
    ensures
        r is Some <==> valid_utf8(b@),
        r matches Some(s) ==> s.spec_bytes() == b@,
{
    std::str::from_utf8(b).ok()
}

/// The characters of `s`, collected from `str::chars`.
#[verifier::external_body]
fn str_chars(s: &str) -> (r: Vec<char>)
    ensures
        r@ == s@,
{
    s.chars().collect()
}

/// A `String` of the given characters, collected by `FromIterator<&char>`.
#[verifier::external_body]
pub fn string_from_chars(c: &[char]) -> (r: String)
    ensures
        r@ == c@,
{
    c.iter().collect()
}

/// The characters of a string slice.
pub fn chars_of(s: &str) -> (r: Vec<char>)
    ensures
        r@ == s@,
{
    str_chars(s)
}

/// Decodes UTF-8 bytes into characters.
pub fn decode_utf8_chars(b: &[u8]) -> (r: Result<Vec<char>, VibratoError>)
    ensures
        r is Ok <==> valid_utf8(b@),
        r matches Ok(v) ==> encode_utf8(v@) == b@ && v@ == decode_utf8(b@),
        r matches Err(e) ==> e is Utf8,
{
    match str_from_utf8(b) {
        Some(s) => {
            let v = str_chars(s);
            proof {
                encode_utf8_decode_utf8(v@);
            }
            Ok(v)
        },
        None => Err(VibratoError::Utf8),
    }
}


// ---------------------------------------------------------------------
// CSV fields, read by `csv_core`
// ---------------------------------------------------------------------

#[verifier::external_type_specification]
#[verifier::external_body]
pub struct ExCsvReader(csv_core::Reader);

/// What one call of `csv_core::Reader::read_field` reports.
#[derive(Clone, Copy, Debug, PartialEq, Eq, Structural)]
pub enum FieldStep {
    /// The input ended before the end of a field.
    InputEmpty,
    /// The output buffer filled before the end of a field.
    OutputFull,
    /// A field ended; `true` when it also ended a record.
    Field(bool),
    /// All data has been read.
    End,
}

/// A byte that makes `csv_core`'s default writer quote a field: the delimiter
/// `,`, the quote `"`, and the line ends `\r` and `\n`.
pub open spec fn csv_special(b: u8) -> bool {
    b == 0x2c || b == 0x22 || b == 0x0d || b == 0x0a
}

/// The bytes with every quote doubled.
pub open spec fn double_quotes(d: Seq<u8>) -> Seq<u8>
    decreases d.len(),
{
    if d.len() == 0 {
        seq![]
    } else {
        double_quotes(d.drop_last()) + if d.last() == 0x22 {
            seq![0x22u8, 0x22u8]
        } else {
            seq![d.last()]
        }
    }
}

/// A CSV cell holding `d`: an empty one is `""`; one holding a special byte is
/// quoted, its quotes doubled; any other is `d` itself.
pub open spec fn csv_quoted(d: Seq<u8>) -> Seq<u8> {
    if d.len() == 0 {
        seq![0x22u8, 0x22u8]
    } else if exists|i: int| 0 <= i < d.len() && csv_special(#[trigger] d[i]) {
        seq![0x22u8] + double_quotes(d) + seq![0x22u8]
    } else {
        d
    }
}

/// `csv_core::Writer::new`, then `Writer::field(data)` and `Writer::finish` on
/// the rest of `output`: the numbers of bytes each wrote. With the default
/// settings the field is quoted when it holds `,`, `"`, `\r` or `\n`, its quotes
/// then doubled; an empty field is written `""` by `finish`. The source bounds
/// what `field` writes by `2 + 2 * data.len()`, so all of it fits.
#[verifier::external_body]
fn csv_write_cell(data: &[u8], output: &mut Vec<u8>) -> (r: (usize, usize))
    requires
        old(output)@.len() >= 2 * data@.len() + 2,
    ensures
        final(output)@.len() == old(output)@.len(),
        r.0 + r.1 == csv_quoted(data@).len(),
        r.0 + r.1 <= final(output)@.len(),
        final(output)@.take(r.0 + r.1) == csv_quoted(data@),
{
    let mut writer = csv_core::Writer::new();
    let (_, _, n1) = writer.field(data, output.as_mut_slice());
    let (_, n2) = writer.finish(&mut output.as_mut_slice()[n1..]);
    (n1, n2)
}

/// The bytes of `data` as one CSV cell, quoted where needed.
pub fn quote_csv_cell(data: &[u8]) -> (r: Vec<u8>)
    requires
        data@.len() < usize::MAX / 2,
    ensures
        r@ == csv_quoted(data@),
{
    let mut output: Vec<u8> = vec![0u8; 2 * data.len() + 2];
    let (n1, n2) = csv_write_cell(data, &mut output);
    output.truncate(n1 + n2);
    output
}

/// A call of `csv_core::Reader::read_field`: the input and the size of the output
/// buffer.
pub open spec fn field_call(input: Seq<u8>, out_len: nat) -> (Seq<u8>, nat) {
    (input, out_len)
}

/// What `csv_core::Reader::read_field(input, output)` reports, with the bytes of
/// the field it writes, on a reader made by `csv_core::Reader::new` that has seen
/// the calls `calls` (inputs and output sizes) before. The reader is a
/// deterministic state machine, so this is a function of these values alone.
pub uninterp spec fn csv_field_read(calls: Seq<(Seq<u8>, nat)>, input: Seq<u8>, out_len: nat) -> (
    FieldStep,
    nat,
    Seq<u8>,
);

/// One call reported `step`, read `nin` bytes and wrote `field`, as `expected`
/// says.
pub open spec fn read_is(step: FieldStep, nin: usize, field: Seq<u8>, expected: (FieldStep, nat, Seq<u8>)) -> bool {
    &&& step == expected.0
    &&& nin == expected.1
    &&& field == expected.2
}

/// A `csv_core` reader with the calls made on it since it was made.
pub struct CsvReader {
    rdr: csv_core::Reader,
    calls: Ghost<Seq<(Seq<u8>, nat)>>,
}

impl CsvReader {
    /// The calls of `read_field` made on the reader so far.
    pub closed spec fn calls(&self) -> Seq<(Seq<u8>, nat)> {
        self.calls@
    }

    /// A reader with the default settings.
    pub fn new() -> (r: Self)
        ensures
            r.calls() == Seq::<(Seq<u8>, nat)>::empty(),
    {
        CsvReader { rdr: csv_reader_new(), calls: Ghost(Seq::empty()) }
    }
}

/// `csv_core::Reader::new`: a reader with the default settings.
#[verifier::external_body]
fn csv_reader_new() -> (r: csv_core::Reader) {
    csv_core::Reader::new()
}

/// `csv_core::Reader::read_field`: reads from `input` up to the end of one field,
/// writes its unescaped bytes to the front of `output`, and returns what happened
/// with the numbers of bytes read and written.
///
/// Stated here: what it reports and writes is [`csv_field_read`] of the calls the
/// reader has seen, the input and the output's size, and the call joins those
/// calls; both counts are within their buffers; when `input` and `output` are both
/// nonempty at least one byte is read; `InputEmpty` and `End` mean that all of
/// `input` was read.
#[verifier::external_body]
pub(crate) fn csv_read_field(rdr: &mut CsvReader, input: &[u8], output: &mut Vec<u8>) -> (r: (
    FieldStep,
    usize,
    usize,
))
    ensures
        r.1 <= input@.len(),
        r.2 <= old(output)@.len(),
        final(output)@.len() == old(output)@.len(),
        input@.len() > 0 && old(output)@.len() > 0 ==> r.1 >= 1,
        r.0 is InputEmpty ==> r.1 == input@.len(),
        r.0 is End ==> r.1 == input@.len(),
        read_is(
            r.0,
            r.1,
            final(output)@.take(r.2 as int),
            csv_field_read(old(rdr).calls(), input@, old(output)@.len()),
        ),
        final(rdr).calls() == old(rdr).calls().push(field_call(input@, old(output)@.len())),
{
    let (res, nin, nout) = rdr.rdr.read_field(input, output.as_mut_slice());
    let step = match res {
        csv_core::ReadFieldResult::InputEmpty => FieldStep::InputEmpty,
        csv_core::ReadFieldResult::OutputFull => FieldStep::OutputFull,
        csv_core::ReadFieldResult::Field { record_end } => FieldStep::Field(record_end),
        csv_core::ReadFieldResult::End => FieldStep::End,
    };
    (step, nin, nout)
}


/// The UTF-8 encoding of a string of characters.
pub fn encode_chars(c: &[char]) -> (r: Vec<u8>)
    ensures
        r@ == encode_utf8(c@),
{
    let s = string_from_chars(c);
    let b = s.as_str().as_bytes();
    let mut v: Vec<u8> = Vec::new();
    let n = b.len();
    let mut i: usize = 0;
    while i < n
        invariant
            i <= n == b@.len(),
            v@ == b@.take(i as int),
        decreases n - i,
    {
        v.push(b[i]);
        i = i + 1;
        assert(v@ =~= b@.take(i as int));
    }
    assert(b@.take(n as int) =~= b@);
    v
}

/// The fields of a row read from `all[start..]` by the loop of
/// [`parse_csv_row`], with the reader having seen `calls` and the fields `acc`
/// read so far: each call reads one field into a buffer of 4096 bytes; a field
/// that does not fit fails with a format fault, one that is not UTF-8 with a UTF-8
/// fault; the row ends when the reader reports the end of the input, or at the
/// third report of a field past the end of the input.
pub open spec fn row_loop(
    calls: Seq<(Seq<u8>, nat)>,
    all: Seq<u8>,
    start: int,
    tail: int,
    acc: Seq<Seq<u8>>,
) -> Result<Seq<Seq<u8>>, Fault>
    decreases all.len() - start, tail,
{
    let bytes = all.subrange(start, all.len() as int);
    let res = csv_field_read(calls, bytes, 4096);
    let calls2 = calls.push(field_call(bytes, 4096));
    if res.0 is OutputFull {
        Err(Fault::Format)
    } else if !valid_utf8(res.2) {
        Err(Fault::Utf8)
    } else {
        let acc2 = acc.push(res.2);
        if !(res.0 is Field) {
            Ok(acc2)
        } else if bytes.len() == 0 {
            if tail <= 0 {
                Ok(acc2)
            } else {
                row_loop(calls2, all, start, tail - 1, acc2)
            }
        } else if res.1 == 0 || start < 0 || start + res.1 > all.len() {
            Ok(acc2)
        } else {
            row_loop(calls2, all, start + res.1, tail, acc2)
        }
    }
}

/// The fields, as bytes, that [`parse_csv_row`] reads from a row.
pub open spec fn csv_row_fields(row: Seq<char>) -> Result<Seq<Seq<u8>>, Fault> {
    row_loop(Seq::empty(), encode_utf8(row), 0, 2, Seq::empty())
}

/// The fields that [`parse_csv_row`] gives for a row, `None` where it fails.
pub open spec fn parsed_row(row: Seq<char>) -> Option<Seq<Seq<char>>> {
    match csv_row_fields(row) {
        Ok(fs) => Some(fs.map_values(|f: Seq<u8>| decode_utf8(f))),
        Err(_) => None,
    }
}

/// Splits a CSV row into its fields, unquoted, reading with `csv_core` field by
/// field until the end of the input ([`csv_row_fields`]).
///
/// A field longer than the 4096-byte buffer gives an invalid-format error and a
/// field that is not UTF-8 a UTF-8 error.
pub fn parse_csv_row(row: &[char]) -> (r: Result<Vec<Vec<char>>, VibratoError>)
    ensures
        r matches Ok(v) ==> v@.len() >= 1,
        r matches Err(e) ==> e is Utf8 || e is InvalidFormat,
        match csv_row_fields(row@) {
            Ok(fs) => r matches Ok(v) && v.deep_view() == fs.map_values(|f: Seq<u8>| decode_utf8(f)),
            Err(f) => r matches Err(e) && e.fault() == f,
        },
        r matches Ok(v) ==> parsed_row(row@) == Some(v.deep_view()),
        r is Err ==> parsed_row(row@) is None,
{
    let all = encode_chars(row);
    let ghost goal = csv_row_fields(row@);
    let mut features: Vec<Vec<char>> = Vec::new();
    let ghost mut acc: Seq<Seq<u8>> = Seq::empty();
    let mut rdr = CsvReader::new();
    let mut output: Vec<u8> = vec![0u8; 4096];
    let mut start: usize = 0;
    let mut tail: u8 = 2;
    loop
        invariant_except_break
            goal == row_loop(rdr.calls(), all@, start as int, tail as int, acc),
        invariant
            start <= all@.len(),
            all@ == encode_utf8(row@),
            output@.len() == 4096,
            tail <= 2,
            goal == csv_row_fields(row@),
            features@.len() == acc.len(),
            forall|i: int| 0 <= i < acc.len() ==> (#[trigger] features@[i])@ == decode_utf8(acc[i]),
        ensures
            goal matches Ok(fs) && features@.len() == fs.len() && forall|i: int|
                0 <= i < fs.len() ==> (#[trigger] features@[i])@ == decode_utf8(fs[i]),
            features@.len() >= 1,
        decreases all@.len() - start, tail,
    {
        let bytes = &all.as_slice()[start..all.len()];
        assert(bytes@ == all@.subrange(start as int, all@.len() as int));
        let ghost calls0 = rdr.calls();
        let (step, nin, nout) = csv_read_field(&mut rdr, bytes, &mut output);
        let ghost fbytes = output@.take(nout as int);
        let end = match step {
            FieldStep::InputEmpty => true,
            FieldStep::Field(_) => false,
            FieldStep::End => true,
            FieldStep::OutputFull => {
                return Err(VibratoError::invalid_format("csv", "Field too large"));
            },
        };
        let fslice = &output.as_slice()[0..nout];
        assert(fslice@ == fbytes);
        let field = match decode_utf8_chars(fslice) {
            Ok(f) => f,
            Err(e) => {
                return Err(e);
            },
        };
        let ghost acc0 = acc;
        let ghost calls1 = calls0.push(field_call(bytes@, 4096));
        assert(rdr.calls() == calls1);
        assert(valid_utf8(fbytes));
        assert(goal == row_loop(calls0, all@, start as int, tail as int, acc0));
        features.push(field);
        proof {
            acc = acc.push(fbytes);
            assert(features@.len() == acc.len());
            assert forall|i: int| 0 <= i < acc.len() implies (#[trigger] features@[i])@ == decode_utf8(acc[i]) by {
                if i < acc0.len() {
                    assert(acc[i] == acc0[i]);
                }
            }
        }
        if end {
            assert(goal == Ok::<Seq<Seq<u8>>, Fault>(acc));
            break;
        }
        if bytes.len() == 0 {
            if tail == 0 {
                assert(goal == Ok::<Seq<Seq<u8>>, Fault>(acc));
                break;
            }
            assert(goal == row_loop(calls1, all@, start as int, tail - 1, acc));
            tail = tail - 1;
        } else {
            assert(goal == row_loop(calls1, all@, start + nin, tail as int, acc));
            start = start + nin;
        }
    }
    proof {
        let fs = goal->Ok_0;
        assert forall|i: int| 0 <= i < fs.len() implies features.deep_view()[i] == fs.map_values(
            |f: Seq<u8>| decode_utf8(f),
        )[i] by {
            assert(features.deep_view()[i] == features@[i]@);
        }
        assert(features.deep_view() =~= fs.map_values(|f: Seq<u8>| decode_utf8(f)));
    }
    Ok(features)
}

// ---------------------------------------------------------------------
// Maps from strings to ids, held in `hashbrown`
// ---------------------------------------------------------------------

/// Lossless conversion from `u32` (a `usize` has at least 32 bits on the
/// supported targets).
pub trait FromU32: Sized {
    /// Converts `src`.
    fn from_u32(src: u32) -> Self;
}

impl FromU32 for usize {
    fn from_u32(src: u32) -> (r: usize)
        ensures
            r == src,
    {
        src as usize
    }
}

/// Map from strings to ids, held in a `hashbrown::HashMap`.
#[verifier::external_body]
pub struct IdMap {
    map: hashbrown::HashMap<String, u32>,
}

/// The pairs of string and id that an [`IdMap`] holds.
pub uninterp spec fn id_map_view(m: IdMap) -> Map<Seq<char>, u32>;

impl IdMap {
    /// `hashbrown::HashMap::new`: an empty map.
    #[verifier::external_body]
    pub(crate) fn new() -> (r: Self)
        ensures
            id_map_view(r) == no_ids(),
            id_map_view(r).dom().finite(),
    {
        IdMap { map: hashbrown::HashMap::new() }
    }

    /// `hashbrown::HashMap::len`: the number of keys, finitely many.
    #[verifier::external_body]
    pub fn len(&self) -> (r: usize)
        ensures
            r == id_map_view(*self).dom().len(),
    {
        self.map.len()
    }

    /// `hashbrown::HashMap::get`: the id of a key equal to `key`, if any.
    #[verifier::external_body]
    pub fn get(&self, key: &str) -> (r: Option<u32>)
        ensures
            r == (if id_map_view(*self).contains_key(key@) {
                Some(id_map_view(*self)[key@])
            } else {
                None
            }),
    {
        self.map.get(key).copied()
    }

    /// `hashbrown::HashMap::insert`: maps `key` to `id`, replacing an earlier id.
    #[verifier::external_body]
    pub(crate) fn insert(&mut self, key: String, id: u32)
        ensures
            id_map_view(*final(self)) == id_map_view(*old(self)).insert(key@, id),
    {
        self.map.insert(key, id);
    }
}

/// The map without keys.
pub open spec fn no_ids() -> Map<Seq<char>, u32> {
    Map::empty()
}

/// Map from lists of feature ids to ids, held in a `hashbrown::HashMap`.
#[verifier::external_body]
pub struct FeatMap {
    map: hashbrown::HashMap<Vec<u32>, u32>,
}

/// The pairs of feature list and id that a [`FeatMap`] holds.
pub uninterp spec fn feat_map_view(m: FeatMap) -> Map<Seq<u32>, u32>;

impl FeatMap {
    /// `hashbrown::HashMap::new`: an empty map.
    #[verifier::external_body]
    pub(crate) fn new() -> (r: Self)
        ensures
            feat_map_view(r) == no_feats(),
    {
        FeatMap { map: hashbrown::HashMap::new() }
    }

    /// `hashbrown::HashMap::len`: the number of keys.
    #[verifier::external_body]
    pub(crate) fn len(&self) -> (r: usize)
        ensures
            r == feat_map_view(*self).dom().len(),
    {
        self.map.len()
    }

    /// `hashbrown::HashMap::get`: the id of a key equal to `key`, if any.
    #[verifier::external_body]
    pub(crate) fn get(&self, key: &[u32]) -> (r: Option<u32>)
        ensures
            r == (if feat_map_view(*self).contains_key(key@) {
                Some(feat_map_view(*self)[key@])
            } else {
                None
            }),
    {
        self.map.get(key).copied()
    }

    /// `hashbrown::HashMap::insert`: maps `key` to `id`, replacing an earlier id.
    #[verifier::external_body]
    pub(crate) fn insert(&mut self, key: Vec<u32>, id: u32)
        ensures
            feat_map_view(*final(self)) == feat_map_view(*old(self)).insert(key@, id),
    {
        self.map.insert(key, id);
    }
}

/// The map without keys.
pub open spec fn no_feats() -> Map<Seq<u32>, u32> {
    Map::empty()
}

/// Set of feature ids, held in a `hashbrown::HashSet`.
#[verifier::external_body]
pub struct FeatSet {
    set: hashbrown::HashSet<u32>,
}

/// The feature ids that a [`FeatSet`] holds.
pub uninterp spec fn feat_set_view(s: FeatSet) -> Set<u32>;

impl FeatSet {
    /// `hashbrown::HashSet::new`: an empty set.
    #[verifier::external_body]
    pub(crate) fn new() -> (r: Self)
        ensures
            feat_set_view(r) == Set::<u32>::empty(),
    {
        FeatSet { set: hashbrown::HashSet::new() }
    }

    /// `hashbrown::HashSet::contains`: whether `x` is in the set.
    #[verifier::external_body]
    pub(crate) fn contains(&self, x: u32) -> (r: bool)
        ensures
            r == feat_set_view(*self).contains(x),
    {
        self.set.contains(&x)
    }

    /// `hashbrown::HashSet::insert`: adds `x`.
    #[verifier::external_body]
    pub(crate) fn insert(&mut self, x: u32)
        ensures
            feat_set_view(*final(self)) == feat_set_view(*old(self)).insert(x),
    {
        self.set.insert(x);
    }
}

/// Set of strings, held in a `hashbrown::HashSet`.
#[verifier::external_body]
pub struct StrSet {
    set: hashbrown::HashSet<String>,
}

/// The strings that a [`StrSet`] holds.
pub uninterp spec fn str_set_view(s: StrSet) -> Set<Seq<char>>;

impl StrSet {
    /// `hashbrown::HashSet::new`: an empty set.
    #[verifier::external_body]
    pub(crate) fn new() -> (r: Self)
        ensures
            str_set_view(r) == Set::<Seq<char>>::empty(),
    {
        StrSet { set: hashbrown::HashSet::new() }
    }

    /// `hashbrown::HashSet::contains`: whether a string equal to `x` is in the set.
    #[verifier::external_body]
    pub(crate) fn contains(&self, x: &str) -> (r: bool)
        ensures
            r == str_set_view(*self).contains(x@),
    {
        self.set.contains(x)
    }

    /// `hashbrown::HashSet::insert`: adds `x`.
    #[verifier::external_body]
    pub(crate) fn insert(&mut self, x: String)
        ensures
            str_set_view(*final(self)) == str_set_view(*old(self)).insert(x@),
    {
        self.set.insert(x);
    }

    /// `PartialEq::eq` of `hashbrown::HashSet`: equal lengths and every string of
    /// `self` in `other`, that is, the two sets are equal.
    #[verifier::external_body]
    pub(crate) fn set_eq(&self, other: &StrSet) -> (r: bool)
        ensures
            r == (str_set_view(*self) == str_set_view(*other)),
    {
        self.set == other.set
    }
}

/// `PartialEq::eq` of `str`: whether the two strings hold the same characters.
#[verifier::external_body]
pub fn str_eq(a: &str, b: &str) -> (r: bool)
    ensures
        r == (a@ == b@),
{
    a == b
}

} // verus!
