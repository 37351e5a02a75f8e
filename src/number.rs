use vstd::prelude::*;
use crate::parse::{chars_of, int_text, parse_signed, parse_unsigned, ParseError};

verus! {

/// A decimal digit `0` to `9`.
pub open spec fn is_dec_digit(c: char) -> bool {
    '0' <= c && c <= '9'
}

/// Every character is a digit, except that a `-` may stand first when
/// `allow_negative` holds.
pub open spec fn digit_text(s: Seq<char>, allow_negative: bool) -> bool {
    forall|i: int|
        0 <= i < s.len() ==> is_dec_digit(#[trigger] s[i]) || (allow_negative && i == 0 && s[i]
            == '-')
}

/// Whether `ch` is a decimal digit.
pub fn char_is_digit(ch: char) -> (r: bool)
    ensures
        r == is_dec_digit(ch),
{
    '0' <= ch && ch <= '9'
}

/// Whether `text` is all decimal digits, with one leading `-` allowed when
/// `allow_negative` holds.
pub fn is_digit(text: &str, allow_negative: bool) -> (r: bool)
    ensures
        r == digit_text(text@, allow_negative),
{
    let chars = chars_of(text);
    let mut ix: usize = 0;
    while ix < chars.len()
        invariant
            chars@ == text@,
            ix <= chars.len(),
            digit_text(chars@.subrange(0, ix as int), allow_negative),
        decreases chars.len() - ix,
    {
        let ch = chars[ix];
        if !(allow_negative && ch == '-' && ix == 0) && !char_is_digit(ch) {
            assert(!digit_text(text@, allow_negative) ) by {
                assert(text@[ix as int] == ch);
            }
            return false;
        }
        proof {
            let p = chars@.subrange(0, ix as int + 1);
            assert forall|i: int| 0 <= i < p.len() implies is_dec_digit(#[trigger] p[i]) || (
            allow_negative && i == 0 && p[i] == '-') by {
                if i < ix {
                    assert(p[i] == chars@.subrange(0, ix as int)[i]);
                }
            }
        }
        ix = ix + 1;
    }
    proof {
        assert(chars@.subrange(0, ix as int) =~= text@);
    }
    true
}

/// Whether `text` is all decimal digits.
pub fn is_udigit(text: &str) -> (r: bool)
    ensures
        r == digit_text(text@, false),
{
    is_digit(text, false)
}

/// Whether `text` is all decimal digits after an optional leading `-`.
pub fn is_idigit(text: &str) -> (r: bool)
    ensures
        r == digit_text(text@, true),
{
    is_digit(text, true)
}


/// Whether the characters of `chars` from `k` on are exactly `lit`.
fn rest_is(chars: &Vec<char>, k: usize, lit: &[char]) -> (r: bool)
    requires
        k <= chars.len(),
    ensures
        r == (chars@.subrange(k as int, chars@.len() as int) == lit@),
{
    let ghost rest = chars@.subrange(k as int, chars@.len() as int);
    if chars.len() - k != lit.len() {
        return false;
    }
    let mut i: usize = 0;
    while i < lit.len()
        invariant
            k <= chars.len(),
            rest == chars@.subrange(k as int, chars@.len() as int),
            rest.len() == lit@.len(),
            i <= lit.len(),
            forall|j: int| 0 <= j < i ==> rest[j] == lit@[j],
        decreases lit.len() - i,
    {
        if chars[k + i] != lit[i] {
            assert(rest[i as int] != lit@[i as int]);
            return false;
        }
        i = i + 1;
    }
    assert(rest =~= lit@);
    true
}

/// A character that opens a type suffix.
pub open spec fn is_suffix_start(c: char) -> bool {
    c == 'f' || c == 'u' || c == 'i'
}

/// Length of the longest prefix of `s` that holds no suffix-opening character.
pub open spec fn body_len(s: Seq<char>) -> nat
    decreases s.len(),
{
    if s.len() == 0 {
        0
    } else if is_suffix_start(s[0]) {
        0
    } else {
        1 + body_len(s.drop_first())
    }
}

/// The body of a literal: digits, at most one `.`, and a `-` only first.
pub open spec fn body_ok(b: Seq<char>) -> bool {
    &&& forall|j: int|
        0 <= j < b.len() ==> is_dec_digit(#[trigger] b[j]) || b[j] == '.' || (j == 0 && b[j]
            == '-')
    &&& forall|x: int, y: int|
        0 <= x < b.len() && 0 <= y < b.len() && #[trigger] b[x] == '.' && #[trigger] b[y] == '.'
            ==> x == y
}

/// Bit widths a float suffix may carry.
pub open spec fn float_width(w: Seq<char>) -> bool {
    w == seq!['3', '2'] || w == seq!['6', '4']
}

/// Widths an integer suffix may carry.
pub open spec fn int_width(w: Seq<char>) -> bool {
    w == seq!['8'] || w == seq!['1', '6'] || float_width(w) || w == seq!['1', '2', '8'] || w
        == seq!['s', 'i', 'z', 'e']
}

/// One of the type suffixes `i8` .. `isize`, `u8` .. `usize`, `f32`, `f64`.
pub open spec fn type_tag(t: Seq<char>) -> bool {
    &&& t.len() > 0
    &&& ((t[0] == 'i' || t[0] == 'u') && int_width(t.drop_first())) || (t[0] == 'f'
        && float_width(t.drop_first()))
}

/// A numeric literal: a body, then either nothing or a type suffix that the body
/// agrees with (no `.` before an integer suffix, no `-` before an unsigned one).
pub open spec fn numeric_literal(s: Seq<char>) -> bool {
    let k = body_len(s) as int;
    let b = s.subrange(0, k);
    let t = s.subrange(k, s.len() as int);
    &&& body_ok(b)
    &&& k == s.len() || {
        &&& type_tag(t)
        &&& t[0] == 'f' || (t[0] == 'i' && !b.contains('.')) || (t[0] == 'u' && !b.contains('.')
            && !b.contains('-'))
    }
}

proof fn lemma_body_len(s: Seq<char>, k: int)
    requires
        0 <= k <= s.len(),
        forall|j: int| 0 <= j < k ==> !is_suffix_start(#[trigger] s[j]),
        k == s.len() || is_suffix_start(s[k]),
    ensures
        body_len(s) == k,
    decreases k,
{
    if k > 0 {
        let d = s.drop_first();
        assert forall|j: int| 0 <= j < k - 1 implies !is_suffix_start(#[trigger] d[j]) by {
            assert(d[j] == s[j + 1]);
        }
        assert(!is_suffix_start(s[0]));
        if k < s.len() {
            assert(d[k - 1] == s[k]);
        }
        lemma_body_len(d, k - 1);
    }
}

proof fn lemma_body_len_at_least(s: Seq<char>, m: int)
    requires
        0 <= m <= s.len(),
        forall|j: int| 0 <= j < m ==> !is_suffix_start(#[trigger] s[j]),
    ensures
        body_len(s) >= m,
    decreases m,
{
    if m > 0 {
        let d = s.drop_first();
        assert forall|j: int| 0 <= j < m - 1 implies !is_suffix_start(#[trigger] d[j]) by {
            assert(d[j] == s[j + 1]);
        }
        assert(!is_suffix_start(s[0]));
        lemma_body_len_at_least(d, m - 1);
    }
}

/// A literal's body is well formed only if each prefix of it is.
proof fn lemma_prefix_body(s: Seq<char>, m: int)
    requires
        0 <= m <= s.len(),
        forall|j: int| 0 <= j < m ==> !is_suffix_start(#[trigger] s[j]),
    ensures
        numeric_literal(s) ==> body_ok(s.subrange(0, m)),
{
    lemma_body_len_at_least(s, m);
    lemma_body_len_le(s);
    if numeric_literal(s) {
        let b = s.subrange(0, body_len(s) as int);
        let q = s.subrange(0, m);
        assert forall|j: int| 0 <= j < q.len() implies is_dec_digit(#[trigger] q[j]) || q[j]
            == '.' || (j == 0 && q[j] == '-') by {
            assert(q[j] == b[j]);
        }
        assert forall|x: int, y: int|
            0 <= x < q.len() && 0 <= y < q.len() && #[trigger] q[x] == '.' && #[trigger] q[y]
                == '.' implies x == y by {
            assert(q[x] == b[x] && q[y] == b[y]);
        }
    }
}

proof fn lemma_body_len_le(s: Seq<char>)
    ensures
        body_len(s) <= s.len(),
    decreases s.len(),
{
    if s.len() > 0 {
        lemma_body_len_le(s.drop_first());
    }
}

/// Whether `c` opens a type suffix.
fn is_suffix_char(c: char) -> (r: bool)
    ensures
        r == is_suffix_start(c),
{
    c == 'f' || c == 'u' || c == 'i'
}

/// Whether the characters of `chars` from `k` on form a type suffix.
fn is_type_tag(chars: &Vec<char>, k: usize) -> (r: bool)
    requires
        k < chars.len(),
    ensures
        r == type_tag(chars@.subrange(k as int, chars@.len() as int)),
{
    let ghost t = chars@.subrange(k as int, chars@.len() as int);
    let ghost w = t.drop_first();
    assert(w =~= chars@.subrange(k + 1, chars@.len() as int));
    let head = chars[k];
    assert(t[0] == head);
    let w32 = rest_is(chars, k + 1, &['3', '2']);
    let w64 = rest_is(chars, k + 1, &['6', '4']);
    let w8 = rest_is(chars, k + 1, &['8']);
    let w16 = rest_is(chars, k + 1, &['1', '6']);
    let w128 = rest_is(chars, k + 1, &['1', '2', '8']);
    let wsize = rest_is(chars, k + 1, &['s', 'i', 'z', 'e']);
    assert(['3', '2']@ == seq!['3', '2']);
    assert(['6', '4']@ == seq!['6', '4']);
    assert(['8']@ == seq!['8']);
    assert(['1', '6']@ == seq!['1', '6']);
    assert(['1', '2', '8']@ == seq!['1', '2', '8']);
    assert(['s', 'i', 'z', 'e']@ == seq!['s', 'i', 'z', 'e']);
    if head == 'f' {
        w32 || w64
    } else if head == 'i' || head == 'u' {
        w32 || w64 || w8 || w16 || w128 || wsize
    } else {
        false
    }
}

/// Whether `text` is a numeric literal: an optional leading `-`, digits with at
/// most one `.`, then optionally a type suffix. Scanning stops being
/// character-by-character at the first `f`, `u` or `i`: everything from there on
/// must be one of the suffixes as a whole.
pub fn is_number(text: &str) -> (r: bool)
    ensures
        r == numeric_literal(text@),
{
    let chars = chars_of(text);
    let ghost s = chars@;
    let mut has_dot = false;
    let mut has_negative = false;
    let mut ix: usize = 0;
    while ix < chars.len() && !is_suffix_char(chars[ix])
        invariant
            s == chars@,
            s == text@,
            ix <= chars.len(),
            forall|j: int| 0 <= j < ix ==> !is_suffix_start(#[trigger] s[j]),
            body_ok(s.subrange(0, ix as int)),
            has_dot == s.subrange(0, ix as int).contains('.'),
            has_negative == s.subrange(0, ix as int).contains('-'),
        decreases chars.len() - ix,
    {
        let ch = chars[ix];
        let ghost p = s.subrange(0, ix as int);
        let ghost q = s.subrange(0, ix as int + 1);
        assert(q =~= p.push(ch));
        if ch == '-' && ix == 0 {
            has_negative = true;
        } else if ch == '.' {
            if has_dot {
                let ghost x = choose|x: int| 0 <= x < p.len() && p[x] == '.';
                proof {
                    assert(!is_suffix_start(s[ix as int]));
                    assert(q[x] == p[x]);
                    lemma_prefix_body(s, ix as int + 1);
                    assert(q[x] == '.' && q[ix as int] == '.');
                    assert(!body_ok(q));
                }
                return false;
            }
            has_dot = true;
        } else if !char_is_digit(ch) {
            proof {
                assert(!is_suffix_start(s[ix as int]));
                lemma_prefix_body(s, ix as int + 1);
                assert(q[ix as int] == ch);
                assert(!body_ok(q));
            }
            return false;
        }
        proof {
            assert(q[ix as int] == ch);
            assert forall|j: int| 0 <= j < q.len() implies is_dec_digit(#[trigger] q[j]) || q[j]
                == '.' || (j == 0 && q[j] == '-') by {
                if j < ix {
                    assert(q[j] == p[j]);
                }
            }
            assert forall|x: int, y: int|
                0 <= x < q.len() && 0 <= y < q.len() && #[trigger] q[x] == '.' && #[trigger] q[y]
                    == '.' implies x == y by {
                if x < ix {
                    assert(p[x] == q[x]);
                }
                if y < ix {
                    assert(p[y] == q[y]);
                }
            }
            assert(has_dot == q.contains('.')) by {
                if q.contains('.') && !p.contains('.') {
                    assert(ch == '.');
                }
                if p.contains('.') {
                    let x = choose|x: int| 0 <= x < p.len() && p[x] == '.';
                    assert(q[x] == '.');
                }
            }
            assert(has_negative == q.contains('-')) by {
                if q.contains('-') && !p.contains('-') {
                    assert(ch == '-');
                }
                if p.contains('-') {
                    let x = choose|x: int| 0 <= x < p.len() && p[x] == '-';
                    assert(q[x] == '-');
                }
            }
        }
        ix = ix + 1;
    }
    proof {
        lemma_body_len(s, ix as int);
    }
    if ix == chars.len() {
        return true;
    }
    if !is_type_tag(&chars, ix) {
        return false;
    }
    let head = chars[ix];
    if head == 'f' {
        true
    } else if head == 'i' {
        !has_dot
    } else {
        !has_dot && !has_negative
    }
}

/// The value of a conversion that falls back to `def` on any failure.
pub open spec fn or_default(res: Result<int, ParseError>, def: int) -> int {
    match res {
        Ok(v) => v,
        Err(_) => def,
    }
}

/// Reads `text` as an `i8`: an optional `+` or `-`, then decimal digits.
pub fn as_i8(text: &str) -> (r: Result<i8, ParseError>)
    ensures
        (match r {
            Ok(v) => int_text(text@, true, i8::MIN as int, i8::MAX as int) == Ok::<int, ParseError>(v as int),
            Err(e) => int_text(text@, true, i8::MIN as int, i8::MAX as int) == Err::<int, ParseError>(e),
        }),
{
    match parse_signed(text, i8::MIN as i128, i8::MAX as i128) {
        Ok(v) => Ok(v as i8),
        Err(e) => Err(e),
    }
}

/// Reads `text` as an `i8`, or gives `def` where it is not one.
pub fn as_i8d(text: &str, def: i8) -> (r: i8)
    ensures
        r as int == or_default(int_text(text@, true, i8::MIN as int, i8::MAX as int), def as int),
{
    if text.is_empty() {
        return def;
    }
    match as_i8(text) {
        Ok(n) => n,
        Err(_) => def,
    }
}

/// Reads `text` as an `i16`: an optional `+` or `-`, then decimal digits.
pub fn as_i16(text: &str) -> (r: Result<i16, ParseError>)
    ensures
        (match r {
            Ok(v) => int_text(text@, true, i16::MIN as int, i16::MAX as int) == Ok::<int, ParseError>(v as int),
            Err(e) => int_text(text@, true, i16::MIN as int, i16::MAX as int) == Err::<int, ParseError>(e),
        }),
{
    match parse_signed(text, i16::MIN as i128, i16::MAX as i128) {
        Ok(v) => Ok(v as i16),
        Err(e) => Err(e),
    }
}

/// Reads `text` as an `i16`, or gives `def` where it is not one.
pub fn as_i16d(text: &str, def: i16) -> (r: i16)
    ensures
        r as int == or_default(int_text(text@, true, i16::MIN as int, i16::MAX as int), def as int),
{
    if text.is_empty() {
        return def;
    }
    match as_i16(text) {
        Ok(n) => n,
        Err(_) => def,
    }
}

/// Reads `text` as an `i32`: an optional `+` or `-`, then decimal digits.
pub fn as_i32(text: &str) -> (r: Result<i32, ParseError>)
    ensures
        (match r {
            Ok(v) => int_text(text@, true, i32::MIN as int, i32::MAX as int) == Ok::<int, ParseError>(v as int),
            Err(e) => int_text(text@, true, i32::MIN as int, i32::MAX as int) == Err::<int, ParseError>(e),
        }),
{
    match parse_signed(text, i32::MIN as i128, i32::MAX as i128) {
        Ok(v) => Ok(v as i32),
        Err(e) => Err(e),
    }
}

/// Reads `text` as an `i32`, or gives `def` where it is not one.
pub fn as_i32d(text: &str, def: i32) -> (r: i32)
    ensures
        r as int == or_default(int_text(text@, true, i32::MIN as int, i32::MAX as int), def as int),
{
    if text.is_empty() {
        return def;
    }
    match as_i32(text) {
        Ok(n) => n,
        Err(_) => def,
    }
}

/// Reads `text` as an `i64`: an optional `+` or `-`, then decimal digits.
pub fn as_i64(text: &str) -> (r: Result<i64, ParseError>)
    ensures
        (match r {
            Ok(v) => int_text(text@, true, i64::MIN as int, i64::MAX as int) == Ok::<int, ParseError>(v as int),
            Err(e) => int_text(text@, true, i64::MIN as int, i64::MAX as int) == Err::<int, ParseError>(e),
        }),
{
    match parse_signed(text, i64::MIN as i128, i64::MAX as i128) {
        Ok(v) => Ok(v as i64),
        Err(e) => Err(e),
    }
}

/// Reads `text` as an `i64`, or gives `def` where it is not one.
pub fn as_i64d(text: &str, def: i64) -> (r: i64)
    ensures
        r as int == or_default(int_text(text@, true, i64::MIN as int, i64::MAX as int), def as int),
{
    if text.is_empty() {
        return def;
    }
    match as_i64(text) {
        Ok(n) => n,
        Err(_) => def,
    }
}

/// Reads `text` as an `i128`: an optional `+` or `-`, then decimal digits.
pub fn as_i128(text: &str) -> (r: Result<i128, ParseError>)
    ensures
        (match r {
            Ok(v) => int_text(text@, true, i128::MIN as int, i128::MAX as int) == Ok::<int, ParseError>(v as int),
            Err(e) => int_text(text@, true, i128::MIN as int, i128::MAX as int) == Err::<int, ParseError>(e),
        }),
{
    match parse_signed(text, i128::MIN as i128, i128::MAX as i128) {
        Ok(v) => Ok(v),
        Err(e) => Err(e),
    }
}

/// Reads `text` as an `i128`, or gives `def` where it is not one.
pub fn as_i128d(text: &str, def: i128) -> (r: i128)
    ensures
        r as int == or_default(int_text(text@, true, i128::MIN as int, i128::MAX as int), def as int),
{
    if text.is_empty() {
        return def;
    }
    match as_i128(text) {
        Ok(n) => n,
        Err(_) => def,
    }
}

/// Reads `text` as an `isize`: an optional `+` or `-`, then decimal digits.
pub fn as_isize(text: &str) -> (r: Result<isize, ParseError>)
    ensures
        (match r {
            Ok(v) => int_text(text@, true, isize::MIN as int, isize::MAX as int) == Ok::<int, ParseError>(v as int),
            Err(e) => int_text(text@, true, isize::MIN as int, isize::MAX as int) == Err::<int, ParseError>(e),
        }),
{
    match parse_signed(text, isize::MIN as i128, isize::MAX as i128) {
        Ok(v) => Ok(v as isize),
        Err(e) => Err(e),
    }
}

/// Reads `text` as an `isize`, or gives `def` where it is not one.
pub fn as_isized(text: &str, def: isize) -> (r: isize)
    ensures
        r as int == or_default(int_text(text@, true, isize::MIN as int, isize::MAX as int), def as int),
{
    if text.is_empty() {
        return def;
    }
    match as_isize(text) {
        Ok(n) => n,
        Err(_) => def,
    }
}

/// Reads `text` as an `u8`: an optional `+`, then decimal digits.
pub fn as_u8(text: &str) -> (r: Result<u8, ParseError>)
    ensures
        (match r {
            Ok(v) => int_text(text@, false, 0, u8::MAX as int) == Ok::<int, ParseError>(v as int),
            Err(e) => int_text(text@, false, 0, u8::MAX as int) == Err::<int, ParseError>(e),
        }),
{
    match parse_unsigned(text, u8::MAX as u128) {
        Ok(v) => Ok(v as u8),
        Err(e) => Err(e),
    }
}

/// Reads `text` as an `u8`, or gives `def` where it is not one.
pub fn as_u8d(text: &str, def: u8) -> (r: u8)
    ensures
        r as int == or_default(int_text(text@, false, 0, u8::MAX as int), def as int),
{
    if text.is_empty() {
        return def;
    }
    match as_u8(text) {
        Ok(n) => n,
        Err(_) => def,
    }
}

/// Reads `text` as an `u16`: an optional `+`, then decimal digits.
pub fn as_u16(text: &str) -> (r: Result<u16, ParseError>)
    ensures
        (match r {
            Ok(v) => int_text(text@, false, 0, u16::MAX as int) == Ok::<int, ParseError>(v as int),
            Err(e) => int_text(text@, false, 0, u16::MAX as int) == Err::<int, ParseError>(e),
        }),
{
    match parse_unsigned(text, u16::MAX as u128) {
        Ok(v) => Ok(v as u16),
        Err(e) => Err(e),
    }
}

/// Reads `text` as an `u16`, or gives `def` where it is not one.
pub fn as_u16d(text: &str, def: u16) -> (r: u16)
    ensures
        r as int == or_default(int_text(text@, false, 0, u16::MAX as int), def as int),
{
    if text.is_empty() {
        return def;
    }
    match as_u16(text) {
        Ok(n) => n,
        Err(_) => def,
    }
}

/// Reads `text` as an `u32`: an optional `+`, then decimal digits.
pub fn as_u32(text: &str) -> (r: Result<u32, ParseError>)
    ensures
        (match r {
            Ok(v) => int_text(text@, false, 0, u32::MAX as int) == Ok::<int, ParseError>(v as int),
            Err(e) => int_text(text@, false, 0, u32::MAX as int) == Err::<int, ParseError>(e),
        }),
{
    match parse_unsigned(text, u32::MAX as u128) {
        Ok(v) => Ok(v as u32),
        Err(e) => Err(e),
    }
}

/// Reads `text` as an `u32`, or gives `def` where it is not one.
pub fn as_u32d(text: &str, def: u32) -> (r: u32)
    ensures
        r as int == or_default(int_text(text@, false, 0, u32::MAX as int), def as int),
{
    if text.is_empty() {
        return def;
    }
    match as_u32(text) {
        Ok(n) => n,
        Err(_) => def,
    }
}

/// Reads `text` as an `u64`: an optional `+`, then decimal digits.
pub fn as_u64(text: &str) -> (r: Result<u64, ParseError>)
    ensures
        (match r {
            Ok(v) => int_text(text@, false, 0, u64::MAX as int) == Ok::<int, ParseError>(v as int),
            Err(e) => int_text(text@, false, 0, u64::MAX as int) == Err::<int, ParseError>(e),
        }),
{
    match parse_unsigned(text, u64::MAX as u128) {
        Ok(v) => Ok(v as u64),
        Err(e) => Err(e),
    }
}

/// Reads `text` as an `u64`, or gives `def` where it is not one.
pub fn as_u64d(text: &str, def: u64) -> (r: u64)
    ensures
        r as int == or_default(int_text(text@, false, 0, u64::MAX as int), def as int),
{
    if text.is_empty() {
        return def;
    }
    match as_u64(text) {
        Ok(n) => n,
        Err(_) => def,
    }
}

/// Reads `text` as an `u128`: an optional `+`, then decimal digits.
pub fn as_u128(text: &str) -> (r: Result<u128, ParseError>)
    ensures
        (match r {
            Ok(v) => int_text(text@, false, 0, u128::MAX as int) == Ok::<int, ParseError>(v as int),
            Err(e) => int_text(text@, false, 0, u128::MAX as int) == Err::<int, ParseError>(e),
        }),
{
    match parse_unsigned(text, u128::MAX as u128) {
        Ok(v) => Ok(v),
        Err(e) => Err(e),
    }
}

/// Reads `text` as an `u128`, or gives `def` where it is not one.
pub fn as_u128d(text: &str, def: u128) -> (r: u128)
    ensures
        r as int == or_default(int_text(text@, false, 0, u128::MAX as int), def as int),
{
    if text.is_empty() {
        return def;
    }
    match as_u128(text) {
        Ok(n) => n,
        Err(_) => def,
    }
}

/// Reads `text` as an `usize`: an optional `+`, then decimal digits.
pub fn as_usize(text: &str) -> (r: Result<usize, ParseError>)
    ensures
        (match r {
            Ok(v) => int_text(text@, false, 0, usize::MAX as int) == Ok::<int, ParseError>(v as int),
            Err(e) => int_text(text@, false, 0, usize::MAX as int) == Err::<int, ParseError>(e),
        }),
{
    match parse_unsigned(text, usize::MAX as u128) {
        Ok(v) => Ok(v as usize),
        Err(e) => Err(e),
    }
}

/// Reads `text` as an `usize`, or gives `def` where it is not one.
pub fn as_usized(text: &str, def: usize) -> (r: usize)
    ensures
        r as int == or_default(int_text(text@, false, 0, usize::MAX as int), def as int),
{
    if text.is_empty() {
        return def;
    }
    match as_usize(text) {
        Ok(n) => n,
        Err(_) => def,
    }
}

/// A text of digits with at most a leading `-` is a signed digit text, and it is
/// an unsigned one exactly when no `-` leads it.
pub proof fn digit_text_signs(s: Seq<char>)
    requires
        forall|i: int| 0 <= i < s.len() ==> is_dec_digit(#[trigger] s[i]) || (i == 0 && s[i] == '-'),
    ensures
        digit_text(s, true),
        digit_text(s, false) <==> !(s.len() > 0 && s[0] == '-'),
{
    if s.len() > 0 && s[0] == '-' {
        assert(!is_dec_digit(s[0]));
    }
}

/// Classifying the same text twice gives the same answer.
pub proof fn classification_is_deterministic(s: Seq<char>, a: bool, b: bool)
    requires
        a == numeric_literal(s),
        b == numeric_literal(s),
    ensures
        a == b,
{
}

} // verus!
