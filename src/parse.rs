use vstd::prelude::*;
use vstd::string::*;
use crate::number::is_dec_digit;

verus! {

/// Why a text is not a number of a given width.
#[derive(Debug, Clone, Copy, PartialEq, Eq, Structural)]
pub enum ParseError {
    /// The text is empty.
    Empty,
    /// The text holds something other than a sign followed by digits.
    InvalidDigit,
    /// The digits name a value outside the target width.
    Overflow,
}

/// The value of a decimal digit.
pub open spec fn digit_value(c: char) -> nat {
    (c as u32 - '0' as u32) as nat
}

/// The value of a run of decimal digits, most significant first.
pub open spec fn digits_value(d: Seq<char>) -> nat
    decreases d.len(),
{
    if d.len() == 0 {
        0
    } else {
        digits_value(d.drop_last()) * 10 + digit_value(d.last())
    }
}

/// Length of the longest prefix of `d` made of decimal digits.
pub open spec fn digit_run(d: Seq<char>) -> nat
    decreases d.len(),
{
    if d.len() == 0 {
        0
    } else if !is_dec_digit(d[0]) {
        0
    } else {
        1 + digit_run(d.drop_first())
    }
}

/// How many leading characters of `s` are a sign: a `+`, or a `-` where the
/// target is signed.
pub open spec fn sign_len(s: Seq<char>, signed: bool) -> int {
    if s.len() > 0 && (s[0] == '+' || (signed && s[0] == '-')) {
        1
    } else {
        0
    }
}

/// The value that `s` names as an integer of the range `lo ..= hi`, read as an
/// optional sign followed by decimal digits. Digits are taken from the left:
/// once those read so far leave the range the text overflows, even if a
/// non-digit follows.
pub open spec fn int_text(s: Seq<char>, signed: bool, lo: int, hi: int) -> Result<int, ParseError> {
    let d = s.subrange(sign_len(s, signed), s.len() as int);
    let run = digit_run(d);
    let m = digits_value(d.subrange(0, run as int));
    let v = if signed && s.len() > 0 && s[0] == '-' {
        -m
    } else {
        m as int
    };
    if s.len() == 0 {
        Err(ParseError::Empty)
    } else if d.len() == 0 {
        Err(ParseError::InvalidDigit)
    } else if !(lo <= v <= hi) {
        Err(ParseError::Overflow)
    } else if run < d.len() {
        Err(ParseError::InvalidDigit)
    } else {
        Ok(v)
    }
}

proof fn lemma_digits_push(q: Seq<char>, c: char)
    ensures
        digits_value(q.push(c)) == digits_value(q) * 10 + digit_value(c),
{
    assert(q.push(c).drop_last() =~= q);
}

/// Reading more digits never lowers the value.
proof fn lemma_digits_grow(d: Seq<char>, j: int, k: int)
    requires
        0 <= j <= k <= d.len(),
    ensures
        digits_value(d.subrange(0, j)) <= digits_value(d.subrange(0, k)),
    decreases k - j,
{
    if j < k {
        lemma_digits_grow(d, j, k - 1);
        assert(d.subrange(0, k).drop_last() =~= d.subrange(0, k - 1));
    }
}

proof fn lemma_digit_run(d: Seq<char>, k: int)
    requires
        0 <= k <= d.len(),
        forall|j: int| 0 <= j < k ==> is_dec_digit(#[trigger] d[j]),
    ensures
        digit_run(d) >= k,
        k == d.len() || !is_dec_digit(d[k]) ==> digit_run(d) == k,
    decreases k,
{
    if k > 0 {
        let e = d.drop_first();
        assert forall|j: int| 0 <= j < k - 1 implies is_dec_digit(#[trigger] e[j]) by {
            assert(e[j] == d[j + 1]);
        }
        assert(is_dec_digit(d[0]));
        if k < d.len() {
            assert(e[k - 1] == d[k]);
        }
        lemma_digit_run(e, k - 1);
    } else if d.len() > 0 {
        lemma_digit_run_le(d);
    }
}

proof fn lemma_digit_run_le(d: Seq<char>)
    ensures
        digit_run(d) <= d.len(),
    decreases d.len(),
{
    if d.len() > 0 {
        lemma_digit_run_le(d.drop_first());
    }
}

/// The characters of `s`, in order.
pub(crate) fn chars_of(s: &str) -> (r: Vec<char>)
    ensures
        r@ == s@,
{
    let n = s.unicode_len();
    let mut out: Vec<char> = Vec::new();
    let mut i: usize = 0;
    while i < n
        invariant
            n == s@.len(),
            i <= n,
            out@ == s@.subrange(0, i as int),
        decreases n - i,
    {
        out.push(s.get_char(i));
        i = i + 1;
    }
    proof {
        assert(out@ =~= s@);
    }
    out
}

/// Reads the digits of `chars` from `start` on as a magnitude of at most `limit`.
fn read_magnitude(chars: &Vec<char>, start: usize, limit: u128) -> (r: Result<u128, ParseError>)
    requires
        start <= chars.len(),
    ensures
        ({
            let d = chars@.subrange(start as int, chars@.len() as int);
            let run = digit_run(d);
            let m = digits_value(d.subrange(0, run as int));
            match r {
                Ok(v) => m <= limit && run == d.len() && v == m,
                Err(e) => (m > limit && e == ParseError::Overflow) || (m <= limit && run < d.len()
                    && e == ParseError::InvalidDigit),
            }
        }),
{
    let ghost d = chars@.subrange(start as int, chars@.len() as int);
    let mut acc: u128 = 0;
    let mut i: usize = start;
    proof {
        assert(d.subrange(0, 0) =~= Seq::<char>::empty());
    }
    while i < chars.len() && '0' <= chars[i] && chars[i] <= '9'
        invariant
            d == chars@.subrange(start as int, chars@.len() as int),
            start <= i <= chars.len(),
            forall|j: int| 0 <= j < i - start ==> is_dec_digit(#[trigger] d[j]),
            acc == digits_value(d.subrange(0, i - start)),
            acc <= limit,
        decreases chars.len() - i,
    {
        let ch = chars[i];
        let dv: u128 = (ch as u32 - '0' as u32) as u128;
        let ghost k = i - start;
        proof {
            assert(d[k] == ch);
            assert(d.subrange(0, k + 1) =~= d.subrange(0, k).push(ch));
            lemma_digits_push(d.subrange(0, k), ch);
            assert forall|j: int| 0 <= j < k + 1 implies is_dec_digit(#[trigger] d[j]) by {}
        }
        if dv > limit || acc > limit / 10 || acc * 10 > limit - dv {
            proof {
                assert(acc * 10 + dv > limit) by (nonlinear_arith)
                    requires
                        dv > limit || acc > limit / 10 || (dv <= limit && acc * 10 > limit - dv),
                        dv <= 9,
                ;
                lemma_digit_run(d, k + 1);
                lemma_digit_run_le(d);
                lemma_digits_grow(d, k + 1, digit_run(d) as int);
            }
            return Err(ParseError::Overflow);
        }
        acc = acc * 10 + dv;
        i = i + 1;
    }
    proof {
        lemma_digit_run(d, i - start);
    }
    if i < chars.len() {
        Err(ParseError::InvalidDigit)
    } else {
        Ok(acc)
    }
}

/// Whether `r` is the outcome `int_text` gives, with the value widened to `int`.
pub open spec fn outcome_u128(r: Result<u128, ParseError>, want: Result<int, ParseError>) -> bool {
    match r {
        Ok(v) => want == Ok::<int, ParseError>(v as int),
        Err(e) => want == Err::<int, ParseError>(e),
    }
}

/// Whether `r` is the outcome `int_text` gives, with the value widened to `int`.
pub open spec fn outcome_i128(r: Result<i128, ParseError>, want: Result<int, ParseError>) -> bool {
    match r {
        Ok(v) => want == Ok::<int, ParseError>(v as int),
        Err(e) => want == Err::<int, ParseError>(e),
    }
}

/// Reads `text` as an unsigned integer of at most `hi`.
pub fn parse_unsigned(text: &str, hi: u128) -> (r: Result<u128, ParseError>)
    ensures
        outcome_u128(r, int_text(text@, false, 0, hi as int)),
{
    let chars = chars_of(text);
    if chars.len() == 0 {
        return Err(ParseError::Empty);
    }
    let start: usize = if chars[0] == '+' {
        1
    } else {
        0
    };
    if start == chars.len() {
        return Err(ParseError::InvalidDigit);
    }
    read_magnitude(&chars, start, hi)
}

/// Reads `text` as a signed integer in `lo ..= hi`.
pub fn parse_signed(text: &str, lo: i128, hi: i128) -> (r: Result<i128, ParseError>)
    requires
        lo < 0 <= hi,
    ensures
        outcome_i128(r, int_text(text@, true, lo as int, hi as int)),
{
    let chars = chars_of(text);
    if chars.len() == 0 {
        return Err(ParseError::Empty);
    }
    let negative = chars[0] == '-';
    let start: usize = if negative || chars[0] == '+' {
        1
    } else {
        0
    };
    if start == chars.len() {
        return Err(ParseError::InvalidDigit);
    }
    let limit: u128 = if negative {
        (-(lo + 1)) as u128 + 1
    } else {
        hi as u128
    };
    match read_magnitude(&chars, start, limit) {
        Ok(m) => {
            if !negative {
                Ok(m as i128)
            } else if m == 0 {
                Ok(0)
            } else {
                Ok(-((m - 1) as i128) - 1)
            }
        },
        Err(e) => Err(e),
    }
}

/// The character of a decimal digit value.
pub open spec fn digit_char(d: nat) -> char {
    if d == 0 {
        '0'
    } else if d == 1 {
        '1'
    } else if d == 2 {
        '2'
    } else if d == 3 {
        '3'
    } else if d == 4 {
        '4'
    } else if d == 5 {
        '5'
    } else if d == 6 {
        '6'
    } else if d == 7 {
        '7'
    } else if d == 8 {
        '8'
    } else {
        '9'
    }
}

/// The decimal digits of `n`, most significant first, without leading zeros.
pub open spec fn digits_of(n: nat) -> Seq<char>
    decreases n,
{
    if n < 10 {
        seq![digit_char(n)]
    } else {
        digits_of(n / 10).push(digit_char(n % 10))
    }
}

/// `v` written in decimal, with a leading `-` when it is negative.
pub open spec fn decimal_text(v: int) -> Seq<char> {
    if v < 0 {
        seq!['-'] + digits_of((-v) as nat)
    } else {
        digits_of(v as nat)
    }
}

proof fn lemma_digit_char(d: nat)
    requires
        d < 10,
    ensures
        is_dec_digit(digit_char(d)),
        digit_value(digit_char(d)) == d,
{
}

proof fn lemma_digits_of(n: nat)
    ensures
        digits_of(n).len() >= 1,
        forall|j: int| 0 <= j < digits_of(n).len() ==> is_dec_digit(#[trigger] digits_of(n)[j]),
        digits_value(digits_of(n)) == n,
    decreases n,
{
    if n < 10 {
        lemma_digit_char(n);
        lemma_digits_push(Seq::<char>::empty(), digit_char(n));
        assert(Seq::<char>::empty().push(digit_char(n)) =~= seq![digit_char(n)]);
    } else {
        lemma_digit_char(n % 10);
        lemma_digits_of(n / 10);
        lemma_digits_push(digits_of(n / 10), digit_char(n % 10));
        let t = digits_of(n);
        assert forall|j: int| 0 <= j < t.len() implies is_dec_digit(#[trigger] t[j]) by {
            if j < t.len() - 1 {
                assert(t[j] == digits_of(n / 10)[j]);
            }
        }
    }
}

/// Empty text is no integer of any range: the strict reading fails with
/// `Empty`, and a reading with a fallback gives the fallback.
pub proof fn empty_text_fails(signed: bool, lo: int, hi: int, def: int)
    ensures
        int_text(Seq::empty(), signed, lo, hi) == Err::<int, ParseError>(ParseError::Empty),
        crate::number::or_default(int_text(Seq::empty(), signed, lo, hi), def) == def,
{
}

/// Reading the same text twice gives the same outcome: both results that the
/// contracts of `parse_signed` allow are one and the same, and so for
/// `parse_unsigned`.
pub proof fn reading_is_deterministic(
    s: Seq<char>,
    lo: int,
    hi: int,
    a: Result<i128, ParseError>,
    b: Result<i128, ParseError>,
    c: Result<u128, ParseError>,
    d: Result<u128, ParseError>,
)
    requires
        outcome_i128(a, int_text(s, true, lo, hi)),
        outcome_i128(b, int_text(s, true, lo, hi)),
        outcome_u128(c, int_text(s, false, 0, hi)),
        outcome_u128(d, int_text(s, false, 0, hi)),
    ensures
        a == b,
        c == d,
{
    match a {
        Ok(x) => {
            assert(b matches Ok(y) && x == y);
        },
        Err(e) => {},
    }
    match c {
        Ok(x) => {
            assert(d matches Ok(y) && x == y);
        },
        Err(e) => {},
    }
}

/// A value of the range `lo ..= hi`, written in decimal, reads back as itself.
pub proof fn decimal_round_trip(v: int, signed: bool, lo: int, hi: int)
    requires
        lo <= v <= hi,
        signed || 0 <= lo,
    ensures
        int_text(decimal_text(v), signed, lo, hi) == Ok::<int, ParseError>(v),
{
    let s = decimal_text(v);
    let n: nat = if v < 0 {
        (-v) as nat
    } else {
        v as nat
    };
    let t = digits_of(n);
    lemma_digits_of(n);
    lemma_digit_run(t, t.len() as int);
    assert(t.subrange(0, t.len() as int) =~= t);
    if v < 0 {
        assert(s[0] == '-');
        assert(s.subrange(1, s.len() as int) =~= t);
    } else {
        assert(is_dec_digit(t[0]));
        assert(s.subrange(0, s.len() as int) =~= t);
    }
}

} // verus!
