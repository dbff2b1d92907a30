//! PHP-flavoured integer parsing.
//!
//! PHP integer literals come in four radixes (`0x` hex, `0b` binary, a
//! leading `0` for octal, decimal otherwise), allow `_` group separators,
//! and overflow of the 64-bit signed range is a hard error rather than a
//! wrap or a promotion to float.

use vstd::prelude::*;

use crate::chars::str_to_chars;

verus! {

/// Why a piece of text failed to parse as a 64-bit integer.
#[derive(Debug, Clone, PartialEq, Eq, Structural)]
pub enum ParseIntError {
    /// No digits were present where a number was expected.
    Empty,
    /// A character that is not a digit of the detected radix.
    InvalidDigit,
    /// The value does not fit in a 64-bit signed integer.
    Overflow,
    /// A negative number where only a non-negative one is allowed.
    UnexpectedNegative,
}

impl ParseIntError {
    /// A short human-readable description of the error.
    pub fn desc(&self) -> (r: &'static str)
        ensures
            r@ == self.spec_desc(),
    {
        match self {
            ParseIntError::Empty => "Number expected",
            ParseIntError::InvalidDigit => "Not a valid digit",
            ParseIntError::Overflow => "Number to large",
            ParseIntError::UnexpectedNegative => "Expected a positive number",
        }
    }

    /// The text `desc` returns, as a sequence of characters.
    pub open spec fn spec_desc(&self) -> Seq<char> {
        match self {
            ParseIntError::Empty => "Number expected"@,
            ParseIntError::InvalidDigit => "Not a valid digit"@,
            ParseIntError::Overflow => "Number to large"@,
            ParseIntError::UnexpectedNegative => "Expected a positive number"@,
        }
    }
}

/// The numeric value of `c` as a digit, or -1 when `c` is no digit.
/// Letters count as digits 10..=15 (both cases), as in hexadecimal.
pub open spec fn digit_value(c: char) -> int {
    if '0' <= c && c <= '9' {
        c as int - '0' as int
    } else if 'a' <= c && c <= 'f' {
        10 + (c as int - 'a' as int)
    } else if 'A' <= c && c <= 'F' {
        10 + (c as int - 'A' as int)
    } else {
        -1
    }
}

/// Does `c` denote a digit of the given radix?
pub open spec fn is_radix_digit(c: char, radix: int) -> bool {
    0 <= digit_value(c) && digit_value(c) < radix
}

/// The numeric value of `c` as a digit of `radix`, or `None`.
pub fn to_digit(c: char, radix: u32) -> (r: Option<u32>)
    requires
        2 <= radix <= 16,
    ensures
        match r {
            Some(d) => is_radix_digit(c, radix as int) && d == digit_value(c),
            None => !is_radix_digit(c, radix as int),
        },
{
    let v: i64 = if '0' <= c && c <= '9' {
        c as i64 - '0' as i64
    } else if 'a' <= c && c <= 'f' {
        10 + (c as i64 - 'a' as i64)
    } else if 'A' <= c && c <= 'F' {
        10 + (c as i64 - 'A' as i64)
    } else {
        -1
    };
    if 0 <= v && v < radix as i64 {
        Some(v as u32)
    } else {
        None
    }
}

/// Radix detection: `0x` means hex, `0b` binary, a leading `0` followed by
/// more characters octal, anything else decimal. Returns the radix and the
/// number of characters of the prefix that carry no digit value.
pub open spec fn spec_radix_of(s: Seq<char>) -> (int, int) {
    if s.len() >= 2 && s[0] == '0' && s[1] == 'x' {
        (16, 2)
    } else if s.len() >= 2 && s[0] == '0' && s[1] == 'b' {
        (2, 2)
    } else if s.len() >= 2 && s[0] == '0' {
        (8, 1)
    } else {
        (10, 0)
    }
}

/// Left-to-right digit accumulation with PHP's rules: `_` separators are
/// skipped, a character outside the radix is `InvalidDigit`, and any
/// intermediate value above `i64::MAX` is `Overflow`.
pub open spec fn spec_accum_digits(digits: Seq<char>, radix: int, acc: int) -> Result<
    int,
    ParseIntError,
>
    decreases digits.len(),
{
    if digits.len() == 0 {
        Ok(acc)
    } else {
        let c = digits[0];
        if c == '_' {
            spec_accum_digits(digits.drop_first(), radix, acc)
        } else if !is_radix_digit(c, radix) {
            Err(ParseIntError::InvalidDigit)
        } else {
            let acc2 = acc * radix + digit_value(c);
            if acc2 > i64::MAX as int {
                Err(ParseIntError::Overflow)
            } else {
                spec_accum_digits(digits.drop_first(), radix, acc2)
            }
        }
    }
}

/// What `parse_int` returns for a given piece of text: sign split, radix
/// detection, digit accumulation, and the sign applied last.
pub open spec fn spec_parse_int(s: Seq<char>) -> Result<i64, ParseIntError> {
    if s.len() == 0 {
        Err(ParseIntError::Empty)
    } else {
        let negative = s[0] == '-';
        let rest = if s[0] == '+' || s[0] == '-' {
            s.drop_first()
        } else {
            s
        };
        let (radix, skip) = spec_radix_of(rest);
        let digits = rest.skip(skip);
        if digits.len() == 0 {
            Err(ParseIntError::Empty)
        } else {
            match spec_accum_digits(digits, radix, 0) {
                Ok(v) => Ok(if negative {
                    (-v) as i64
                } else {
                    v as i64
                }),
                Err(e) => Err(e),
            }
        }
    }
}

proof fn lemma_accum_nonneg(digits: Seq<char>, radix: int, acc: int)
    requires
        0 <= acc <= i64::MAX as int,
        2 <= radix,
    ensures
        match spec_accum_digits(digits, radix, acc) {
            Ok(v) => 0 <= v <= i64::MAX as int,
            Err(_) => true,
        },
    decreases digits.len(),
{
    if digits.len() > 0 {
        let c = digits[0];
        if c == '_' {
            lemma_accum_nonneg(digits.drop_first(), radix, acc);
        } else if is_radix_digit(c, radix) {
            let acc2 = acc * radix + digit_value(c);
            if acc2 <= i64::MAX as int {
                lemma_accum_nonneg(digits.drop_first(), radix, acc2);
            }
        }
    }
}

/// Are all characters decimal digits?
pub open spec fn all_dec_digits(s: Seq<char>) -> bool {
    forall|k: int| 0 <= k < s.len() ==> is_radix_digit(#[trigger] s[k], 10)
}

/// The value of a run of decimal digits, most significant first.
pub open spec fn dec_value(s: Seq<char>) -> int
    decreases s.len(),
{
    if s.len() == 0 {
        0
    } else {
        dec_value(s.drop_last()) * 10 + digit_value(s.last())
    }
}

pub proof fn lemma_dec_value_nonneg(s: Seq<char>)
    requires
        all_dec_digits(s),
    ensures
        dec_value(s) >= 0,
    decreases s.len(),
{
    if s.len() > 0 {
        assert(all_dec_digits(s.drop_last())) by {
            assert(forall|k: int|
                0 <= k < s.len() - 1 ==> s.drop_last()[k] == #[trigger] s[k]);
        }
        lemma_dec_value_nonneg(s.drop_last());
    }
}

pub proof fn lemma_dec_value_prefix_le(s: Seq<char>, k: int)
    requires
        all_dec_digits(s),
        0 <= k <= s.len(),
    ensures
        0 <= dec_value(s.take(k)) <= dec_value(s),
    decreases s.len() - k,
{
    if k == s.len() {
        assert(s.take(k) =~= s);
        lemma_dec_value_nonneg(s);
    } else {
        lemma_dec_value_prefix_le(s, k + 1);
        let t = s.take(k + 1);
        assert(t.drop_last() =~= s.take(k));
        assert(all_dec_digits(s.take(k))) by {
            assert(forall|j: int| 0 <= j < k ==> s.take(k)[j] == #[trigger] s[j]);
        }
        lemma_dec_value_nonneg(s.take(k));
        assert(dec_value(t) == dec_value(s.take(k)) * 10 + digit_value(t.last()));
        assert(t.last() == s[k]);
        assert(digit_value(s[k]) >= 0);
        assert(dec_value(s.take(k)) * 10 >= dec_value(s.take(k))) by {
            lemma_dec_value_nonneg(s.take(k));
        }
    }
}

/// Does `s` have the canonical shape of a decimal integer: an optional
/// `-`, then digits with no redundant leading zero, and no `-0`?
pub open spec fn spec_dec_shape(s: Seq<char>) -> bool {
    if s.len() >= 1 && s[0] == '-' {
        let body = s.drop_first();
        body.len() >= 1 && all_dec_digits(body) && body[0] != '0'
    } else {
        s.len() >= 1 && all_dec_digits(s) && (s.len() > 1 ==> s[0] != '0')
    }
}

/// The integer a canonically-shaped decimal string denotes.
pub open spec fn spec_dec_signed_value(s: Seq<char>) -> int
    recommends
        spec_dec_shape(s),
{
    if s.len() >= 1 && s[0] == '-' {
        -dec_value(s.drop_first())
    } else {
        dec_value(s)
    }
}

/// Is `s` the canonical decimal form of some 64-bit signed integer?
/// This is the rule deciding whether a string array key is coerced into
/// an integer key: `"8"` and `"-8"` are, while `"08"`, `"-0"`, `" 8"`
/// and out-of-range digit strings are not.
pub open spec fn spec_is_int_key(s: Seq<char>) -> bool {
    spec_dec_shape(s) && i64::MIN as int <= spec_dec_signed_value(s) <= i64::MAX as int
}

/// Scan a digit run, accumulating its value with saturation: `None`
/// means the value exceeds the 64-bit unsigned range.
fn dec_value_chars(chars: &Vec<char>, start: usize, end: usize) -> (r: Option<u64>)
    requires
        start <= end <= chars.len(),
        all_dec_digits(chars@.subrange(start as int, end as int)),
    ensures
        match r {
            Some(v) => v as int == dec_value(chars@.subrange(start as int, end as int)),
            None => dec_value(chars@.subrange(start as int, end as int)) > u64::MAX as int,
        },
{
    let ghost whole = chars@.subrange(start as int, end as int);
    let mut acc: u64 = 0;
    let mut i = start;
    while i < end
        invariant
            start <= i <= end <= chars.len(),
            all_dec_digits(whole),
            whole == chars@.subrange(start as int, end as int),
            acc as int == dec_value(chars@.subrange(start as int, i as int)),
        decreases end - i,
    {
        let c = chars[i];
        proof {
            assert(whole[i - start] == chars@[i as int]);
            assert(chars@.subrange(start as int, i as int + 1).drop_last() =~= chars@.subrange(
                start as int,
                i as int,
            ));
            assert(chars@.subrange(start as int, i as int + 1).last() == chars@[i as int]);
        }
        let d = match to_digit(c, 10) {
            Some(d) => d,
            None => {
                return None;
            },
        };
        let m = match acc.checked_mul(10) {
            Some(m) => m,
            None => {
                proof {
                    assert(whole.take(i - start) =~= chars@.subrange(start as int, i as int));
                    assert(digit_value(whole[i - start]) == d as int);
                    lemma_dec_value_saturates(whole, i - start);
                }
                return None;
            },
        };
        let a = match m.checked_add(d as u64) {
            Some(a) => a,
            None => {
                proof {
                    assert(whole.take(i - start) =~= chars@.subrange(start as int, i as int));
                    assert(digit_value(whole[i - start]) == d as int);
                    lemma_dec_value_saturates(whole, i - start);
                }
                return None;
            },
        };
        acc = a;
        i = i + 1;
    }
    proof {
        assert(chars@.subrange(start as int, end as int) =~= whole);
    }
    Some(acc)
}

/// If the value through digit `k` already exceeds the 64-bit unsigned
/// range, so does the value of the whole run.
proof fn lemma_dec_value_saturates(s: Seq<char>, k: int)
    requires
        all_dec_digits(s),
        0 <= k < s.len(),
        dec_value(s.take(k)) * 10 + digit_value(s[k]) > u64::MAX as int,
    ensures
        dec_value(s) > u64::MAX as int,
{
    assert(s.take(k + 1).drop_last() =~= s.take(k));
    assert(s.take(k + 1).last() == s[k]);
    assert(dec_value(s.take(k + 1)) == dec_value(s.take(k)) * 10 + digit_value(s[k]));
    lemma_dec_value_prefix_le(s, k + 1);
    assert(dec_value(s) >= dec_value(s.take(k + 1)));
}

/// Is `s` the canonical decimal form of a 64-bit signed integer? This is
/// the coercion rule for string array keys.
pub fn is_array_key_numeric(s: &str) -> (r: bool)
    ensures
        r == spec_is_int_key(s@),
{
    int_key_value(s).is_some()
}

/// The 64-bit integer whose canonical decimal form `s` is, if any.
pub fn int_key_value(s: &str) -> (r: Option<i64>)
    ensures
        match r {
            Some(v) => spec_is_int_key(s@) && v as int == spec_dec_signed_value(s@),
            None => !spec_is_int_key(s@),
        },
{
    let chars = str_to_chars(s);
    int_key_value_chars(&chars)
}

/// The 64-bit integer whose canonical decimal form the characters are.
pub fn int_key_value_chars(chars: &Vec<char>) -> (r: Option<i64>)
    ensures
        match r {
            Some(v) => spec_is_int_key(chars@) && v as int == spec_dec_signed_value(chars@),
            None => !spec_is_int_key(chars@),
        },
{
    let n = chars.len();
    if n == 0 {
        return None;
    }
    let neg = chars[0] == '-';
    let start: usize = if neg {
        1
    } else {
        0
    };
    if start >= n {
        return None;
    }
    let ghost body = chars@.subrange(start as int, n as int);
    proof {
        if neg {
            assert(body =~= chars@.drop_first());
        } else {
            assert(body =~= chars@);
        }
    }
    // Shape: all digits, no redundant leading zero, no `-0`.
    let mut i = start;
    while i < n
        invariant
            start <= i <= n,
            start < n,
            n == chars.len(),
            n > 0,
            neg == (chars@[0] == '-'),
            start == (if neg {
                1int
            } else {
                0int
            }),
            body == chars@.subrange(start as int, n as int),
            forall|k: int|
                start <= k < i ==> is_radix_digit(#[trigger] chars@[k], 10),
        decreases n - i,
    {
        if to_digit(chars[i], 10).is_none() {
            proof {
                assert(body[i - start] == chars@[i as int]);
                assert(!all_dec_digits(body));
                if neg {
                    assert(body =~= chars@.drop_first());
                } else {
                    assert(body =~= chars@);
                }
            }
            return None;
        }
        i = i + 1;
    }
    proof {
        assert(all_dec_digits(body)) by {
            assert(forall|k: int|
                0 <= k < body.len() ==> body[k] == #[trigger] chars@[k + start]);
        }
    }
    if chars[start] == '0' {
        if neg || n - start > 1 {
            return None;
        }
    }
    if neg && chars[start] == '0' {
        return None;
    }
    let v = match dec_value_chars(chars, start, n) {
        Some(v) => v,
        None => {
            return None;
        },
    };
    if neg {
        if v > 9223372036854775808u64 {
            None
        } else if v == 9223372036854775808u64 {
            Some(i64::MIN)
        } else {
            Some(-(v as i64))
        }
    } else {
        if v > i64::MAX as u64 {
            None
        } else {
            Some(v as i64)
        }
    }
}

/// Ten to the `k`.
pub open spec fn pow10(k: nat) -> int
    decreases k,
{
    if k == 0 {
        1
    } else {
        10 * pow10((k - 1) as nat)
    }
}

pub proof fn lemma_pow10_pos(k: nat)
    ensures
        pow10(k) >= 1,
    decreases k,
{
    if k > 0 {
        lemma_pow10_pos((k - 1) as nat);
    }
}

pub proof fn lemma_pow10_mono(a: nat, b: nat)
    requires
        a <= b,
    ensures
        pow10(a) <= pow10(b),
    decreases b,
{
    if a < b {
        lemma_pow10_mono(a, (b - 1) as nat);
        lemma_pow10_pos((b - 1) as nat);
    }
}

/// The value of a digit run is below ten to its length.
pub proof fn lemma_dec_value_upper(s: Seq<char>)
    requires
        all_dec_digits(s),
    ensures
        dec_value(s) < pow10(s.len()),
    decreases s.len(),
{
    if s.len() == 0 {
    } else {
        assert(all_dec_digits(s.drop_last())) by {
            assert(forall|k: int|
                0 <= k < s.len() - 1 ==> s.drop_last()[k] == #[trigger] s[k]);
        }
        lemma_dec_value_upper(s.drop_last());
        assert(digit_value(s.last()) <= 9);
    }
}

/// Splitting a digit run at `len - k` splits its value at `pow10(k)`.
pub proof fn lemma_dec_value_split(s: Seq<char>, k: nat)
    requires
        all_dec_digits(s),
        k <= s.len(),
    ensures
        dec_value(s) == dec_value(s.take(s.len() - k)) * pow10(k) + dec_value(
            s.skip(s.len() - k),
        ),
    decreases k,
{
    if k == 0 {
        assert(s.take(s.len() - k) =~= s);
        assert(s.skip(s.len() - k) =~= Seq::<char>::empty());
        assert(dec_value(Seq::<char>::empty()) == 0);
        assert(pow10(0) == 1);
        assert(dec_value(s) == dec_value(s.take(s.len() - k)) * pow10(k) + dec_value(
            s.skip(s.len() - k),
        ));
    } else {
        let t = s.drop_last();
        assert(all_dec_digits(t)) by {
            assert(forall|j: int| 0 <= j < s.len() - 1 ==> t[j] == #[trigger] s[j]);
        }
        lemma_dec_value_split(t, (k - 1) as nat);
        assert(t.take(t.len() - (k - 1)) =~= s.take(s.len() - k));
        let tail = s.skip(s.len() - k);
        assert(tail.drop_last() =~= t.skip(t.len() - (k - 1)));
        assert(tail.last() == s.last());
        let q = dec_value(s.take(s.len() - k));
        let pk1 = pow10((k - 1) as nat);
        let r1 = dec_value(t.skip(t.len() - (k - 1)));
        let d = digit_value(s.last());
        assert(dec_value(tail) == r1 * 10 + d);
        assert(dec_value(s) == dec_value(t) * 10 + d);
        assert(dec_value(t) == q * pk1 + r1);
        assert((q * pk1 + r1) * 10 + d == q * (10 * pk1) + (r1 * 10 + d)) by (nonlinear_arith);
        assert(pow10(k) == 10 * pk1);
        assert(dec_value(s) == q * pow10(k) + dec_value(tail));
    }
}

/// Dropping the last `k` digits of a run divides its value by `pow10(k)`.
pub proof fn lemma_dec_value_shift_down(s: Seq<char>, k: nat)
    requires
        all_dec_digits(s),
        k <= s.len(),
    ensures
        dec_value(s) / pow10(k) == dec_value(s.take(s.len() - k)),
{
    lemma_dec_value_split(s, k);
    let tail = s.skip(s.len() - k);
    assert(all_dec_digits(tail)) by {
        assert(forall|j: int|
            0 <= j < tail.len() ==> tail[j] == #[trigger] s[j + (s.len() - k)]);
    }
    lemma_dec_value_nonneg(tail);
    lemma_dec_value_upper(tail);
    assert(tail.len() == k);
    let q = dec_value(s.take(s.len() - k));
    let r = dec_value(tail);
    lemma_pow10_pos(k);
    vstd::arithmetic::div_mod::lemma_fundamental_div_mod_converse(
        dec_value(s),
        pow10(k),
        q,
        r,
    );
}

/// Clamp an integer into the 64-bit signed range, as a saturating cast
/// does.
pub open spec fn sat_i64(v: int) -> int {
    if v > i64::MAX as int {
        i64::MAX as int
    } else if v < i64::MIN as int {
        i64::MIN as int
    } else {
        v
    }
}

/// The end of a plain decimal digit run at `i`.
pub open spec fn plain_run_end(s: Seq<char>, i: int) -> int
    decreases s.len() - i,
{
    if 0 <= i && i < s.len() && is_radix_digit(s[i], 10) {
        plain_run_end(s, i + 1)
    } else {
        i
    }
}

pub proof fn lemma_plain_run_bounds(s: Seq<char>, i: int)
    requires
        0 <= i <= s.len(),
    ensures
        i <= plain_run_end(s, i) <= s.len(),
        all_dec_digits(s.subrange(i, plain_run_end(s, i))),
    decreases s.len() - i,
{
    if i < s.len() && is_radix_digit(s[i], 10) {
        lemma_plain_run_bounds(s, i + 1);
        let e = plain_run_end(s, i);
        assert forall|j: int| 0 <= j < e - i implies is_radix_digit(
            #[trigger] s.subrange(i, e)[j],
            10,
        ) by {
            assert(s.subrange(i, e)[j] == s[i + j]);
            if j > 0 {
                assert(s.subrange(i + 1, e)[j - 1] == s[i + j]);
            }
        }
    } else {
        assert(s.subrange(i, i) =~= Seq::<char>::empty());
    }
}

/// What truncating a float literal toward zero yields, clamped into the
/// 64-bit signed range. The literal is taken as text (with the `_`
/// separators already removed): its digits are read exactly, so the
/// result is the truncation of the number the literal denotes, free of
/// any rounding of a binary float format.
pub open spec fn spec_float_trunc(t: Seq<char>) -> int {
    let neg = t.len() > 0 && t[0] == '-';
    let p: int = if neg {
        1
    } else {
        0
    };
    let a_end = plain_run_end(t, p);
    let has_dot = 0 <= a_end < t.len() && t[a_end] == '.';
    let frac_end = if has_dot {
        plain_run_end(t, a_end + 1)
    } else {
        a_end
    };
    let digits = if has_dot {
        t.subrange(p, a_end) + t.subrange(a_end + 1, frac_end)
    } else {
        t.subrange(p, a_end)
    };
    let frac_len: int = if has_dot {
        frac_end - (a_end + 1)
    } else {
        0
    };
    let exp: int = if 0 <= frac_end < t.len() && (t[frac_end] == 'e' || t[frac_end] == 'E') {
        let q = frac_end + 1;
        let q2: int = if q < t.len() && (t[q] == '+' || t[q] == '-') {
            q + 1
        } else {
            q
        };
        let ev = dec_value(t.subrange(q2, plain_run_end(t, q2)));
        if q < t.len() && t[q] == '-' {
            -ev
        } else {
            ev
        }
    } else {
        0
    };
    let shift = exp - frac_len;
    let mag = if shift >= 0 {
        dec_value(digits) * pow10(shift as nat)
    } else {
        dec_value(digits) / pow10((-shift) as nat)
    };
    if neg {
        sat_i64(-mag)
    } else {
        sat_i64(mag)
    }
}

fn exec_plain_run_end(t: &Vec<char>, start: usize) -> (r: usize)
    requires
        start <= t.len(),
    ensures
        r == plain_run_end(t@, start as int),
        start <= r <= t.len(),
{
    let n = t.len();
    let mut i = start;
    loop
        invariant
            start <= i <= n,
            n == t.len(),
            plain_run_end(t@, i as int) == plain_run_end(t@, start as int),
        ensures
            start <= i <= n,
            i == plain_run_end(t@, start as int),
        decreases n - i,
    {
        if i < n && to_digit(t[i], 10).is_some() {
            i = i + 1;
        } else {
            break ;
        }
    }
    i
}

/// Scan a digit run into a 128-bit value; `None` when it does not fit.
fn dec_value_chars_u128(chars: &Vec<char>, start: usize, end: usize) -> (r: Option<u128>)
    requires
        start <= end <= chars.len(),
        all_dec_digits(chars@.subrange(start as int, end as int)),
    ensures
        match r {
            Some(v) => v as int == dec_value(chars@.subrange(start as int, end as int)),
            None => dec_value(chars@.subrange(start as int, end as int)) > u128::MAX as int,
        },
{
    let ghost whole = chars@.subrange(start as int, end as int);
    let mut acc: u128 = 0;
    let mut i = start;
    while i < end
        invariant
            start <= i <= end <= chars.len(),
            all_dec_digits(whole),
            whole == chars@.subrange(start as int, end as int),
            acc as int == dec_value(chars@.subrange(start as int, i as int)),
        decreases end - i,
    {
        let c = chars[i];
        proof {
            assert(whole[i - start] == chars@[i as int]);
            assert(chars@.subrange(start as int, i as int + 1).drop_last() =~= chars@.subrange(
                start as int,
                i as int,
            ));
            assert(chars@.subrange(start as int, i as int + 1).last() == chars@[i as int]);
        }
        let d = match to_digit(c, 10) {
            Some(d) => d,
            None => {
                return None;
            },
        };
        let m = match acc.checked_mul(10) {
            Some(m) => m,
            None => {
                proof {
                    assert(whole.take(i - start) =~= chars@.subrange(start as int, i as int));
                    assert(digit_value(whole[i - start]) == d as int);
                    lemma_dec_value_saturates_u128(whole, i - start);
                }
                return None;
            },
        };
        let a = match m.checked_add(d as u128) {
            Some(a) => a,
            None => {
                proof {
                    assert(whole.take(i - start) =~= chars@.subrange(start as int, i as int));
                    assert(digit_value(whole[i - start]) == d as int);
                    lemma_dec_value_saturates_u128(whole, i - start);
                }
                return None;
            },
        };
        acc = a;
        i = i + 1;
    }
    proof {
        assert(chars@.subrange(start as int, end as int) =~= whole);
    }
    Some(acc)
}

proof fn lemma_dec_value_saturates_u128(s: Seq<char>, k: int)
    requires
        all_dec_digits(s),
        0 <= k < s.len(),
        dec_value(s.take(k)) * 10 + digit_value(s[k]) > u128::MAX as int,
    ensures
        dec_value(s) > u128::MAX as int,
{
    assert(s.take(k + 1).drop_last() =~= s.take(k));
    assert(s.take(k + 1).last() == s[k]);
    assert(dec_value(s.take(k + 1)) == dec_value(s.take(k)) * 10 + digit_value(s[k]));
    lemma_dec_value_prefix_le(s, k + 1);
    assert(dec_value(s) >= dec_value(s.take(k + 1)));
}

proof fn lemma_pow10_20()
    ensures
        pow10(20) == 0x56bc75e2d63100000,
        pow10(19) == 0x8ac7230489e80000,
{
    reveal_with_fuel(pow10, 21);
}

proof fn lemma_mul_large(a: int, b: int, m: int)
    requires
        a >= 1,
        b > m,
        m >= 0,
    ensures
        a * b > m,
{
    assert(a * b >= b) by (nonlinear_arith)
        requires
            a >= 1,
            b >= 0,
    ;
}

fn pow10_u64(k: u32) -> (r: u64)
    requires
        k <= 19,
    ensures
        r as int == pow10(k as nat),
{
    let mut acc: u64 = 1;
    let mut i: u32 = 0;
    while i < k
        invariant
            i <= k <= 19,
            acc as int == pow10(i as nat),
        decreases k - i,
    {
        proof {
            lemma_pow10_20();
            lemma_pow10_mono(i as nat + 1, 19);
            lemma_pow10_pos(i as nat);
            assert(10 * pow10(i as nat) == pow10(i as nat + 1));
        }
        acc = acc * 10;
        i = i + 1;
    }
    acc
}

/// The magnitude digits scaled up by ten to the `shift`, truncated into
/// the signed 64-bit range and negated when `neg` holds.
fn trunc_shift_up(
    digits: &Vec<char>,
    neg: bool,
    shift_gt19: bool,
    s: u32,
    Ghost(shift): Ghost<int>,
) -> (r: i64)
    requires
        all_dec_digits(digits@),
        shift >= 0,
        shift_gt19 <==> shift > 19,
        !shift_gt19 ==> s as int == shift,
    ensures
        r as int == if neg {
            sat_i64(-(dec_value(digits@) * pow10(shift as nat)))
        } else {
            sat_i64(dec_value(digits@) * pow10(shift as nat))
        },
{
    let dlen = digits.len();
    proof {
        lemma_dec_value_nonneg(digits@);
        lemma_pow10_pos(shift as nat);
        lemma_pow10_20();
        assert(digits@.subrange(0, dlen as int) =~= digits@);
    }
    match dec_value_chars(digits, 0, dlen) {
        None => {
            proof {
                lemma_mul_large(pow10(shift as nat), dec_value(digits@), i64::MAX as int);
                assert(pow10(shift as nat) * dec_value(digits@) == dec_value(digits@) * pow10(
                    shift as nat,
                )) by (nonlinear_arith);
            }
            if neg {
                i64::MIN
            } else {
                i64::MAX
            }
        },
        Some(v) => {
            if v == 0 {
                proof {
                    assert(0 * pow10(shift as nat) == 0) by (nonlinear_arith);
                }
                0
            } else if shift_gt19 {
                proof {
                    lemma_pow10_mono(20, shift as nat);
                    lemma_mul_large(dec_value(digits@), pow10(shift as nat), i64::MAX as int);
                }
                if neg {
                    i64::MIN
                } else {
                    i64::MAX
                }
            } else {
                let pw = pow10_u64(s);
                match v.checked_mul(pw) {
                    None => {
                        if neg {
                            i64::MIN
                        } else {
                            i64::MAX
                        }
                    },
                    Some(m) => {
                        if m > i64::MAX as u64 {
                            if neg {
                                i64::MIN
                            } else {
                                i64::MAX
                            }
                        } else {
                            if neg {
                                -(m as i64)
                            } else {
                                m as i64
                            }
                        }
                    },
                }
            }
        },
    }
}

/// The magnitude digits scaled down by ten to the `kk`, truncated into
/// the signed 64-bit range and negated when `neg` holds.
fn trunc_shift_down(
    digits: &Vec<char>,
    neg: bool,
    k_ge_len: bool,
    k: usize,
    Ghost(kk): Ghost<int>,
) -> (r: i64)
    requires
        all_dec_digits(digits@),
        kk >= 0,
        k_ge_len <==> kk >= digits@.len(),
        !k_ge_len ==> k as int == kk,
    ensures
        r as int == if neg {
            sat_i64(-(dec_value(digits@) / pow10(kk as nat)))
        } else {
            sat_i64(dec_value(digits@) / pow10(kk as nat))
        },
{
    let dlen = digits.len();
    proof {
        lemma_dec_value_nonneg(digits@);
        lemma_dec_value_upper(digits@);
        lemma_pow10_pos(kk as nat);
    }
    if k_ge_len {
        proof {
            lemma_pow10_mono(dlen as nat, kk as nat);
            vstd::arithmetic::div_mod::lemma_basic_div(dec_value(digits@), pow10(kk as nat));
        }
        0
    } else {
        proof {
            lemma_dec_value_shift_down(digits@, k as nat);
            assert(all_dec_digits(digits@.subrange(0, dlen - k))) by {
                assert(forall|x: int|
                    0 <= x < dlen - k ==> #[trigger] digits@.subrange(0, dlen - k)[x]
                        == digits@[x]);
            }
            assert(digits@.take(dlen - k) =~= digits@.subrange(0, dlen - k));
        }
        match dec_value_chars(digits, 0, dlen - k) {
            None => {
                if neg {
                    i64::MIN
                } else {
                    i64::MAX
                }
            },
            Some(m) => {
                if m > i64::MAX as u64 {
                    if neg {
                        i64::MIN
                    } else {
                        i64::MAX
                    }
                } else {
                    if neg {
                        -(m as i64)
                    } else {
                        m as i64
                    }
                }
            },
        }
    }
}

/// Truncate the value a float literal denotes toward zero, clamping into
/// the 64-bit signed range; exactly [`spec_float_trunc`] of the text.
#[verifier::rlimit(100)]
#[verifier::spinoff_prover]
pub fn float_trunc_chars(t: &Vec<char>) -> (r: i64)
    ensures
        r as int == spec_float_trunc(t@),
{
    let n = t.len();
    let neg = n > 0 && t[0] == '-';
    let p: usize = if neg {
        1
    } else {
        0
    };
    let a_end = exec_plain_run_end(t, p);
    let has_dot = a_end < n && t[a_end] == '.';
    let frac_end = if has_dot {
        exec_plain_run_end(t, a_end + 1)
    } else {
        a_end
    };
    let mut digits: Vec<char> = Vec::new();
    let mut i = p;
    while i < a_end
        invariant
            p <= i <= a_end <= n,
            n == t.len(),
            digits@ == t@.subrange(p as int, i as int),
        decreases a_end - i,
    {
        digits.push(t[i]);
        i = i + 1;
        proof {
            assert(digits@ =~= t@.subrange(p as int, i as int));
        }
    }
    proof {
        assert(digits@ =~= t@.subrange(p as int, a_end as int));
    }
    if has_dot {
        let mut j = a_end + 1;
        while j < frac_end
            invariant
                a_end + 1 <= j <= frac_end <= n,
                n == t.len(),
                a_end < n,
                digits@ == t@.subrange(p as int, a_end as int) + t@.subrange(
                    a_end as int + 1,
                    j as int,
                ),
            decreases frac_end - j,
        {
            digits.push(t[j]);
            j = j + 1;
            proof {
                assert(digits@ =~= t@.subrange(p as int, a_end as int) + t@.subrange(
                    a_end as int + 1,
                    j as int,
                ));
            }
        }
    } else {
    }
    let ghost spec_digits = if has_dot {
        t@.subrange(p as int, a_end as int) + t@.subrange(a_end as int + 1, frac_end as int)
    } else {
        t@.subrange(p as int, a_end as int)
    };
    proof {
        if has_dot {
            assert(t@.subrange(a_end as int + 1, a_end as int + 1) =~= Seq::<char>::empty());
            assert(digits@ =~= spec_digits);
        }
        lemma_plain_run_bounds(t@, p as int);
        if has_dot {
            lemma_plain_run_bounds(t@, a_end as int + 1);
        }
        assert(all_dec_digits(digits@)) by {
            let fa = t@.subrange(p as int, a_end as int);
            assert(all_dec_digits(fa));
            if has_dot {
                let fb = t@.subrange(a_end as int + 1, frac_end as int);
                assert(all_dec_digits(fb));
                assert(forall|x: int|
                    0 <= x < digits@.len() ==> #[trigger] digits@[x] == (if x < fa.len() {
                        fa[x]
                    } else {
                        fb[x - fa.len()]
                    }));
            }
        }
    }
    let frac_len: usize = if has_dot {
        frac_end - (a_end + 1)
    } else {
        0
    };
    let mut exp_neg = false;
    let mut exp_sat = false;
    let mut exp_mag: u128 = 0;
    if frac_end < n && (t[frac_end] == 'e' || t[frac_end] == 'E') {
        let q = frac_end + 1;
        let q2: usize = if q < n && (t[q] == '+' || t[q] == '-') {
            q + 1
        } else {
            q
        };
        if q < n && t[q] == '-' {
            exp_neg = true;
        }
        let e_end = exec_plain_run_end(t, q2);
        proof {
            lemma_plain_run_bounds(t@, q2 as int);
        }
        match dec_value_chars_u128(t, q2, e_end) {
            Some(v) => {
                exp_mag = v;
            },
            None => {
                exp_sat = true;
            },
        }
    }
    let ghost ev = {
        if frac_end < t@.len() && (t@[frac_end as int] == 'e' || t@[frac_end as int] == 'E') {
            let q = frac_end + 1;
            let q2: int = if q < t@.len() && (t@[q as int] == '+' || t@[q as int] == '-') {
                q + 1
            } else {
                q as int
            };
            dec_value(t@.subrange(q2, plain_run_end(t@, q2)))
        } else {
            0
        }
    };
    let ghost exp_spec: int = if exp_neg {
        -ev
    } else {
        ev
    };
    proof {
        if !exp_sat {
            assert(ev == exp_mag as int);
        } else {
            assert(ev > u128::MAX as int);
        }
        assert(spec_float_trunc(t@) == {
            let shift = exp_spec - frac_len;
            let mag = if shift >= 0 {
                dec_value(spec_digits) * pow10(shift as nat)
            } else {
                dec_value(spec_digits) / pow10((-shift) as nat)
            };
            if neg {
                sat_i64(-mag)
            } else {
                sat_i64(mag)
            }
        });
    }
    let dlen = digits.len();
    if !exp_neg && (exp_sat || exp_mag >= frac_len as u128) {
        // The shift is non-negative: append zeros.
        let ghost shift = exp_spec - frac_len;
        let shift_gt19 = exp_sat || exp_mag - frac_len as u128 > 19;
        let s: u32 = if shift_gt19 {
            0
        } else {
            (exp_mag - frac_len as u128) as u32
        };
        trunc_shift_up(&digits, neg, shift_gt19, s, Ghost(shift))
    } else {
        // The shift is negative: drop trailing digits.
        let ghost shift = exp_spec - frac_len;
        let ghost kk = -shift;
        let k_opt: Option<u128> = if exp_neg {
            if exp_sat {
                None
            } else {
                exp_mag.checked_add(frac_len as u128)
            }
        } else {
            Some(frac_len as u128 - exp_mag)
        };
        proof {
            match k_opt {
                Some(kv) => {
                    assert(kk == kv as int);
                },
                None => {
                    assert(kk > u128::MAX as int);
                },
            }
        }
        let k_ge_len = match k_opt {
            Some(kv) => kv >= dlen as u128,
            None => true,
        };
        let k: usize = match k_opt {
            Some(kv) => if k_ge_len {
                0
            } else {
                kv as usize
            },
            None => 0,
        };
        trunc_shift_down(&digits, neg, k_ge_len, k, Ghost(kk))
    }
}

/// The character for one decimal digit.
pub open spec fn dec_digit_char(d: int) -> char {
    if d == 0 {
        '0'
    } else if d == 1 {
        '1'
    } else if d == 2 {
        '2'
    } else if d == 3 {
        '3'
    } else if d == 4 {
        '4'
    } else if d == 5 {
        '5'
    } else if d == 6 {
        '6'
    } else if d == 7 {
        '7'
    } else if d == 8 {
        '8'
    } else {
        '9'
    }
}

/// The canonical decimal digits of a non-negative integer, most
/// significant first.
pub open spec fn spec_nat_to_dec(n: int) -> Seq<char>
    recommends
        n >= 0,
    decreases n,
{
    if n <= 9 {
        seq![dec_digit_char(n)]
    } else {
        spec_nat_to_dec(n / 10).push(dec_digit_char(n % 10))
    }
}

/// The canonical decimal form of an integer: a minus sign for negative
/// values, then the digits with no redundant leading zero.
pub open spec fn spec_int_to_dec(n: int) -> Seq<char> {
    if n < 0 {
        seq!['-'] + spec_nat_to_dec(-n)
    } else {
        spec_nat_to_dec(n)
    }
}

fn dec_digit_char_exec(d: u64) -> (r: char)
    requires
        d <= 9,
    ensures
        r == dec_digit_char(d as int),
{
    if d == 0 {
        '0'
    } else if d == 1 {
        '1'
    } else if d == 2 {
        '2'
    } else if d == 3 {
        '3'
    } else if d == 4 {
        '4'
    } else if d == 5 {
        '5'
    } else if d == 6 {
        '6'
    } else if d == 7 {
        '7'
    } else if d == 8 {
        '8'
    } else {
        '9'
    }
}

/// The pending digits of `m` joined with the digits already emitted.
pub open spec fn dec_emit_state(m: int, ds: Seq<char>) -> Seq<char> {
    if ds.len() == 0 {
        spec_nat_to_dec(m)
    } else if m == 0 {
        ds
    } else {
        spec_nat_to_dec(m) + ds
    }
}

/// The canonical decimal form of a 64-bit signed integer, as characters.
pub fn i64_to_dec_chars(v: i64) -> (r: Vec<char>)
    ensures
        r@ == spec_int_to_dec(v as int),
{
    let neg = v < 0;
    let mut mag: u64 = if v >= 0 {
        v as u64
    } else {
        (-(v + 1)) as u64 + 1
    };
    let ghost mag0 = mag as int;
    proof {
        assert(mag0 == if v >= 0 {
            v as int
        } else {
            -(v as int)
        });
    }
    let mut digits: Vec<char> = Vec::new();
    loop
        invariant_except_break
            digits@.len() > 0 ==> mag > 0,
        invariant
            dec_emit_state(mag as int, digits@) == spec_nat_to_dec(mag0),
            mag as int <= mag0,
        ensures
            mag == 0,
            digits@.len() > 0,
            digits@ == spec_nat_to_dec(mag0),
        decreases mag,
    {
        let ghost old_mag = mag as int;
        let ghost old_ds = digits@;
        let d = mag % 10;
        let c = dec_digit_char_exec(d);
        digits.insert(0, c);
        mag = mag / 10;
        proof {
            assert(digits@ =~= seq![c] + old_ds);
            if old_mag <= 9 {
                assert(mag == 0);
                assert(spec_nat_to_dec(old_mag) == seq![dec_digit_char(old_mag)]);
                assert(d as int == old_mag);
                if old_ds.len() == 0 {
                    assert(dec_emit_state(0, digits@) == digits@);
                    assert(digits@ =~= spec_nat_to_dec(old_mag));
                } else {
                    assert(old_mag > 0);
                    assert(dec_emit_state(old_mag, old_ds) == spec_nat_to_dec(old_mag) + old_ds);
                    assert(digits@ =~= spec_nat_to_dec(old_mag) + old_ds);
                }
            } else {
                assert(spec_nat_to_dec(old_mag) == spec_nat_to_dec(old_mag / 10).push(
                    dec_digit_char(old_mag % 10),
                ));
                assert(mag as int == old_mag / 10);
                assert(mag >= 1);
                assert(spec_nat_to_dec(mag as int) + digits@ =~= (spec_nat_to_dec(
                    mag as int,
                ).push(dec_digit_char(old_mag % 10))) + old_ds);
                if old_ds.len() == 0 {
                    assert(spec_nat_to_dec(mag as int) + digits@ =~= spec_nat_to_dec(old_mag));
                } else {
                    assert(old_mag > 0);
                }
            }
        }
        if mag == 0 {
            break ;
        }
    }
    if neg {
        let mut out: Vec<char> = Vec::new();
        out.push('-');
        let m = digits.len();
        let mut i: usize = 0;
        while i < m
            invariant
                i <= m,
                m == digits.len(),
                out@ == seq!['-'] + digits@.subrange(0, i as int),
            decreases m - i,
        {
            out.push(digits[i]);
            i = i + 1;
            proof {
                assert(out@ =~= seq!['-'] + digits@.subrange(0, i as int));
            }
        }
        proof {
            assert(digits@.subrange(0, m as int) =~= digits@);
            assert(out@ =~= seq!['-'] + digits@);
        }
        out
    } else {
        digits
    }
}

/// The canonical decimal form of a 64-bit signed integer.
pub fn i64_to_dec_string(v: i64) -> (r: String)
    ensures
        r@ == spec_int_to_dec(v as int),
{
    let chars = i64_to_dec_chars(v);
    crate::chars::chars_to_string(&chars)
}

/// Parse a PHP integer literal into a 64-bit signed integer.
///
/// An optional `+`/`-` sign is followed by an optional radix prefix and a
/// run of digits with `_` separators; the magnitude is accumulated first
/// and the sign applied last, so the most negative value is an overflow.
pub fn parse_int(src: &str) -> (r: Result<i64, ParseIntError>)
    ensures
        r == spec_parse_int(src@),
{
    let chars = str_to_chars(src);
    parse_int_chars(&chars)
}

/// Parse a PHP integer literal, given as characters.
pub fn parse_int_chars(chars: &Vec<char>) -> (r: Result<i64, ParseIntError>)
    ensures
        r == spec_parse_int(chars@),
{
    if chars.len() == 0 {
        return Err(ParseIntError::Empty);
    }
    let c0 = chars[0];
    let negative = c0 == '-';
    let start0: usize = if c0 == '+' || c0 == '-' {
        1
    } else {
        0
    };
    let ghost rest = chars@.skip(start0 as int);
    proof {
        if start0 == 1 {
            assert(rest =~= chars@.drop_first());
        } else {
            assert(rest =~= chars@);
        }
    }
    let n = chars.len();
    let (radix, skip): (u32, usize) = if n >= start0 + 2 && chars[start0] == '0' && chars[start0
        + 1] == 'x' {
        (16, 2)
    } else if n >= start0 + 2 && chars[start0] == '0' && chars[start0 + 1] == 'b' {
        (2, 2)
    } else if n >= start0 + 2 && chars[start0] == '0' {
        (8, 1)
    } else {
        (10, 0)
    };
    proof {
        assert(rest.len() >= 2 <==> n >= start0 + 2);
        assert(spec_radix_of(rest) == (radix as int, skip as int));
    }
    let start = start0 + skip;
    let ghost digits = rest.skip(skip as int);
    proof {
        assert(digits =~= chars@.skip(start as int));
    }
    if start >= n {
        proof {
            assert(digits.len() == 0);
        }
        return Err(ParseIntError::Empty);
    }
    let mut result: i64 = 0;
    let mut i: usize = start;
    while i < n
        invariant
            start <= i <= n,
            n == chars@.len(),
            chars@ == chars@,
            0 <= result,
            2 <= radix <= 16,
            chars@.len() > 0,
            negative == (chars@[0] == '-'),
            rest == (if chars@[0] == '+' || chars@[0] == '-' {
                chars@.drop_first()
            } else {
                chars@
            }),
            spec_radix_of(rest) == (radix as int, skip as int),
            digits == rest.skip(skip as int),
            digits.len() > 0,
            digits == chars@.skip(start as int),
            spec_accum_digits(chars@.skip(i as int), radix as int, result as int)
                == spec_accum_digits(digits, radix as int, 0),
        decreases n - i,
    {
        let c = chars[i];
        proof {
            assert(chars@.skip(i as int)[0] == chars@[i as int]);
            assert(chars@.skip(i as int).drop_first() =~= chars@.skip(i as int + 1));
        }
        if c != '_' {
            let d = match to_digit(c, radix) {
                Some(d) => d,
                None => {
                    return Err(ParseIntError::InvalidDigit);
                },
            };
            let m = match result.checked_mul(radix as i64) {
                Some(m) => m,
                None => {
                    return Err(ParseIntError::Overflow);
                },
            };
            let s = match m.checked_add(d as i64) {
                Some(s) => s,
                None => {
                    return Err(ParseIntError::Overflow);
                },
            };
            result = s;
        }
        i = i + 1;
    }
    proof {
        assert(chars@.skip(n as int).len() == 0);
        lemma_accum_nonneg(digits, radix as int, 0);
    }
    if negative {
        Ok(-result)
    } else {
        Ok(result)
    }
}

} // verus!
