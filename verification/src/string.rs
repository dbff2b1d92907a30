//! PHP string unescaping.
//!
//! Two rule sets exist. Single-quoted strings know only `\\` and `\'`;
//! every other backslash sequence is kept verbatim, backslash included.
//! Double-quoted strings know `\\`, `\"`, `\$`, the control escapes
//! `\n` `\r` `\t` `\v` `\f`, hexadecimal `\xHH`, Unicode `\u{H...}`, and
//! octal `\NNN` sequences; an unknown sequence is again kept verbatim.
//! Numeric escapes emit the Unicode scalar with the given value and fail
//! on values that are no scalar (the surrogate range, or above U+10FFFF).

use vstd::prelude::*;

use crate::chars::chars_to_string;
use crate::chars::str_to_chars;
use crate::num::digit_value;
use crate::num::is_radix_digit;
use crate::num::to_digit;

verus! {

/// A malformed escape sequence, or a numeric escape whose value is not a
/// Unicode scalar.
#[derive(Debug, Clone, PartialEq, Eq, Structural)]
pub struct UnescapeError;

/// Is `v` a Unicode scalar value, that is, the value of some `char`?
pub open spec fn is_unicode_scalar(v: int) -> bool {
    (0 <= v < 0xD800) || (0xE000 <= v <= 0x10FFFF)
}

/// Relies on `char::from_u32`: it returns the character with scalar value
/// `v` exactly when `v` is no surrogate and at most U+10FFFF.
pub assume_specification[ char::from_u32 ](v: u32) -> (r: Option<char>)
    ensures
        match r {
            Some(c) => is_unicode_scalar(v as int) && c as int == v as int,
            None => !is_unicode_scalar(v as int),
        },
;

/// Accumulate the value of at most `max` further digits of `radix` at
/// position `i` onto `acc`, stopping at the first non-digit; the value is
/// capped by the 32-bit unsigned range, anything beyond is an error.
/// Returns the value and the position after the digits.
pub open spec fn spec_scan_radix(s: Seq<char>, i: int, radix: int, acc: int, max: int) -> Result<
    (int, int),
    UnescapeError,
>
    decreases s.len() - i,
{
    if 0 <= i && i < s.len() && is_radix_digit(s[i], radix) && max > 0 {
        let acc2 = acc * radix + digit_value(s[i]);
        if acc2 > u32::MAX as int {
            Err(UnescapeError)
        } else if max == 1 {
            Ok((acc2, i + 1))
        } else {
            spec_scan_radix(s, i + 1, radix, acc2, max - 1)
        }
    } else {
        Ok((acc, i))
    }
}

pub proof fn lemma_scan_radix_bounds(s: Seq<char>, i: int, radix: int, acc: int, max: int)
    requires
        0 <= i <= s.len(),
    ensures
        match spec_scan_radix(s, i, radix, acc, max) {
            Ok((v, e)) => i <= e <= s.len(),
            Err(_) => true,
        },
    decreases s.len() - i,
{
    if 0 <= i && i < s.len() && is_radix_digit(s[i], radix) && max > 0 {
        let acc2 = acc * radix + digit_value(s[i]);
        if acc2 <= u32::MAX as int && max != 1 {
            lemma_scan_radix_bounds(s, i + 1, radix, acc2, max - 1);
        }
    }
}

fn exec_scan_radix(src: &Vec<char>, start: usize, radix: u32, acc0: u32, max0: u32) -> (r: Result<
    (u32, usize),
    UnescapeError,
>)
    requires
        start <= src.len(),
        2 <= radix <= 16,
    ensures
        match r {
            Ok((v, e)) => spec_scan_radix(
                src@,
                start as int,
                radix as int,
                acc0 as int,
                max0 as int,
            ) == Ok::<_, UnescapeError>((v as int, e as int)) && start <= e <= src.len(),
            Err(_) => spec_scan_radix(src@, start as int, radix as int, acc0 as int, max0 as int)
                is Err,
        },
{
    let n = src.len();
    let mut i = start;
    let mut acc = acc0;
    let mut max = max0;
    loop
        invariant
            start <= i <= n,
            n == src.len(),
            2 <= radix <= 16,
            spec_scan_radix(src@, i as int, radix as int, acc as int, max as int)
                == spec_scan_radix(src@, start as int, radix as int, acc0 as int, max0 as int),
        decreases n - i,
    {
        if i >= n || max == 0 {
            return Ok((acc, i));
        }
        let d = match to_digit(src[i], radix) {
            Some(d) => d,
            None => {
                return Ok((acc, i));
            },
        };
        let m = match acc.checked_mul(radix) {
            Some(m) => m,
            None => {
                return Err(UnescapeError);
            },
        };
        let a2 = match m.checked_add(d) {
            Some(a) => a,
            None => {
                return Err(UnescapeError);
            },
        };
        acc = a2;
        i = i + 1;
        if max == 1 {
            return Ok((acc, i));
        }
        max = max - 1;
    }
}

/// Single-quote unescaping of the literal body from position `i` on.
pub open spec fn spec_unescape_single_from(s: Seq<char>, i: int) -> Result<
    Seq<char>,
    UnescapeError,
>
    decreases s.len() - i,
{
    if i < 0 || i >= s.len() {
        Ok(Seq::empty())
    } else if s[i] == '\\' {
        if i + 1 >= s.len() {
            Err(UnescapeError)
        } else {
            let d = s[i + 1];
            let emitted = if d == '\\' || d == '\'' {
                seq![d]
            } else {
                seq!['\\', d]
            };
            match spec_unescape_single_from(s, i + 2) {
                Ok(t) => Ok(emitted + t),
                Err(e) => Err(e),
            }
        }
    } else {
        match spec_unescape_single_from(s, i + 1) {
            Ok(t) => Ok(seq![s[i]] + t),
            Err(e) => Err(e),
        }
    }
}

/// What single-quote unescaping yields for the whole literal body.
pub open spec fn spec_unescape_single(s: Seq<char>) -> Result<Seq<char>, UnescapeError> {
    spec_unescape_single_from(s, 0)
}

/// Double-quote unescaping of the literal body from position `i` on.
pub open spec fn spec_unescape_double_from(s: Seq<char>, i: int) -> Result<
    Seq<char>,
    UnescapeError,
>
    decreases s.len() - i,
{
    if i < 0 || i >= s.len() {
        Ok(Seq::empty())
    } else if s[i] != '\\' {
        match spec_unescape_double_from(s, i + 1) {
            Ok(t) => Ok(seq![s[i]] + t),
            Err(e) => Err(e),
        }
    } else if i + 1 >= s.len() {
        Err(UnescapeError)
    } else {
        let d = s[i + 1];
        if d == '$' || d == '"' || d == '\\' {
            match spec_unescape_double_from(s, i + 2) {
                Ok(t) => Ok(seq![d] + t),
                Err(e) => Err(e),
            }
        } else if d == 'n' || d == 'r' || d == 't' || d == 'v' || d == 'f' {
            let c = if d == 'n' {
                '\n'
            } else if d == 'r' {
                '\r'
            } else if d == 't' {
                '\t'
            } else if d == 'v' {
                '\u{b}'
            } else {
                '\u{c}'
            };
            match spec_unescape_double_from(s, i + 2) {
                Ok(t) => Ok(seq![c] + t),
                Err(e) => Err(e),
            }
        } else if d == 'x' {
            match spec_scan_radix(s, i + 2, 16, 0, 2) {
                Err(e) => Err(e),
                Ok((v, e)) => if is_unicode_scalar(v) {
                    proof {
                        lemma_scan_radix_bounds(s, i + 2, 16, 0, 2);
                    }
                    match spec_unescape_double_from(s, e) {
                        Ok(t) => Ok(seq![v as char] + t),
                        Err(err) => Err(err),
                    }
                } else {
                    Err(UnescapeError)
                },
            }
        } else if d == 'u' {
            if i + 2 >= s.len() {
                // A bare `\u` at the end of the body is kept verbatim.
                match spec_unescape_double_from(s, i + 2) {
                    Ok(t) => Ok(seq!['\\', 'u'] + t),
                    Err(e) => Err(e),
                }
            } else if s[i + 2] == '{' {
                match spec_scan_radix(s, i + 3, 16, 0, 255) {
                    Err(e) => Err(e),
                    Ok((v, e)) => if !is_unicode_scalar(v) {
                        Err(UnescapeError)
                    } else if e < s.len() && s[e] == '}' {
                        proof {
                            lemma_scan_radix_bounds(s, i + 3, 16, 0, 255);
                        }
                        match spec_unescape_double_from(s, e + 1) {
                            Ok(t) => Ok(seq![v as char] + t),
                            Err(err) => Err(err),
                        }
                    } else {
                        Err(UnescapeError)
                    },
                }
            } else {
                // `\u` not followed by a brace is kept verbatim, together
                // with the following character.
                match spec_unescape_double_from(s, i + 3) {
                    Ok(t) => Ok(seq!['\\', 'u', s[i + 2]] + t),
                    Err(e) => Err(e),
                }
            }
        } else if '0' <= d && d <= '7' {
            match spec_scan_radix(s, i + 2, 8, digit_value(d), 2) {
                Err(e) => Err(e),
                Ok((v, e)) => if is_unicode_scalar(v) {
                    proof {
                        lemma_scan_radix_bounds(s, i + 2, 8, digit_value(d), 2);
                    }
                    match spec_unescape_double_from(s, e) {
                        Ok(t) => Ok(seq![v as char] + t),
                        Err(err) => Err(err),
                    }
                } else {
                    Err(UnescapeError)
                },
            }
        } else {
            match spec_unescape_double_from(s, i + 2) {
                Ok(t) => Ok(seq!['\\', d] + t),
                Err(e) => Err(e),
            }
        }
    }
}

/// What double-quote unescaping yields for the whole literal body.
pub open spec fn spec_unescape_double(s: Seq<char>) -> Result<Seq<char>, UnescapeError> {
    spec_unescape_double_from(s, 0)
}

/// The canonical single-quote escaping of a text: a backslash before
/// every backslash and single quote, everything else verbatim.
pub open spec fn spec_escape_single(s: Seq<char>) -> Seq<char>
    decreases s.len(),
{
    if s.len() == 0 {
        Seq::empty()
    } else {
        (if s[0] == '\\' || s[0] == '\'' {
            seq!['\\', s[0]]
        } else {
            seq![s[0]]
        }) + spec_escape_single(s.drop_first())
    }
}

/// Single-quote unescaping reads nothing before its start position.
pub proof fn lemma_unescape_single_shift(t: Seq<char>, i: int)
    requires
        0 <= i <= t.len(),
    ensures
        spec_unescape_single_from(t, i) == spec_unescape_single_from(t.skip(i), 0),
    decreases t.len() - i,
{
    let u = t.skip(i);
    if i >= t.len() {
        assert(u.len() == 0);
    } else {
        assert(u[0] == t[i]);
        if t[i] == '\\' {
            if i + 1 < t.len() {
                assert(u[1] == t[i + 1]);
                lemma_unescape_single_shift(t, i + 2);
                assert(t.skip(i + 2) =~= u.skip(2));
                lemma_unescape_single_shift(u, 2);
            }
        } else {
            lemma_unescape_single_shift(t, i + 1);
            assert(t.skip(i + 1) =~= u.skip(1));
            lemma_unescape_single_shift(u, 1);
            assert(u.skip(1) =~= u.drop_first());
        }
    }
}

/// Unescaping inverts escaping: the canonical single-quote escaping of
/// any text unescapes back to exactly that text.
pub proof fn lemma_unescape_escape_single(s: Seq<char>)
    ensures
        spec_unescape_single(spec_escape_single(s)) == Ok::<_, UnescapeError>(s),
    decreases s.len(),
{
    let t = spec_escape_single(s);
    if s.len() == 0 {
        assert(t.len() == 0);
        assert(s =~= Seq::<char>::empty());
    } else {
        let rest = s.drop_first();
        lemma_unescape_escape_single(rest);
        if s[0] == '\\' || s[0] == '\'' {
            assert(t[0] == '\\');
            assert(t[1] == s[0]);
            assert(t.len() >= 2);
            lemma_unescape_single_shift(t, 2);
            assert(t.skip(2) =~= spec_escape_single(rest));
            match spec_unescape_single_from(t, 2) {
                Ok(tail) => {
                    assert(tail == rest);
                    assert(seq![s[0]] + rest =~= s);
                },
                Err(_) => {},
            }
        } else {
            assert(t[0] == s[0]);
            assert(t[0] != '\\');
            lemma_unescape_single_shift(t, 1);
            assert(t.skip(1) =~= spec_escape_single(rest));
            match spec_unescape_single_from(t, 1) {
                Ok(tail) => {
                    assert(tail == rest);
                    assert(seq![s[0]] + rest =~= s);
                },
                Err(_) => {},
            }
        }
    }
}

/// Un-escape a literal body, following PHP single quote rules.
pub fn unescape_single_chars(src: &Vec<char>) -> (r: Result<Vec<char>, UnescapeError>)
    ensures
        match r {
            Ok(out) => spec_unescape_single(src@) == Ok::<_, UnescapeError>(out@),
            Err(_) => spec_unescape_single(src@) is Err,
        },
{
    let n = src.len();
    let mut out: Vec<char> = Vec::new();
    let mut i: usize = 0;
    loop
        invariant
            i <= n,
            n == src.len(),
            (spec_unescape_single_from(src@, i as int) matches Ok(t)
                ==> spec_unescape_single_from(src@, 0) == Ok::<_, UnescapeError>(out@ + t)),
            (spec_unescape_single_from(src@, i as int) is Err ==> spec_unescape_single_from(
                src@,
                0,
            ) is Err),
        ensures
            i == n,
            spec_unescape_single_from(src@, i as int) matches Ok(t) ==> spec_unescape_single_from(
                src@,
                0,
            ) == Ok::<_, UnescapeError>(out@ + t),
        decreases n - i,
    {
        if i >= n {
            break ;
        }
        let ghost out0 = out@;
        let ghost i0 = i as int;
        let c = src[i];
        if c == '\\' {
            if i + 1 >= n {
                return Err(UnescapeError);
            }
            let d = src[i + 1];
            if d == '\\' || d == '\'' {
                out.push(d);
            } else {
                out.push('\\');
                out.push(d);
            }
            i = i + 2;
        } else {
            out.push(c);
            i = i + 1;
        }
        proof {
            match spec_unescape_single_from(src@, i as int) {
                Ok(t1) => {
                    match spec_unescape_single_from(src@, i0) {
                        Ok(t0) => {
                            assert(out@ + t1 =~= out0 + t0);
                        },
                        Err(_) => {},
                    }
                },
                Err(_) => {},
            }
        }
    }
    proof {
        assert(spec_unescape_single_from(src@, n as int) == Ok::<_, UnescapeError>(
            Seq::<char>::empty(),
        ));
        assert(out@ + Seq::<char>::empty() =~= out@);
    }
    Ok(out)
}

/// Un-escape a literal body, following PHP double quote rules.
pub fn unescape_double_chars(src: &Vec<char>) -> (r: Result<Vec<char>, UnescapeError>)
    ensures
        match r {
            Ok(out) => spec_unescape_double(src@) == Ok::<_, UnescapeError>(out@),
            Err(_) => spec_unescape_double(src@) is Err,
        },
{
    let n = src.len();
    let mut out: Vec<char> = Vec::new();
    let mut i: usize = 0;
    loop
        invariant
            i <= n,
            n == src.len(),
            (spec_unescape_double_from(src@, i as int) matches Ok(t)
                ==> spec_unescape_double_from(src@, 0) == Ok::<_, UnescapeError>(out@ + t)),
            (spec_unescape_double_from(src@, i as int) is Err ==> spec_unescape_double_from(
                src@,
                0,
            ) is Err),
        ensures
            i == n,
            spec_unescape_double_from(src@, i as int) matches Ok(t) ==> spec_unescape_double_from(
                src@,
                0,
            ) == Ok::<_, UnescapeError>(out@ + t),
        decreases n - i,
    {
        if i >= n {
            break ;
        }
        let ghost out0 = out@;
        let ghost i0 = i as int;
        let c = src[i];
        if c != '\\' {
            out.push(c);
            i = i + 1;
        } else {
            if i + 1 >= n {
                return Err(UnescapeError);
            }
            let d = src[i + 1];
            if d == '$' || d == '"' || d == '\\' {
                out.push(d);
                i = i + 2;
            } else if d == 'n' || d == 'r' || d == 't' || d == 'v' || d == 'f' {
                let e = if d == 'n' {
                    '\n'
                } else if d == 'r' {
                    '\r'
                } else if d == 't' {
                    '\t'
                } else if d == 'v' {
                    '\u{b}'
                } else {
                    '\u{c}'
                };
                out.push(e);
                i = i + 2;
            } else if d == 'x' {
                let (v, e) = match exec_scan_radix(src, i + 2, 16, 0, 2) {
                    Ok(p) => p,
                    Err(err) => {
                        return Err(err);
                    },
                };
                match char::from_u32(v) {
                    Some(ch) => {
                        out.push(ch);
                        i = e;
                    },
                    None => {
                        return Err(UnescapeError);
                    },
                }
            } else if d == 'u' {
                if i + 2 >= n {
                    out.push('\\');
                    out.push('u');
                    i = i + 2;
                } else if src[i + 2] == '{' {
                    let (v, e) = match exec_scan_radix(src, i + 3, 16, 0, 255) {
                        Ok(p) => p,
                        Err(err) => {
                            return Err(err);
                        },
                    };
                    let ch = match char::from_u32(v) {
                        Some(ch) => ch,
                        None => {
                            return Err(UnescapeError);
                        },
                    };
                    if e < n && src[e] == '}' {
                        out.push(ch);
                        i = e + 1;
                    } else {
                        return Err(UnescapeError);
                    }
                } else {
                    out.push('\\');
                    out.push('u');
                    out.push(src[i + 2]);
                    i = i + 3;
                }
            } else if '0' <= d && d <= '7' {
                let dv = match to_digit(d, 8) {
                    Some(dv) => dv,
                    None => {
                        return Err(UnescapeError);
                    },
                };
                let (v, e) = match exec_scan_radix(src, i + 2, 8, dv, 2) {
                    Ok(p) => p,
                    Err(err) => {
                        return Err(err);
                    },
                };
                match char::from_u32(v) {
                    Some(ch) => {
                        out.push(ch);
                        i = e;
                    },
                    None => {
                        return Err(UnescapeError);
                    },
                }
            } else {
                out.push('\\');
                out.push(d);
                i = i + 2;
            }
        }
        proof {
            match spec_unescape_double_from(src@, i as int) {
                Ok(t1) => {
                    match spec_unescape_double_from(src@, i0) {
                        Ok(t0) => {
                            assert(out@ + t1 =~= out0 + t0);
                        },
                        Err(_) => {},
                    }
                },
                Err(_) => {},
            }
        }
    }
    proof {
        assert(spec_unescape_double_from(src@, n as int) == Ok::<_, UnescapeError>(
            Seq::<char>::empty(),
        ));
        assert(out@ + Seq::<char>::empty() =~= out@);
    }
    Ok(out)
}

/// Un-escape a string, following PHP single quote rules.
pub fn unescape_single(s: &str) -> (r: Result<String, UnescapeError>)
    ensures
        match r {
            Ok(out) => spec_unescape_single(s@) == Ok::<_, UnescapeError>(out@),
            Err(_) => spec_unescape_single(s@) is Err,
        },
{
    let chars = str_to_chars(s);
    match unescape_single_chars(&chars) {
        Ok(out) => Ok(chars_to_string(&out)),
        Err(e) => Err(e),
    }
}

/// Un-escape a string, following PHP double quote rules.
pub fn unescape_double(s: &str) -> (r: Result<String, UnescapeError>)
    ensures
        match r {
            Ok(out) => spec_unescape_double(s@) == Ok::<_, UnescapeError>(out@),
            Err(_) => spec_unescape_double(s@) is Err,
        },
{
    let chars = str_to_chars(s);
    match unescape_double_chars(&chars) {
        Ok(out) => Ok(chars_to_string(&out)),
        Err(e) => Err(e),
    }
}

/// What decoding a whole quoted string literal yields: the quotes are
/// stripped and the body unescaped by the rules its quote kind selects.
pub open spec fn spec_parse_string(lit: Seq<char>) -> Result<Seq<char>, UnescapeError>
    recommends
        lit.len() >= 2,
{
    let inner = lit.subrange(1, lit.len() - 1);
    if lit[0] == '\'' {
        spec_unescape_single(inner)
    } else {
        spec_unescape_double(inner)
    }
}

/// Decode a quoted string literal, quotes included: single-quoted bodies
/// get single-quote rules, everything else double-quote rules.
pub fn parse_string(literal: &str) -> (r: Result<String, UnescapeError>)
    requires
        literal@.len() >= 2,
    ensures
        match r {
            Ok(out) => spec_parse_string(literal@) == Ok::<_, UnescapeError>(out@),
            Err(_) => spec_parse_string(literal@) is Err,
        },
{
    let chars = str_to_chars(literal);
    parse_string_chars(&chars)
}

/// Decode a quoted string literal given as characters.
pub fn parse_string_chars(chars: &Vec<char>) -> (r: Result<String, UnescapeError>)
    requires
        chars@.len() >= 2,
    ensures
        match r {
            Ok(out) => spec_parse_string(chars@) == Ok::<_, UnescapeError>(out@),
            Err(_) => spec_parse_string(chars@) is Err,
        },
{
    let n = chars.len();
    let mut inner: Vec<char> = Vec::new();
    let mut i: usize = 1;
    while i < n - 1
        invariant
            1 <= i <= n - 1,
            n == chars@.len(),
            n >= 2,
            inner@ == chars@.subrange(1, i as int),
        decreases n - i,
    {
        inner.push(chars[i]);
        i = i + 1;
        proof {
            assert(inner@ =~= chars@.subrange(1, i as int));
        }
    }
    proof {
        assert(inner@ =~= chars@.subrange(1, n - 1));
    }
    let single = chars[0] == '\'';
    let body = if single {
        unescape_single_chars(&inner)
    } else {
        unescape_double_chars(&inner)
    };
    match body {
        Ok(out) => Ok(chars_to_string(&out)),
        Err(e) => Err(e),
    }
}

} // verus!
