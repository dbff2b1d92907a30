//! General properties of the library, stated and proved once for all
//! inputs: the tolerant indexing rule, the auto-index continuation rule,
//! the case-insensitivity of boolean literals, the fatality of integer
//! overflow, and the round trip — rendering a scalar value as literal
//! text and parsing the text back is the identity.

use vstd::prelude::*;

use crate::num::digit_value;
use crate::num::is_radix_digit;
use crate::num::dec_digit_char;
use crate::num::spec_accum_digits;
use crate::num::spec_int_to_dec;
use crate::num::spec_nat_to_dec;
use crate::num::spec_parse_int;
use crate::num::ParseIntError;
use crate::lexer::Token;
use crate::parser::is_false_text;
use crate::parser::is_true_text;
use crate::parser::spec_entries_insert;
use crate::parser::spec_push_key_value;
use crate::parser::spec_push_value;
use crate::value::spec_index;
use crate::value::spec_lookup;
use crate::value::SpecKey;
use crate::value::SpecValue;

verus! {

/// Indexing a value that is not an array yields null: at the value-model
/// layer a type mismatch is silent, never an error.
pub proof fn lemma_index_non_array(v: SpecValue, k: SpecKey)
    requires
        !(v is Arr),
    ensures
        spec_index(v, k) == SpecValue::Null,
{
}

/// Indexing an array under a key that none of its entries holds yields
/// null: a missing key is silent, never an error.
pub proof fn lemma_index_missing_key(es: Seq<(SpecKey, SpecValue)>, k: SpecKey)
    requires
        forall|j: int| 0 <= j < es.len() ==> (#[trigger] es[j]).0 != k,
    ensures
        spec_index(SpecValue::Arr(es), k) == SpecValue::Null,
    decreases es.len(),
{
    if es.len() > 0 {
        assert(forall|j: int|
            0 <= j < es.drop_first().len() ==> (#[trigger] es.drop_first()[j]).0 != k);
        lemma_index_missing_key(es.drop_first(), k);
        assert(spec_lookup(es, k) == spec_lookup(es.drop_first(), k));
    }
}

/// An explicit integer key sets the auto-increment counter: a bare value
/// pushed right after an explicit `k => v` entry gets the key `k + 1`.
pub proof fn lemma_auto_index_continuation(
    next: i64,
    entries: Seq<(SpecKey, SpecValue)>,
    k: i64,
    v1: SpecValue,
    v2: SpecValue,
)
    requires
        k < i64::MAX,
    ensures
        ({
            let st1 = spec_push_key_value(next, entries, SpecKey::Int(k as int), v1);
            let st2 = spec_push_value(st1.0, st1.1, v2);
            st2.1 == spec_entries_insert(st1.1, SpecKey::Int(k as int + 1), v2)
        }),
{
}

/// Two characters that are equal up to ASCII letter case.
pub open spec fn ascii_case_eq(a: char, b: char) -> bool {
    a == b || ('A' <= a <= 'Z' && b as int == a as int + 32) || ('a' <= a <= 'z' && b as int
        == a as int - 32)
}

/// Boolean literals are case-insensitive: two texts that agree up to
/// ASCII letter case decode to the same boolean, or both fail.
pub proof fn lemma_bool_case_insensitive(a: Seq<char>, b: Seq<char>)
    requires
        a.len() == b.len(),
        forall|i: int| 0 <= i < a.len() ==> ascii_case_eq(#[trigger] a[i], b[i]),
    ensures
        is_true_text(a) == is_true_text(b),
        is_false_text(a) == is_false_text(b),
{
    if a.len() == 4 {
        assert(ascii_case_eq(a[0], b[0]));
        assert(ascii_case_eq(a[1], b[1]));
        assert(ascii_case_eq(a[2], b[2]));
        assert(ascii_case_eq(a[3], b[3]));
    }
    if a.len() == 5 {
        assert(ascii_case_eq(a[0], b[0]));
        assert(ascii_case_eq(a[1], b[1]));
        assert(ascii_case_eq(a[2], b[2]));
        assert(ascii_case_eq(a[3], b[3]));
        assert(ascii_case_eq(a[4], b[4]));
    }
}

/// The base to the `k`.
pub open spec fn pow_int(b: int, k: nat) -> int
    decreases k,
{
    if k == 0 {
        1
    } else {
        b * pow_int(b, (k - 1) as nat)
    }
}

proof fn lemma_pow_int_pos(b: int, k: nat)
    requires
        b >= 1,
    ensures
        pow_int(b, k) >= 1,
    decreases k,
{
    if k > 0 {
        lemma_pow_int_pos(b, (k - 1) as nat);
        assert(b * pow_int(b, (k - 1) as nat) >= pow_int(b, (k - 1) as nat)) by (nonlinear_arith)
            requires
                b >= 1,
                pow_int(b, (k - 1) as nat) >= 1,
        ;
    }
}

/// The positional value of a run of digits in the given radix, most
/// significant first.
pub open spec fn radix_value(s: Seq<char>, radix: int) -> int
    decreases s.len(),
{
    if s.len() == 0 {
        0
    } else {
        digit_value(s[0]) * pow_int(radix, (s.len() - 1) as nat) + radix_value(
            s.drop_first(),
            radix,
        )
    }
}

proof fn lemma_radix_value_nonneg(s: Seq<char>, radix: int)
    requires
        2 <= radix,
        forall|i: int| 0 <= i < s.len() ==> is_radix_digit(#[trigger] s[i], radix),
    ensures
        radix_value(s, radix) >= 0,
    decreases s.len(),
{
    if s.len() > 0 {
        assert(forall|i: int|
            0 <= i < s.drop_first().len() ==> is_radix_digit(
                #[trigger] s.drop_first()[i],
                radix,
            ));
        lemma_radix_value_nonneg(s.drop_first(), radix);
        lemma_pow_int_pos(radix, (s.len() - 1) as nat);
        assert(digit_value(s[0]) * pow_int(radix, (s.len() - 1) as nat) >= 0) by (nonlinear_arith)
            requires
                digit_value(s[0]) >= 0,
                pow_int(radix, (s.len() - 1) as nat) >= 1,
        ;
    }
}

/// Digit accumulation computes exactly the positional value capped at the
/// 64-bit signed range: within range the value comes back, beyond it the
/// overflow error does.
proof fn lemma_accum_characterization(s: Seq<char>, radix: int, acc: int)
    requires
        2 <= radix <= 16,
        0 <= acc <= i64::MAX as int,
        forall|i: int| 0 <= i < s.len() ==> is_radix_digit(#[trigger] s[i], radix),
    ensures
        ({
            let total = acc * pow_int(radix, s.len()) + radix_value(s, radix);
            spec_accum_digits(s, radix, acc) == if total <= i64::MAX as int {
                Ok::<int, ParseIntError>(total)
            } else {
                Err::<int, ParseIntError>(ParseIntError::Overflow)
            }
        }),
    decreases s.len(),
{
    let n = s.len();
    let total = acc * pow_int(radix, n) + radix_value(s, radix);
    if n == 0 {
        assert(pow_int(radix, 0) == 1);
        assert(acc * 1 == acc) by (nonlinear_arith);
    } else {
        let d = digit_value(s[0]);
        assert(is_radix_digit(s[0], radix));
        assert(s[0] != '_');
        let acc2 = acc * radix + d;
        let rest = s.drop_first();
        assert(forall|i: int|
            0 <= i < rest.len() ==> is_radix_digit(#[trigger] rest[i], radix));
        lemma_radix_value_nonneg(rest, radix);
        lemma_pow_int_pos(radix, (n - 1) as nat);
        assert(pow_int(radix, n) == radix * pow_int(radix, (n - 1) as nat));
        let p1 = pow_int(radix, (n - 1) as nat);
        assert(acc * (radix * p1) + (d * p1 + radix_value(rest, radix)) == (acc * radix + d) * p1
            + radix_value(rest, radix)) by (nonlinear_arith);
        assert(total == acc2 * p1 + radix_value(rest, radix));
        if acc2 > i64::MAX as int {
            assert(acc2 * p1 >= acc2) by (nonlinear_arith)
                requires
                    acc2 >= 0,
                    p1 >= 1,
            ;
            assert(total > i64::MAX as int);
        } else {
            assert(acc2 >= 0);
            lemma_accum_characterization(rest, radix, acc2);
        }
    }
}

proof fn lemma_nat_to_dec_shape(m: int)
    requires
        0 <= m,
    ensures
        spec_nat_to_dec(m).len() >= 1,
        forall|i: int|
            0 <= i < spec_nat_to_dec(m).len() ==> is_radix_digit(
                #[trigger] spec_nat_to_dec(m)[i],
                10,
            ),
        spec_nat_to_dec(m).len() >= 2 ==> spec_nat_to_dec(m)[0] != '0',
        m >= 1 ==> spec_nat_to_dec(m)[0] != '0',
    decreases m,
{
    let s = spec_nat_to_dec(m);
    if m <= 9 {
    } else {
        lemma_nat_to_dec_shape(m / 10);
        let pre = spec_nat_to_dec(m / 10);
        assert(s == pre.push(dec_digit_char(m % 10)));
        assert(forall|i: int| 0 <= i < pre.len() ==> s[i] == #[trigger] pre[i]);
        assert(s[s.len() - 1] == dec_digit_char(m % 10));
        assert(m / 10 >= 1);
    }
}

proof fn lemma_radix_value_push(s: Seq<char>, c: char, radix: int)
    ensures
        radix_value(s.push(c), radix) == radix_value(s, radix) * radix + digit_value(c),
    decreases s.len(),
{
    let t = s.push(c);
    if s.len() == 0 {
        assert(t.len() == 1);
        assert(t[0] == c);
        assert(t.drop_first() =~= Seq::<char>::empty());
        assert(radix_value(t.drop_first(), radix) == 0);
        assert(pow_int(radix, 0) == 1);
        assert(radix_value(t, radix) == digit_value(c) * 1 + 0);
        assert(digit_value(c) * 1 == digit_value(c)) by (nonlinear_arith);
        assert(radix_value(s, radix) == 0);
        assert(0 * radix == 0) by (nonlinear_arith);
    } else {
        assert(t[0] == s[0]);
        assert(t.drop_first() =~= s.drop_first().push(c));
        lemma_radix_value_push(s.drop_first(), c, radix);
        let p1 = pow_int(radix, (s.len() - 1) as nat);
        assert(pow_int(radix, s.len()) == radix * p1);
        let d0 = digit_value(s[0]);
        let rv = radix_value(s.drop_first(), radix);
        assert(radix_value(t.drop_first(), radix) == rv * radix + digit_value(c));
        assert(t.len() - 1 == s.len());
        assert(radix_value(t, radix) == d0 * (radix * p1) + (rv * radix + digit_value(c)));
        assert(radix_value(s, radix) == d0 * p1 + rv);
        assert(d0 * (radix * p1) + (rv * radix + digit_value(c)) == (d0 * p1 + rv) * radix
            + digit_value(c)) by (nonlinear_arith);
    }
}

proof fn lemma_nat_to_dec_value(m: int)
    requires
        0 <= m,
    ensures
        radix_value(spec_nat_to_dec(m), 10) == m,
    decreases m,
{
    if m <= 9 {
        let s = spec_nat_to_dec(m);
        assert(s == seq![dec_digit_char(m)]);
        assert(s.len() == 1 && s[0] == dec_digit_char(m));
        assert(s.drop_first() =~= Seq::<char>::empty());
        assert(radix_value(s.drop_first(), 10) == 0);
        assert(pow_int(10, 0) == 1);
        assert(radix_value(s, 10) == digit_value(dec_digit_char(m)) * 1 + 0);
        assert(digit_value(dec_digit_char(m)) == m);
        assert(digit_value(dec_digit_char(m)) * 1 == m) by (nonlinear_arith)
            requires
                digit_value(dec_digit_char(m)) == m,
        ;
    } else {
        lemma_nat_to_dec_value(m / 10);
        lemma_radix_value_push(spec_nat_to_dec(m / 10), dec_digit_char(m % 10), 10);
        assert(spec_nat_to_dec(m) == spec_nat_to_dec(m / 10).push(dec_digit_char(m % 10)));
        assert(radix_value(spec_nat_to_dec(m), 10) == (m / 10) * 10 + digit_value(
            dec_digit_char(m % 10),
        ));
        assert(digit_value(dec_digit_char(m % 10)) == m % 10);
        assert((m / 10) * 10 + m % 10 == m) by (nonlinear_arith);
    }
}

/// Printing then parsing is the identity on integers: the canonical
/// decimal form of a 64-bit integer parses back to exactly that integer.
/// The one exception is the smallest value, whose magnitude the decoder
/// cannot accumulate in the signed range.
pub proof fn lemma_int_round_trip(n: i64)
    requires
        n > i64::MIN,
    ensures
        spec_parse_int(spec_int_to_dec(n as int)) == Ok::<i64, ParseIntError>(n),
{
    let s = spec_int_to_dec(n as int);
    let m: int = if n >= 0 {
        n as int
    } else {
        -(n as int)
    };
    lemma_nat_to_dec_shape(m);
    lemma_nat_to_dec_value(m);
    let body = spec_nat_to_dec(m);
    if n >= 0 {
        assert(s == body);
        assert(is_radix_digit(s[0], 10));
        assert(s[0] != '-' && s[0] != '+');
        let rest = s;
        assert(crate::num::spec_radix_of(rest) == (10int, 0int)) by {
            if rest.len() >= 2 {
                assert(rest[0] != '0');
            }
        }
        assert(rest.skip(0) =~= rest);
        lemma_accum_characterization(rest, 10, 0);
        assert(0 * pow_int(10, rest.len()) == 0) by (nonlinear_arith);
        assert(spec_accum_digits(rest, 10, 0) == Ok::<int, ParseIntError>(m));
    } else {
        assert(s == seq!['-'] + body);
        assert(s[0] == '-');
        assert(s.len() == 1 + body.len());
        let rest = s.drop_first();
        assert(rest =~= body);
        assert(m >= 1);
        assert(rest[0] != '0');
        assert(is_radix_digit(rest[0], 10));
        assert(crate::num::spec_radix_of(rest) == (10int, 0int));
        assert(rest.skip(0) =~= rest);
        assert(m <= i64::MAX as int);
        lemma_accum_characterization(rest, 10, 0);
        assert(0 * pow_int(10, rest.len()) == 0) by (nonlinear_arith);
        assert(spec_accum_digits(rest, 10, 0) == Ok::<int, ParseIntError>(m));
    }
}

/// A text that the lexer reads as one single token covering it whole
/// tokenizes to exactly that one token.
proof fn lemma_single_token_stream(text: Seq<char>, kind: Token)
    requires
        text.len() > 0,
        crate::lexer::skip_trivia(text, 0) == 0,
        crate::lexer::spec_token_at(text, 0) == (kind, text.len() as int),
    ensures
        crate::lexer::spec_tokens_from(text, 0) == seq![(kind, 0int, text.len() as int)],
{
    let n = text.len() as int;
    crate::lexer::lemma_skip_trivia_bounds(text, n);
    assert(crate::lexer::skip_trivia(text, n) == n);
    assert(crate::lexer::spec_next_token(text, n) is None);
    assert(crate::lexer::spec_tokens_from(text, n) =~= Seq::<(Token, int, int)>::empty());
    assert(crate::lexer::spec_next_token(text, 0) == Some((kind, 0int, n)));
    assert(crate::lexer::spec_tokens_from(text, 0) =~= seq![(kind, 0int, n)] + Seq::<(
        Token,
        int,
        int,
    )>::empty());
    assert(seq![(kind, 0int, n)] + Seq::<(Token, int, int)>::empty() =~= seq![(kind, 0int, n)]);
}

/// A run of digits with nothing after it scans to the end of the text.
proof fn lemma_run_more_full(s: Seq<char>, i: int)
    requires
        0 <= i <= s.len(),
        forall|j: int| i <= j < s.len() ==> is_radix_digit(#[trigger] s[j], 10),
    ensures
        crate::lexer::run_more(s, i, 10) == s.len(),
    decreases s.len() - i,
{
    if i < s.len() {
        lemma_run_more_full(s, i + 1);
    }
}

/// Parsing one leaf token as the whole input yields its decoded value.
proof fn lemma_single_leaf_parse(text: Seq<char>, kind: Token, sv: SpecValue)
    requires
        text.len() > 0,
        crate::lexer::skip_trivia(text, 0) == 0,
        crate::lexer::spec_token_at(text, 0) == (kind, text.len() as int),
        kind == Token::Bool || kind == Token::Integer || kind == Token::LiteralString || kind
            == Token::Null,
        crate::parser::spec_parse_literal(text, (kind, 0int, text.len() as int)) == Ok::<
            SpecValue,
            crate::error::SpecParseError,
        >(sv),
    ensures
        crate::parser::spec_from_str(text) == Ok::<SpecValue, crate::error::SpecParseError>(sv),
{
    lemma_single_token_stream(text, kind);
    let toks = crate::lexer::spec_tokens_from(text, 0);
    assert(toks.len() == 1);
    assert(toks[0] == (kind, 0int, text.len() as int));
    assert(crate::parser::spec_parse_value(text, toks, 0) == Ok::<
        (SpecValue, int),
        (crate::error::SpecParseError, int),
    >((sv, 1)));
}

proof fn lemma_nat_to_dec_dec_value(m: int)
    requires
        0 <= m,
    ensures
        crate::num::dec_value(spec_nat_to_dec(m)) == m,
    decreases m,
{
    if m <= 9 {
        let s = spec_nat_to_dec(m);
        assert(s == seq![dec_digit_char(m)]);
        assert(s.len() == 1);
        assert(s.drop_last() =~= Seq::<char>::empty());
        assert(crate::num::dec_value(s.drop_last()) == 0);
        assert(s.last() == dec_digit_char(m));
        assert(digit_value(dec_digit_char(m)) == m);
        assert(crate::num::dec_value(s) == crate::num::dec_value(s.drop_last()) * 10
            + digit_value(s.last()));
    } else {
        lemma_nat_to_dec_dec_value(m / 10);
        let pre = spec_nat_to_dec(m / 10);
        let s = spec_nat_to_dec(m);
        assert(s == pre.push(dec_digit_char(m % 10)));
        assert(s.drop_last() =~= pre);
        assert(s.last() == dec_digit_char(m % 10));
        assert(digit_value(dec_digit_char(m % 10)) == m % 10);
        assert(crate::num::dec_value(s) == crate::num::dec_value(s.drop_last()) * 10
            + digit_value(s.last()));
        assert((m / 10) * 10 + m % 10 == m) by (nonlinear_arith);
    }
}

/// The array-key coercion rule recognizes the canonical decimal form of
/// every 64-bit integer, and reads back exactly its value: an integer
/// key printed and used again as a string key stays the same key.
pub proof fn lemma_int_key_canonical(n: i64)
    ensures
        crate::num::spec_is_int_key(spec_int_to_dec(n as int)),
        crate::num::spec_dec_signed_value(spec_int_to_dec(n as int)) == n as int,
{
    let m: int = if n >= 0 {
        n as int
    } else {
        -(n as int)
    };
    lemma_nat_to_dec_shape(m);
    lemma_nat_to_dec_dec_value(m);
    let body = spec_nat_to_dec(m);
    let s = spec_int_to_dec(n as int);
    if n >= 0 {
        assert(s == body);
        assert(s[0] != '-');
    } else {
        assert(s == seq!['-'] + body);
        assert(s.drop_first() =~= body);
        assert(m >= 1);
    }
}

/// Scanning the escaped body of a single-quoted literal reaches exactly
/// the closing quote at the end of the text.
proof fn lemma_escaped_body_scan(text: Seq<char>, i: int, s: Seq<char>)
    requires
        0 <= i,
        i + crate::string::spec_escape_single(s).len() + 1 == text.len(),
        text.subrange(i, text.len() - 1) == crate::string::spec_escape_single(s),
        text[text.len() - 1] == '\'',
    ensures
        crate::lexer::string_body_end(text, i, '\'') == Some(text.len() as int),
    decreases s.len(),
{
    let esc = crate::string::spec_escape_single(s);
    if s.len() == 0 {
        assert(esc.len() == 0);
        assert(i == text.len() - 1);
        assert(text[i] == '\'');
    } else {
        let rest = s.drop_first();
        let tail = crate::string::spec_escape_single(rest);
        if s[0] == '\\' || s[0] == '\'' {
            assert(esc == seq!['\\', s[0]] + tail);
            assert(text[i] == esc[0]);
            assert(esc[0] == '\\');
            assert(text[i + 1] == esc[1]);
            assert(esc[1] == s[0]);
            assert(s[0] != '\n');
            assert(i + 1 < text.len());
            assert(text.subrange(i + 2, text.len() - 1) =~= tail) by {
                assert(forall|j: int|
                    0 <= j < tail.len() ==> text.subrange(i + 2, text.len() - 1)[j] == esc[j
                        + 2] && #[trigger] tail[j] == esc[j + 2]);
            }
            lemma_escaped_body_scan(text, i + 2, rest);
        } else {
            assert(esc == seq![s[0]] + tail);
            assert(text[i] == esc[0]);
            assert(esc[0] == s[0]);
            assert(s[0] != '\'' && s[0] != '\\');
            assert(text.subrange(i + 1, text.len() - 1) =~= tail) by {
                assert(forall|j: int|
                    0 <= j < tail.len() ==> text.subrange(i + 1, text.len() - 1)[j] == esc[j
                        + 1] && #[trigger] tail[j] == esc[j + 1]);
            }
            lemma_escaped_body_scan(text, i + 1, rest);
        }
    }
}

/// Serializing a scalar value to literal text and parsing the text back
/// yields exactly that value: the round trip is the identity on
/// booleans, null, strings, and every integer but the smallest. Arrays
/// recurse into their entries and floats compare only approximately, so
/// they stay outside this statement.
pub proof fn lemma_scalar_round_trip(v: SpecValue)
    requires
        match v {
            SpecValue::Bool(_) => true,
            SpecValue::Null => true,
            SpecValue::Str(_) => true,
            SpecValue::Int(n) => (i64::MIN as int) < n && n <= i64::MAX as int,
            _ => false,
        },
    ensures
        crate::parser::spec_from_str(crate::literal::spec_value_literal(v)) == Ok::<
            SpecValue,
            crate::error::SpecParseError,
        >(v),
{
    let text = crate::literal::spec_value_literal(v);
    match v {
        SpecValue::Null => {
            assert(text == seq!['n', 'u', 'l', 'l']);
            assert(text.len() == 4 && text[0] == 'n' && text[1] == 'u' && text[2] == 'l'
                && text[3] == 'l');
            assert(crate::lexer::skip_trivia(text, 0) == 0);
            assert(crate::lexer::spec_token_at(text, 0) == (Token::Null, 4int));
            assert(crate::parser::tok_text(text, (Token::Null, 0int, 4int)) =~= text);
            lemma_single_leaf_parse(text, Token::Null, v);
        },
        SpecValue::Bool(b) => {
            if b {
                assert(text == seq!['t', 'r', 'u', 'e']);
                assert(text.len() == 4 && text[0] == 't' && text[1] == 'r' && text[2] == 'u'
                    && text[3] == 'e');
            } else {
                assert(text == seq!['f', 'a', 'l', 's', 'e']);
                assert(text.len() == 5 && text[0] == 'f' && text[1] == 'a' && text[2] == 'l'
                    && text[3] == 's' && text[4] == 'e');
            }
            assert(crate::lexer::skip_trivia(text, 0) == 0);
            assert(crate::lexer::bool_token_end(text, 0) == text.len());
            assert(crate::lexer::spec_token_at(text, 0) == (Token::Bool, text.len() as int));
            assert(crate::parser::tok_text(text, (Token::Bool, 0int, text.len() as int)) =~= text);
            assert(crate::parser::is_true_text(text) == b && crate::parser::is_false_text(text)
                == !b);
            lemma_single_leaf_parse(text, Token::Bool, v);
        },
        SpecValue::Int(n) => {
            let m: int = if n >= 0 {
                n
            } else {
                -n
            };
            lemma_nat_to_dec_shape(m);
            let body = spec_nat_to_dec(m);
            assert(text == spec_int_to_dec(n));
            let p: int = if n < 0 {
                1
            } else {
                0
            };
            if n < 0 {
                assert(text == seq!['-'] + body);
                assert(text[0] == '-');
                assert(forall|j: int| 1 <= j < text.len() ==> text[j] == #[trigger] body[j - 1]);
            } else {
                assert(text == body);
            }
            assert(forall|j: int|
                p <= j < text.len() ==> is_radix_digit(#[trigger] text[j], 10));
            assert(crate::lexer::skip_trivia(text, 0) == 0);
            // No float token starts here: the digits run to the end,
            // with no decimal point and no exponent after them.
            lemma_run_more_full(text, p + 1);
            assert(crate::lexer::ext_run_end(text, p) == text.len());
            assert(crate::lexer::float_token_end(text, 0) == 0);
            // The whole text is one integer token.
            if m == 0 {
                assert(body == seq![dec_digit_char(0)]);
                assert(text.len() == p + 1);
                assert(crate::lexer::int_body_end(text, p) == p + 1);
            } else {
                assert(text[p] != '0');
                assert(crate::lexer::int_body_end(text, p) == crate::lexer::run_more(
                    text,
                    p + 1,
                    10,
                ));
            }
            assert(crate::lexer::int_token_end(text, 0) == text.len());
            assert(crate::lexer::spec_token_at(text, 0) == (Token::Integer, text.len() as int));
            assert(crate::parser::tok_text(text, (Token::Integer, 0int, text.len() as int))
                =~= text);
            lemma_int_round_trip(n as i64);
            lemma_single_leaf_parse(text, Token::Integer, v);
        },
        SpecValue::Str(s) => {
            let esc = crate::string::spec_escape_single(s);
            assert(text == seq!['\''] + esc + seq!['\'']);
            assert(text[0] == '\'');
            assert(text[text.len() - 1] == '\'');
            assert(crate::lexer::skip_trivia(text, 0) == 0);
            assert(text.subrange(1, text.len() - 1) =~= esc);
            lemma_escaped_body_scan(text, 1, s);
            assert(crate::lexer::spec_token_at(text, 0) == (
                Token::LiteralString,
                text.len() as int,
            ));
            assert(crate::parser::tok_text(
                text,
                (Token::LiteralString, 0int, text.len() as int),
            ) =~= text);
            crate::string::lemma_unescape_escape_single(s);
            assert(crate::string::spec_parse_string(text) == Ok::<
                Seq<char>,
                crate::string::UnescapeError,
            >(s));
            lemma_single_leaf_parse(text, Token::LiteralString, v);
        },
        _ => {},
    }
}

/// Integer overflow is fatal: a run of valid digits whose value exceeds
/// the 64-bit signed range always fails with the overflow error, never
/// wrapping around or degrading silently.
pub proof fn lemma_int_overflow_is_fatal(s: Seq<char>, radix: int)
    requires
        2 <= radix <= 16,
        forall|i: int| 0 <= i < s.len() ==> is_radix_digit(#[trigger] s[i], radix),
        radix_value(s, radix) > i64::MAX as int,
    ensures
        spec_accum_digits(s, radix, 0) == Err::<int, ParseIntError>(ParseIntError::Overflow),
{
    lemma_accum_characterization(s, radix, 0);
    assert(0 * pow_int(radix, s.len()) == 0) by (nonlinear_arith);
}

} // verus!
