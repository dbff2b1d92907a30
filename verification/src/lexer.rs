//! The tokenizer: classifies source text into a flat stream of spanned
//! tokens.
//!
//! Whitespace and comments (`# ...`, `// ...`, `/* ... */`) are skipped and
//! never surface as tokens. Classification follows maximal munch: at every
//! position the longest matching token wins. A position where no token
//! matches yields a one-character `Error` token; failure is deferred to the
//! parser, which reports the offending span.
//!
//! Spans are ranges of character indices into the source.

use vstd::prelude::*;

use crate::chars::str_to_chars;
use crate::num::is_radix_digit;

verus! {

/// The classification of one lexical unit.
#[derive(Debug, Clone, Copy, PartialEq, Eq, Structural)]
pub enum Token {
    /// The keyword `array`.
    Array,
    /// A boolean literal, `true` or `false` in any letter case.
    Bool,
    /// The keyword `null`.
    Null,
    /// The arrow `=>`.
    Arrow,
    /// `(`
    BracketOpen,
    /// `)`
    BracketClose,
    /// `[`
    SquareOpen,
    /// `]`
    SquareClose,
    /// `,`
    Comma,
    /// A single- or double-quoted string literal, quotes included.
    LiteralString,
    /// A float literal: digits with a decimal point and/or an exponent.
    Float,
    /// An integer literal: decimal, hex `0x`, octal `0`, or binary `0b`.
    Integer,
    /// `;`
    SemiColon,
    /// A character sequence that matches no token.
    Error,
}

/// A token together with its span: character offsets `[start, end)` into
/// the source.
#[derive(Debug, Clone, Copy, PartialEq, Eq, Structural)]
pub struct SpannedToken {
    pub token: Token,
    pub start: usize,
    pub end: usize,
}

/// The characters the tokenizer skips as whitespace.
pub open spec fn is_lex_whitespace(c: char) -> bool {
    c == ' ' || c == '\t' || c == '\n' || c == '\u{c}'
}

/// Decimal digit.
pub open spec fn is_dec_digit(c: char) -> bool {
    is_radix_digit(c, 10)
}

/// The index of the first newline at or after `i`, or the end of input.
/// A line comment runs up to but not including this index.
pub open spec fn line_comment_end(s: Seq<char>, i: int) -> int
    decreases s.len() - i,
{
    if i < 0 || i >= s.len() {
        s.len() as int
    } else if s[i] == '\n' {
        i
    } else {
        line_comment_end(s, i + 1)
    }
}

pub proof fn lemma_line_comment_end_bounds(s: Seq<char>, i: int)
    requires
        0 <= i <= s.len(),
    ensures
        i <= line_comment_end(s, i) <= s.len(),
    decreases s.len() - i,
{
    if i < s.len() && s[i] != '\n' {
        lemma_line_comment_end_bounds(s, i + 1);
    }
}

/// The index just after the `*/` that closes a block comment whose body
/// starts at `start`, scanning from `j`; `None` when the comment never
/// closes. The body must be at least one character long, and a `*` inside
/// the body pairs with the following character unless that character is a
/// `/`.
pub open spec fn block_comment_close(s: Seq<char>, start: int, j: int) -> Option<int>
    decreases s.len() - j,
{
    if j < 0 || j >= s.len() {
        None
    } else if s[j] == '*' {
        if j + 1 < s.len() {
            if s[j + 1] == '/' {
                if j > start {
                    Some(j + 2)
                } else {
                    None
                }
            } else {
                block_comment_close(s, start, j + 2)
            }
        } else {
            None
        }
    } else {
        block_comment_close(s, start, j + 1)
    }
}

pub proof fn lemma_block_comment_close_bounds(s: Seq<char>, start: int, j: int)
    requires
        0 <= j <= s.len(),
    ensures
        match block_comment_close(s, start, j) {
            Some(k) => j < k <= s.len(),
            None => true,
        },
    decreases s.len() - j,
{
    if j < s.len() {
        if s[j] == '*' {
            if j + 1 < s.len() && s[j + 1] != '/' {
                lemma_block_comment_close_bounds(s, start, j + 2);
            }
        } else {
            lemma_block_comment_close_bounds(s, start, j + 1);
        }
    }
}

/// The first index at or after `i` that starts a token: whitespace runs
/// and comments are skipped. An unterminated block comment is not skipped;
/// its `/` will surface as an `Error` token.
pub open spec fn skip_trivia(s: Seq<char>, i: int) -> int
    decreases s.len() - i,
{
    if i < 0 || i >= s.len() {
        i
    } else if is_lex_whitespace(s[i]) {
        skip_trivia(s, i + 1)
    } else if s[i] == '#' {
        proof {
            lemma_line_comment_end_bounds(s, i + 1);
        }
        skip_trivia(s, line_comment_end(s, i + 1))
    } else if s[i] == '/' && i + 1 < s.len() && s[i + 1] == '/' {
        proof {
            lemma_line_comment_end_bounds(s, i + 2);
        }
        skip_trivia(s, line_comment_end(s, i + 2))
    } else if s[i] == '/' && i + 1 < s.len() && s[i + 1] == '*' {
        proof {
            lemma_block_comment_close_bounds(s, i + 2, i + 2);
        }
        match block_comment_close(s, i + 2, i + 2) {
            Some(k) => skip_trivia(s, k),
            None => i,
        }
    } else {
        i
    }
}

pub proof fn lemma_skip_trivia_bounds(s: Seq<char>, i: int)
    requires
        0 <= i <= s.len(),
    ensures
        i <= skip_trivia(s, i) <= s.len(),
    decreases s.len() - i,
{
    if i < s.len() {
        if is_lex_whitespace(s[i]) {
            lemma_skip_trivia_bounds(s, i + 1);
        } else if s[i] == '#' {
            lemma_line_comment_end_bounds(s, i + 1);
            lemma_skip_trivia_bounds(s, line_comment_end(s, i + 1));
        } else if s[i] == '/' && i + 1 < s.len() && s[i + 1] == '/' {
            lemma_line_comment_end_bounds(s, i + 2);
            lemma_skip_trivia_bounds(s, line_comment_end(s, i + 2));
        } else if s[i] == '/' && i + 1 < s.len() && s[i + 1] == '*' {
            lemma_block_comment_close_bounds(s, i + 2, i + 2);
            match block_comment_close(s, i + 2, i + 2) {
                Some(k) => lemma_skip_trivia_bounds(s, k),
                None => {},
            }
        }
    }
}

/// The end of a digit run of the given radix that allows single `_`
/// separators between digits, given that at least one digit was already
/// consumed before `i`.
pub open spec fn run_more(s: Seq<char>, i: int, radix: int) -> int
    decreases s.len() - i,
{
    if 0 <= i && i < s.len() && is_radix_digit(s[i], radix) {
        run_more(s, i + 1, radix)
    } else if 0 <= i && i + 1 < s.len() && s[i] == '_' && is_radix_digit(s[i + 1], radix) {
        run_more(s, i + 2, radix)
    } else {
        i
    }
}

pub proof fn lemma_run_more_bounds(s: Seq<char>, i: int, radix: int)
    ensures
        i <= run_more(s, i, radix),
        i <= s.len() ==> run_more(s, i, radix) <= s.len(),
    decreases s.len() - i,
{
    if 0 <= i && i < s.len() && is_radix_digit(s[i], radix) {
        lemma_run_more_bounds(s, i + 1, radix);
    } else if 0 <= i && i + 1 < s.len() && s[i] == '_' && is_radix_digit(s[i + 1], radix) {
        lemma_run_more_bounds(s, i + 2, radix);
    }
}

/// The end of `[digit]+(_[digit]+)*` starting at `i`; equals `i` when the
/// run is absent.
pub open spec fn run_end(s: Seq<char>, i: int, radix: int) -> int {
    if 0 <= i && i < s.len() && is_radix_digit(s[i], radix) {
        run_more(s, i + 1, radix)
    } else {
        i
    }
}

/// The end of `[digit]*(_[digit]+)*` starting at `i`: the digits may be
/// absent entirely, in which case the run may begin with a separator.
pub open spec fn ext_run_end(s: Seq<char>, i: int) -> int {
    if 0 <= i && i < s.len() && is_dec_digit(s[i]) {
        run_more(s, i + 1, 10)
    } else if 0 <= i && i + 1 < s.len() && s[i] == '_' && is_dec_digit(s[i + 1]) {
        run_more(s, i + 2, 10)
    } else {
        i
    }
}

/// The end of an unsigned integer literal body at `p`: `0x`/`0b` prefixed
/// hex or binary digits, a leading `0` with octal digits, a bare `0`, or a
/// nonzero decimal run. Equals `p` when no integer body starts here.
pub open spec fn int_body_end(s: Seq<char>, p: int) -> int {
    if 0 <= p && p < s.len() && s[p] == '0' {
        if p + 1 < s.len() && (s[p + 1] == 'x' || s[p + 1] == 'X') && run_end(s, p + 2, 16) > p
            + 2 {
            run_end(s, p + 2, 16)
        } else if p + 1 < s.len() && (s[p + 1] == 'b' || s[p + 1] == 'B') && run_end(s, p + 2, 2)
            > p + 2 {
            run_end(s, p + 2, 2)
        } else if run_end(s, p + 1, 8) > p + 1 {
            run_end(s, p + 1, 8)
        } else {
            p + 1
        }
    } else if 0 <= p && p < s.len() && is_dec_digit(s[p]) && s[p] != '0' {
        run_more(s, p + 1, 10)
    } else {
        p
    }
}

/// The end of an integer token at `i` (optional leading `-`); equals `i`
/// when no integer token starts here.
pub open spec fn int_token_end(s: Seq<char>, i: int) -> int {
    let p = if 0 <= i && i < s.len() && s[i] == '-' {
        i + 1
    } else {
        i
    };
    let e = int_body_end(s, p);
    if e > p {
        e
    } else {
        i
    }
}

/// The end of the mantissa of a float at `p` when it contains a decimal
/// point, or -1. The integer part `a_end` was scanned as
/// `[digit]*(_[digit]+)*`; when it begins with a digit the fraction may be
/// any such run (possibly empty), otherwise the fraction must begin with a
/// digit.
pub open spec fn float_mantissa_end(s: Seq<char>, p: int, a_end: int) -> int {
    if 0 <= a_end && a_end < s.len() && s[a_end] == '.' {
        if p < s.len() && is_dec_digit(s[p]) && a_end > p {
            ext_run_end(s, a_end + 1)
        } else {
            if run_end(s, a_end + 1, 10) > a_end + 1 {
                run_end(s, a_end + 1, 10)
            } else {
                -1
            }
        }
    } else {
        -1
    }
}

/// The end of an exponent part `[eE][+-]?[digit]+(_[digit]+)*` at `b`, or
/// -1 when none starts here.
pub open spec fn float_exp_end(s: Seq<char>, b: int) -> int {
    if 0 <= b && b < s.len() && (s[b] == 'e' || s[b] == 'E') {
        let t = if b + 1 < s.len() && (s[b + 1] == '+' || s[b + 1] == '-') {
            b + 2
        } else {
            b + 1
        };
        if run_end(s, t, 10) > t {
            run_end(s, t, 10)
        } else {
            -1
        }
    } else {
        -1
    }
}

/// The end of a float token at `i` (optional leading `-`); equals `i` when
/// no float token starts here. A float needs a decimal point, an exponent
/// on a plain digit run, or both.
pub open spec fn float_token_end(s: Seq<char>, i: int) -> int {
    let p = if 0 <= i && i < s.len() && s[i] == '-' {
        i + 1
    } else {
        i
    };
    let a_end = ext_run_end(s, p);
    let mant = float_mantissa_end(s, p, a_end);
    let exp_base = if mant >= 0 {
        mant
    } else if p < s.len() && is_dec_digit(s[p]) && a_end > p {
        a_end
    } else {
        -1
    };
    let exp = if exp_base >= 0 {
        float_exp_end(s, exp_base)
    } else {
        -1
    };
    if exp >= 0 {
        exp
    } else if mant >= 0 {
        mant
    } else {
        i
    }
}

/// The index just after the closing quote of a string literal whose body
/// starts at `j` with quote character `q`, or `None` when the literal
/// never closes. A backslash escapes the following character, except that
/// it cannot escape a newline.
pub open spec fn string_body_end(s: Seq<char>, j: int, q: char) -> Option<int>
    decreases s.len() - j,
{
    if j < 0 || j >= s.len() {
        None
    } else if s[j] == q {
        Some(j + 1)
    } else if s[j] == '\\' {
        if j + 1 < s.len() && s[j + 1] != '\n' {
            string_body_end(s, j + 2, q)
        } else {
            None
        }
    } else {
        string_body_end(s, j + 1, q)
    }
}

pub proof fn lemma_string_body_end_bounds(s: Seq<char>, j: int, q: char)
    requires
        0 <= j <= s.len(),
    ensures
        match string_body_end(s, j, q) {
            Some(k) => j < k <= s.len(),
            None => true,
        },
    decreases s.len() - j,
{
    if j < s.len() && s[j] != q {
        if s[j] == '\\' {
            if j + 1 < s.len() && s[j + 1] != '\n' {
                lemma_string_body_end_bounds(s, j + 2, q);
            }
        } else {
            lemma_string_body_end_bounds(s, j + 1, q);
        }
    }
}

/// Does the keyword `array` start at `j`?
pub open spec fn is_array_kw_at(s: Seq<char>, j: int) -> bool {
    &&& j + 5 <= s.len()
    &&& s[j] == 'a'
    &&& s[j + 1] == 'r'
    &&& s[j + 2] == 'r'
    &&& s[j + 3] == 'a'
    &&& s[j + 4] == 'y'
}

/// Does the keyword `null` start at `j`?
pub open spec fn is_null_kw_at(s: Seq<char>, j: int) -> bool {
    &&& j + 4 <= s.len()
    &&& s[j] == 'n'
    &&& s[j + 1] == 'u'
    &&& s[j + 2] == 'l'
    &&& s[j + 3] == 'l'
}

/// The end of a case-insensitive `true` or `false` at `j`; equals `j` when
/// neither starts here.
pub open spec fn bool_token_end(s: Seq<char>, j: int) -> int {
    if j + 4 <= s.len() && (s[j] == 't' || s[j] == 'T') && (s[j + 1] == 'r' || s[j + 1] == 'R') && (
    s[j + 2] == 'u' || s[j + 2] == 'U') && (s[j + 3] == 'e' || s[j + 3] == 'E') {
        j + 4
    } else if j + 5 <= s.len() && (s[j] == 'f' || s[j] == 'F') && (s[j + 1] == 'a' || s[j + 1]
        == 'A') && (s[j + 2] == 'l' || s[j + 2] == 'L') && (s[j + 3] == 's' || s[j + 3] == 'S') && (
    s[j + 4] == 'e' || s[j + 4] == 'E') {
        j + 5
    } else {
        j
    }
}

/// Classify the token that starts at position `j` (`j` must point at a
/// non-trivia character inside the input); returns the token and its end.
/// Tokens start with disjoint characters, except that integer and float
/// literals overlap: there the longer match wins, per maximal munch.
pub open spec fn spec_token_at(s: Seq<char>, j: int) -> (Token, int) {
    let fe = float_token_end(s, j);
    let ie = int_token_end(s, j);
    if is_array_kw_at(s, j) {
        (Token::Array, j + 5)
    } else if bool_token_end(s, j) > j {
        (Token::Bool, bool_token_end(s, j))
    } else if is_null_kw_at(s, j) {
        (Token::Null, j + 4)
    } else if s[j] == '=' && j + 1 < s.len() && s[j + 1] == '>' {
        (Token::Arrow, j + 2)
    } else if s[j] == '(' {
        (Token::BracketOpen, j + 1)
    } else if s[j] == ')' {
        (Token::BracketClose, j + 1)
    } else if s[j] == '[' {
        (Token::SquareOpen, j + 1)
    } else if s[j] == ']' {
        (Token::SquareClose, j + 1)
    } else if s[j] == ',' {
        (Token::Comma, j + 1)
    } else if s[j] == ';' {
        (Token::SemiColon, j + 1)
    } else if s[j] == '"' || s[j] == '\'' {
        match string_body_end(s, j + 1, s[j]) {
            Some(e) => (Token::LiteralString, e),
            None => (Token::Error, j + 1),
        }
    } else if fe > j && fe >= ie {
        (Token::Float, fe)
    } else if ie > j {
        (Token::Integer, ie)
    } else {
        (Token::Error, j + 1)
    }
}

pub proof fn lemma_token_at_bounds(s: Seq<char>, j: int)
    requires
        0 <= j < s.len(),
    ensures
        j < spec_token_at(s, j).1 <= s.len(),
        spec_token_at(s, j).0 == Token::LiteralString ==> spec_token_at(s, j).1 >= j + 2,
{
    lemma_run_more_bounds(s, j, 10);
    lemma_run_more_bounds(s, j + 1, 10);
    lemma_run_more_bounds(s, j + 2, 10);
    let p = if s[j] == '-' {
        j + 1
    } else {
        j
    };
    lemma_run_more_bounds(s, p + 1, 10);
    lemma_run_more_bounds(s, p + 2, 10);
    lemma_run_more_bounds(s, p + 2, 16);
    lemma_run_more_bounds(s, p + 3, 16);
    lemma_run_more_bounds(s, p + 2, 2);
    lemma_run_more_bounds(s, p + 3, 2);
    lemma_run_more_bounds(s, p + 1, 8);
    lemma_run_more_bounds(s, p + 2, 8);
    let a_end = ext_run_end(s, p);
    if 0 <= a_end && a_end + 1 <= s.len() {
        lemma_run_more_bounds(s, a_end + 1, 10);
        lemma_run_more_bounds(s, a_end + 2, 10);
    }
    let mant = float_mantissa_end(s, p, a_end);
    let exp_base = if mant >= 0 {
        mant
    } else if p < s.len() && is_dec_digit(s[p]) && a_end > p {
        a_end
    } else {
        -1
    };
    if 0 <= exp_base && exp_base + 1 <= s.len() {
        lemma_run_more_bounds(s, exp_base + 1, 10);
        lemma_run_more_bounds(s, exp_base + 2, 10);
        lemma_run_more_bounds(s, exp_base + 3, 10);
    }
    if s[j] == '"' || s[j] == '\'' {
        lemma_string_body_end_bounds(s, j + 1, s[j]);
    }
}

/// The next token at or after position `i`, with its span, or `None` at
/// the end of input.
pub open spec fn spec_next_token(s: Seq<char>, i: int) -> Option<(Token, int, int)> {
    let j = skip_trivia(s, i);
    if j >= s.len() {
        None
    } else {
        let (t, e) = spec_token_at(s, j);
        Some((t, j, e))
    }
}

/// The whole token stream of `s` from position `i` on.
pub open spec fn spec_tokens_from(s: Seq<char>, i: int) -> Seq<(Token, int, int)>
    decreases s.len() - i,
{
    if i < 0 {
        Seq::empty()
    } else {
        match spec_next_token(s, i) {
            None => Seq::empty(),
            Some((t, a, e)) => {
                proof {
                    if i <= s.len() {
                        lemma_skip_trivia_bounds(s, i);
                        lemma_token_at_bounds(s, skip_trivia(s, i));
                    }
                }
                if e <= i || e > s.len() {
                    Seq::empty()
                } else {
                    seq![(t, a, e)] + spec_tokens_from(s, e)
                }
            },
        }
    }
}

/// Does the spanned token `st` carry the classification and span `t`?
pub open spec fn token_matches(st: SpannedToken, t: (Token, int, int)) -> bool {
    st.token == t.0 && st.start == t.1 && st.end == t.2
}

/// Is a token's span well-formed for the given source: inside the text,
/// non-empty, and at least two characters for a string literal?
pub open spec fn tok_in_bounds(src: Seq<char>, t: (Token, int, int)) -> bool {
    &&& 0 <= t.1 < t.2 <= src.len()
    &&& (t.0 == Token::LiteralString ==> t.2 - t.1 >= 2)
}

/// Every token of a stream has a well-formed span inside the source, and
/// a string literal token spans at least its two quotes.
pub proof fn lemma_tokens_from_bounds(s: Seq<char>, i: int)
    requires
        0 <= i <= s.len(),
    ensures
        forall|k: int|
            0 <= k < spec_tokens_from(s, i).len() ==> tok_in_bounds(
                s,
                #[trigger] spec_tokens_from(s, i)[k],
            ),
    decreases s.len() - i,
{
    lemma_skip_trivia_bounds(s, i);
    let j = skip_trivia(s, i);
    if j < s.len() {
        lemma_token_at_bounds(s, j);
        let (t, e) = spec_token_at(s, j);
        lemma_tokens_from_bounds(s, e);
        let cur = spec_tokens_from(s, i);
        assert(cur == seq![(t, j, e)] + spec_tokens_from(s, e));
        assert(forall|k: int|
            1 <= k < cur.len() ==> cur[k] == #[trigger] spec_tokens_from(s, e)[k - 1]);
        assert(cur[0] == (t, j, e));
    }
}

fn scan_run_more(src: &Vec<char>, start: usize, radix: u32) -> (r: usize)
    requires
        start <= src.len(),
        2 <= radix <= 16,
    ensures
        r == run_more(src@, start as int, radix as int),
        start <= r <= src.len(),
{
    let n = src.len();
    let mut i = start;
    loop
        invariant
            start <= i <= n,
            n == src.len(),
            2 <= radix <= 16,
            run_more(src@, i as int, radix as int) == run_more(src@, start as int, radix as int),
        ensures
            start <= i <= n,
            i == run_more(src@, start as int, radix as int),
        decreases n - i,
    {
        if i < n && crate::num::to_digit(src[i], radix).is_some() {
            i = i + 1;
        } else if i < n && n - i > 1 && src[i] == '_' && crate::num::to_digit(
            src[i + 1],
            radix,
        ).is_some() {
            i = i + 2;
        } else {
            break ;
        }
    }
    i
}

fn scan_line_comment(src: &Vec<char>, start: usize) -> (r: usize)
    requires
        start <= src.len(),
    ensures
        r == line_comment_end(src@, start as int),
        start <= r <= src.len(),
{
    let n = src.len();
    let mut i = start;
    loop
        invariant
            start <= i <= n,
            n == src.len(),
            line_comment_end(src@, i as int) == line_comment_end(src@, start as int),
        ensures
            start <= i <= n,
            i == line_comment_end(src@, start as int),
        decreases n - i,
    {
        if i < n && src[i] != '\n' {
            i = i + 1;
        } else {
            break ;
        }
    }
    i
}

fn scan_block_close(src: &Vec<char>, cstart: usize) -> (r: Option<usize>)
    requires
        cstart <= src.len(),
    ensures
        match r {
            Some(k) => block_comment_close(src@, cstart as int, cstart as int) == Some(k as int)
                && cstart < k <= src.len(),
            None => block_comment_close(src@, cstart as int, cstart as int) is None,
        },
{
    let n = src.len();
    let mut j = cstart;
    loop
        invariant
            cstart <= j <= n,
            n == src.len(),
            block_comment_close(src@, cstart as int, j as int) == block_comment_close(
                src@,
                cstart as int,
                cstart as int,
            ),
        decreases n - j,
    {
        if j >= n {
            return None;
        }
        if src[j] == '*' {
            if j + 1 < n {
                if src[j + 1] == '/' {
                    if j > cstart {
                        proof {
                            lemma_block_comment_close_bounds(src@, cstart as int, cstart as int);
                        }
                        return Some(j + 2);
                    } else {
                        return None;
                    }
                } else {
                    j = j + 2;
                }
            } else {
                return None;
            }
        } else {
            j = j + 1;
        }
    }
}

fn scan_string_body(src: &Vec<char>, bstart: usize, q: char) -> (r: Option<usize>)
    requires
        bstart <= src.len(),
    ensures
        match r {
            Some(k) => string_body_end(src@, bstart as int, q) == Some(k as int) && bstart < k
                <= src.len(),
            None => string_body_end(src@, bstart as int, q) is None,
        },
{
    let n = src.len();
    let mut j = bstart;
    loop
        invariant
            bstart <= j <= n,
            n == src.len(),
            string_body_end(src@, j as int, q) == string_body_end(src@, bstart as int, q),
        decreases n - j,
    {
        if j >= n {
            return None;
        }
        if src[j] == q {
            proof {
                lemma_string_body_end_bounds(src@, bstart as int, q);
            }
            return Some(j + 1);
        } else if src[j] == '\\' {
            if j + 1 < n && src[j + 1] != '\n' {
                j = j + 2;
            } else {
                return None;
            }
        } else {
            j = j + 1;
        }
    }
}

fn exec_skip_trivia(src: &Vec<char>, start: usize) -> (r: usize)
    requires
        start <= src.len(),
    ensures
        r == skip_trivia(src@, start as int),
        start <= r <= src.len(),
{
    let n = src.len();
    let mut i = start;
    loop
        invariant
            start <= i <= n,
            n == src.len(),
            skip_trivia(src@, i as int) == skip_trivia(src@, start as int),
        ensures
            start <= i <= n,
            i == skip_trivia(src@, start as int),
        decreases n - i,
    {
        if i >= n {
            break ;
        }
        let c = src[i];
        if c == ' ' || c == '\t' || c == '\n' || c == '\u{c}' {
            i = i + 1;
        } else if c == '#' {
            i = scan_line_comment(src, i + 1);
        } else if c == '/' && i + 1 < n && src[i + 1] == '/' {
            i = scan_line_comment(src, i + 2);
        } else if c == '/' && i + 1 < n && src[i + 1] == '*' {
            match scan_block_close(src, i + 2) {
                Some(k) => {
                    i = k;
                },
                None => {
                    break ;
                },
            }
        } else {
            break ;
        }
    }
    i
}

/// The end of an integer token at `i`, or `i` when none starts here.
fn exec_int_token_end(src: &Vec<char>, i: usize) -> (r: usize)
    requires
        i < src.len(),
    ensures
        r == int_token_end(src@, i as int),
        i <= r <= src.len(),
{
    let n = src.len();
    let p: usize = if src[i] == '-' {
        i + 1
    } else {
        i
    };
    proof {
        lemma_run_more_bounds(src@, p + 1, 10);
        lemma_run_more_bounds(src@, p + 1, 8);
        lemma_run_more_bounds(src@, p + 2, 16);
        lemma_run_more_bounds(src@, p + 2, 2);
    }
    let e: usize = if p < n && src[p] == '0' {
        if p + 1 < n && (src[p + 1] == 'x' || src[p + 1] == 'X') && p + 2 < n
            && crate::num::to_digit(src[p + 2], 16).is_some() {
            scan_run_more(src, p + 3, 16)
        } else if p + 1 < n && (src[p + 1] == 'b' || src[p + 1] == 'B') && p + 2 < n
            && crate::num::to_digit(src[p + 2], 2).is_some() {
            scan_run_more(src, p + 3, 2)
        } else if p + 1 < n && crate::num::to_digit(src[p + 1], 8).is_some() {
            scan_run_more(src, p + 2, 8)
        } else {
            p + 1
        }
    } else if p < n && crate::num::to_digit(src[p], 10).is_some() && src[p] != '0' {
        scan_run_more(src, p + 1, 10)
    } else {
        p
    };
    if e > p {
        e
    } else {
        i
    }
}

/// The end of `[digit]*(_[digit]+)*` at `i`.
fn exec_ext_run_end(src: &Vec<char>, i: usize) -> (r: usize)
    requires
        i <= src.len(),
    ensures
        r == ext_run_end(src@, i as int),
        i <= r <= src.len(),
{
    let n = src.len();
    proof {
        lemma_run_more_bounds(src@, i + 1, 10);
        lemma_run_more_bounds(src@, i + 2, 10);
    }
    if i < n && crate::num::to_digit(src[i], 10).is_some() {
        scan_run_more(src, i + 1, 10)
    } else if i < n && n - i > 1 && src[i] == '_' && crate::num::to_digit(src[i + 1], 10).is_some()
        {
        scan_run_more(src, i + 2, 10)
    } else {
        i
    }
}

/// The end of `[digit]+(_[digit]+)*` at `i`, or `i` when none.
fn exec_run_end(src: &Vec<char>, i: usize) -> (r: usize)
    requires
        i <= src.len(),
    ensures
        r == run_end(src@, i as int, 10),
        i <= r <= src.len(),
{
    let n = src.len();
    proof {
        lemma_run_more_bounds(src@, i + 1, 10);
    }
    if i < n && crate::num::to_digit(src[i], 10).is_some() {
        scan_run_more(src, i + 1, 10)
    } else {
        i
    }
}

/// The end of a float token at `i`, or `i` when none starts here.
fn exec_float_token_end(src: &Vec<char>, i: usize) -> (r: usize)
    requires
        i < src.len(),
    ensures
        r == float_token_end(src@, i as int),
        i <= r <= src.len(),
{
    let n = src.len();
    let p: usize = if src[i] == '-' {
        i + 1
    } else {
        i
    };
    let a_end = exec_ext_run_end(src, p);
    let digit_start = p < n && crate::num::to_digit(src[p], 10).is_some();
    let mant: Option<usize> = if a_end < n && src[a_end] == '.' {
        if digit_start && a_end > p {
            Some(exec_ext_run_end(src, a_end + 1))
        } else {
            let b = exec_run_end(src, a_end + 1);
            if b > a_end + 1 {
                Some(b)
            } else {
                None
            }
        }
    } else {
        None
    };
    proof {
        assert(match mant {
            Some(m) => m == float_mantissa_end(src@, p as int, a_end as int),
            None => float_mantissa_end(src@, p as int, a_end as int) == -1,
        });
    }
    let exp_base: Option<usize> = match mant {
        Some(m) => Some(m),
        None => if digit_start && a_end > p {
            Some(a_end)
        } else {
            None
        },
    };
    let exp: Option<usize> = match exp_base {
        Some(b) => {
            if b < n && (src[b] == 'e' || src[b] == 'E') {
                let t: usize = if b + 1 < n && (src[b + 1] == '+' || src[b + 1] == '-') {
                    b + 2
                } else {
                    b + 1
                };
                let ex = exec_run_end(src, t);
                if ex > t {
                    Some(ex)
                } else {
                    None
                }
            } else {
                None
            }
        },
        None => None,
    };
    proof {
        assert(match exp_base {
            Some(b) => match exp {
                Some(e) => e == float_exp_end(src@, b as int),
                None => float_exp_end(src@, b as int) == -1,
            },
            None => true,
        });
    }
    match exp {
        Some(e) => e,
        None => match mant {
            Some(m) => m,
            None => i,
        },
    }
}

/// Classify the token starting at the non-trivia position `j`.
fn exec_token_at(src: &Vec<char>, j: usize) -> (r: (Token, usize))
    requires
        j < src.len(),
    ensures
        (r.0, r.1 as int) == spec_token_at(src@, j as int),
        j < r.1 <= src.len(),
{
    proof {
        lemma_token_at_bounds(src@, j as int);
    }
    let n = src.len();
    let c = src[j];
    let fe = exec_float_token_end(src, j);
    let ie = exec_int_token_end(src, j);
    if n - j >= 5 && src[j] == 'a' && src[j + 1] == 'r' && src[j + 2] == 'r' && src[j + 3] == 'a'
        && src[j + 4] == 'y' {
        (Token::Array, j + 5)
    } else if n - j >= 4 && (src[j] == 't' || src[j] == 'T') && (src[j + 1] == 'r' || src[j + 1]
        == 'R') && (src[j + 2] == 'u' || src[j + 2] == 'U') && (src[j + 3] == 'e' || src[j + 3]
        == 'E') {
        (Token::Bool, j + 4)
    } else if n - j >= 5 && (src[j] == 'f' || src[j] == 'F') && (src[j + 1] == 'a' || src[j + 1]
        == 'A') && (src[j + 2] == 'l' || src[j + 2] == 'L') && (src[j + 3] == 's' || src[j + 3]
        == 'S') && (src[j + 4] == 'e' || src[j + 4] == 'E') {
        (Token::Bool, j + 5)
    } else if n - j >= 4 && src[j] == 'n' && src[j + 1] == 'u' && src[j + 2] == 'l' && src[j + 3]
        == 'l' {
        (Token::Null, j + 4)
    } else if c == '=' && j + 1 < n && src[j + 1] == '>' {
        (Token::Arrow, j + 2)
    } else if c == '(' {
        (Token::BracketOpen, j + 1)
    } else if c == ')' {
        (Token::BracketClose, j + 1)
    } else if c == '[' {
        (Token::SquareOpen, j + 1)
    } else if c == ']' {
        (Token::SquareClose, j + 1)
    } else if c == ',' {
        (Token::Comma, j + 1)
    } else if c == ';' {
        (Token::SemiColon, j + 1)
    } else if c == '"' || c == '\'' {
        match scan_string_body(src, j + 1, c) {
            Some(e) => (Token::LiteralString, e),
            None => (Token::Error, j + 1),
        }
    } else if fe > j && fe >= ie {
        (Token::Float, fe)
    } else if ie > j {
        (Token::Integer, ie)
    } else {
        (Token::Error, j + 1)
    }
}

/// The tokenizer: a read-once stream of tokens pulled on demand from the
/// source text.
pub struct TokenStream {
    src: Vec<char>,
    pos: usize,
}

impl TokenStream {
    /// The characters of the source text.
    pub closed spec fn chars(&self) -> Seq<char> {
        self.src@
    }

    /// The current read position, a character index into the source.
    pub closed spec fn position(&self) -> int {
        self.pos as int
    }

    /// Is the stream in a usable state?
    pub closed spec fn wf(&self) -> bool {
        self.pos <= self.src.len()
    }

    /// Start a token stream over the given source text.
    pub fn new(source: &str) -> (r: TokenStream)
        ensures
            r.chars() == source@,
            r.position() == 0,
            r.wf(),
    {
        TokenStream { src: str_to_chars(source), pos: 0 }
    }

    /// Pull the next token, advancing past it, or `None` at the end of
    /// input.
    pub fn next(&mut self) -> (r: Option<SpannedToken>)
        requires
            old(self).wf(),
        ensures
            final(self).wf(),
            final(self).chars() == old(self).chars(),
            match spec_next_token(old(self).chars(), old(self).position()) {
                None => r is None && final(self).position() == old(self).chars().len(),
                Some(t) => r matches Some(st) && token_matches(st, t) && final(self).position()
                    == t.2,
            },
    {
        let j = exec_skip_trivia(&self.src, self.pos);
        if j >= self.src.len() {
            self.pos = self.src.len();
            None
        } else {
            let (t, e) = exec_token_at(&self.src, j);
            self.pos = e;
            Some(SpannedToken { token: t, start: j, end: e })
        }
    }
}

/// Tokenize a whole character sequence eagerly.
pub fn tokenize(src: &Vec<char>) -> (toks: Vec<SpannedToken>)
    ensures
        toks@.len() == spec_tokens_from(src@, 0).len(),
        forall|k: int|
            0 <= k < toks@.len() ==> token_matches(toks@[k], spec_tokens_from(src@, 0)[k]),
{
    let n = src.len();
    let mut toks: Vec<SpannedToken> = Vec::new();
    let mut pos: usize = 0;
    loop
        invariant
            pos <= n,
            n == src.len(),
            spec_tokens_from(src@, 0).len() == toks@.len() + spec_tokens_from(
                src@,
                pos as int,
            ).len(),
            forall|k: int|
                0 <= k < toks@.len() ==> token_matches(toks@[k], spec_tokens_from(src@, 0)[k]),
            forall|k: int|
                0 <= k < spec_tokens_from(src@, pos as int).len() ==> spec_tokens_from(
                    src@,
                    0,
                )[toks@.len() + k] == spec_tokens_from(src@, pos as int)[k],
        ensures
            spec_tokens_from(src@, pos as int).len() == 0,
            spec_tokens_from(src@, 0).len() == toks@.len(),
            forall|k: int|
                0 <= k < toks@.len() ==> token_matches(toks@[k], spec_tokens_from(src@, 0)[k]),
        decreases n - pos,
    {
        let j = exec_skip_trivia(src, pos);
        if j >= n {
            proof {
                assert(spec_next_token(src@, pos as int) is None);
                assert(spec_tokens_from(src@, pos as int).len() == 0);
            }
            break ;
        }
        let (t, e) = exec_token_at(src, j);
        proof {
            let cur = spec_tokens_from(src@, pos as int);
            assert(spec_next_token(src@, pos as int) == Some((t, j as int, e as int)));
            assert(cur == seq![(t, j as int, e as int)] + spec_tokens_from(src@, e as int));
            assert(cur[0] == (t, j as int, e as int));
            assert(forall|k: int|
                0 <= k < spec_tokens_from(src@, e as int).len() ==> cur[1 + k]
                    == spec_tokens_from(src@, e as int)[k]);
        }
        toks.push(SpannedToken { token: t, start: j, end: e });
        pos = e;
    }
    toks
}

} // verus!
