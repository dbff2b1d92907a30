//! The recursive-descent parser: a token stream becomes a [`Value`] tree.
//!
//! One exported entry point parses one literal value at the current
//! position. A leaf token is decoded by the literal decoders; `array (`
//! and `[` open an array body, which loops over `key => value` and bare
//! `value` items. The left-hand side of `=>` passes through PHP's
//! array-key coercion rule; a bare value gets the next auto-increment
//! integer key. Finding the closing bracket where a value was expected is
//! the normal signal for an empty array or a trailing comma; every other
//! unexpected token aborts the parse.
//!
//! The whole parse is specified exactly: [`spec_parse_value`] and
//! [`spec_parse_array`] state, for every token stream, both the value
//! built and the error returned, together with the position where the
//! parse stopped.

use vstd::prelude::*;

use crate::chars::str_to_chars;
use crate::error::ArrayKeyError;
use crate::error::ArrayKeyErrorKind;
use crate::error::ParseError;
use crate::error::PrimitiveError;
use crate::error::PrimitiveErrorKind;
use crate::error::Span;
use crate::error::SpecParseError;
use crate::error::SpecSpan;
use crate::error::TrailingError;
use crate::error::UnexpectedTokenError;
use crate::lexer::bool_token_end;
use crate::lexer::spec_tokens_from;
use crate::lexer::token_matches;
use crate::lexer::tokenize;
use crate::lexer::SpannedToken;
use crate::lexer::Token;
use crate::num::int_key_value_chars;
use crate::num::float_trunc_chars;
use crate::num::spec_dec_signed_value;
use crate::num::spec_float_trunc;
use crate::num::spec_is_int_key;
use crate::num::spec_parse_int;
use crate::string::parse_string_chars;
use crate::string::spec_parse_string;
use crate::value::entries_view;
use crate::value::value_view;
use crate::value::Key;
use crate::value::SpecKey;
use crate::value::SpecValue;
use crate::value::Value;

verus! {

/// Which of the two array spellings is being parsed.
#[derive(Debug, Clone, Copy, PartialEq, Eq, Structural)]
pub enum ArraySyntax {
    /// `[ ... ]`
    Short,
    /// `array ( ... )`
    Long,
}

impl ArraySyntax {
    /// The token that closes an array of this spelling.
    pub fn close_bracket(&self) -> (r: Token)
        ensures
            r == self.spec_close_bracket(),
    {
        match self {
            ArraySyntax::Long => Token::BracketClose,
            ArraySyntax::Short => Token::SquareClose,
        }
    }

    /// The token that closes an array of this spelling.
    pub open spec fn spec_close_bracket(&self) -> Token {
        match self {
            ArraySyntax::Long => Token::BracketClose,
            ArraySyntax::Short => Token::SquareClose,
        }
    }
}

/// The tokens that may start a value.
pub open spec fn value_expected_tokens() -> Seq<Token> {
    seq![
        Token::Bool,
        Token::Integer,
        Token::Float,
        Token::LiteralString,
        Token::Null,
        Token::Array,
        Token::SquareOpen,
    ]
}

/// The span that stands for the end of the input.
pub open spec fn end_span(src: Seq<char>) -> SpecSpan {
    (src.len() as int, src.len() as int)
}

/// The span of one token.
pub open spec fn tok_span(t: (Token, int, int)) -> SpecSpan {
    (t.1, t.2)
}

/// The text of one token.
pub open spec fn tok_text(src: Seq<char>, t: (Token, int, int)) -> Seq<char> {
    src.subrange(t.1, t.2)
}

/// Is the text a boolean literal spelled `true`, in any letter case?
pub open spec fn is_true_text(t: Seq<char>) -> bool {
    t.len() == 4 && bool_token_end(t, 0) == 4
}

/// Is the text a boolean literal spelled `false`, in any letter case?
pub open spec fn is_false_text(t: Seq<char>) -> bool {
    t.len() == 5 && bool_token_end(t, 0) == 5
}

/// The text with every `_` separator removed.
pub open spec fn strip_separators(t: Seq<char>) -> Seq<char> {
    t.filter(|c: char| c != '_')
}

/// What decoding one leaf token yields: the value, or a primitive error
/// carrying the token's span.
pub open spec fn spec_parse_literal(src: Seq<char>, t: (Token, int, int)) -> Result<
    SpecValue,
    SpecParseError,
> {
    let text = tok_text(src, t);
    match t.0 {
        Token::Bool => if is_true_text(text) {
            Ok(SpecValue::Bool(true))
        } else if is_false_text(text) {
            Ok(SpecValue::Bool(false))
        } else {
            Err(SpecParseError::InvalidPrimitive(
                PrimitiveErrorKind::InvalidBoolLiteral,
                tok_span(t),
            ))
        },
        Token::Integer => match spec_parse_int(text) {
            Ok(n) => Ok(SpecValue::Int(n as int)),
            Err(e) => Err(SpecParseError::InvalidPrimitive(
                PrimitiveErrorKind::InvalidIntLiteral(e),
                tok_span(t),
            )),
        },
        Token::Float => Ok(SpecValue::Float(strip_separators(text))),
        Token::LiteralString => match spec_parse_string(text) {
            Ok(s) => Ok(SpecValue::Str(s)),
            Err(_) => Err(SpecParseError::InvalidPrimitive(
                PrimitiveErrorKind::InvalidStringLiteral,
                tok_span(t),
            )),
        },
        _ => Ok(SpecValue::Null),
    }
}

/// PHP's array-key coercion rule, applied to the left-hand side of `=>`:
/// integers stay, floats are truncated toward zero, strings that are the
/// canonical decimal form of an integer become that integer, booleans
/// become 0 or 1, null becomes the empty string, and an array is a hard
/// error.
pub open spec fn spec_coerce_key(v: SpecValue, span: SpecSpan) -> Result<SpecKey, SpecParseError> {
    match v {
        SpecValue::Int(n) => Ok(SpecKey::Int(n)),
        SpecValue::Float(t) => Ok(SpecKey::Int(spec_float_trunc(t))),
        SpecValue::Str(s) => if spec_is_int_key(s) {
            Ok(SpecKey::Int(spec_dec_signed_value(s)))
        } else {
            Ok(SpecKey::Str(s))
        },
        SpecValue::Bool(b) => Ok(
            SpecKey::Int(
                if b {
                    1
                } else {
                    0
                },
            ),
        ),
        SpecValue::Null => Ok(SpecKey::Str(Seq::empty())),
        SpecValue::Arr(_) => Err(
            SpecParseError::UnexpectedArrayKey(ArrayKeyErrorKind::IntegerExpected, span),
        ),
    }
}

/// The auto-increment counter after a key, with 64-bit wrap-around.
pub open spec fn wrap_inc(n: i64) -> i64 {
    if n == i64::MAX {
        i64::MIN
    } else {
        (n + 1) as i64
    }
}

/// Insert an entry into an array body: an existing key keeps its
/// position and takes the new value, a new key is appended.
pub open spec fn spec_entries_insert(
    entries: Seq<(SpecKey, SpecValue)>,
    k: SpecKey,
    v: SpecValue,
) -> Seq<(SpecKey, SpecValue)>
    decreases entries.len(),
{
    if entries.len() == 0 {
        seq![(k, v)]
    } else if entries[0].0 == k {
        seq![(k, v)] + entries.drop_first()
    } else {
        seq![entries[0]] + spec_entries_insert(entries.drop_first(), k, v)
    }
}

/// Push a bare value: it gets the next auto-increment integer key, and
/// the counter moves on.
pub open spec fn spec_push_value(
    next: i64,
    entries: Seq<(SpecKey, SpecValue)>,
    v: SpecValue,
) -> (i64, Seq<(SpecKey, SpecValue)>) {
    (wrap_inc(next), spec_entries_insert(entries, SpecKey::Int(next as int), v))
}

/// Push an explicit `key => value` pair: an integer key resets the
/// auto-increment counter to just after it.
pub open spec fn spec_push_key_value(
    next: i64,
    entries: Seq<(SpecKey, SpecValue)>,
    k: SpecKey,
    v: SpecValue,
) -> (i64, Seq<(SpecKey, SpecValue)>) {
    let next2 = match k {
        SpecKey::Int(n) => if i64::MIN <= n <= i64::MAX {
            wrap_inc(n as i64)
        } else {
            next
        },
        SpecKey::Str(_) => next,
    };
    (next2, spec_entries_insert(entries, k, v))
}

/// What parsing one value at token position `i` yields: the value and
/// the position after it, or the error and the position where the parse
/// stopped.
pub open spec fn spec_parse_value(src: Seq<char>, toks: Seq<(Token, int, int)>, i: int) -> Result<
    (SpecValue, int),
    (SpecParseError, int),
>
    decreases toks.len() - i, 0int,
{
    if i < 0 || i >= toks.len() {
        Err(
            (
                SpecParseError::UnexpectedToken(value_expected_tokens(), None, end_span(src)),
                i,
            ),
        )
    } else {
        let t = toks[i];
        if t.0 == Token::Bool || t.0 == Token::Integer || t.0 == Token::Float || t.0
            == Token::LiteralString || t.0 == Token::Null {
            match spec_parse_literal(src, t) {
                Ok(v) => Ok((v, i + 1)),
                Err(e) => Err((e, i + 1)),
            }
        } else if t.0 == Token::Array {
            if i + 1 >= toks.len() {
                Err(
                    (
                        SpecParseError::UnexpectedToken(
                            seq![Token::BracketOpen],
                            None,
                            end_span(src),
                        ),
                        i + 1,
                    ),
                )
            } else if toks[i + 1].0 == Token::BracketOpen {
                match spec_parse_array(src, toks, i + 2, 0, Seq::empty(), ArraySyntax::Long) {
                    Ok((es, j)) => Ok((SpecValue::Arr(es), j)),
                    Err(e) => Err(e),
                }
            } else {
                Err(
                    (
                        SpecParseError::UnexpectedToken(
                            seq![Token::BracketOpen],
                            Some(toks[i + 1].0),
                            tok_span(toks[i + 1]),
                        ),
                        i + 2,
                    ),
                )
            }
        } else if t.0 == Token::SquareOpen {
            match spec_parse_array(src, toks, i + 1, 0, Seq::empty(), ArraySyntax::Short) {
                Ok((es, j)) => Ok((SpecValue::Arr(es), j)),
                Err(e) => Err(e),
            }
        } else {
            Err(
                (
                    SpecParseError::UnexpectedToken(
                        value_expected_tokens(),
                        Some(t.0),
                        tok_span(t),
                    ),
                    i + 1,
                ),
            )
        }
    }
}

/// What parsing an array body at token position `i` yields, given the
/// auto-increment counter and the entries built so far. Finding the
/// body's closing bracket where a value was expected ends the body; it
/// covers both the empty body and a trailing comma.
pub open spec fn spec_parse_array(
    src: Seq<char>,
    toks: Seq<(Token, int, int)>,
    i: int,
    next: i64,
    entries: Seq<(SpecKey, SpecValue)>,
    syntax: ArraySyntax,
) -> Result<(Seq<(SpecKey, SpecValue)>, int), (SpecParseError, int)>
    decreases toks.len() - i, 1int,
{
    let close = syntax.spec_close_bracket();
    match spec_parse_value(src, toks, i) {
        Err((e, j)) => {
            if e matches SpecParseError::UnexpectedToken(_, Some(ft), _) && ft == close {
                Ok((entries, j))
            } else {
                Err((e, j))
            }
        },
        Ok((v, j)) => {
            if !(i < j <= toks.len()) {
                // A successful value parse always advances within bounds;
                // this branch only keeps the recursion well-founded.
                Err((SpecParseError::TrailingCharacters(end_span(src)), j))
            } else if j >= toks.len() {
                Err(
                    (
                        SpecParseError::UnexpectedToken(
                            seq![close, Token::Comma, Token::Arrow],
                            None,
                            end_span(src),
                        ),
                        j,
                    ),
                )
            } else {
                let t2 = toks[j];
                let vspan = tok_span(toks[j - 1]);
                if t2.0 == close {
                    Ok((spec_push_value(next, entries, v).1, j + 1))
                } else if t2.0 == Token::Comma {
                    let st = spec_push_value(next, entries, v);
                    spec_parse_array(src, toks, j + 1, st.0, st.1, syntax)
                } else if t2.0 == Token::Arrow {
                    match spec_parse_value(src, toks, j + 1) {
                        Err((e2, k)) => Err((e2, k)),
                        Ok((v2, k)) => match spec_coerce_key(v, vspan) {
                            Err(e3) => Err((e3, k)),
                            Ok(key) => {
                                let st = spec_push_key_value(next, entries, key, v2);
                                if !(j + 1 < k <= toks.len()) {
                                    // As above: only for well-foundedness.
                                    Err((SpecParseError::TrailingCharacters(end_span(src)), k))
                                } else if k >= toks.len() {
                                    Err(
                                        (
                                            SpecParseError::UnexpectedToken(
                                                seq![close, Token::Comma],
                                                None,
                                                end_span(src),
                                            ),
                                            k,
                                        ),
                                    )
                                } else if toks[k].0 == close {
                                    Ok((st.1, k + 1))
                                } else if toks[k].0 == Token::Comma {
                                    spec_parse_array(src, toks, k + 1, st.0, st.1, syntax)
                                } else {
                                    Err(
                                        (
                                            SpecParseError::UnexpectedToken(
                                                seq![close, Token::Comma],
                                                Some(toks[k].0),
                                                tok_span(toks[k]),
                                            ),
                                            k + 1,
                                        ),
                                    )
                                }
                            },
                        },
                    }
                } else {
                    Err(
                        (
                            SpecParseError::UnexpectedToken(
                                seq![close, Token::Comma, Token::Arrow],
                                Some(t2.0),
                                tok_span(t2),
                            ),
                            j + 1,
                        ),
                    )
                }
            }
        },
    }
}

proof fn lemma_insert_found(es: Seq<(SpecKey, SpecValue)>, k: SpecKey, v: SpecValue, j: int)
    requires
        0 <= j < es.len(),
        es[j].0 == k,
        forall|jj: int| 0 <= jj < j ==> (#[trigger] es[jj]).0 != k,
    ensures
        spec_entries_insert(es, k, v) == es.update(j, (k, v)),
    decreases es.len(),
{
    if j == 0 {
        assert(es.update(0, (k, v)) =~= seq![(k, v)] + es.drop_first());
    } else {
        assert(es[0].0 != k);
        assert(es.drop_first()[j - 1].0 == k);
        assert(forall|jj: int|
            0 <= jj < j - 1 ==> (#[trigger] es.drop_first()[jj]).0 != k);
        lemma_insert_found(es.drop_first(), k, v, j - 1);
        assert(es.update(j, (k, v)) =~= seq![es[0]] + es.drop_first().update(j - 1, (k, v)));
    }
}

proof fn lemma_insert_absent(es: Seq<(SpecKey, SpecValue)>, k: SpecKey, v: SpecValue)
    requires
        forall|jj: int| 0 <= jj < es.len() ==> (#[trigger] es[jj]).0 != k,
    ensures
        spec_entries_insert(es, k, v) == es.push((k, v)),
    decreases es.len(),
{
    if es.len() == 0 {
        assert(es.push((k, v)) =~= seq![(k, v)]);
    } else {
        assert(es[0].0 != k);
        assert(forall|jj: int|
            0 <= jj < es.drop_first().len() ==> (#[trigger] es.drop_first()[jj]).0 != k);
        lemma_insert_absent(es.drop_first(), k, v);
        assert(es.push((k, v)) =~= seq![es[0]] + es.drop_first().push((k, v)));
    }
}

/// Insert an entry, replacing the value of an existing equal key in
/// place, appending otherwise.
fn entries_insert(entries: &mut Vec<(Key, Value)>, k: Key, v: Value)
    ensures
        entries_view(final (entries)@) == spec_entries_insert(
            entries_view(old(entries)@),
            k@,
            value_view(v),
        ),
{
    let n = entries.len();
    let mut j: usize = 0;
    let ghost raw0 = entries@;
    while j < n
        invariant
            j <= n,
            n == entries.len(),
            entries@ == raw0,
            raw0 == old(entries)@,
            forall|jj: int| 0 <= jj < j ==> (#[trigger] raw0[jj]).0@ != k@,
        decreases n - j,
    {
        if entries[j].0 == k {
            let ghost ev0 = entries_view(raw0);
            proof {
                crate::value::lemma_entries_view_len(raw0);
                crate::value::lemma_entries_view_index(raw0, j as int);
                assert forall|jj: int| 0 <= jj < j implies (#[trigger] ev0[jj]).0 != k@ by {
                    crate::value::lemma_entries_view_index(raw0, jj);
                }
                lemma_insert_found(ev0, k@, value_view(v), j as int);
            }
            entries.remove(j);
            entries.insert(j, (k, v));
            proof {
                assert(entries@ =~= raw0.update(j as int, (k, v)));
                let raw1 = raw0.update(j as int, (k, v));
                crate::value::lemma_entries_view_len(raw1);
                crate::value::lemma_entries_view_len(raw0);
                assert forall|x: int| 0 <= x < raw1.len() implies entries_view(raw1)[x]
                    == ev0.update(j as int, (k@, value_view(v)))[x] by {
                    crate::value::lemma_entries_view_index(raw1, x);
                    crate::value::lemma_entries_view_index(raw0, x);
                }
                assert(entries_view(raw1) =~= ev0.update(j as int, (k@, value_view(v))));
            }
            return ;
        }
        j = j + 1;
        proof {
            crate::value::lemma_entries_view_index(raw0, j - 1);
        }
    }
    proof {
        let ev0 = entries_view(raw0);
        crate::value::lemma_entries_view_len(raw0);
        assert forall|jj: int| 0 <= jj < ev0.len() implies (#[trigger] ev0[jj]).0 != k@ by {
            crate::value::lemma_entries_view_index(raw0, jj);
        }
        lemma_insert_absent(ev0, k@, value_view(v));
    }
    entries.push((k, v));
    proof {
        assert(entries@.drop_last() =~= raw0);
        assert(entries_view(entries@) == entries_view(raw0).push((k@, value_view(v))));
    }
}

/// Push a bare value under the next auto-increment key.
fn push_entry_value(entries: &mut Vec<(Key, Value)>, next_key: &mut i64, v: Value)
    ensures
        ({
            let st = spec_push_value(
                *old(next_key),
                entries_view(old(entries)@),
                value_view(v),
            );
            *final (next_key) == st.0 && entries_view(final (entries)@) == st.1
        }),
{
    let key = Key::Int(*next_key);
    *next_key = if *next_key == i64::MAX {
        i64::MIN
    } else {
        *next_key + 1
    };
    entries_insert(entries, key, v);
}

/// Push an explicit `key => value` pair, resetting the counter after an
/// integer key.
fn push_entry_key_value(entries: &mut Vec<(Key, Value)>, next_key: &mut i64, k: Key, v: Value)
    ensures
        ({
            let st = spec_push_key_value(
                *old(next_key),
                entries_view(old(entries)@),
                k@,
                value_view(v),
            );
            *final (next_key) == st.0 && entries_view(final (entries)@) == st.1
        }),
{
    match &k {
        Key::Int(n) => {
            *next_key = if *n == i64::MAX {
                i64::MIN
            } else {
                *n + 1
            };
        },
        Key::String(_) => {},
    }
    entries_insert(entries, k, v);
}

/// The recursive-descent parser over a pre-scanned token stream.
pub struct Parser {
    src: Vec<char>,
    toks: Vec<SpannedToken>,
    pos: usize,
}

impl Parser {
    /// The characters of the source text.
    pub closed spec fn chars(&self) -> Seq<char> {
        self.src@
    }

    /// The token stream of the source text.
    pub open spec fn tuples(&self) -> Seq<(Token, int, int)> {
        spec_tokens_from(self.chars(), 0)
    }

    /// The position of the next unread token.
    pub closed spec fn position(&self) -> int {
        self.pos as int
    }

    /// Is the parser in a usable state?
    pub closed spec fn wf(&self) -> bool {
        &&& self.toks@.len() == self.tuples().len()
        &&& forall|k: int|
            0 <= k < self.toks@.len() ==> token_matches(#[trigger] self.toks@[k], self.tuples()[k])
        &&& self.pos <= self.toks@.len()
    }

    /// Start a parser over the given source text.
    pub fn new(source: &str) -> (r: Parser)
        ensures
            r.wf(),
            r.chars() == source@,
            r.position() == 0,
    {
        let src = str_to_chars(source);
        let toks = tokenize(&src);
        Parser { src, toks, pos: 0 }
    }

    /// Pull the next token, advancing past it.
    pub fn next_token(&mut self) -> (r: Option<SpannedToken>)
        requires
            old(self).wf(),
        ensures
            final (self).wf(),
            final (self).chars() == old(self).chars(),
            if old(self).position() < old(self).tuples().len() {
                &&& r matches Some(st) && token_matches(
                    st,
                    old(self).tuples()[old(self).position()],
                )
                &&& final (self).position() == old(self).position() + 1
            } else {
                r is None && final (self).position() == old(self).position()
            },
    {
        if self.pos < self.toks.len() {
            let t = self.toks[self.pos];
            self.pos = self.pos + 1;
            Some(t)
        } else {
            None
        }
    }

    /// The read position is an index: never negative.
    pub proof fn lemma_pos_nonneg(&self)
        ensures
            self.position() >= 0,
    {
    }

    /// Look at the token `off` positions ahead without advancing.
    pub fn peek_nth(&self, off: usize) -> (r: Option<SpannedToken>)
        requires
            self.wf(),
        ensures
            if self.position() + off < self.tuples().len() {
                r matches Some(st) && token_matches(st, self.tuples()[self.position() + off])
            } else {
                r is None
            },
    {
        if off < self.toks.len() && self.pos < self.toks.len() - off {
            Some(self.toks[self.pos + off])
        } else {
            None
        }
    }

    /// The characters of the span `[start, end)` of the source.
    fn span_chars(&self, start: usize, end: usize) -> (r: Vec<char>)
        requires
            start <= end <= self.chars().len(),
        ensures
            r@ == self.chars().subrange(start as int, end as int),
    {
        let mut out: Vec<char> = Vec::new();
        let mut i = start;
        while i < end
            invariant
                start <= i <= end <= self.src.len(),
                out@ == self.chars().subrange(start as int, i as int),
            decreases end - i,
        {
            out.push(self.src[i]);
            i = i + 1;
            proof {
                assert(out@ =~= self.chars().subrange(start as int, i as int));
            }
        }
        out
    }

    /// Decode a boolean literal token: `true` or `false`, in any letter
    /// case.
    pub fn parse_bool_token(&self, token: SpannedToken) -> (r: Result<bool, ParseError>)
        requires
            token.start <= token.end <= self.chars().len(),
        ensures
            ({
                let text = self.chars().subrange(token.start as int, token.end as int);
                match r {
                    Ok(b) => (is_true_text(text) && b) || (is_false_text(text) && !b),
                    Err(e) => !is_true_text(text) && !is_false_text(text) && e@
                        == SpecParseError::InvalidPrimitive(
                        PrimitiveErrorKind::InvalidBoolLiteral,
                        (token.start as int, token.end as int),
                    ),
                }
            }),
    {
        let t = self.span_chars(token.start, token.end);
        if t.len() == 4 && (t[0] == 't' || t[0] == 'T') && (t[1] == 'r' || t[1] == 'R') && (t[2]
            == 'u' || t[2] == 'U') && (t[3] == 'e' || t[3] == 'E') {
            Ok(true)
        } else if t.len() == 5 && (t[0] == 'f' || t[0] == 'F') && (t[1] == 'a' || t[1] == 'A') && (
        t[2] == 'l' || t[2] == 'L') && (t[3] == 's' || t[3] == 'S') && (t[4] == 'e' || t[4] == 'E')
            {
            Ok(false)
        } else {
            Err(
                ParseError::InvalidPrimitive(
                    PrimitiveError {
                        kind: PrimitiveErrorKind::InvalidBoolLiteral,
                        span: Span::new(token.start, token.end),
                    },
                ),
            )
        }
    }

    /// Decode an integer literal token.
    pub fn parse_int_token(&self, token: SpannedToken) -> (r: Result<i64, ParseError>)
        requires
            token.start <= token.end <= self.chars().len(),
        ensures
            ({
                let text = self.chars().subrange(token.start as int, token.end as int);
                match spec_parse_int(text) {
                    Ok(n) => r matches Ok(m) && m == n,
                    Err(e) => r matches Err(pe) && pe@ == SpecParseError::InvalidPrimitive(
                        PrimitiveErrorKind::InvalidIntLiteral(e),
                        (token.start as int, token.end as int),
                    ),
                }
            }),
    {
        let t = self.span_chars(token.start, token.end);
        match crate::num::parse_int_chars(&t) {
            Ok(n) => Ok(n),
            Err(e) => Err(
                ParseError::InvalidPrimitive(
                    PrimitiveError {
                        kind: PrimitiveErrorKind::InvalidIntLiteral(e),
                        span: Span::new(token.start, token.end),
                    },
                ),
            ),
        }
    }

    /// Decode a float literal token: the text with its `_` separators
    /// removed. The crate's core keeps floats as text; converting to a
    /// native float happens outside it.
    pub fn parse_float_token(&self, token: SpannedToken) -> (r: Result<String, ParseError>)
        requires
            token.start <= token.end <= self.chars().len(),
        ensures
            r matches Ok(t) && t@ == strip_separators(
                self.chars().subrange(token.start as int, token.end as int),
            ),
    {
        let t = self.span_chars(token.start, token.end);
        let mut out: Vec<char> = Vec::new();
        let n = t.len();
        let mut i: usize = 0;
        while i < n
            invariant
                i <= n,
                n == t.len(),
                out@ == strip_separators(t@.subrange(0, i as int)),
            decreases n - i,
        {
            let ghost pre = t@.subrange(0, i as int);
            let c = t[i];
            if c != '_' {
                out.push(c);
            }
            i = i + 1;
            proof {
                reveal(Seq::filter);
                assert(t@.subrange(0, i as int).drop_last() =~= pre);
                assert(t@.subrange(0, i as int).last() == c);
            }
        }
        proof {
            reveal(Seq::filter);
            assert(t@.subrange(0, 0).len() == 0);
            assert(t@.subrange(0, n as int) =~= t@);
        }
        Ok(crate::chars::chars_to_string(&out))
    }

    /// Decode a string literal token, quotes included.
    pub fn parse_string_token(&self, token: SpannedToken) -> (r: Result<String, ParseError>)
        requires
            token.start <= token.end <= self.chars().len(),
            token.end - token.start >= 2,
        ensures
            ({
                let text = self.chars().subrange(token.start as int, token.end as int);
                match spec_parse_string(text) {
                    Ok(s) => r matches Ok(out) && out@ == s,
                    Err(_) => r matches Err(pe) && pe@ == SpecParseError::InvalidPrimitive(
                        PrimitiveErrorKind::InvalidStringLiteral,
                        (token.start as int, token.end as int),
                    ),
                }
            }),
    {
        let t = self.span_chars(token.start, token.end);
        match parse_string_chars(&t) {
            Ok(s) => Ok(s),
            Err(_) => Err(
                ParseError::InvalidPrimitive(
                    PrimitiveError {
                        kind: PrimitiveErrorKind::InvalidStringLiteral,
                        span: Span::new(token.start, token.end),
                    },
                ),
            ),
        }
    }

    /// Decode one leaf token into a [`Value`].
    pub fn parse_literal(&self, token: SpannedToken) -> (r: Result<Value, ParseError>)
        requires
            token.start <= token.end <= self.chars().len(),
            token.token == Token::Bool || token.token == Token::Integer || token.token
                == Token::Float || token.token == Token::LiteralString || token.token
                == Token::Null,
            token.token == Token::LiteralString ==> token.end - token.start >= 2,
        ensures
            ({
                let t = (token.token, token.start as int, token.end as int);
                match spec_parse_literal(self.chars(), t) {
                    Ok(sv) => r matches Ok(v) && value_view(v) == sv,
                    Err(se) => r matches Err(e) && e@ == se,
                }
            }),
    {
        match token.token {
            Token::Bool => match self.parse_bool_token(token) {
                Ok(b) => Ok(Value::Bool(b)),
                Err(e) => Err(e),
            },
            Token::Integer => match self.parse_int_token(token) {
                Ok(n) => Ok(Value::Int(n)),
                Err(e) => Err(e),
            },
            Token::Float => match self.parse_float_token(token) {
                Ok(t) => Ok(Value::Float(t)),
                Err(e) => Err(e),
            },
            Token::LiteralString => match self.parse_string_token(token) {
                Ok(s) => Ok(Value::String(s)),
                Err(e) => Err(e),
            },
            _ => Ok(Value::Null),
        }
    }

    /// Apply the array-key coercion rule to an already parsed value.
    fn coerce_key(&self, v: Value, span: Span) -> (r: Result<Key, ParseError>)
        ensures
            match spec_coerce_key(value_view(v), span@) {
                Ok(sk) => r matches Ok(k) && k@ == sk,
                Err(se) => r matches Err(e) && e@ == se,
            },
    {
        match v {
            Value::Int(n) => Ok(Key::Int(n)),
            Value::Float(text) => {
                let t = str_to_chars(text.as_str());
                Ok(Key::Int(float_trunc_chars(&t)))
            },
            Value::String(s) => {
                let t = str_to_chars(s.as_str());
                match int_key_value_chars(&t) {
                    Some(n) => Ok(Key::Int(n)),
                    None => Ok(Key::String(s)),
                }
            },
            Value::Bool(b) => Ok(
                Key::Int(
                    if b {
                        1
                    } else {
                        0
                    },
                ),
            ),
            Value::Null => {
                let empty = String::new();
                Ok(Key::String(empty))
            },
            Value::Array(_) => Err(
                ParseError::UnexpectedArrayKey(
                    ArrayKeyError::new(ArrayKeyErrorKind::IntegerExpected, span),
                ),
            ),
        }
    }

    /// Decode a token that stands on the left of `=>` into a [`Key`],
    /// applying the array-key coercion rule; a token that cannot start a
    /// key is an error.
    pub fn parse_array_key(&self, token: SpannedToken) -> (r: Result<Key, ParseError>)
        requires
            token.start <= token.end <= self.chars().len(),
            token.token == Token::LiteralString ==> token.end - token.start >= 2,
        ensures
            ({
                let t = (token.token, token.start as int, token.end as int);
                match spec_parse_array_key(self.chars(), t) {
                    Ok(sk) => r matches Ok(k) && k@ == sk,
                    Err(se) => r matches Err(e) && e@ == se,
                }
            }),
    {
        match token.token {
            Token::Bool | Token::Integer | Token::Float | Token::LiteralString | Token::Null => {
                match self.parse_literal(token) {
                    Ok(v) => self.coerce_key(v, Span::new(token.start, token.end)),
                    Err(e) => Err(e),
                }
            },
            _ => {
                let mut expected: Vec<Token> = Vec::new();
                expected.push(Token::Bool);
                expected.push(Token::Integer);
                expected.push(Token::Float);
                expected.push(Token::LiteralString);
                expected.push(Token::Null);
                proof {
                    assert(expected@ =~= key_expected_tokens());
                }
                Err(
                    ParseError::UnexpectedToken(
                        UnexpectedTokenError::new(
                            expected,
                            Some(token.token),
                            Span::new(token.start, token.end),
                        ),
                    ),
                )
            },
        }
    }
}

fn value_expected_vec() -> (r: Vec<Token>)
    ensures
        r@ == value_expected_tokens(),
{
    let mut v: Vec<Token> = Vec::new();
    v.push(Token::Bool);
    v.push(Token::Integer);
    v.push(Token::Float);
    v.push(Token::LiteralString);
    v.push(Token::Null);
    v.push(Token::Array);
    v.push(Token::SquareOpen);
    proof {
        assert(v@ =~= value_expected_tokens());
    }
    v
}

impl Parser {
    /// The span that stands for the end of the input.
    pub(crate) fn end_span_exec(&self) -> (r: Span)
        ensures
            r@ == end_span(self.chars()),
    {
        Span::new(self.src.len(), self.src.len())
    }

    /// Parse one value starting at the current position: a leaf literal,
    /// or a whole array in either spelling.
    pub fn parse_value(&mut self) -> (r: Result<Value, ParseError>)
        requires
            old(self).wf(),
        ensures
            final (self).wf(),
            final (self).chars() == old(self).chars(),
            match spec_parse_value(old(self).chars(), old(self).tuples(), old(self).position()) {
                Ok((sv, j)) => r matches Ok(v) && value_view(v) == sv && final (self).position()
                    == j,
                Err((se, j)) => r matches Err(e) && e@ == se && final (self).position() == j,
            },
        decreases self.tuples().len() - self.position(), 0int,
    {
        let ghost src = self.chars();
        let ghost tups = self.tuples();
        let ghost i = self.position();
        proof {
            crate::lexer::lemma_tokens_from_bounds(src, 0);
        }
        let n = self.toks.len();
        if self.pos >= n {
            return Err(
                ParseError::UnexpectedToken(
                    UnexpectedTokenError::new(value_expected_vec(), None, self.end_span_exec()),
                ),
            );
        }
        let tok = self.toks[self.pos];
        proof {
            assert(token_matches(tok, tups[i]));
        }
        match tok.token {
            Token::Bool | Token::Integer | Token::Float | Token::LiteralString | Token::Null => {
                let r = self.parse_literal(tok);
                self.pos = self.pos + 1;
                match r {
                    Ok(v) => Ok(v),
                    Err(e) => Err(e),
                }
            },
            Token::Array => {
                self.pos = self.pos + 1;
                if self.pos >= n {
                    let mut expected: Vec<Token> = Vec::new();
                    expected.push(Token::BracketOpen);
                    proof {
                        assert(expected@ =~= seq![Token::BracketOpen]);
                    }
                    return Err(
                        ParseError::UnexpectedToken(
                            UnexpectedTokenError::new(expected, None, self.end_span_exec()),
                        ),
                    );
                }
                let t2 = self.toks[self.pos];
                proof {
                    assert(token_matches(t2, tups[i + 1]));
                }
                self.pos = self.pos + 1;
                if t2.token == Token::BracketOpen {
                    match self.parse_array(ArraySyntax::Long) {
                        Ok(entries) => Ok(Value::Array(entries)),
                        Err(e) => Err(e),
                    }
                } else {
                    let mut expected: Vec<Token> = Vec::new();
                    expected.push(Token::BracketOpen);
                    proof {
                        assert(expected@ =~= seq![Token::BracketOpen]);
                    }
                    Err(
                        ParseError::UnexpectedToken(
                            UnexpectedTokenError::new(
                                expected,
                                Some(t2.token),
                                Span::new(t2.start, t2.end),
                            ),
                        ),
                    )
                }
            },
            Token::SquareOpen => {
                self.pos = self.pos + 1;
                match self.parse_array(ArraySyntax::Short) {
                    Ok(entries) => Ok(Value::Array(entries)),
                    Err(e) => Err(e),
                }
            },
            _ => {
                self.pos = self.pos + 1;
                Err(
                    ParseError::UnexpectedToken(
                        UnexpectedTokenError::new(
                            value_expected_vec(),
                            Some(tok.token),
                            Span::new(tok.start, tok.end),
                        ),
                    ),
                )
            },
        }
    }

    /// Parse an array body in the given spelling, the opening bracket
    /// already consumed.
    fn parse_array(&mut self, syntax: ArraySyntax) -> (r: Result<Vec<(Key, Value)>, ParseError>)
        requires
            old(self).wf(),
        ensures
            final (self).wf(),
            final (self).chars() == old(self).chars(),
            match spec_parse_array(
                old(self).chars(),
                old(self).tuples(),
                old(self).position(),
                0,
                Seq::empty(),
                syntax,
            ) {
                Ok((es, j)) => r matches Ok(en) && entries_view(en@) == es && final (
                self).position() == j,
                Err((se, j)) => r matches Err(e) && e@ == se && final (self).position() == j,
            },
        decreases self.tuples().len() - self.position(), 1int,
    {
        let ghost src = self.chars();
        let ghost tups = self.tuples();
        let ghost i0 = self.position();
        let close = syntax.close_bracket();
        let mut entries: Vec<(Key, Value)> = Vec::new();
        let mut next_key: i64 = 0;
        proof {
            assert(entries_view(entries@) =~= Seq::<(SpecKey, SpecValue)>::empty());
        }
        loop
            invariant
                self.wf(),
                self.chars() == src,
                src == old(self).chars(),
                i0 == old(self).position(),
                tups == self.tuples(),
                close == syntax.spec_close_bracket(),
                i0 <= self.position() <= tups.len(),
                spec_parse_array(
                    src,
                    tups,
                    self.position(),
                    next_key,
                    entries_view(entries@),
                    syntax,
                ) == spec_parse_array(src, tups, i0, 0, Seq::empty(), syntax),
            decreases self.toks@.len() - self.pos as int,
        {
            let ghost pos0 = self.position();
            let ghost next0 = next_key;
            let ghost ev0 = entries_view(entries@);
            proof {
                lemma_parse_value_pos(src, tups, pos0);
                crate::lexer::lemma_tokens_from_bounds(src, 0);
            }
            match self.parse_value() {
                Err(e) => {
                    let caught = match &e {
                        ParseError::UnexpectedToken(ute) => match ute.found {
                            Some(ft) => ft == close,
                            None => false,
                        },
                        _ => false,
                    };
                    if caught {
                        return Ok(entries);
                    } else {
                        return Err(e);
                    }
                },
                Ok(v) => {
                    let ghost j = self.position();
                    let n = self.toks.len();
                    if self.pos >= n {
                        let mut expected: Vec<Token> = Vec::new();
                        expected.push(close);
                        expected.push(Token::Comma);
                        expected.push(Token::Arrow);
                        proof {
                            assert(expected@ =~= seq![close, Token::Comma, Token::Arrow]);
                        }
                        return Err(
                            ParseError::UnexpectedToken(
                                UnexpectedTokenError::new(expected, None, self.end_span_exec()),
                            ),
                        );
                    }
                    let t2 = self.toks[self.pos];
                    let prev = self.toks[self.pos - 1];
                    let vspan = Span::new(prev.start, prev.end);
                    proof {
                        assert(token_matches(t2, tups[j]));
                        assert(token_matches(prev, tups[j - 1]));
                    }
                    self.pos = self.pos + 1;
                    if t2.token == close {
                        push_entry_value(&mut entries, &mut next_key, v);
                        return Ok(entries);
                    } else if t2.token == Token::Comma {
                        push_entry_value(&mut entries, &mut next_key, v);
                        proof {
                            assert(spec_parse_array(
                                src,
                                tups,
                                self.position(),
                                next_key,
                                entries_view(entries@),
                                syntax,
                            ) == spec_parse_array(src, tups, i0, 0, Seq::empty(), syntax));
                        }
                    } else if t2.token == Token::Arrow {
                        match self.parse_value() {
                            Err(e2) => {
                                return Err(e2);
                            },
                            Ok(v2) => {
                                proof {
                                    lemma_parse_value_pos(src, tups, j + 1);
                                }
                                let ghost k = self.position();
                                let key = match self.coerce_key(v, vspan) {
                                    Err(e3) => {
                                        return Err(e3);
                                    },
                                    Ok(key) => key,
                                };
                                push_entry_key_value(&mut entries, &mut next_key, key, v2);
                                if self.pos >= n {
                                    let mut expected: Vec<Token> = Vec::new();
                                    expected.push(close);
                                    expected.push(Token::Comma);
                                    proof {
                                        assert(expected@ =~= seq![close, Token::Comma]);
                                    }
                                    return Err(
                                        ParseError::UnexpectedToken(
                                            UnexpectedTokenError::new(
                                                expected,
                                                None,
                                                self.end_span_exec(),
                                            ),
                                        ),
                                    );
                                }
                                let t3 = self.toks[self.pos];
                                proof {
                                    assert(token_matches(t3, tups[k]));
                                }
                                self.pos = self.pos + 1;
                                if t3.token == close {
                                    return Ok(entries);
                                } else if t3.token == Token::Comma {
                                    proof {
                                        assert(spec_parse_array(
                                            src,
                                            tups,
                                            self.position(),
                                            next_key,
                                            entries_view(entries@),
                                            syntax,
                                        ) == spec_parse_array(src, tups, i0, 0, Seq::empty(), syntax));
                                    }
                                } else {
                                    let mut expected: Vec<Token> = Vec::new();
                                    expected.push(close);
                                    expected.push(Token::Comma);
                                    proof {
                                        assert(expected@ =~= seq![close, Token::Comma]);
                                    }
                                    return Err(
                                        ParseError::UnexpectedToken(
                                            UnexpectedTokenError::new(
                                                expected,
                                                Some(t3.token),
                                                Span::new(t3.start, t3.end),
                                            ),
                                        ),
                                    );
                                }
                            },
                        }
                    } else {
                        let mut expected: Vec<Token> = Vec::new();
                        expected.push(close);
                        expected.push(Token::Comma);
                        expected.push(Token::Arrow);
                        proof {
                            assert(expected@ =~= seq![close, Token::Comma, Token::Arrow]);
                        }
                        return Err(
                            ParseError::UnexpectedToken(
                                UnexpectedTokenError::new(
                                    expected,
                                    Some(t2.token),
                                    Span::new(t2.start, t2.end),
                                ),
                            ),
                        );
                    }
                },
            }
        }
    }
}

/// What parsing a whole source text yields: one literal value, with a
/// lone trailing `;` tolerated; anything further is the trailing
/// characters error, carrying the span of the first trailing token.
pub open spec fn spec_from_str(s: Seq<char>) -> Result<SpecValue, SpecParseError> {
    let toks = spec_tokens_from(s, 0);
    match spec_parse_value(s, toks, 0) {
        Err((e, j)) => Err(e),
        Ok((v, j)) => {
            if j < toks.len() && toks[j].0 == Token::SemiColon {
                if j + 1 < toks.len() {
                    Err(SpecParseError::TrailingCharacters(tok_span(toks[j + 1])))
                } else {
                    Ok(v)
                }
            } else if j < toks.len() {
                Err(SpecParseError::TrailingCharacters(tok_span(toks[j])))
            } else {
                Ok(v)
            }
        },
    }
}

/// Parse a php literal.
///
/// Exactly one literal value is accepted, optionally followed by a
/// single `;`; any further content fails with the trailing characters
/// error.
pub fn from_str(source: &str) -> (r: Result<Value, ParseError>)
    ensures
        match spec_from_str(source@) {
            Ok(sv) => r matches Ok(v) && value_view(v) == sv,
            Err(se) => r matches Err(e) && e@ == se,
        },
{
    let mut parser = Parser::new(source);
    proof {
        lemma_parse_value_pos(source@, spec_tokens_from(source@, 0), 0);
    }
    match parser.parse_value() {
        Err(e) => Err(e),
        Ok(v) => {
            match parser.next_token() {
                None => Ok(v),
                Some(t) => {
                    if t.token == Token::SemiColon {
                        match parser.next_token() {
                            None => Ok(v),
                            Some(t2) => Err(
                                ParseError::TrailingCharacters(
                                    TrailingError::new(Span::new(t2.start, t2.end)),
                                ),
                            ),
                        }
                    } else {
                        Err(
                            ParseError::TrailingCharacters(
                                TrailingError::new(Span::new(t.start, t.end)),
                            ),
                        )
                    }
                },
            }
        },
    }
}

/// Parse a php literal; the same contract as [`from_str`].
pub fn parse(source: &str) -> (r: Result<Value, ParseError>)
    ensures
        match spec_from_str(source@) {
            Ok(sv) => r matches Ok(v) && value_view(v) == sv,
            Err(se) => r matches Err(e) && e@ == se,
        },
{
    from_str(source)
}

/// The tokens that may start an array key.
pub open spec fn key_expected_tokens() -> Seq<Token> {
    seq![Token::Bool, Token::Integer, Token::Float, Token::LiteralString, Token::Null]
}

/// What decoding an array-key token yields: the coerced key, or an
/// error.
pub open spec fn spec_parse_array_key(src: Seq<char>, t: (Token, int, int)) -> Result<
    SpecKey,
    SpecParseError,
> {
    if t.0 == Token::Bool || t.0 == Token::Integer || t.0 == Token::Float || t.0
        == Token::LiteralString || t.0 == Token::Null {
        match spec_parse_literal(src, t) {
            Ok(v) => spec_coerce_key(v, tok_span(t)),
            Err(e) => Err(e),
        }
    } else {
        Err(SpecParseError::UnexpectedToken(key_expected_tokens(), Some(t.0), tok_span(t)))
    }
}

/// A successful or failed value parse never moves backwards, and never
/// past the end of the token list.
pub proof fn lemma_parse_value_pos(src: Seq<char>, toks: Seq<(Token, int, int)>, i: int)
    requires
        0 <= i <= toks.len(),
    ensures
        match spec_parse_value(src, toks, i) {
            Ok((v, j)) => i < j <= toks.len(),
            Err((e, j)) => i <= j <= toks.len(),
        },
    decreases toks.len() - i, 0int,
{
    if 0 <= i < toks.len() {
        let t = toks[i];
        if t.0 == Token::Array {
            if i + 1 < toks.len() && toks[i + 1].0 == Token::BracketOpen {
                lemma_parse_array_pos(src, toks, i + 2, 0, Seq::empty(), ArraySyntax::Long);
            }
        } else if t.0 == Token::SquareOpen {
            lemma_parse_array_pos(src, toks, i + 1, 0, Seq::empty(), ArraySyntax::Short);
        }
    }
}

/// The array-body parse also stays within bounds and never moves
/// backwards.
pub proof fn lemma_parse_array_pos(
    src: Seq<char>,
    toks: Seq<(Token, int, int)>,
    i: int,
    next: i64,
    entries: Seq<(SpecKey, SpecValue)>,
    syntax: ArraySyntax,
)
    requires
        0 <= i <= toks.len(),
    ensures
        match spec_parse_array(src, toks, i, next, entries, syntax) {
            Ok((es, j)) => i <= j <= toks.len(),
            Err((e, j)) => i <= j <= toks.len(),
        },
    decreases toks.len() - i, 1int,
{
    let close = syntax.spec_close_bracket();
    lemma_parse_value_pos(src, toks, i);
    match spec_parse_value(src, toks, i) {
        Err((e, j)) => {},
        Ok((v, j)) => {
            if i < j <= toks.len() && j < toks.len() {
                let t2 = toks[j];
                if t2.0 == Token::Comma {
                    let st = spec_push_value(next, entries, v);
                    lemma_parse_array_pos(src, toks, j + 1, st.0, st.1, syntax);
                } else if t2.0 == Token::Arrow {
                    lemma_parse_value_pos(src, toks, j + 1);
                    match spec_parse_value(src, toks, j + 1) {
                        Err(_) => {},
                        Ok((v2, k)) => {
                            match spec_coerce_key(v, tok_span(toks[j - 1])) {
                                Err(_) => {},
                                Ok(key) => {
                                    let st = spec_push_key_value(next, entries, key, v2);
                                    if j + 1 < k <= toks.len() && k < toks.len() && toks[k].0
                                        == Token::Comma {
                                        lemma_parse_array_pos(src, toks, k + 1, st.0, st.1, syntax);
                                    }
                                },
                            }
                        },
                    }
                }
            }
        },
    }
}

} // verus!
