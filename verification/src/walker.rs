//! The deserialization walker: a pull-based adapter that feeds the token
//! stream to a typed consumer, without building a [`crate::Value`] tree.
//!
//! The consumer (a generic visitor layer outside this crate's core)
//! declares the shape it expects; the walker supplies "expect and
//! consume" operations for scalars, array bodies walked as sequences or
//! maps, and enum encodings. Walking a sequence validates each explicit
//! integer key against the running auto-index; walking a map decodes
//! explicit keys by the array-key coercion rule and synthesizes the
//! decimal form of the auto-index for implicit entries.

use vstd::prelude::*;

use crate::error::ArrayKeyError;
use crate::error::ArrayKeyErrorKind;
use crate::error::ParseError;
use crate::error::PrimitiveError;
use crate::error::PrimitiveErrorKind;
use crate::error::Span;
use crate::error::SpecParseError;
use crate::lexer::spec_tokens_from;
use crate::lexer::token_matches;
use crate::lexer::SpannedToken;
use crate::lexer::Token;
use crate::num::i64_to_dec_string;
use crate::num::spec_int_to_dec;
use crate::num::spec_parse_int;
use crate::num::ParseIntError;
use crate::parser::end_span;
use crate::parser::is_false_text;
use crate::parser::is_true_text;
use crate::parser::spec_parse_array_key;
use crate::parser::strip_separators;
use crate::parser::tok_span;
use crate::parser::tok_text;
use crate::parser::wrap_inc;
use crate::parser::ArraySyntax;
use crate::parser::Parser;
use crate::string::spec_parse_string;
use crate::value::Key;
use crate::value::SpecKey;

verus! {

/// Is the token one that can start a value?
pub open spec fn starts_value(t: Token) -> bool {
    t == Token::Bool || t == Token::Integer || t == Token::Float || t == Token::LiteralString || t
        == Token::Null || t == Token::Array || t == Token::SquareOpen
}

/// Is the token a scalar or null literal?
pub open spec fn is_leaf_token(t: Token) -> bool {
    t == Token::Bool || t == Token::Integer || t == Token::Float || t == Token::LiteralString || t
        == Token::Null
}

/// The pull-based token reader behind the typed deserialization
/// protocol.
pub struct Deserializer {
    parser: Parser,
}

impl Deserializer {
    /// The characters of the source text.
    pub closed spec fn chars(&self) -> Seq<char> {
        self.parser.chars()
    }

    /// The token stream of the source text.
    pub open spec fn tuples(&self) -> Seq<(Token, int, int)> {
        crate::lexer::spec_tokens_from(self.chars(), 0)
    }

    /// The position of the next unread token.
    pub closed spec fn position(&self) -> int {
        self.parser.position()
    }

    /// Is the reader in a usable state?
    pub closed spec fn wf(&self) -> bool {
        self.parser.wf()
    }

    /// Start reading the given source text.
    pub fn from_str(input: &str) -> (r: Deserializer)
        ensures
            r.wf(),
            r.chars() == input@,
            r.position() == 0,
    {
        Deserializer { parser: Parser::new(input) }
    }

    /// Pull the next token, advancing past it.
    pub fn next_token(&mut self) -> (r: Option<SpannedToken>)
        requires
            old(self).wf(),
        ensures
            final (self).wf(),
            final (self).chars() == old(self).chars(),
            if old(self).position() < old(self).tuples().len() {
                &&& r matches Some(st) && token_matches(
                    st,
                    old(self).tuples()[old(self).position()],
                )
                &&& final (self).position() == old(self).position() + 1
            } else {
                r is None && final (self).position() == old(self).position()
            },
    {
        self.parser.next_token()
    }

    /// Look at the token `off` positions ahead without advancing.
    pub fn peek_nth(&self, off: usize) -> (r: Option<SpannedToken>)
        requires
            self.wf(),
        ensures
            if self.position() + off < self.tuples().len() {
                r matches Some(st) && token_matches(st, self.tuples()[self.position() + off])
            } else {
                r is None
            },
    {
        self.parser.peek_nth(off)
    }

    /// Look at the next token without advancing.
    pub fn peek_token(&self) -> (r: Option<SpannedToken>)
        requires
            self.wf(),
        ensures
            if self.position() < self.tuples().len() {
                r matches Some(st) && token_matches(st, self.tuples()[self.position()])
            } else {
                r is None
            },
    {
        self.parser.peek_nth(0)
    }

    /// Discard the next token, if any.
    pub fn eat_token(&mut self)
        requires
            old(self).wf(),
        ensures
            final (self).wf(),
            final (self).chars() == old(self).chars(),
            final (self).position() == if old(self).position() < old(self).tuples().len() {
                old(self).position() + 1
            } else {
                old(self).position()
            },
    {
        let _ = self.parser.next_token();
    }

    /// Consume the next token, which must have exactly the expected
    /// classification.
    pub fn expect_next(&mut self, expected: Token) -> (r: Result<SpannedToken, ParseError>)
        requires
            old(self).wf(),
        ensures
            final (self).wf(),
            final (self).chars() == old(self).chars(),
            ({
                let tups = old(self).tuples();
                let i = old(self).position();
                let src = old(self).chars();
                if i >= tups.len() {
                    r matches Err(e) && e@ == SpecParseError::UnexpectedToken(
                        seq![expected],
                        None,
                        end_span(src),
                    ) && final (self).position() == i
                } else if tups[i].0 == expected {
                    r matches Ok(st) && token_matches(st, tups[i]) && final (self).position() == i
                        + 1
                } else {
                    r matches Err(e) && e@ == SpecParseError::UnexpectedToken(
                        seq![expected],
                        Some(tups[i].0),
                        tok_span(tups[i]),
                    ) && final (self).position() == i + 1
                }
            }),
    {
        match self.parser.next_token() {
            None => {
                let mut exp: Vec<Token> = Vec::new();
                exp.push(expected);
                proof {
                    assert(exp@ =~= seq![expected]);
                }
                Err(
                    ParseError::UnexpectedToken(
                        crate::error::UnexpectedTokenError::new(
                            exp,
                            None,
                            self.parser.end_span_exec(),
                        ),
                    ),
                )
            },
            Some(t) => {
                if t.token == expected {
                    Ok(t)
                } else {
                    let mut exp: Vec<Token> = Vec::new();
                    exp.push(expected);
                    proof {
                        assert(exp@ =~= seq![expected]);
                    }
                    Err(
                        ParseError::UnexpectedToken(
                            crate::error::UnexpectedTokenError::new(
                                exp,
                                Some(t.token),
                                Span::new(t.start, t.end),
                            ),
                        ),
                    )
                }
            },
        }
    }

    /// Consume and decode a boolean literal.
    pub fn parse_bool(&mut self) -> (r: Result<bool, ParseError>)
        requires
            old(self).wf(),
        ensures
            final (self).wf(),
            final (self).chars() == old(self).chars(),
            ({
                let tups = old(self).tuples();
                let i = old(self).position();
                let src = old(self).chars();
                if i >= tups.len() {
                    r matches Err(e) && e@ == SpecParseError::UnexpectedToken(
                        seq![Token::Bool],
                        None,
                        end_span(src),
                    ) && final (self).position() == i
                } else if tups[i].0 != Token::Bool {
                    r matches Err(e) && e@ == SpecParseError::UnexpectedToken(
                        seq![Token::Bool],
                        Some(tups[i].0),
                        tok_span(tups[i]),
                    ) && final (self).position() == i + 1
                } else {
                    let text = tok_text(src, tups[i]);
                    final (self).position() == i + 1 && (match r {
                        Ok(b) => (is_true_text(text) && b) || (is_false_text(text) && !b),
                        Err(e) => !is_true_text(text) && !is_false_text(text) && e@
                            == SpecParseError::InvalidPrimitive(
                            PrimitiveErrorKind::InvalidBoolLiteral,
                            tok_span(tups[i]),
                        ),
                    })
                }
            }),
    {
        proof {
            crate::lexer::lemma_tokens_from_bounds(self.chars(), 0);
        }
        let t = match self.expect_next(Token::Bool) {
            Ok(t) => t,
            Err(e) => {
                return Err(e);
            },
        };
        proof {
            old(self).parser.lemma_pos_nonneg();
            assert(spec_tokens_from(old(self).chars(), 0)[old(self).position()] == old(
                self,
            ).tuples()[old(self).position()]);
        }
        self.parser.parse_bool_token(t)
    }

    /// Consume and decode an integer literal.
    pub fn parse_signed(&mut self) -> (r: Result<i64, ParseError>)
        requires
            old(self).wf(),
        ensures
            final (self).wf(),
            final (self).chars() == old(self).chars(),
            ({
                let tups = old(self).tuples();
                let i = old(self).position();
                let src = old(self).chars();
                if i >= tups.len() {
                    r matches Err(e) && e@ == SpecParseError::UnexpectedToken(
                        seq![Token::Integer],
                        None,
                        end_span(src),
                    ) && final (self).position() == i
                } else if tups[i].0 != Token::Integer {
                    r matches Err(e) && e@ == SpecParseError::UnexpectedToken(
                        seq![Token::Integer],
                        Some(tups[i].0),
                        tok_span(tups[i]),
                    ) && final (self).position() == i + 1
                } else {
                    final (self).position() == i + 1 && (match spec_parse_int(
                        tok_text(src, tups[i]),
                    ) {
                        Ok(n) => r matches Ok(m) && m == n,
                        Err(e) => r matches Err(pe) && pe@ == SpecParseError::InvalidPrimitive(
                            PrimitiveErrorKind::InvalidIntLiteral(e),
                            tok_span(tups[i]),
                        ),
                    })
                }
            }),
    {
        proof {
            crate::lexer::lemma_tokens_from_bounds(self.chars(), 0);
        }
        let t = match self.expect_next(Token::Integer) {
            Ok(t) => t,
            Err(e) => {
                return Err(e);
            },
        };
        proof {
            old(self).parser.lemma_pos_nonneg();
            assert(spec_tokens_from(old(self).chars(), 0)[old(self).position()] == old(
                self,
            ).tuples()[old(self).position()]);
        }
        self.parser.parse_int_token(t)
    }

    /// Consume and decode an integer literal that must not be negative.
    pub fn parse_unsigned(&mut self) -> (r: Result<i64, ParseError>)
        requires
            old(self).wf(),
        ensures
            final (self).wf(),
            final (self).chars() == old(self).chars(),
            ({
                let tups = old(self).tuples();
                let i = old(self).position();
                let src = old(self).chars();
                if i >= tups.len() {
                    r matches Err(e) && e@ == SpecParseError::UnexpectedToken(
                        seq![Token::Integer],
                        None,
                        end_span(src),
                    ) && final (self).position() == i
                } else if tups[i].0 != Token::Integer {
                    r matches Err(e) && e@ == SpecParseError::UnexpectedToken(
                        seq![Token::Integer],
                        Some(tups[i].0),
                        tok_span(tups[i]),
                    ) && final (self).position() == i + 1
                } else {
                    final (self).position() == i + 1 && (match spec_parse_int(
                        tok_text(src, tups[i]),
                    ) {
                        Ok(n) => if n >= 0 {
                            r matches Ok(m) && m == n
                        } else {
                            r matches Err(pe) && pe@ == SpecParseError::InvalidPrimitive(
                                PrimitiveErrorKind::InvalidIntLiteral(
                                    ParseIntError::UnexpectedNegative,
                                ),
                                tok_span(tups[i]),
                            )
                        },
                        Err(e) => r matches Err(pe) && pe@ == SpecParseError::InvalidPrimitive(
                            PrimitiveErrorKind::InvalidIntLiteral(e),
                            tok_span(tups[i]),
                        ),
                    })
                }
            }),
    {
        proof {
            crate::lexer::lemma_tokens_from_bounds(self.chars(), 0);
        }
        let t = match self.expect_next(Token::Integer) {
            Ok(t) => t,
            Err(e) => {
                return Err(e);
            },
        };
        proof {
            old(self).parser.lemma_pos_nonneg();
            assert(spec_tokens_from(old(self).chars(), 0)[old(self).position()] == old(
                self,
            ).tuples()[old(self).position()]);
        }
        match self.parser.parse_int_token(t) {
            Err(e) => Err(e),
            Ok(n) => {
                if n < 0 {
                    Err(
                        ParseError::InvalidPrimitive(
                            PrimitiveError {
                                kind: PrimitiveErrorKind::InvalidIntLiteral(
                                    ParseIntError::UnexpectedNegative,
                                ),
                                span: Span::new(t.start, t.end),
                            },
                        ),
                    )
                } else {
                    Ok(n)
                }
            },
        }
    }

    /// Consume a float literal; the result is its text with the `_`
    /// separators removed.
    pub fn parse_float(&mut self) -> (r: Result<String, ParseError>)
        requires
            old(self).wf(),
        ensures
            final (self).wf(),
            final (self).chars() == old(self).chars(),
            ({
                let tups = old(self).tuples();
                let i = old(self).position();
                let src = old(self).chars();
                if i >= tups.len() {
                    r matches Err(e) && e@ == SpecParseError::UnexpectedToken(
                        seq![Token::Float],
                        None,
                        end_span(src),
                    ) && final (self).position() == i
                } else if tups[i].0 != Token::Float {
                    r matches Err(e) && e@ == SpecParseError::UnexpectedToken(
                        seq![Token::Float],
                        Some(tups[i].0),
                        tok_span(tups[i]),
                    ) && final (self).position() == i + 1
                } else {
                    final (self).position() == i + 1 && (r matches Ok(out) && out@
                        == strip_separators(tok_text(src, tups[i])))
                }
            }),
    {
        proof {
            crate::lexer::lemma_tokens_from_bounds(self.chars(), 0);
        }
        let t = match self.expect_next(Token::Float) {
            Ok(t) => t,
            Err(e) => {
                return Err(e);
            },
        };
        proof {
            old(self).parser.lemma_pos_nonneg();
            assert(spec_tokens_from(old(self).chars(), 0)[old(self).position()] == old(
                self,
            ).tuples()[old(self).position()]);
        }
        self.parser.parse_float_token(t)
    }

    /// Consume and decode a string literal.
    pub fn parse_string(&mut self) -> (r: Result<String, ParseError>)
        requires
            old(self).wf(),
        ensures
            final (self).wf(),
            final (self).chars() == old(self).chars(),
            ({
                let tups = old(self).tuples();
                let i = old(self).position();
                let src = old(self).chars();
                if i >= tups.len() {
                    r matches Err(e) && e@ == SpecParseError::UnexpectedToken(
                        seq![Token::LiteralString],
                        None,
                        end_span(src),
                    ) && final (self).position() == i
                } else if tups[i].0 != Token::LiteralString {
                    r matches Err(e) && e@ == SpecParseError::UnexpectedToken(
                        seq![Token::LiteralString],
                        Some(tups[i].0),
                        tok_span(tups[i]),
                    ) && final (self).position() == i + 1
                } else {
                    final (self).position() == i + 1 && (match spec_parse_string(
                        tok_text(src, tups[i]),
                    ) {
                        Ok(s) => r matches Ok(out) && out@ == s,
                        Err(_) => r matches Err(pe) && pe@ == SpecParseError::InvalidPrimitive(
                            PrimitiveErrorKind::InvalidStringLiteral,
                            tok_span(tups[i]),
                        ),
                    })
                }
            }),
    {
        proof {
            crate::lexer::lemma_tokens_from_bounds(self.chars(), 0);
        }
        let t = match self.expect_next(Token::LiteralString) {
            Ok(t) => t,
            Err(e) => {
                return Err(e);
            },
        };
        proof {
            old(self).parser.lemma_pos_nonneg();
            assert(spec_tokens_from(old(self).chars(), 0)[old(self).position()] == old(
                self,
            ).tuples()[old(self).position()]);
        }
        self.parser.parse_string_token(t)
    }

    /// Classify the value that starts at the current position, without
    /// consuming anything: the consumer of `deserialize_any` dispatches
    /// on the returned token.
    pub fn peek_value_token(&self) -> (r: Result<Token, ParseError>)
        requires
            self.wf(),
        ensures
            ({
                let tups = self.tuples();
                let i = self.position();
                let src = self.chars();
                if i >= tups.len() {
                    r matches Err(e) && e@ == SpecParseError::UnexpectedToken(
                        value_token_set(),
                        None,
                        end_span(src),
                    )
                } else if starts_value(tups[i].0) {
                    r matches Ok(t) && t == tups[i].0
                } else {
                    r matches Err(e) && e@ == SpecParseError::UnexpectedToken(
                        value_token_set(),
                        Some(tups[i].0),
                        tok_span(tups[i]),
                    )
                }
            }),
    {
        match self.parser.peek_nth(0) {
            None => Err(
                ParseError::UnexpectedToken(
                    crate::error::UnexpectedTokenError::new(
                        value_token_vec(),
                        None,
                        self.parser.end_span_exec(),
                    ),
                ),
            ),
            Some(t) => {
                match t.token {
                    Token::Bool
                    | Token::Integer
                    | Token::Float
                    | Token::LiteralString
                    | Token::Null
                    | Token::Array
                    | Token::SquareOpen => Ok(t.token),
                    _ => Err(
                        ParseError::UnexpectedToken(
                            crate::error::UnexpectedTokenError::new(
                                value_token_vec(),
                                Some(t.token),
                                Span::new(t.start, t.end),
                            ),
                        ),
                    ),
                }
            },
        }
    }

    /// For an optional value: consume a `null` token and report `true`,
    /// or leave a present value unconsumed and report `false`.
    pub fn option_is_null(&mut self) -> (r: Result<bool, ParseError>)
        requires
            old(self).wf(),
        ensures
            final (self).wf(),
            final (self).chars() == old(self).chars(),
            ({
                let tups = old(self).tuples();
                let i = old(self).position();
                let src = old(self).chars();
                if i >= tups.len() {
                    r matches Err(e) && e@ == SpecParseError::UnexpectedToken(
                        value_token_set(),
                        None,
                        end_span(src),
                    ) && final (self).position() == i
                } else if tups[i].0 == Token::Null {
                    r matches Ok(b) && b && final (self).position() == i + 1
                } else if starts_value(tups[i].0) {
                    r matches Ok(b) && !b && final (self).position() == i
                } else {
                    r matches Err(e) && e@ == SpecParseError::UnexpectedToken(
                        value_token_set(),
                        Some(tups[i].0),
                        tok_span(tups[i]),
                    ) && final (self).position() == i
                }
            }),
    {
        let t = match self.peek_value_token() {
            Ok(t) => t,
            Err(e) => {
                return Err(e);
            },
        };
        if t == Token::Null {
            self.eat_token();
            Ok(true)
        } else {
            Ok(false)
        }
    }

    /// Consume the opening of an array in either spelling, reporting
    /// which one.
    pub fn begin_array(&mut self) -> (r: Result<ArraySyntax, ParseError>)
        requires
            old(self).wf(),
        ensures
            final (self).wf(),
            final (self).chars() == old(self).chars(),
            ({
                let tups = old(self).tuples();
                let i = old(self).position();
                let src = old(self).chars();
                if i >= tups.len() {
                    r matches Err(e) && e@ == SpecParseError::UnexpectedToken(
                        seq![Token::Array, Token::SquareOpen],
                        None,
                        end_span(src),
                    ) && final (self).position() == i
                } else if tups[i].0 == Token::SquareOpen {
                    r matches Ok(s) && s == ArraySyntax::Short && final (self).position() == i + 1
                } else if tups[i].0 == Token::Array {
                    if i + 1 >= tups.len() {
                        r matches Err(e) && e@ == SpecParseError::UnexpectedToken(
                            seq![Token::BracketOpen],
                            None,
                            end_span(src),
                        ) && final (self).position() == i + 1
                    } else if tups[i + 1].0 == Token::BracketOpen {
                        r matches Ok(s) && s == ArraySyntax::Long && final (self).position() == i
                            + 2
                    } else {
                        r matches Err(e) && e@ == SpecParseError::UnexpectedToken(
                            seq![Token::BracketOpen],
                            Some(tups[i + 1].0),
                            tok_span(tups[i + 1]),
                        ) && final (self).position() == i + 2
                    }
                } else {
                    r matches Err(e) && e@ == SpecParseError::UnexpectedToken(
                        seq![Token::Array, Token::SquareOpen],
                        Some(tups[i].0),
                        tok_span(tups[i]),
                    ) && final (self).position() == i + 1
                }
            }),
    {
        match self.next_token() {
            None => {
                let mut exp: Vec<Token> = Vec::new();
                exp.push(Token::Array);
                exp.push(Token::SquareOpen);
                proof {
                    assert(exp@ =~= seq![Token::Array, Token::SquareOpen]);
                }
                Err(
                    ParseError::UnexpectedToken(
                        crate::error::UnexpectedTokenError::new(
                            exp,
                            None,
                            self.parser.end_span_exec(),
                        ),
                    ),
                )
            },
            Some(t) => {
                if t.token == Token::SquareOpen {
                    Ok(ArraySyntax::Short)
                } else if t.token == Token::Array {
                    match self.expect_next(Token::BracketOpen) {
                        Ok(_) => Ok(ArraySyntax::Long),
                        Err(e) => Err(e),
                    }
                } else {
                    let mut exp: Vec<Token> = Vec::new();
                    exp.push(Token::Array);
                    exp.push(Token::SquareOpen);
                    proof {
                        assert(exp@ =~= seq![Token::Array, Token::SquareOpen]);
                    }
                    Err(
                        ParseError::UnexpectedToken(
                            crate::error::UnexpectedTokenError::new(
                                exp,
                                Some(t.token),
                                Span::new(t.start, t.end),
                            ),
                        ),
                    )
                }
            },
        }
    }

    /// Start an enum encoding: a bare string names a unit variant
    /// (nothing is consumed); an array opening is consumed and its
    /// spelling reported, the variant name and value following inside.
    pub fn enum_start(&mut self) -> (r: Result<Option<ArraySyntax>, ParseError>)
        requires
            old(self).wf(),
        ensures
            final (self).wf(),
            final (self).chars() == old(self).chars(),
            ({
                let tups = old(self).tuples();
                let i = old(self).position();
                let src = old(self).chars();
                if i >= tups.len() {
                    r matches Err(e) && e@ == SpecParseError::UnexpectedToken(
                        seq![Token::LiteralString, Token::Array, Token::SquareOpen],
                        None,
                        end_span(src),
                    ) && final (self).position() == i
                } else if tups[i].0 == Token::LiteralString {
                    r matches Ok(o) && o is None && final (self).position() == i
                } else if tups[i].0 == Token::SquareOpen {
                    r matches Ok(o) && o == Some(ArraySyntax::Short) && final (self).position() == i
                        + 1
                } else if tups[i].0 == Token::Array {
                    if i + 1 >= tups.len() {
                        r matches Err(e) && e@ == SpecParseError::UnexpectedToken(
                            seq![Token::BracketOpen],
                            None,
                            end_span(src),
                        ) && final (self).position() == i + 1
                    } else if tups[i + 1].0 == Token::BracketOpen {
                        r matches Ok(o) && o == Some(ArraySyntax::Long) && final (
                        self).position() == i + 2
                    } else {
                        r matches Err(e) && e@ == SpecParseError::UnexpectedToken(
                            seq![Token::BracketOpen],
                            Some(tups[i + 1].0),
                            tok_span(tups[i + 1]),
                        ) && final (self).position() == i + 2
                    }
                } else {
                    r matches Err(e) && e@ == SpecParseError::UnexpectedToken(
                        seq![Token::LiteralString, Token::Array, Token::SquareOpen],
                        Some(tups[i].0),
                        tok_span(tups[i]),
                    ) && final (self).position() == i
                }
            }),
    {
        let t = match self.peek_token() {
            Some(t) => t,
            None => {
                let mut exp: Vec<Token> = Vec::new();
                exp.push(Token::LiteralString);
                exp.push(Token::Array);
                exp.push(Token::SquareOpen);
                proof {
                    assert(exp@ =~= seq![Token::LiteralString, Token::Array, Token::SquareOpen]);
                }
                return Err(
                    ParseError::UnexpectedToken(
                        crate::error::UnexpectedTokenError::new(
                            exp,
                            None,
                            self.parser.end_span_exec(),
                        ),
                    ),
                );
            },
        };
        if t.token == Token::LiteralString {
            Ok(None)
        } else if t.token == Token::SquareOpen {
            self.eat_token();
            Ok(Some(ArraySyntax::Short))
        } else if t.token == Token::Array {
            self.eat_token();
            match self.expect_next(Token::BracketOpen) {
                Ok(_) => Ok(Some(ArraySyntax::Long)),
                Err(e) => Err(e),
            }
        } else {
            let mut exp: Vec<Token> = Vec::new();
            exp.push(Token::LiteralString);
            exp.push(Token::Array);
            exp.push(Token::SquareOpen);
            proof {
                assert(exp@ =~= seq![Token::LiteralString, Token::Array, Token::SquareOpen]);
            }
            Err(
                ParseError::UnexpectedToken(
                    crate::error::UnexpectedTokenError::new(
                        exp,
                        Some(t.token),
                        Span::new(t.start, t.end),
                    ),
                ),
            )
        }
    }

    /// After the whole value was consumed, nothing but an optional `;`
    /// may remain; the first trailing token otherwise is an error.
    pub fn end(&mut self) -> (r: Result<(), ParseError>)
        requires
            old(self).wf(),
        ensures
            final (self).wf(),
            final (self).chars() == old(self).chars(),
            ({
                let tups = old(self).tuples();
                let i = old(self).position();
                if i >= tups.len() {
                    r is Ok
                } else if tups[i].0 == Token::SemiColon {
                    if i + 1 >= tups.len() {
                        r is Ok
                    } else {
                        r matches Err(e) && e@ == SpecParseError::TrailingCharacters(
                            tok_span(tups[i + 1]),
                        )
                    }
                } else {
                    r matches Err(e) && e@ == SpecParseError::TrailingCharacters(tok_span(tups[i]))
                }
            }),
    {
        match self.next_token() {
            None => Ok(()),
            Some(t) => {
                if t.token == Token::SemiColon {
                    match self.next_token() {
                        None => Ok(()),
                        Some(t2) => Err(
                            ParseError::TrailingCharacters(
                                crate::error::TrailingError::new(Span::new(t2.start, t2.end)),
                            ),
                        ),
                    }
                } else {
                    Err(
                        ParseError::TrailingCharacters(
                            crate::error::TrailingError::new(Span::new(t.start, t.end)),
                        ),
                    )
                }
            },
        }
    }
}

/// What the walker reports for one map key.
pub enum MapKeyStep {
    /// The array body is over.
    End,
    /// An explicit `key => value` entry: the key token is next in the
    /// stream, for the consumer to decode.
    Explicit,
    /// An implicit entry: the consumer receives the decimal form of the
    /// auto-index as the key, and the value token is next in the stream.
    Implicit(String),
}

/// The spec-level mirror of [`MapKeyStep`].
pub enum SpecMapKeyStep {
    End,
    Explicit,
    Implicit(Seq<char>),
}

/// The walker's state while stepping through one array body.
pub struct ArrayWalker {
    /// PHP's next auto-increment integer key.
    pub next_int_key: i64,
    /// Which spelling's closing bracket ends the body.
    pub syntax: ArraySyntax,
    /// Has the closing bracket been consumed?
    pub done: bool,
    /// In map mode: an explicit key was announced and its `=>` still
    /// needs to be consumed before the value.
    pub pending_arrow: bool,
}

/// The outcome of one walker step: the result, the reader position
/// after it, and the walker's new state.
pub struct SeqStepSpec {
    pub res: Result<bool, SpecParseError>,
    pub pos: int,
    pub done: bool,
    pub next: i64,
}

/// The tokens a sequence element may start with, the closing bracket
/// included.
pub open spec fn seq_element_set(close: Token) -> Seq<Token> {
    seq![
        Token::Bool,
        Token::Integer,
        Token::Float,
        Token::LiteralString,
        Token::Null,
        Token::Array,
        Token::SquareOpen,
        close,
    ]
}

/// What starting the next sequence element does, given the walker state
/// and the reader position: `Ok(true)` leaves the element's first token
/// next in the stream for the consumer, `Ok(false)` ends the body. An
/// explicit integer key must equal the running auto-index; the key and
/// its arrow are consumed before the value is exposed.
pub open spec fn spec_seq_element_start(
    src: Seq<char>,
    tups: Seq<(Token, int, int)>,
    i: int,
    done: bool,
    next: i64,
    syntax: ArraySyntax,
) -> SeqStepSpec {
    let close = syntax.spec_close_bracket();
    if done {
        SeqStepSpec { res: Ok(false), pos: i, done, next }
    } else if i >= tups.len() {
        SeqStepSpec {
            res: Err(
                SpecParseError::UnexpectedToken(seq_element_set(close), None, end_span(src)),
            ),
            pos: i,
            done,
            next,
        }
    } else if tups[i].0 == close {
        SeqStepSpec { res: Ok(false), pos: i + 1, done: true, next }
    } else if !starts_value(tups[i].0) {
        SeqStepSpec {
            res: Err(
                SpecParseError::UnexpectedToken(
                    seq_element_set(close),
                    Some(tups[i].0),
                    tok_span(tups[i]),
                ),
            ),
            pos: i + 1,
            done,
            next,
        }
    } else if i + 1 >= tups.len() {
        SeqStepSpec {
            res: Err(
                SpecParseError::UnexpectedToken(
                    seq![close, Token::Comma, Token::Arrow],
                    None,
                    end_span(src),
                ),
            ),
            pos: i + 1,
            done,
            next,
        }
    } else if tups[i + 1].0 == Token::Comma || tups[i + 1].0 == close {
        SeqStepSpec { res: Ok(true), pos: i, done, next }
    } else if tups[i + 1].0 == Token::Arrow {
        match spec_parse_array_key(src, tups[i]) {
            Err(e) => SeqStepSpec { res: Err(e), pos: i + 1, done, next },
            Ok(k) => if k != SpecKey::Int(next as int) {
                SeqStepSpec {
                    res: Err(
                        SpecParseError::UnexpectedArrayKey(
                            ArrayKeyErrorKind::NonConsecutive,
                            tok_span(tups[i]),
                        ),
                    ),
                    pos: i + 1,
                    done,
                    next,
                }
            } else {
                let next2 = wrap_inc(next);
                if i + 2 >= tups.len() {
                    SeqStepSpec {
                        res: Err(
                            SpecParseError::UnexpectedToken(
                                value_token_set(),
                                None,
                                end_span(src),
                            ),
                        ),
                        pos: i + 2,
                        done,
                        next: next2,
                    }
                } else if !starts_value(tups[i + 2].0) {
                    SeqStepSpec {
                        res: Err(
                            SpecParseError::UnexpectedToken(
                                value_token_set(),
                                Some(tups[i + 2].0),
                                tok_span(tups[i + 2]),
                            ),
                        ),
                        pos: i + 3,
                        done,
                        next: next2,
                    }
                } else if i + 3 >= tups.len() {
                    SeqStepSpec {
                        res: Err(
                            SpecParseError::UnexpectedToken(
                                seq![Token::Comma, close],
                                None,
                                end_span(src),
                            ),
                        ),
                        pos: i + 3,
                        done,
                        next: next2,
                    }
                } else if tups[i + 3].0 == Token::Comma || tups[i + 3].0 == close {
                    SeqStepSpec { res: Ok(true), pos: i + 2, done, next: next2 }
                } else {
                    SeqStepSpec {
                        res: Err(
                            SpecParseError::UnexpectedToken(
                                seq![Token::Comma, close],
                                Some(tups[i + 3].0),
                                tok_span(tups[i + 3]),
                            ),
                        ),
                        pos: i + 4,
                        done,
                        next: next2,
                    }
                }
            },
        }
    } else {
        SeqStepSpec {
            res: Err(
                SpecParseError::UnexpectedToken(
                    seq![close, Token::Comma, Token::Arrow],
                    Some(tups[i + 1].0),
                    tok_span(tups[i + 1]),
                ),
            ),
            pos: i + 2,
            done,
            next,
        }
    }
}

/// The tokens a map key may start with, the closing bracket included.
pub open spec fn map_key_set(close: Token) -> Seq<Token> {
    seq![Token::Bool, Token::Integer, Token::Float, Token::LiteralString, Token::Null, close]
}

/// The outcome of starting one map entry.
pub struct MapStepSpec {
    pub res: Result<SpecMapKeyStep, SpecParseError>,
    pub pos: int,
    pub done: bool,
    pub next: i64,
    pub pending_arrow: bool,
}

/// What starting the next map entry does. An explicit key stays in the
/// stream for the consumer to decode, with its `=>` pending; an
/// implicit entry synthesizes the decimal form of the auto-index as its
/// key. An explicit key passes through the array-key coercion rule only
/// to update the auto-index counter.
pub open spec fn spec_map_key_start(
    src: Seq<char>,
    tups: Seq<(Token, int, int)>,
    i: int,
    done: bool,
    next: i64,
    pending: bool,
    syntax: ArraySyntax,
) -> MapStepSpec {
    let close = syntax.spec_close_bracket();
    if done {
        MapStepSpec { res: Ok(SpecMapKeyStep::End), pos: i, done, next, pending_arrow: pending }
    } else if i >= tups.len() {
        MapStepSpec {
            res: Err(SpecParseError::UnexpectedToken(map_key_set(close), None, end_span(src))),
            pos: i,
            done,
            next,
            pending_arrow: pending,
        }
    } else if tups[i].0 == close {
        MapStepSpec {
            res: Ok(SpecMapKeyStep::End),
            pos: i + 1,
            done: true,
            next,
            pending_arrow: pending,
        }
    } else if !is_leaf_token(tups[i].0) {
        MapStepSpec {
            res: Err(
                SpecParseError::UnexpectedToken(
                    map_key_set(close),
                    Some(tups[i].0),
                    tok_span(tups[i]),
                ),
            ),
            pos: i + 1,
            done,
            next,
            pending_arrow: pending,
        }
    } else if i + 1 >= tups.len() {
        MapStepSpec {
            res: Err(
                SpecParseError::UnexpectedToken(
                    seq![Token::Arrow, Token::Comma, close],
                    None,
                    end_span(src),
                ),
            ),
            pos: i + 1,
            done,
            next,
            pending_arrow: pending,
        }
    } else if tups[i + 1].0 == Token::Arrow {
        match spec_parse_array_key(src, tups[i]) {
            Err(e) => MapStepSpec { res: Err(e), pos: i + 1, done, next, pending_arrow: pending },
            Ok(k) => {
                let next2 = match k {
                    SpecKey::Int(n) => if i64::MIN <= n <= i64::MAX {
                        wrap_inc(n as i64)
                    } else {
                        next
                    },
                    SpecKey::Str(_) => next,
                };
                MapStepSpec {
                    res: Ok(SpecMapKeyStep::Explicit),
                    pos: i,
                    done,
                    next: next2,
                    pending_arrow: true,
                }
            },
        }
    } else if tups[i + 1].0 == Token::Comma || tups[i + 1].0 == close {
        MapStepSpec {
            res: Ok(SpecMapKeyStep::Implicit(spec_int_to_dec(next as int))),
            pos: i,
            done,
            next: wrap_inc(next),
            pending_arrow: pending,
        }
    } else {
        MapStepSpec {
            res: Err(
                SpecParseError::UnexpectedToken(
                    seq![Token::Arrow, Token::Comma, close],
                    Some(tups[i + 1].0),
                    tok_span(tups[i + 1]),
                ),
            ),
            pos: i + 2,
            done,
            next,
            pending_arrow: pending,
        }
    }
}

impl ArrayWalker {
    /// Start walking one array body in the given spelling, the opening
    /// bracket already consumed.
    pub fn new(syntax: ArraySyntax) -> (r: ArrayWalker)
        ensures
            r.next_int_key == 0,
            r.syntax == syntax,
            !r.done,
            !r.pending_arrow,
    {
        ArrayWalker { next_int_key: 0, syntax, done: false, pending_arrow: false }
    }

    /// Step to the next sequence element; `Ok(true)` leaves the
    /// element's token next in the stream for the consumer, `Ok(false)`
    /// ends the body.
    pub fn next_element_start(&mut self, de: &mut Deserializer) -> (r: Result<bool, ParseError>)
        requires
            old(de).wf(),
        ensures
            final (de).wf(),
            final (de).chars() == old(de).chars(),
            final (self).syntax == old(self).syntax,
            final (self).pending_arrow == old(self).pending_arrow,
            ({
                let s = spec_seq_element_start(
                    old(de).chars(),
                    old(de).tuples(),
                    old(de).position(),
                    old(self).done,
                    old(self).next_int_key,
                    old(self).syntax,
                );
                &&& final (de).position() == s.pos
                &&& final (self).done == s.done
                &&& final (self).next_int_key == s.next
                &&& match s.res {
                    Ok(b) => r matches Ok(rb) && rb == b,
                    Err(se) => r matches Err(e) && e@ == se,
                }
            }),
    {
        proof {
            crate::lexer::lemma_tokens_from_bounds(old(de).chars(), 0);
        }
        let close = self.syntax.close_bracket();
        if self.done {
            return Ok(false);
        }
        let t0 = match de.peek_token() {
            Some(t) => t,
            None => {
                return Err(
                    ParseError::UnexpectedToken(
                        crate::error::UnexpectedTokenError::new(
                            seq_element_vec(close),
                            None,
                            de.parser.end_span_exec(),
                        ),
                    ),
                );
            },
        };
        if t0.token == close {
            de.eat_token();
            self.done = true;
            return Ok(false);
        }
        if !starts_value_exec(t0.token) {
            de.eat_token();
            return Err(
                ParseError::UnexpectedToken(
                    crate::error::UnexpectedTokenError::new(
                        seq_element_vec(close),
                        Some(t0.token),
                        Span::new(t0.start, t0.end),
                    ),
                ),
            );
        }
        let t1 = match de.peek_nth(1) {
            Some(t) => t,
            None => {
                de.eat_token();
                let mut exp: Vec<Token> = Vec::new();
                exp.push(close);
                exp.push(Token::Comma);
                exp.push(Token::Arrow);
                proof {
                    assert(exp@ =~= seq![close, Token::Comma, Token::Arrow]);
                }
                return Err(
                    ParseError::UnexpectedToken(
                        crate::error::UnexpectedTokenError::new(
                            exp,
                            None,
                            de.parser.end_span_exec(),
                        ),
                    ),
                );
            },
        };
        if t1.token == Token::Comma || t1.token == close {
            return Ok(true);
        }
        if t1.token == Token::Arrow {
            proof {
                old(de).parser.lemma_pos_nonneg();
                assert(spec_tokens_from(old(de).chars(), 0)[old(de).position()] == old(
                    de,
                ).tuples()[old(de).position()]);
            }
            let key = match de.parser.parse_array_key(t0) {
                Ok(k) => k,
                Err(e) => {
                    de.eat_token();
                    return Err(e);
                },
            };
            let key_ok = match &key {
                Key::Int(n) => *n == self.next_int_key,
                Key::String(_) => false,
            };
            if !key_ok {
                de.eat_token();
                return Err(
                    ParseError::UnexpectedArrayKey(
                        ArrayKeyError::new(
                            ArrayKeyErrorKind::NonConsecutive,
                            Span::new(t0.start, t0.end),
                        ),
                    ),
                );
            }
            self.next_int_key = if self.next_int_key == i64::MAX {
                i64::MIN
            } else {
                self.next_int_key + 1
            };
            de.eat_token();
            de.eat_token();
            let v0 = match de.peek_token() {
                Some(t) => t,
                None => {
                    return Err(
                        ParseError::UnexpectedToken(
                            crate::error::UnexpectedTokenError::new(
                                value_token_vec(),
                                None,
                                de.parser.end_span_exec(),
                            ),
                        ),
                    );
                },
            };
            if !starts_value_exec(v0.token) {
                de.eat_token();
                return Err(
                    ParseError::UnexpectedToken(
                        crate::error::UnexpectedTokenError::new(
                            value_token_vec(),
                            Some(v0.token),
                            Span::new(v0.start, v0.end),
                        ),
                    ),
                );
            }
            let v1 = match de.peek_nth(1) {
                Some(t) => t,
                None => {
                    de.eat_token();
                    let mut exp: Vec<Token> = Vec::new();
                    exp.push(Token::Comma);
                    exp.push(close);
                    proof {
                        assert(exp@ =~= seq![Token::Comma, close]);
                    }
                    return Err(
                        ParseError::UnexpectedToken(
                            crate::error::UnexpectedTokenError::new(
                                exp,
                                None,
                                de.parser.end_span_exec(),
                            ),
                        ),
                    );
                },
            };
            if v1.token == Token::Comma || v1.token == close {
                return Ok(true);
            }
            de.eat_token();
            de.eat_token();
            let mut exp: Vec<Token> = Vec::new();
            exp.push(Token::Comma);
            exp.push(close);
            proof {
                assert(exp@ =~= seq![Token::Comma, close]);
            }
            return Err(
                ParseError::UnexpectedToken(
                    crate::error::UnexpectedTokenError::new(
                        exp,
                        Some(v1.token),
                        Span::new(v1.start, v1.end),
                    ),
                ),
            );
        }
        de.eat_token();
        de.eat_token();
        let mut exp: Vec<Token> = Vec::new();
        exp.push(close);
        exp.push(Token::Comma);
        exp.push(Token::Arrow);
        proof {
            assert(exp@ =~= seq![close, Token::Comma, Token::Arrow]);
        }
        Err(
            ParseError::UnexpectedToken(
                crate::error::UnexpectedTokenError::new(
                    exp,
                    Some(t1.token),
                    Span::new(t1.start, t1.end),
                ),
            ),
        )
    }

    /// Step to the next map entry.
    pub fn map_key_start(&mut self, de: &mut Deserializer) -> (r: Result<MapKeyStep, ParseError>)
        requires
            old(de).wf(),
        ensures
            final (de).wf(),
            final (de).chars() == old(de).chars(),
            final (self).syntax == old(self).syntax,
            ({
                let s = spec_map_key_start(
                    old(de).chars(),
                    old(de).tuples(),
                    old(de).position(),
                    old(self).done,
                    old(self).next_int_key,
                    old(self).pending_arrow,
                    old(self).syntax,
                );
                &&& final (de).position() == s.pos
                &&& final (self).done == s.done
                &&& final (self).next_int_key == s.next
                &&& final (self).pending_arrow == s.pending_arrow
                &&& match s.res {
                    Ok(SpecMapKeyStep::End) => r matches Ok(MapKeyStep::End),
                    Ok(SpecMapKeyStep::Explicit) => r matches Ok(MapKeyStep::Explicit),
                    Ok(SpecMapKeyStep::Implicit(ks)) => r matches Ok(MapKeyStep::Implicit(out))
                        && out@ == ks,
                    Err(se) => r matches Err(e) && e@ == se,
                }
            }),
    {
        proof {
            crate::lexer::lemma_tokens_from_bounds(old(de).chars(), 0);
        }
        let close = self.syntax.close_bracket();
        if self.done {
            return Ok(MapKeyStep::End);
        }
        let t0 = match de.peek_token() {
            Some(t) => t,
            None => {
                return Err(
                    ParseError::UnexpectedToken(
                        crate::error::UnexpectedTokenError::new(
                            map_key_vec(close),
                            None,
                            de.parser.end_span_exec(),
                        ),
                    ),
                );
            },
        };
        if t0.token == close {
            de.eat_token();
            self.done = true;
            return Ok(MapKeyStep::End);
        }
        if !is_leaf_token_exec(t0.token) {
            de.eat_token();
            return Err(
                ParseError::UnexpectedToken(
                    crate::error::UnexpectedTokenError::new(
                        map_key_vec(close),
                        Some(t0.token),
                        Span::new(t0.start, t0.end),
                    ),
                ),
            );
        }
        let t1 = match de.peek_nth(1) {
            Some(t) => t,
            None => {
                de.eat_token();
                let mut exp: Vec<Token> = Vec::new();
                exp.push(Token::Arrow);
                exp.push(Token::Comma);
                exp.push(close);
                proof {
                    assert(exp@ =~= seq![Token::Arrow, Token::Comma, close]);
                }
                return Err(
                    ParseError::UnexpectedToken(
                        crate::error::UnexpectedTokenError::new(
                            exp,
                            None,
                            de.parser.end_span_exec(),
                        ),
                    ),
                );
            },
        };
        if t1.token == Token::Arrow {
            proof {
                old(de).parser.lemma_pos_nonneg();
                assert(spec_tokens_from(old(de).chars(), 0)[old(de).position()] == old(
                    de,
                ).tuples()[old(de).position()]);
            }
            let key = match de.parser.parse_array_key(t0) {
                Ok(k) => k,
                Err(e) => {
                    de.eat_token();
                    return Err(e);
                },
            };
            match &key {
                Key::Int(n) => {
                    self.next_int_key = if *n == i64::MAX {
                        i64::MIN
                    } else {
                        *n + 1
                    };
                },
                Key::String(_) => {},
            }
            self.pending_arrow = true;
            return Ok(MapKeyStep::Explicit);
        }
        if t1.token == Token::Comma || t1.token == close {
            let ks = i64_to_dec_string(self.next_int_key);
            self.next_int_key = if self.next_int_key == i64::MAX {
                i64::MIN
            } else {
                self.next_int_key + 1
            };
            return Ok(MapKeyStep::Implicit(ks));
        }
        de.eat_token();
        de.eat_token();
        let mut exp: Vec<Token> = Vec::new();
        exp.push(Token::Arrow);
        exp.push(Token::Comma);
        exp.push(close);
        proof {
            assert(exp@ =~= seq![Token::Arrow, Token::Comma, close]);
        }
        Err(
            ParseError::UnexpectedToken(
                crate::error::UnexpectedTokenError::new(
                    exp,
                    Some(t1.token),
                    Span::new(t1.start, t1.end),
                ),
            ),
        )
    }

    /// Prepare for a map entry's value: consume the pending `=>` of an
    /// explicit key, then check that a value starts here without
    /// consuming it.
    pub fn map_value_start(&mut self, de: &mut Deserializer) -> (r: Result<(), ParseError>)
        requires
            old(de).wf(),
        ensures
            final (de).wf(),
            final (de).chars() == old(de).chars(),
            final (self).syntax == old(self).syntax,
            final (self).done == old(self).done,
            final (self).next_int_key == old(self).next_int_key,
            !final (self).pending_arrow,
            ({
                let tups = old(de).tuples();
                let i = old(de).position();
                let src = old(de).chars();
                if old(self).pending_arrow {
                    if i >= tups.len() {
                        r matches Err(e) && e@ == SpecParseError::UnexpectedToken(
                            seq![Token::Arrow],
                            None,
                            end_span(src),
                        ) && final (de).position() == i
                    } else if tups[i].0 != Token::Arrow {
                        r matches Err(e) && e@ == SpecParseError::UnexpectedToken(
                            seq![Token::Arrow],
                            Some(tups[i].0),
                            tok_span(tups[i]),
                        ) && final (de).position() == i + 1
                    } else if i + 1 >= tups.len() {
                        r matches Err(e) && e@ == SpecParseError::UnexpectedToken(
                            value_token_set(),
                            None,
                            end_span(src),
                        ) && final (de).position() == i + 1
                    } else if starts_value(tups[i + 1].0) {
                        r is Ok && final (de).position() == i + 1
                    } else {
                        r matches Err(e) && e@ == SpecParseError::UnexpectedToken(
                            value_token_set(),
                            Some(tups[i + 1].0),
                            tok_span(tups[i + 1]),
                        ) && final (de).position() == i + 1
                    }
                } else {
                    if i >= tups.len() {
                        r matches Err(e) && e@ == SpecParseError::UnexpectedToken(
                            value_token_set(),
                            None,
                            end_span(src),
                        ) && final (de).position() == i
                    } else if starts_value(tups[i].0) {
                        r is Ok && final (de).position() == i
                    } else {
                        r matches Err(e) && e@ == SpecParseError::UnexpectedToken(
                            value_token_set(),
                            Some(tups[i].0),
                            tok_span(tups[i]),
                        ) && final (de).position() == i
                    }
                }
            }),
    {
        if self.pending_arrow {
            self.pending_arrow = false;
            match de.expect_next(Token::Arrow) {
                Ok(_) => {},
                Err(e) => {
                    return Err(e);
                },
            }
        }
        match de.peek_value_token() {
            Ok(_) => Ok(()),
            Err(e) => Err(e),
        }
    }

    /// Consume the separator after a walked element or map value: a
    /// comma continues the body, the closing bracket ends it.
    pub fn value_end(&mut self, de: &mut Deserializer) -> (r: Result<(), ParseError>)
        requires
            old(de).wf(),
        ensures
            final (de).wf(),
            final (de).chars() == old(de).chars(),
            final (self).syntax == old(self).syntax,
            final (self).next_int_key == old(self).next_int_key,
            final (self).pending_arrow == old(self).pending_arrow,
            ({
                let tups = old(de).tuples();
                let i = old(de).position();
                let src = old(de).chars();
                let close = old(self).syntax.spec_close_bracket();
                if i >= tups.len() {
                    r matches Err(e) && e@ == SpecParseError::UnexpectedToken(
                        seq![Token::Comma, close],
                        None,
                        end_span(src),
                    ) && final (de).position() == i && final (self).done == old(self).done
                } else if tups[i].0 == Token::Comma {
                    r is Ok && final (de).position() == i + 1 && final (self).done == old(
                        self,
                    ).done
                } else if tups[i].0 == close {
                    r is Ok && final (de).position() == i + 1 && final (self).done
                } else {
                    r matches Err(e) && e@ == SpecParseError::UnexpectedToken(
                        seq![Token::Comma, close],
                        Some(tups[i].0),
                        tok_span(tups[i]),
                    ) && final (de).position() == i + 1 && final (self).done == old(self).done
                }
            }),
    {
        let close = self.syntax.close_bracket();
        match de.next_token() {
            None => {
                let mut exp: Vec<Token> = Vec::new();
                exp.push(Token::Comma);
                exp.push(close);
                proof {
                    assert(exp@ =~= seq![Token::Comma, close]);
                }
                Err(
                    ParseError::UnexpectedToken(
                        crate::error::UnexpectedTokenError::new(
                            exp,
                            None,
                            de.parser.end_span_exec(),
                        ),
                    ),
                )
            },
            Some(t) => {
                if t.token == Token::Comma {
                    Ok(())
                } else if t.token == close {
                    self.done = true;
                    Ok(())
                } else {
                    let mut exp: Vec<Token> = Vec::new();
                    exp.push(Token::Comma);
                    exp.push(close);
                    proof {
                        assert(exp@ =~= seq![Token::Comma, close]);
                    }
                    Err(
                        ParseError::UnexpectedToken(
                            crate::error::UnexpectedTokenError::new(
                                exp,
                                Some(t.token),
                                Span::new(t.start, t.end),
                            ),
                        ),
                    )
                }
            },
        }
    }
}

fn starts_value_exec(t: Token) -> (r: bool)
    ensures
        r == starts_value(t),
{
    matches!(
        t,
        Token::Bool
            | Token::Integer
            | Token::Float
            | Token::LiteralString
            | Token::Null
            | Token::Array
            | Token::SquareOpen,
    )
}

fn is_leaf_token_exec(t: Token) -> (r: bool)
    ensures
        r == is_leaf_token(t),
{
    matches!(t, Token::Bool | Token::Integer | Token::Float | Token::LiteralString | Token::Null)
}

fn seq_element_vec(close: Token) -> (r: Vec<Token>)
    ensures
        r@ == seq_element_set(close),
{
    let mut v: Vec<Token> = Vec::new();
    v.push(Token::Bool);
    v.push(Token::Integer);
    v.push(Token::Float);
    v.push(Token::LiteralString);
    v.push(Token::Null);
    v.push(Token::Array);
    v.push(Token::SquareOpen);
    v.push(close);
    proof {
        assert(v@ =~= seq_element_set(close));
    }
    v
}

fn map_key_vec(close: Token) -> (r: Vec<Token>)
    ensures
        r@ == map_key_set(close),
{
    let mut v: Vec<Token> = Vec::new();
    v.push(Token::Bool);
    v.push(Token::Integer);
    v.push(Token::Float);
    v.push(Token::LiteralString);
    v.push(Token::Null);
    v.push(close);
    proof {
        assert(v@ =~= map_key_set(close));
    }
    v
}

/// The tokens that may start a value.
pub open spec fn value_token_set() -> Seq<Token> {
    seq![
        Token::Null,
        Token::Bool,
        Token::LiteralString,
        Token::Integer,
        Token::Float,
        Token::Array,
        Token::SquareOpen,
    ]
}

fn value_token_vec() -> (r: Vec<Token>)
    ensures
        r@ == value_token_set(),
{
    let mut v: Vec<Token> = Vec::new();
    v.push(Token::Null);
    v.push(Token::Bool);
    v.push(Token::LiteralString);
    v.push(Token::Integer);
    v.push(Token::Float);
    v.push(Token::Array);
    v.push(Token::SquareOpen);
    proof {
        assert(v@ =~= value_token_set());
    }
    v
}

} // verus!
