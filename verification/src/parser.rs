use vstd::prelude::*;

use crate::ast::{spec_statements, Expression, Program, SpecExpression, SpecStatement, Statement};
use crate::lexer::{
    lemma_eof_idempotent, lemma_lex_step_bounds, lemma_skip_ws_bounds, lex_step, skip_ws, Lexer,
    LexerError,
};
use crate::token::{SpecToken, Token, TokenType};

verus! {

/// The end-of-stream token value.
pub open spec fn eof_token() -> SpecToken {
    SpecToken { token_type: TokenType::Eof, literal: Seq::empty() }
}

/// Everything a lexer still yields from position `i` until its first
/// end-of-stream token, which is not included: tokens, and the digit
/// literals whose values overflow.
pub open spec fn lex_outs(s: Seq<char>, i: int) -> Seq<Result<SpecToken, Seq<char>>>
    decreases s.len() - i
        when 0 <= i <= s.len()
        via lex_outs_decreases
{
    if skip_ws(s, i) == s.len() {
        Seq::empty()
    } else {
        seq![lex_step(s, i).out] + lex_outs(s, lex_step(s, i).end)
    }
}

#[via_fn]
proof fn lex_outs_decreases(s: Seq<char>, i: int) {
    lemma_skip_ws_bounds(s, i);
    lemma_lex_step_bounds(s, i);
}

/// A step taken before the end of the input never yields an end-of-stream
/// token.
pub proof fn lemma_step_not_eof(s: Seq<char>, i: int)
    requires
        0 <= i <= s.len(),
    ensures
        skip_ws(s, i) < s.len() ==> (lex_step(s, i).out matches Ok(t) ==> t.token_type
            != TokenType::Eof),
{
    lemma_skip_ws_bounds(s, i);
}

/// How the pending outputs unfold: one step's output followed by the
/// outputs from where that step ends, and nothing once only whitespace
/// remains; end-of-stream tokens arise exactly there, and errors never do.
pub proof fn lemma_lex_outs_unfold(s: Seq<char>, i: int)
    requires
        0 <= i <= s.len(),
    ensures
        skip_ws(s, i) == s.len() ==> lex_outs(s, i) == Seq::<Result<SpecToken, Seq<char>>>::empty(),
        skip_ws(s, i) < s.len() ==> lex_outs(s, i) == seq![lex_step(s, i).out] + lex_outs(
            s,
            lex_step(s, i).end,
        ),
        (lex_step(s, i).out matches Ok(t) && t.token_type == TokenType::Eof) ==> skip_ws(s, i)
            == s.len(),
        lex_step(s, i).out is Err ==> skip_ws(s, i) < s.len(),
{
    lemma_skip_ws_bounds(s, i);
    lemma_lex_step_bounds(s, i);
    lemma_step_not_eof(s, i);
}

/// The `k`-th element of a sequence of lexer outputs, an end-of-stream
/// token past its end: after the input is exhausted the lexer keeps
/// yielding end-of-stream.
pub open spec fn out_at(outs: Seq<Result<SpecToken, Seq<char>>>, k: int) -> Result<
    SpecToken,
    Seq<char>,
> {
    if 0 <= k < outs.len() {
        outs[k]
    } else {
        Ok(eof_token())
    }
}

pub proof fn lemma_out_at_skip(outs: Seq<Result<SpecToken, Seq<char>>>, j: int, k: int)
    requires
        0 <= j <= outs.len(),
        0 <= k,
    ensures
        out_at(outs.skip(j), k) == out_at(outs, j + k),
{
}

/// The mathematical value of a parser error.
pub ghost enum SpecParserError {
    UnexpectedToken(SpecToken),
    LexerError(Seq<char>),
    UnexpectedTokenType(TokenType, TokenType),
}

/// An error that aborts parsing: a token no statement rule starts with, a
/// lexer error met while advancing, or a lookahead of the wrong type
/// (carrying the expected and the actual type, in that order).
#[derive(Debug)]
pub enum ParserError {
    UnexpectedToken(Token),
    LexerError(LexerError),
    UnexpectedTokenType(TokenType, TokenType),
}

impl View for ParserError {
    type V = SpecParserError;

    open spec fn view(&self) -> SpecParserError {
        match self {
            ParserError::UnexpectedToken(t) => SpecParserError::UnexpectedToken(t@),
            ParserError::LexerError(e) => SpecParserError::LexerError(e@),
            ParserError::UnexpectedTokenType(expected, got) => SpecParserError::UnexpectedTokenType(
                *expected,
                *got,
            ),
        }
    }
}

/// Where the scan for a statement-terminating semicolon ends when the
/// parser's current token sits at index `j`: the index of the first
/// semicolon, or the error met on the way. Advancing past index `j`
/// pulls the output at `j + 2` into the lookahead window, so a lexer
/// error there stops the scan; a window that reaches end of stream
/// without a semicolon stops it too.
pub open spec fn scan_semi(outs: Seq<Result<SpecToken, Seq<char>>>, j: int) -> Result<
    int,
    SpecParserError,
>
    decreases outs.len() - j,
{
    match out_at(outs, j) {
        Err(l) => Err(SpecParserError::LexerError(l)),
        Ok(t) => {
            if t.token_type == TokenType::Semicolon {
                Ok(j)
            } else if t.token_type == TokenType::Eof {
                Err(SpecParserError::UnexpectedTokenType(TokenType::Semicolon, TokenType::Eof))
            } else {
                match out_at(outs, j + 2) {
                    Err(l) => Err(SpecParserError::LexerError(l)),
                    Ok(_) => scan_semi(outs, j + 1),
                }
            }
        },
    }
}

/// A successful semicolon scan ends inside the outputs, on a semicolon,
/// and never before where it started.
pub proof fn lemma_scan_semi_range(outs: Seq<Result<SpecToken, Seq<char>>>, j: int)
    ensures
        scan_semi(outs, j) matches Ok(k) ==> j <= k < outs.len() && (out_at(outs, k) matches Ok(t)
            && t.token_type == TokenType::Semicolon),
    decreases outs.len() - j,
{
    match out_at(outs, j) {
        Err(l) => {},
        Ok(t) => {
            if t.token_type == TokenType::Semicolon {
            } else if t.token_type == TokenType::Eof {
            } else {
                match out_at(outs, j + 2) {
                    Err(l) => {},
                    Ok(_) => {
                        lemma_scan_semi_range(outs, j + 1);
                    },
                }
            }
        },
    }
}

/// The result of parsing one let statement whose `let` token is the
/// parser's current token, at index 0 of `outs`: the statement and the
/// index of its terminating semicolon, where parsing leaves the current
/// token; or the first error met. The `let IDENT =` prefix is checked;
/// after it, tokens are skipped up to the first semicolon, and the token
/// at the semicolon stands in for the value expression until expression
/// parsing exists.
pub open spec fn spec_parse_let(outs: Seq<Result<SpecToken, Seq<char>>>) -> Result<
    (SpecStatement, int),
    SpecParserError,
> {
    match (out_at(outs, 0), out_at(outs, 1)) {
        (Err(l), _) => Err(SpecParserError::LexerError(l)),
        (Ok(t0), Err(l)) => Err(SpecParserError::LexerError(l)),
        (Ok(t0), Ok(t1)) => {
            if t1.token_type != TokenType::Ident {
                Err(SpecParserError::UnexpectedTokenType(TokenType::Ident, t1.token_type))
            } else {
                match out_at(outs, 2) {
                    Err(l) => Err(SpecParserError::LexerError(l)),
                    Ok(t2) => {
                        if t2.token_type != TokenType::Assign {
                            Err(
                                SpecParserError::UnexpectedTokenType(
                                    TokenType::Assign,
                                    t2.token_type,
                                ),
                            )
                        } else {
                            match out_at(outs, 3) {
                                Err(l) => Err(SpecParserError::LexerError(l)),
                                Ok(_) => match scan_semi(outs, 2) {
                                    Err(e) => Err(e),
                                    Ok(j) => match out_at(outs, j) {
                                        Err(l) => Err(SpecParserError::LexerError(l)),
                                        Ok(tj) => Ok(
                                            (
                                                SpecStatement::Let {
                                                    token: t0,
                                                    name: SpecExpression::Identifier {
                                                        token: t1,
                                                        value: t1.literal,
                                                    },
                                                    value: SpecExpression::Identifier {
                                                        token: tj,
                                                        value: tj.literal,
                                                    },
                                                },
                                                j,
                                            ),
                                        ),
                                    },
                                },
                            }
                        }
                    },
                }
            }
        },
    }
}

/// Statement dispatch on the current token: only `let` starts a
/// statement rule; every other token fails as unexpected.
pub open spec fn spec_parse_statement(outs: Seq<Result<SpecToken, Seq<char>>>) -> Result<
    (SpecStatement, int),
    SpecParserError,
> {
    match out_at(outs, 0) {
        Err(l) => Err(SpecParserError::LexerError(l)),
        Ok(t0) => {
            if t0.token_type == TokenType::Let {
                spec_parse_let(outs)
            } else {
                Err(SpecParserError::UnexpectedToken(t0))
            }
        },
    }
}

/// The result of parsing a whole program: statements parsed one after
/// the other until the current token is end-of-stream, stopping at the
/// first error with nothing kept.
pub open spec fn spec_parse_program(outs: Seq<Result<SpecToken, Seq<char>>>) -> Result<
    Seq<SpecStatement>,
    SpecParserError,
>
    decreases outs.len()
        via spec_parse_program_decreases
{
    match out_at(outs, 0) {
        Err(l) => Err(SpecParserError::LexerError(l)),
        Ok(t0) => {
            if t0.token_type == TokenType::Eof {
                Ok(Seq::empty())
            } else {
                match spec_parse_statement(outs) {
                    Err(e) => Err(e),
                    Ok((st, j)) => match out_at(outs, j + 2) {
                        Err(l) => Err(SpecParserError::LexerError(l)),
                        Ok(_) => match spec_parse_program(outs.skip(j + 1)) {
                            Err(e) => Err(e),
                            Ok(rest) => Ok(seq![st] + rest),
                        },
                    },
                }
            }
        },
    }
}

#[via_fn]
proof fn spec_parse_program_decreases(outs: Seq<Result<SpecToken, Seq<char>>>) {
    lemma_scan_semi_range(outs, 2);
}

/// The parser: a two-token lookahead window over the lexer's output,
/// and the messages of errors absorbed without aborting.
pub struct Parser {
    lexer: Lexer,
    errors: Vec<String>,
    curr_token: Token,
    peek_token: Token,
}

impl Parser {
    /// The window invariant: the lexer's cursor is sound, and once end of
    /// stream has entered the window everything after it is end of
    /// stream too, with the empty literal.
    pub closed spec fn wf(&self) -> bool {
        &&& self.lexer.wf()
        &&& self.peek_token@.token_type == TokenType::Eof ==> skip_ws(
            self.lexer@.input,
            self.lexer@.pos,
        ) == self.lexer@.input.len()
        &&& self.curr_token@.token_type == TokenType::Eof ==> self.peek_token@.token_type
            == TokenType::Eof
        &&& self.curr_token@.token_type == TokenType::Eof ==> self.curr_token@.literal
            == Seq::<char>::empty()
        &&& self.peek_token@.token_type == TokenType::Eof ==> self.peek_token@.literal
            == Seq::<char>::empty()
    }

    /// The current token.
    pub closed spec fn spec_curr(&self) -> SpecToken {
        self.curr_token@
    }

    /// The lookahead token.
    pub closed spec fn spec_peek(&self) -> SpecToken {
        self.peek_token@
    }

    /// Everything the parser has yet to consume, the current token
    /// first; end-of-stream tokens are not included.
    pub closed spec fn stream(&self) -> Seq<Result<SpecToken, Seq<char>>> {
        if self.curr_token@.token_type == TokenType::Eof {
            Seq::empty()
        } else if self.peek_token@.token_type == TokenType::Eof {
            seq![Ok(self.curr_token@)]
        } else {
            seq![Ok(self.curr_token@), Ok(self.peek_token@)] + lex_outs(
                self.lexer@.input,
                self.lexer@.pos,
            )
        }
    }

    /// Under the window invariant the first two stream positions hold
    /// the current and the lookahead token.
    pub proof fn lemma_window(&self)
        requires
            self.wf(),
        ensures
            out_at(self.stream(), 0) == Ok::<SpecToken, Seq<char>>(self.spec_curr()),
            out_at(self.stream(), 1) == Ok::<SpecToken, Seq<char>>(self.spec_peek()),
    {
    }

    /// Primes the window by pulling exactly two tokens from the lexer;
    /// a lexer error in either pull fails construction instead.
    pub fn new(lexer: Lexer) -> (r: Result<Parser, ParserError>)
        requires
            lexer.wf(),
        ensures
            match r {
                Ok(p) => p.wf() && p.stream() == lex_outs(lexer@.input, lexer@.pos),
                Err(e) => {
                    ||| out_at(lex_outs(lexer@.input, lexer@.pos), 0) matches Err(l) && e@
                        == SpecParserError::LexerError(l)
                    ||| out_at(lex_outs(lexer@.input, lexer@.pos), 0) is Ok && (out_at(
                        lex_outs(lexer@.input, lexer@.pos),
                        1,
                    ) matches Err(l) && e@ == SpecParserError::LexerError(l))
                },
            },
            r is Err <==> out_at(lex_outs(lexer@.input, lexer@.pos), 0) is Err || out_at(
                lex_outs(lexer@.input, lexer@.pos),
                1,
            ) is Err,
    {
        let ghost s = lexer@.input;
        let ghost p0 = lexer@.pos;
        let ghost louts = lex_outs(s, p0);
        let mut lexer = lexer;
        proof {
            lexer.lemma_wf_pos();
            lemma_lex_step_bounds(s, p0);
            lemma_lex_outs_unfold(s, p0);
        }
        let first = match lexer.next_token() {
            Ok(t) => t,
            Err(e) => {
                return Err(ParserError::LexerError(e));
            },
        };
        let ghost p1 = lexer@.pos;
        proof {
            lexer.lemma_wf_pos();
            lemma_lex_step_bounds(s, p1);
            lemma_lex_outs_unfold(s, p1);
            if first.token_type == TokenType::Eof {
                lemma_eof_idempotent(s, p0);
            }
        }
        let second = match lexer.next_token() {
            Ok(t) => t,
            Err(e) => {
                return Err(ParserError::LexerError(e));
            },
        };
        let ghost p2 = lexer@.pos;
        proof {
            lexer.lemma_wf_pos();
            lemma_lex_outs_unfold(s, p2);
            if second.token_type == TokenType::Eof {
                lemma_eof_idempotent(s, p1);
            }
        }
        let p = Parser { lexer, errors: Vec::new(), curr_token: first, peek_token: second };
        proof {
            if first.token_type == TokenType::Eof {
                assert(p.stream() =~= louts);
            } else if second.token_type == TokenType::Eof {
                assert(louts =~= seq![Ok::<SpecToken, Seq<char>>(first@)]);
                assert(p.stream() =~= louts);
            } else {
                assert(lex_outs(s, p1) == seq![Ok::<SpecToken, Seq<char>>(second@)] + lex_outs(
                    s,
                    p2,
                ));
                assert(p.stream() =~= louts);
            }
        }
        Ok(p)
    }

    /// Slides the window one token forward: the lookahead becomes
    /// current and one more token is pulled from the lexer. This is the
    /// single point that drives the lexer; a lexer error is handed back
    /// and leaves the window where it was.
    pub fn next_token(&mut self) -> (r: Result<(), ParserError>)
        requires
            old(self).wf(),
        ensures
            final(self).wf(),
            match r {
                Ok(()) => final(self).spec_curr() == old(self).spec_peek() && final(self).stream()
                    == (if old(self).stream().len() == 0 {
                    old(self).stream()
                } else {
                    old(self).stream().skip(1)
                }),
                Err(e) => out_at(old(self).stream(), 2) matches Err(l) && e@
                    == SpecParserError::LexerError(l) && final(self).spec_curr() == old(
                    self,
                ).spec_curr() && final(self).spec_peek() == old(self).spec_peek(),
            },
            r is Err <==> out_at(old(self).stream(), 2) is Err,
    {
        let ghost s = self.lexer@.input;
        let ghost p0 = self.lexer@.pos;
        proof {
            self.lexer.lemma_wf_pos();
            lemma_lex_step_bounds(s, p0);
            lemma_lex_outs_unfold(s, p0);
        }
        match self.lexer.next_token() {
            Ok(t) => {
                let ghost p1 = self.lexer@.pos;
                proof {
                    self.lexer.lemma_wf_pos();
                    lemma_lex_outs_unfold(s, p1);
                    if t.token_type == TokenType::Eof {
                        lemma_eof_idempotent(s, p0);
                    }
                }
                core::mem::swap(&mut self.curr_token, &mut self.peek_token);
                self.peek_token = t;
                proof {
                    if old(self).stream().len() != 0 {
                        assert(self.stream() =~= old(self).stream().skip(1));
                    }
                }
                Ok(())
            },
            Err(e) => Err(ParserError::LexerError(e)),
        }
    }

    /// Whether the current token has the given type.
    pub fn curr_token_is(&self, token_type: TokenType) -> (b: bool)
        ensures
            b == (self.spec_curr().token_type == token_type),
    {
        self.curr_token.token_type == token_type
    }

    /// Whether the lookahead token has the given type.
    pub fn peek_token_is(&self, token_type: TokenType) -> (b: bool)
        ensures
            b == (self.spec_peek().token_type == token_type),
    {
        self.peek_token.token_type == token_type
    }

    /// The current token, for inspection after a failed parse.
    pub fn curr_token(&self) -> (t: &Token)
        ensures
            t@ == self.spec_curr(),
    {
        &self.curr_token
    }

    /// If the lookahead has the given type, advances onto it; otherwise
    /// fails without advancing, so the window still shows the offending
    /// token.
    pub fn expect_peek(&mut self, token_type: TokenType) -> (r: Result<(), ParserError>)
        requires
            old(self).wf(),
        ensures
            final(self).wf(),
            match r {
                Ok(()) => {
                    &&& old(self).spec_peek().token_type == token_type
                    &&& final(self).spec_curr() == old(self).spec_peek()
                    &&& out_at(old(self).stream(), 2) is Ok
                    &&& final(self).stream() == (if old(self).stream().len() == 0 {
                        old(self).stream()
                    } else {
                        old(self).stream().skip(1)
                    })
                },
                Err(e) => match e@ {
                    SpecParserError::UnexpectedTokenType(expected, got) => {
                        &&& expected == token_type
                        &&& got == old(self).spec_peek().token_type
                        &&& got != token_type
                        &&& final(self).stream() == old(self).stream()
                        &&& final(self).spec_curr() == old(self).spec_curr()
                        &&& final(self).spec_peek() == old(self).spec_peek()
                    },
                    SpecParserError::LexerError(l) => {
                        &&& old(self).spec_peek().token_type == token_type
                        &&& out_at(old(self).stream(), 2) == Err::<SpecToken, Seq<char>>(l)
                        &&& final(self).spec_curr() == old(self).spec_curr()
                        &&& final(self).spec_peek() == old(self).spec_peek()
                    },
                    _ => false,
                },
            },
    {
        if self.peek_token_is(token_type) {
            match self.next_token() {
                Ok(()) => Ok(()),
                Err(e) => Err(e),
            }
        } else {
            Err(ParserError::UnexpectedTokenType(token_type, self.peek_token.token_type))
        }
    }

    /// Dispatches on the current token's type; only `let` starts a
    /// statement rule, every other token is unexpected.
    pub fn parse_statement(&mut self) -> (r: Result<Statement, ParserError>)
        requires
            old(self).wf(),
        ensures
            final(self).wf(),
            match r {
                Ok(st) => spec_parse_statement(old(self).stream()) matches Ok((sp, j)) && sp == st@
                    && 0 <= j < old(self).stream().len() && final(self).stream() == old(
                    self,
                ).stream().skip(j),
                Err(e) => spec_parse_statement(old(self).stream()) == Err::<
                    (SpecStatement, int),
                    SpecParserError,
                >(e@),
            },
    {
        proof {
            self.lemma_window();
        }
        if self.curr_token_is(TokenType::Let) {
            self.parse_let_statement()
        } else {
            Err(ParserError::UnexpectedToken(dup_token(&self.curr_token)))
        }
    }

    /// Parses `let IDENT = ... ;`. The prefix must be well-formed; after
    /// it, tokens are discarded up to the first semicolon, and the token
    /// found there stands in for the value expression until expression
    /// parsing is filled in. On success the current token is left at the
    /// semicolon.
    pub fn parse_let_statement(&mut self) -> (r: Result<Statement, ParserError>)
        requires
            old(self).wf(),
        ensures
            final(self).wf(),
            match r {
                Ok(st) => spec_parse_let(old(self).stream()) matches Ok((sp, j)) && sp == st@ && 0
                    <= j < old(self).stream().len() && final(self).stream() == old(
                    self,
                ).stream().skip(j),
                Err(e) => spec_parse_let(old(self).stream()) == Err::<
                    (SpecStatement, int),
                    SpecParserError,
                >(e@),
            },
    {
        let ghost outs = self.stream();
        proof {
            self.lemma_window();
        }
        let let_token = dup_token(&self.curr_token);
        match self.expect_peek(TokenType::Ident) {
            Ok(()) => {},
            Err(e) => {
                return Err(e);
            },
        }
        proof {
            self.lemma_window();
            lemma_out_at_skip(outs, 1, 0);
            lemma_out_at_skip(outs, 1, 1);
            lemma_out_at_skip(outs, 1, 2);
        }
        let name = Expression::Identifier {
            token: dup_token(&self.curr_token),
            value: self.curr_token.literal.clone(),
        };
        match self.expect_peek(TokenType::Assign) {
            Ok(()) => {},
            Err(e) => {
                return Err(e);
            },
        }
        proof {
            self.lemma_window();
            assert(outs.skip(1).skip(1) =~= outs.skip(2));
            lemma_out_at_skip(outs, 2, 0);
            lemma_out_at_skip(outs, 2, 1);
        }
        let ghost j: int = 2;
        while !self.curr_token_is(TokenType::Semicolon)
            invariant
                self.wf(),
                outs == old(self).stream(),
                2 <= j <= outs.len(),
                self.stream() == outs.skip(j),
                scan_semi(outs, 2) == scan_semi(outs, j),
                out_at(outs, 0) is Ok,
                out_at(outs, 1) matches Ok(t1) && t1.token_type == TokenType::Ident,
                out_at(outs, 2) matches Ok(t2) && t2.token_type == TokenType::Assign,
                out_at(outs, 3) is Ok,
            decreases outs.len() - j,
        {
            proof {
                self.lemma_window();
                lemma_out_at_skip(outs, j, 0);
                lemma_out_at_skip(outs, j, 2);
            }
            if self.curr_token_is(TokenType::Eof) {
                return Err(
                    ParserError::UnexpectedTokenType(TokenType::Semicolon, TokenType::Eof),
                );
            }
            match self.next_token() {
                Ok(()) => {},
                Err(e) => {
                    return Err(e);
                },
            }
            proof {
                assert(outs.skip(j).skip(1) =~= outs.skip(j + 1));
                j = j + 1;
            }
        }
        proof {
            self.lemma_window();
            lemma_out_at_skip(outs, j, 0);
        }
        let value = Expression::Identifier {
            token: dup_token(&self.curr_token),
            value: self.curr_token.literal.clone(),
        };
        Ok(Statement::Let { token: let_token, name, value })
    }

    /// Parses statements until the current token is end-of-stream,
    /// stopping at the first error with nothing kept.
    pub fn parse_program(&mut self) -> (r: Result<Program, ParserError>)
        requires
            old(self).wf(),
        ensures
            final(self).wf(),
            match r {
                Ok(prog) => spec_parse_program(old(self).stream()) == Ok::<
                    Seq<SpecStatement>,
                    SpecParserError,
                >(prog@),
                Err(e) => spec_parse_program(old(self).stream()) == Err::<
                    Seq<SpecStatement>,
                    SpecParserError,
                >(e@),
            },
    {
        let ghost outs0 = self.stream();
        let mut statements: Vec<Statement> = Vec::new();
        while !self.curr_token_is(TokenType::Eof)
            invariant
                self.wf(),
                outs0 == old(self).stream(),
                spec_parse_program(outs0) == (match spec_parse_program(self.stream()) {
                    Ok(rest) => Ok::<Seq<SpecStatement>, SpecParserError>(
                        spec_statements(statements@) + rest,
                    ),
                    Err(e) => Err::<Seq<SpecStatement>, SpecParserError>(e),
                }),
            decreases self.stream().len(),
        {
            let ghost s_i = self.stream();
            let ghost stmts_i = statements@;
            proof {
                self.lemma_window();
            }
            let st = match self.parse_statement() {
                Ok(st) => st,
                Err(e) => {
                    return Err(e);
                },
            };
            let ghost jj = s_i.len() - self.stream().len();
            proof {
                assert(spec_parse_statement(s_i) == Ok::<(SpecStatement, int), SpecParserError>(
                    (st@, jj),
                ));
                lemma_out_at_skip(s_i, jj, 2);
            }
            match self.next_token() {
                Ok(()) => {},
                Err(e) => {
                    return Err(e);
                },
            }
            statements.push(st);
            proof {
                assert(s_i.skip(jj).skip(1) =~= s_i.skip(jj + 1));
                assert(spec_statements(statements@) =~= spec_statements(stmts_i).push(st@));
                assert forall|rest: Seq<SpecStatement>|
                    spec_statements(stmts_i) + (seq![st@] + rest) =~= spec_statements(statements@)
                        + rest by {}
            }
        }
        proof {
            assert(spec_statements(statements@) + Seq::<SpecStatement>::empty() =~= spec_statements(
                statements@,
            ));
        }
        Ok(Program { statements })
    }
}

/// A copy of a token, field by field.
fn dup_token(t: &Token) -> (r: Token)
    ensures
        r@ == t@,
{
    Token { token_type: t.token_type, literal: t.literal.clone() }
}

} // verus!
