use vstd::prelude::*;

use crate::token::{
    spec_from_symbol, spec_ident_type, spec_single_symbol_type, SpecToken, Token, TokenType,
};

verus! {

/// Whitespace skipped between tokens: space, tab, newline, carriage return.
pub open spec fn is_ws(c: char) -> bool {
    c == ' ' || c == '\t' || c == '\n' || c == '\r'
}

/// An ASCII letter; identifiers and keywords are maximal runs of these.
pub open spec fn is_letter(c: char) -> bool {
    ('a' <= c && c <= 'z') || ('A' <= c && c <= 'Z')
}

/// An ASCII decimal digit; integer literals are maximal runs of these.
pub open spec fn is_digit(c: char) -> bool {
    '0' <= c && c <= '9'
}

/// The first position at or after `i` that does not hold whitespace.
pub open spec fn skip_ws(s: Seq<char>, i: int) -> int
    decreases s.len() - i,
{
    if 0 <= i < s.len() && is_ws(s[i]) {
        skip_ws(s, i + 1)
    } else {
        i
    }
}

/// The end of the maximal letter run starting at `i`.
pub open spec fn letter_end(s: Seq<char>, i: int) -> int
    decreases s.len() - i,
{
    if 0 <= i < s.len() && is_letter(s[i]) {
        letter_end(s, i + 1)
    } else {
        i
    }
}

/// The end of the maximal digit run starting at `i`.
pub open spec fn digit_end(s: Seq<char>, i: int) -> int
    decreases s.len() - i,
{
    if 0 <= i < s.len() && is_digit(s[i]) {
        digit_end(s, i + 1)
    } else {
        i
    }
}

/// The symbol-table match at position `i`: the token type and the number of
/// characters consumed. The two-character operators are tried before their
/// single-character prefixes, so `==` and `!=` win over `=` and `!`.
pub open spec fn symbol_at(s: Seq<char>, i: int) -> Option<(TokenType, int)> {
    if i + 2 <= s.len() && s[i] == '=' && s[i + 1] == '=' {
        Some((TokenType::Eq, 2))
    } else if i + 2 <= s.len() && s[i] == '!' && s[i + 1] == '=' {
        Some((TokenType::NotEq, 2))
    } else if 0 <= i < s.len() && spec_single_symbol_type(s[i]) != TokenType::Illegal {
        Some((spec_single_symbol_type(s[i]), 1))
    } else {
        None
    }
}

/// The numeric value of one decimal digit character.
pub open spec fn digit_val(c: char) -> int {
    c as int - '0' as int
}

/// The numeric value of a decimal digit string.
pub open spec fn digits_val(s: Seq<char>) -> int
    decreases s.len(),
{
    if s.len() == 0 {
        0
    } else {
        digits_val(s.drop_last()) * 10 + digit_val(s.last())
    }
}

/// Whether a digit run fits the native signed integer width the lexer
/// checks literals against.
pub open spec fn fits_native_int(s: Seq<char>) -> bool {
    digits_val(s) <= i32::MAX as int
}

/// One step of the lexer from cursor position `start`: the token produced
/// (or the digit literal that overflowed) and the cursor position after it.
pub ghost struct LexStep {
    pub out: Result<SpecToken, Seq<char>>,
    pub end: int,
}

/// What one `next_token` call yields from cursor position `start`:
/// whitespace is skipped, then end of input, the ordered symbol table,
/// letter runs, digit runs and single illegal characters are tried in
/// that order.
pub open spec fn lex_step(s: Seq<char>, start: int) -> LexStep {
    let i = skip_ws(s, start);
    if i >= s.len() {
        LexStep {
            out: Ok(SpecToken { token_type: TokenType::Eof, literal: Seq::empty() }),
            end: i,
        }
    } else {
        match symbol_at(s, i) {
            Some((t, n)) => LexStep {
                out: Ok(SpecToken { token_type: t, literal: s.subrange(i, i + n) }),
                end: i + n,
            },
            None => {
                if is_letter(s[i]) {
                    let e = letter_end(s, i);
                    LexStep {
                        out: Ok(
                            SpecToken {
                                token_type: spec_ident_type(s.subrange(i, e)),
                                literal: s.subrange(i, e),
                            },
                        ),
                        end: e,
                    }
                } else if is_digit(s[i]) {
                    let e = digit_end(s, i);
                    let lit = s.subrange(i, e);
                    if fits_native_int(lit) {
                        LexStep {
                            out: Ok(SpecToken { token_type: TokenType::Int, literal: lit }),
                            end: e,
                        }
                    } else {
                        LexStep { out: Err(lit), end: e }
                    }
                } else {
                    LexStep {
                        out: Ok(SpecToken { token_type: TokenType::Illegal, literal: seq![s[i]] }),
                        end: i + 1,
                    }
                }
            },
        }
    }
}

pub proof fn lemma_skip_ws_bounds(s: Seq<char>, i: int)
    requires
        0 <= i <= s.len(),
    ensures
        i <= skip_ws(s, i) <= s.len(),
        skip_ws(s, i) < s.len() ==> !is_ws(s[skip_ws(s, i)]),
    decreases s.len() - i,
{
    if i < s.len() && is_ws(s[i]) {
        lemma_skip_ws_bounds(s, i + 1);
    }
}

pub proof fn lemma_letter_end_bounds(s: Seq<char>, i: int)
    requires
        0 <= i <= s.len(),
    ensures
        i <= letter_end(s, i) <= s.len(),
        letter_end(s, i) < s.len() ==> !is_letter(s[letter_end(s, i)]),
    decreases s.len() - i,
{
    if i < s.len() && is_letter(s[i]) {
        lemma_letter_end_bounds(s, i + 1);
    }
}

pub proof fn lemma_digit_end_bounds(s: Seq<char>, i: int)
    requires
        0 <= i <= s.len(),
    ensures
        i <= digit_end(s, i) <= s.len(),
        digit_end(s, i) < s.len() ==> !is_digit(s[digit_end(s, i)]),
    decreases s.len() - i,
{
    if i < s.len() && is_digit(s[i]) {
        lemma_digit_end_bounds(s, i + 1);
    }
}

/// Every lexing step stays inside the input, and consumes at least one
/// character whenever anything but end of input lies ahead.
pub proof fn lemma_lex_step_bounds(s: Seq<char>, start: int)
    requires
        0 <= start <= s.len(),
    ensures
        start <= lex_step(s, start).end <= s.len(),
        skip_ws(s, start) < s.len() ==> skip_ws(s, start) < lex_step(s, start).end,
{
    lemma_skip_ws_bounds(s, start);
    let i = skip_ws(s, start);
    if i < s.len() {
        match symbol_at(s, i) {
            Some((t, n)) => {},
            None => {
                if is_letter(s[i]) {
                    lemma_letter_end_bounds(s, i);
                    assert(letter_end(s, i) == letter_end(s, i + 1));
                    lemma_letter_end_bounds(s, i + 1);
                } else if is_digit(s[i]) {
                    lemma_digit_end_bounds(s, i);
                    assert(digit_end(s, i) == digit_end(s, i + 1));
                    lemma_digit_end_bounds(s, i + 1);
                }
            },
        }
    }
}

/// Past the first end-of-stream token the lexer yields end-of-stream
/// forever: a step that produces Eof leaves the cursor where it is, and
/// the step from there produces Eof again.
pub proof fn lemma_eof_idempotent(s: Seq<char>, pos: int)
    requires
        0 <= pos <= s.len(),
        lex_step(s, pos).out matches Ok(t) && t.token_type == TokenType::Eof,
    ensures
        lex_step(s, pos).end == skip_ws(s, pos),
        skip_ws(s, pos) == s.len(),
        lex_step(s, lex_step(s, pos).end) == lex_step(s, pos),
{
    lemma_skip_ws_bounds(s, pos);
}

/// Two-character operators are matched greedily over their
/// single-character prefixes: where `==` or `!=` lies at the cursor, one
/// Eq or NotEq token holding both characters is produced, never an
/// Assign or Bang token.
pub proof fn lemma_two_char_operators_greedy(s: Seq<char>, pos: int)
    requires
        0 <= pos <= s.len(),
        ({
            let i = skip_ws(s, pos);
            i + 2 <= s.len() && (s[i] == '=' || s[i] == '!') && s[i + 1] == '='
        }),
    ensures
        ({
            let i = skip_ws(s, pos);
            &&& lex_step(s, pos).end == i + 2
            &&& lex_step(s, pos).out matches Ok(t) && t.literal == s.subrange(i, i + 2)
                && t.token_type == (if s[i] == '=' {
                TokenType::Eq
            } else {
                TokenType::NotEq
            })
        }),
{
    lemma_skip_ws_bounds(s, pos);
}

/// A maximal letter run becomes one token whose literal is exactly the
/// run and whose type is given by the keyword table.
pub proof fn lemma_letter_run_classification(s: Seq<char>, pos: int)
    requires
        0 <= pos <= s.len(),
        ({
            let i = skip_ws(s, pos);
            i < s.len() && is_letter(s[i])
        }),
    ensures
        ({
            let i = skip_ws(s, pos);
            let lit = s.subrange(i, letter_end(s, i));
            &&& lex_step(s, pos).end == letter_end(s, i)
            &&& lex_step(s, pos).out == Ok::<SpecToken, Seq<char>>(
                SpecToken { token_type: spec_ident_type(lit), literal: lit },
            )
        }),
{
    lemma_skip_ws_bounds(s, pos);
}

/// The keyword table recognizes exactly the five keyword spellings,
/// case-sensitively; every other letter run is an identifier.
pub proof fn lemma_keyword_classification(lit: Seq<char>)
    ensures
        spec_ident_type(lit) == TokenType::Let <==> lit == "let"@,
        spec_ident_type(lit) == TokenType::Function <==> lit == "fn"@,
        spec_ident_type(lit) == TokenType::If <==> lit == "if"@,
        spec_ident_type(lit) == TokenType::Else <==> lit == "else"@,
        spec_ident_type(lit) == TokenType::Return <==> lit == "return"@,
        spec_ident_type(lit) == TokenType::Ident <==> (lit != "let"@ && lit != "fn"@ && lit
            != "if"@ && lit != "else"@ && lit != "return"@),
{
    reveal_strlit("let");
    reveal_strlit("fn");
    reveal_strlit("if");
    reveal_strlit("else");
    reveal_strlit("return");
    assert("let"@.len() == 3);
    assert("fn"@.len() == 2);
    assert("if"@.len() == 2);
    assert("else"@.len() == 4);
    assert("return"@.len() == 6);
    assert("fn"@[0] == 'f' && "if"@[0] == 'i');
    assert("else"@[0] == 'e' && "let"@[0] == 'l');
}

/// A maximal digit run is scanned in full either way: when its value
/// fits the native signed integer width the token's literal is exactly
/// the digit text and no error is raised; when it does not, the error
/// carries exactly the digit text; in both cases the cursor moves past
/// the run, so the next token is still produced.
pub proof fn lemma_digit_run(s: Seq<char>, pos: int)
    requires
        0 <= pos <= s.len(),
        ({
            let i = skip_ws(s, pos);
            i < s.len() && is_digit(s[i])
        }),
    ensures
        ({
            let i = skip_ws(s, pos);
            let lit = s.subrange(i, digit_end(s, i));
            &&& lex_step(s, pos).end == digit_end(s, i)
            &&& (fits_native_int(lit) ==> lex_step(s, pos).out == Ok::<SpecToken, Seq<char>>(
                SpecToken { token_type: TokenType::Int, literal: lit },
            ))
            &&& (!fits_native_int(lit) ==> lex_step(s, pos).out == Err::<SpecToken, Seq<char>>(
                lit,
            ))
        }),
{
    lemma_skip_ws_bounds(s, pos);
}

/// The error a digit run that does not fit the native signed integer
/// width surfaces; the raw digit text is kept.
#[derive(Debug)]
pub enum LexerError {
    InvalidNumber(String),
}

impl View for LexerError {
    type V = Seq<char>;

    open spec fn view(&self) -> Seq<char> {
        match self {
            LexerError::InvalidNumber(s) => s@,
        }
    }
}

/// The cursor state of the lexer: the source text, the position of the
/// current character, and the current character itself, absent exactly
/// when the cursor has passed the end.
pub struct Lexer {
    input: String,
    position: usize,
    ch: Option<char>,
}

/// The mathematical state of a lexer: the source characters and the
/// cursor position.
pub ghost struct LexerView {
    pub input: Seq<char>,
    pub pos: int,
}

impl View for Lexer {
    type V = LexerView;

    closed spec fn view(&self) -> LexerView {
        LexerView { input: self.input@, pos: self.position as int }
    }
}

impl Lexer {
    /// The cursor invariant: the position never passes the end of the
    /// source, and the buffered character is the one at the position,
    /// absent exactly at the end.
    pub closed spec fn wf(&self) -> bool {
        &&& self.position as int <= self.input@.len()
        &&& if (self.position as int) < self.input@.len() {
            self.ch == Some(self.input@[self.position as int])
        } else {
            self.ch is None
        }
    }

    /// The cursor invariant keeps the position inside the input.
    pub proof fn lemma_wf_pos(&self)
        requires
            self.wf(),
        ensures
            0 <= self@.pos <= self@.input.len(),
    {
    }

    pub fn new(input: &str) -> (l: Lexer)
        ensures
            l.wf(),
            l@.input == input@,
            l@.pos == 0,
    {
        let n = input.unicode_len();
        let ch = if n > 0 {
            Some(input.get_char(0))
        } else {
            None
        };
        Lexer { input: input.to_owned(), position: 0, ch }
    }

    /// Advances the cursor by one character.
    fn read_char(&mut self)
        requires
            old(self).wf(),
            old(self)@.pos < old(self)@.input.len(),
        ensures
            final(self).wf(),
            final(self)@.input == old(self)@.input,
            final(self)@.pos == old(self)@.pos + 1,
    {
        let n = self.input.as_str().unicode_len();
        self.position = self.position + 1;
        self.ch = if self.position < n {
            Some(self.input.as_str().get_char(self.position))
        } else {
            None
        };
    }

    /// Advances the cursor by `n` characters.
    fn read_n(&mut self, n: usize)
        requires
            old(self).wf(),
            old(self)@.pos + n <= old(self)@.input.len(),
        ensures
            final(self).wf(),
            final(self)@.input == old(self)@.input,
            final(self)@.pos == old(self)@.pos + n,
    {
        let ghost start = self@.pos;
        let mut k: usize = 0;
        while k < n
            invariant
                self.wf(),
                self@.input == old(self)@.input,
                k <= n,
                self@.pos == start + k,
                start + n <= self@.input.len(),
            decreases n - k,
        {
            self.read_char();
            k = k + 1;
        }
    }

    /// Whether the current character is whitespace.
    fn curr_is_ws(&self) -> (b: bool)
        requires
            self.wf(),
        ensures
            b == (self@.pos < self@.input.len() && is_ws(self@.input[self@.pos])),
    {
        match self.ch {
            Some(c) => c == ' ' || c == '\t' || c == '\n' || c == '\r',
            None => false,
        }
    }

    /// Whether the current character is an ASCII letter.
    fn curr_is_letter(&self) -> (b: bool)
        requires
            self.wf(),
        ensures
            b == (self@.pos < self@.input.len() && is_letter(self@.input[self@.pos])),
    {
        match self.ch {
            Some(c) => ('a' <= c && c <= 'z') || ('A' <= c && c <= 'Z'),
            None => false,
        }
    }

    /// Whether the current character is an ASCII digit.
    fn curr_is_digit(&self) -> (b: bool)
        requires
            self.wf(),
        ensures
            b == (self@.pos < self@.input.len() && is_digit(self@.input[self@.pos])),
    {
        match self.ch {
            Some(c) => '0' <= c && c <= '9',
            None => false,
        }
    }

    /// Skips the run of whitespace before the next token.
    fn skip_whitespace(&mut self)
        requires
            old(self).wf(),
        ensures
            final(self).wf(),
            final(self)@.input == old(self)@.input,
            final(self)@.pos == skip_ws(old(self)@.input, old(self)@.pos),
    {
        let ghost s = self@.input;
        let ghost p0 = self@.pos;
        while self.curr_is_ws()
            invariant
                self.wf(),
                self@.input == s,
                0 <= p0 <= self@.pos,
                skip_ws(s, p0) == skip_ws(s, self@.pos),
            decreases s.len() - self@.pos,
        {
            self.read_char();
        }
    }

    /// Consumes the maximal letter run at the cursor and hands its text back.
    fn read_identifier(&mut self) -> (r: String)
        requires
            old(self).wf(),
        ensures
            final(self).wf(),
            final(self)@.input == old(self)@.input,
            final(self)@.pos == letter_end(old(self)@.input, old(self)@.pos),
            r@ == old(self)@.input.subrange(
                old(self)@.pos,
                letter_end(old(self)@.input, old(self)@.pos),
            ),
    {
        let ghost s = self@.input;
        let ghost p0 = self@.pos;
        let start = self.position;
        while self.curr_is_letter()
            invariant
                self.wf(),
                self@.input == s,
                start == p0,
                0 <= p0 <= self@.pos,
                letter_end(s, p0) == letter_end(s, self@.pos),
            decreases s.len() - self@.pos,
        {
            self.read_char();
        }
        let piece = self.input.as_str().substring_char(start, self.position);
        String::from_str(piece)
    }

    /// Consumes the maximal digit run at the cursor. The digit text is
    /// always kept as spelled; a run that does not fit the native signed
    /// integer width surfaces an `InvalidNumber` error instead of a value.
    fn read_number(&mut self) -> (r: Result<String, LexerError>)
        requires
            old(self).wf(),
        ensures
            final(self).wf(),
            final(self)@.input == old(self)@.input,
            final(self)@.pos == digit_end(old(self)@.input, old(self)@.pos),
            ({
                let lit = old(self)@.input.subrange(
                    old(self)@.pos,
                    digit_end(old(self)@.input, old(self)@.pos),
                );
                match r {
                    Ok(number) => fits_native_int(lit) && number@ == lit,
                    Err(e) => !fits_native_int(lit) && e@ == lit,
                }
            }),
    {
        let ghost s = self@.input;
        let ghost p0 = self@.pos;
        let start = self.position;
        while self.curr_is_digit()
            invariant
                self.wf(),
                self@.input == s,
                start == p0,
                0 <= p0 <= self@.pos,
                digit_end(s, p0) == digit_end(s, self@.pos),
            decreases s.len() - self@.pos,
        {
            self.read_char();
        }
        let piece = self.input.as_str().substring_char(start, self.position);
        proof {
            lemma_digit_run_all_digits(s, p0);
            assert forall|j: int| 0 <= j < piece@.len() implies is_digit(#[trigger] piece@[j]) by {
                assert(piece@[j] == s[p0 + j]);
            }
        }
        if digits_fit(piece) {
            Ok(String::from_str(piece))
        } else {
            Err(LexerError::InvalidNumber(String::from_str(piece)))
        }
    }

    /// Tries the ordered symbol table at the cursor; on a match, consumes
    /// exactly the matched characters and hands their text back.
    fn read_symbol(&mut self) -> (r: Option<String>)
        requires
            old(self).wf(),
            old(self)@.pos < old(self)@.input.len(),
        ensures
            final(self).wf(),
            final(self)@.input == old(self)@.input,
            match r {
                Some(sym) => symbol_at(old(self)@.input, old(self)@.pos) matches Some((t, n))
                    && sym@ == old(self)@.input.subrange(old(self)@.pos, old(self)@.pos + n)
                    && final(self)@.pos == old(self)@.pos + n,
                None => symbol_at(old(self)@.input, old(self)@.pos) is None && final(self)@.pos
                    == old(self)@.pos,
            },
    {
        let c = match self.ch {
            Some(c) => c,
            None => {
                return None;
            },
        };
        let n = self.input.as_str().unicode_len();
        let next_is_eq = self.position + 1 < n && self.input.as_str().get_char(self.position + 1)
            == '=';
        if c == '=' && next_is_eq {
            let sym = String::from_str(
                self.input.as_str().substring_char(self.position, self.position + 2),
            );
            self.read_n(2);
            Some(sym)
        } else if c == '!' && next_is_eq {
            let sym = String::from_str(
                self.input.as_str().substring_char(self.position, self.position + 2),
            );
            self.read_n(2);
            Some(sym)
        } else {
            let t = TokenType::from_single_symbol(c);
            if t == TokenType::Illegal {
                None
            } else {
                let sym = String::from_str(
                    self.input.as_str().substring_char(self.position, self.position + 1),
                );
                self.read_char();
                Some(sym)
            }
        }
    }

    /// Produces the next token, or the soft error for an integer literal
    /// that does not fit the native signed integer width; in either case
    /// the cursor moves past what was scanned, so lexing can continue.
    pub fn next_token(&mut self) -> (r: Result<Token, LexerError>)
        requires
            old(self).wf(),
        ensures
            final(self).wf(),
            final(self)@.input == old(self)@.input,
            final(self)@.pos == lex_step(old(self)@.input, old(self)@.pos).end,
            match r {
                Ok(t) => lex_step(old(self)@.input, old(self)@.pos).out == Ok::<
                    SpecToken,
                    Seq<char>,
                >(t@),
                Err(e) => lex_step(old(self)@.input, old(self)@.pos).out == Err::<
                    SpecToken,
                    Seq<char>,
                >(e@),
            },
    {
        let ghost s = self@.input;
        let ghost p0 = self@.pos;
        self.skip_whitespace();
        proof {
            lemma_skip_ws_bounds(s, p0);
        }
        match self.ch {
            None => Ok(Token::eof()),
            Some(c) => {
                if let Some(symbol) = self.read_symbol() {
                    Ok(Token::from_symbol(symbol.as_str()))
                } else if char_is_letter(c) {
                    Ok(Token::ident(self.read_identifier()))
                } else if char_is_digit(c) {
                    match self.read_number() {
                        Ok(number) => Ok(Token::integer(number)),
                        Err(e) => Err(e),
                    }
                } else {
                    let start = self.position;
                    self.read_char();
                    let lit = String::from_str(
                        self.input.as_str().substring_char(start, self.position),
                    );
                    proof {
                        assert(s.subrange(skip_ws(s, p0), skip_ws(s, p0) + 1) =~= seq![
                            s[skip_ws(s, p0)],
                        ]);
                    }
                    Ok(Token::new(TokenType::Illegal, lit))
                }
            },
        }
    }
}

/// Whether a character is an ASCII letter.
fn char_is_letter(c: char) -> (b: bool)
    ensures
        b == is_letter(c),
{
    ('a' <= c && c <= 'z') || ('A' <= c && c <= 'Z')
}

/// Whether a character is an ASCII digit.
fn char_is_digit(c: char) -> (b: bool)
    ensures
        b == is_digit(c),
{
    '0' <= c && c <= '9'
}

/// A maximal digit run holds digits only.
proof fn lemma_digit_run_all_digits(s: Seq<char>, i: int)
    requires
        0 <= i <= s.len(),
    ensures
        forall|j: int| i <= j < digit_end(s, i) ==> is_digit(#[trigger] s[j]),
    decreases s.len() - i,
{
    if i < s.len() && is_digit(s[i]) {
        lemma_digit_run_all_digits(s, i + 1);
    }
}

/// Whether a digit string's value fits the native signed integer width.
fn digits_fit(s: &str) -> (b: bool)
    requires
        forall|j: int| 0 <= j < s@.len() ==> is_digit(#[trigger] s@[j]),
    ensures
        b == fits_native_int(s@),
{
    let n = s.unicode_len();
    let mut val: u32 = 0;
    let mut over = false;
    let mut k: usize = 0;
    while k < n
        invariant
            n == s@.len(),
            k <= n,
            forall|j: int| 0 <= j < s@.len() ==> is_digit(#[trigger] s@[j]),
            !over ==> val == digits_val(s@.subrange(0, k as int)) && val <= 2147483647,
            over ==> digits_val(s@.subrange(0, k as int)) > 2147483647,
        decreases n - k,
    {
        let c = s.get_char(k);
        let d = (c as u32) - 48;
        proof {
            assert(s@.subrange(0, k + 1).drop_last() =~= s@.subrange(0, k as int));
            assert(s@.subrange(0, k + 1).last() == s@[k as int]);
        }
        if over {
        } else if val > 214748364 || (val == 214748364 && d > 7) {
            over = true;
        } else {
            val = val * 10 + d;
        }
        k = k + 1;
    }
    proof {
        assert(s@.subrange(0, n as int) =~= s@);
    }
    !over
}

} // verus!

