//! Turns source characters into positioned tokens, one per call.
//!
//! Every token's text is the exact slice of the source between its first and
//! last character, and its range gives the row and column of both ends. The
//! spec functions below say where each kind of token ends; `spans_from` is
//! the whole token sequence read from a position.

use vstd::prelude::*;
use crate::text::{
    white_space, skip_space, lemma_skip_space_bounds, is_white_space, copy_range,
    string_from_chars,
};

verus! {

#[derive(Debug, PartialEq)]
pub enum Token {
    Value(String),
    Comment(String),
    Comma,
    LBrace,
    RBrace,
    Colon,
    Semicolon,
}

impl Clone for Token {
    fn clone(&self) -> (r: Token)
        ensures
            r@ == self@,
    {
        match self {
            Token::Value(v) => Token::Value(v.clone()),
            Token::Comment(c) => Token::Comment(c.clone()),
            Token::Comma => Token::Comma,
            Token::LBrace => Token::LBrace,
            Token::RBrace => Token::RBrace,
            Token::Colon => Token::Colon,
            Token::Semicolon => Token::Semicolon,
        }
    }
}

#[derive(Debug, PartialEq, Clone)]
pub struct PToken {
    pub token: Token,
    pub range: Range,
}

/// A zero-based row and column in the source.
#[derive(Debug, PartialEq, Clone, Copy)]
pub struct Cursor {
    pub row: usize,
    pub column: usize,
}

impl Cursor {
    pub fn new(row: usize, column: usize) -> (r: Cursor)
        ensures
            r.row == row,
            r.column == column,
    {
        Cursor { row, column }
    }
}

/// An inclusive span of the source.
#[derive(Debug, PartialEq, Clone, Copy)]
pub struct Range {
    pub from: Cursor,
    pub to: Cursor,
}

impl Range {
    pub fn new(from: Cursor, to: Cursor) -> (r: Range)
        ensures
            r.from == from,
            r.to == to,
    {
        Range { from, to }
    }
}

/// What a token is, with the text of values and comments.
pub enum Lexeme {
    Value(Seq<char>),
    Comment(Seq<char>),
    Comma,
    LBrace,
    RBrace,
    Colon,
    Semicolon,
}

impl View for Token {
    type V = Lexeme;

    open spec fn view(&self) -> Lexeme {
        match self {
            Token::Value(v) => Lexeme::Value(v@),
            Token::Comment(c) => Lexeme::Comment(c@),
            Token::Comma => Lexeme::Comma,
            Token::LBrace => Lexeme::LBrace,
            Token::RBrace => Lexeme::RBrace,
            Token::Colon => Lexeme::Colon,
            Token::Semicolon => Lexeme::Semicolon,
        }
    }
}

/// A token read from a source: what it is and the indices of its first and
/// last characters.
pub struct Span {
    pub lexeme: Lexeme,
    pub start: int,
    pub end: int,
}

/// Row and column of index `k` of `s`: a newline starts a new row at column
/// zero, any other character moves one column on.
pub open spec fn cursor_at(s: Seq<char>, k: int) -> (int, int)
    decreases k,
{
    if k <= 0 {
        (0, 0)
    } else {
        let (r, c) = cursor_at(s, k - 1);
        if s[k - 1] == '\n' {
            (r + 1, 0)
        } else {
            (r, c + 1)
        }
    }
}

/// `c` is the row and column of index `k` of `s`.
pub open spec fn is_cursor(c: Cursor, s: Seq<char>, k: int) -> bool {
    c.row as int == cursor_at(s, k).0 && c.column as int == cursor_at(s, k).1
}

/// `t` is the token `sp` of source `s`, with the positions of its ends.
pub open spec fn ptoken_is(t: PToken, s: Seq<char>, sp: Span) -> bool {
    &&& t.token@ == sp.lexeme
    &&& is_cursor(t.range.from, s, sp.start)
    &&& is_cursor(t.range.to, s, sp.end)
}

/// Characters that may continue an unquoted value.
pub open spec fn is_value_char(c: char) -> bool {
    !(c == ':' || c == ';' || c == ',' || c == '{' || c == ' ' || c == '\t' || c == '\n')
}

/// Escape state after reading `c`: a backslash toggles it, anything else
/// clears it.
pub open spec fn escape_after(c: char, esc: bool) -> bool {
    if c == '\\' {
        !esc
    } else {
        false
    }
}

/// Index of the last character of a line comment whose text reaches index
/// `q`: the comment runs up to, not including, the next newline.
pub open spec fn line_comment_end(s: Seq<char>, q: int) -> int
    decreases s.len() - q,
{
    if q + 1 < s.len() && s[q + 1] != '\n' {
        line_comment_end(s, q + 1)
    } else {
        q
    }
}

/// Index of the last character of a block comment whose text reaches index
/// `q`: the `/` of the first `*/` that starts after `q`, or the end of input.
pub open spec fn block_comment_end(s: Seq<char>, q: int) -> int
    decreases s.len() - q,
{
    if q + 1 < s.len() {
        if q + 3 < s.len() && s[q + 2] == '*' && s[q + 3] == '/' {
            q + 3
        } else {
            block_comment_end(s, q + 1)
        }
    } else {
        q
    }
}

/// Reading a quoted run whose text reaches index `q` with escape state
/// `esc`: the index where it stops (the closing `quote`, or the end of input)
/// and the escape state there. A quote right after an unpaired backslash
/// does not close the run.
pub open spec fn quote_end(s: Seq<char>, q: int, esc: bool, quote: char) -> (int, bool)
    decreases s.len() - q,
{
    if q + 1 < s.len() {
        let c = s[q + 1];
        if !esc && c == quote {
            (q + 1, esc)
        } else {
            quote_end(s, q + 1, escape_after(c, esc), quote)
        }
    } else {
        (q, esc)
    }
}

/// Index of the last character of an unquoted value whose text reaches
/// index `q` with escape state `esc`. The value goes on while the next
/// character is a value character or escaped; a quote in it brings in a
/// whole quoted run.
pub open spec fn value_end(s: Seq<char>, q: int, esc: bool) -> int
    decreases s.len() - q,
    via value_end_decreases
{
    if q + 1 < s.len() && (esc || is_value_char(s[q + 1])) {
        let c = s[q + 1];
        let (m, e) = if c == '\'' || c == '"' {
            quote_end(s, q + 1, esc, c)
        } else {
            (q + 1, esc)
        };
        value_end(s, m, escape_after(s[m], e))
    } else {
        q
    }
}

#[via_fn]
proof fn value_end_decreases(s: Seq<char>, q: int, esc: bool) {
    if q + 1 < s.len() && (esc || is_value_char(s[q + 1])) {
        let c = s[q + 1];
        if c == '\'' || c == '"' {
            lemma_quote_end_bounds(s, q + 1, esc, c);
        }
    }
}

pub proof fn lemma_quote_end_bounds(s: Seq<char>, q: int, esc: bool, quote: char)
    requires
        q < s.len(),
    ensures
        q <= quote_end(s, q, esc, quote).0 < s.len(),
    decreases s.len() - q,
{
    if q + 1 < s.len() {
        let c = s[q + 1];
        if !(!esc && c == quote) {
            lemma_quote_end_bounds(s, q + 1, escape_after(c, esc), quote);
        }
    }
}

pub proof fn lemma_value_end_bounds(s: Seq<char>, q: int, esc: bool)
    requires
        q < s.len(),
    ensures
        q <= value_end(s, q, esc) < s.len(),
    decreases s.len() - q,
{
    if q + 1 < s.len() && (esc || is_value_char(s[q + 1])) {
        let c = s[q + 1];
        if c == '\'' || c == '"' {
            lemma_quote_end_bounds(s, q + 1, esc, c);
            let (m, e) = quote_end(s, q + 1, esc, c);
            lemma_value_end_bounds(s, m, escape_after(s[m], e));
        } else {
            lemma_value_end_bounds(s, q + 1, escape_after(s[q + 1], esc));
        }
    }
}

pub proof fn lemma_line_comment_end_bounds(s: Seq<char>, q: int)
    requires
        q < s.len(),
    ensures
        q <= line_comment_end(s, q) < s.len(),
    decreases s.len() - q,
{
    if q + 1 < s.len() && s[q + 1] != '\n' {
        lemma_line_comment_end_bounds(s, q + 1);
    }
}

pub proof fn lemma_block_comment_end_bounds(s: Seq<char>, q: int)
    requires
        q < s.len(),
    ensures
        q <= block_comment_end(s, q) < s.len(),
    decreases s.len() - q,
{
    if q + 1 < s.len() && !(q + 3 < s.len() && s[q + 2] == '*' && s[q + 3] == '/') {
        lemma_block_comment_end_bounds(s, q + 1);
    }
}

/// A value or comment token spanning `s[start..=end]`.
pub open spec fn value_span(s: Seq<char>, start: int, end: int) -> Span {
    Span { lexeme: Lexeme::Value(s.subrange(start, end + 1)), start, end }
}

pub open spec fn comment_span(s: Seq<char>, start: int, end: int) -> Span {
    Span { lexeme: Lexeme::Comment(s.subrange(start, end + 1)), start, end }
}

pub open spec fn mark_span(lexeme: Lexeme, at: int) -> Span {
    Span { lexeme, start: at, end: at }
}

/// The token that starts at index `t`, a character that is not white space.
pub open spec fn span_at(s: Seq<char>, t: int) -> Span {
    let c = s[t];
    if c == '\\' {
        value_span(s, t, value_end(s, t, true))
    } else if c == '/' && t + 1 < s.len() && s[t + 1] == '/' {
        comment_span(s, t, line_comment_end(s, t))
    } else if c == '/' && t + 1 < s.len() && s[t + 1] == '*' {
        comment_span(s, t, block_comment_end(s, t))
    } else if c == ',' {
        mark_span(Lexeme::Comma, t)
    } else if c == '{' {
        mark_span(Lexeme::LBrace, t)
    } else if c == '}' {
        mark_span(Lexeme::RBrace, t)
    } else if c == ':' {
        mark_span(Lexeme::Colon, t)
    } else if c == ';' {
        mark_span(Lexeme::Semicolon, t)
    } else if c == '\'' || c == '"' {
        value_span(s, t, quote_end(s, t, false, c).0)
    } else {
        value_span(s, t, value_end(s, t, false))
    }
}

/// The next token at or after index `p`, past any white space; none once
/// only white space is left.
pub open spec fn next_span(s: Seq<char>, p: int) -> Option<Span> {
    let t = skip_space(s, p);
    if 0 <= t < s.len() {
        Some(span_at(s, t))
    } else {
        None
    }
}

pub proof fn lemma_span_at_bounds(s: Seq<char>, t: int)
    requires
        0 <= t < s.len(),
    ensures
        span_at(s, t).start == t,
        t <= span_at(s, t).end < s.len(),
{
    lemma_value_end_bounds(s, t, true);
    lemma_value_end_bounds(s, t, false);
    lemma_line_comment_end_bounds(s, t);
    lemma_block_comment_end_bounds(s, t);
    lemma_quote_end_bounds(s, t, false, s[t]);
}

pub proof fn lemma_next_span_bounds(s: Seq<char>, p: int)
    requires
        0 <= p,
    ensures
        next_span(s, p) matches Some(sp) ==> {
            &&& p <= sp.start <= sp.end < s.len()
            &&& !white_space(s[sp.start])
            &&& forall|k: int| p <= k < sp.start ==> white_space(#[trigger] s[k])
        },
        next_span(s, p) is None ==> forall|k: int| p <= k < s.len() ==> white_space(
            #[trigger] s[k],
        ),
{
    if p <= s.len() {
        lemma_skip_space_bounds(s, p);
        let t = skip_space(s, p);
        if t < s.len() {
            lemma_span_at_bounds(s, t);
        }
    }
}

/// Every token read from index `p` on, in order.
pub open spec fn spans_from(s: Seq<char>, p: int) -> Seq<Span>
    decreases s.len() - p,
    via spans_from_decreases
{
    match next_span(s, p) {
        Some(sp) => seq![sp] + spans_from(s, sp.end + 1),
        None => Seq::empty(),
    }
}

#[via_fn]
proof fn spans_from_decreases(s: Seq<char>, p: int) {
    if 0 <= p {
        lemma_next_span_bounds(s, p);
    } else {
        assert(skip_space(s, p) == p);
    }
}

pub proof fn lemma_cursor_bounds(s: Seq<char>, k: int)
    requires
        0 <= k,
    ensures
        0 <= cursor_at(s, k).0 <= k,
        0 <= cursor_at(s, k).1 <= k,
    decreases k,
{
    if k > 0 {
        lemma_cursor_bounds(s, k - 1);
    }
}


/// Reads tokens from a fixed sequence of characters.
#[derive(Debug, PartialEq)]
pub struct Lexer {
    input: Vec<char>,
    position: usize,
    row: usize,
    column: usize,
    escaping: bool,
}

impl Lexer {
    /// The characters being read.
    pub closed spec fn source(&self) -> Seq<char> {
        self.input@
    }

    /// Index of the next character to read.
    pub closed spec fn offset(&self) -> int {
        self.position as int
    }

    /// The position never passes the end, and the row and column are those
    /// of the position.
    pub closed spec fn wf(&self) -> bool {
        &&& self.position <= self.input.len()
        &&& self.row as int == cursor_at(self.input@, self.position as int).0
        &&& self.column as int == cursor_at(self.input@, self.position as int).1
    }

    pub proof fn lemma_offset(&self)
        requires
            self.wf(),
        ensures
            0 <= self.offset() <= self.source().len(),
    {
    }

    pub fn new(input: Vec<char>) -> (r: Lexer)
        ensures
            r.wf(),
            r.source() == input@,
            r.offset() == 0,
    {
        Lexer { input, position: 0, row: 0, column: 0, escaping: false }
    }

    /// The next token and its range, or `None` once only white space is
    /// left.
    pub fn token(&mut self) -> (r: Option<PToken>)
        requires
            old(self).wf(),
        ensures
            final(self).wf(),
            final(self).source() == old(self).source(),
            match next_span(old(self).source(), old(self).offset()) {
                Some(sp) => {
                    &&& r matches Some(t) && ptoken_is(t, old(self).source(), sp)
                    &&& final(self).offset() == sp.end + 1
                },
                None => r is None && final(self).offset() == old(self).source().len(),
            },
    {
        self.skip_whitespace();
        self.escaping = false;
        let from = self.curr_cursor();
        let start = self.position;
        let c = match self.curr() {
            Some(c) => c,
            None => return None,
        };
        proof {
            lemma_span_at_bounds(self.input@, start as int);
        }
        let token = if c == '\\' {
            self.escaping = true;
            self.token_value()
        } else if c == '/' && self.peek() == Some('/') {
            self.token_line_comment()
        } else if c == '/' && self.peek() == Some('*') {
            self.token_block_comment()
        } else if c == ',' {
            Token::Comma
        } else if c == '{' {
            Token::LBrace
        } else if c == '}' {
            Token::RBrace
        } else if c == ':' {
            Token::Colon
        } else if c == ';' {
            Token::Semicolon
        } else if c == '\'' {
            self.token_single_quote_value()
        } else if c == '"' {
            self.token_double_quote_value()
        } else {
            self.token_value()
        };
        let to = self.curr_cursor();
        self.next();
        Some(PToken { token, range: Range::new(from, to) })
    }

    /// Moves past white space.
    fn skip_whitespace(&mut self)
        requires
            old(self).wf(),
        ensures
            final(self).wf(),
            final(self).input@ == old(self).input@,
            final(self).position == skip_space(old(self).input@, old(self).position as int),
    {
        while self.position < self.input.len() && is_white_space(self.input[self.position])
            invariant
                self.wf(),
                self.input@ == old(self).input@,
                skip_space(self.input@, self.position as int) == skip_space(
                    self.input@,
                    old(self).position as int,
                ),
            decreases self.input.len() - self.position,
        {
            self.next();
        }
    }

    /// The source text from index `start` through the current character.
    fn text_from(&self, start: usize) -> (r: String)
        requires
            start <= self.position < self.input.len(),
        ensures
            r@ == self.input@.subrange(start as int, self.position + 1),
    {
        string_from_chars(&copy_range(&self.input, start, self.position + 1))
    }

    /// A `//` comment starting at the current character, up to the end of
    /// its line.
    fn token_line_comment(&mut self) -> (r: Token)
        requires
            old(self).wf(),
            old(self).position < old(self).input.len(),
        ensures
            final(self).wf(),
            final(self).input@ == old(self).input@,
            final(self).position == line_comment_end(old(self).input@, old(self).position as int),
            r@ == Lexeme::Comment(
                old(self).input@.subrange(old(self).position as int, final(self).position + 1),
            ),
    {
        let start = self.position;
        while self.peek().is_some() && self.peek() != Some('\n')
            invariant
                self.wf(),
                self.input@ == old(self).input@,
                start <= self.position < self.input.len(),
                line_comment_end(self.input@, self.position as int) == line_comment_end(
                    self.input@,
                    start as int,
                ),
            decreases self.input.len() - self.position,
        {
            self.next();
        }
        Token::Comment(self.text_from(start))
    }

    /// A `/*` comment starting at the current character, through its `*/`
    /// or to the end of input.
    fn token_block_comment(&mut self) -> (r: Token)
        requires
            old(self).wf(),
            old(self).position < old(self).input.len(),
        ensures
            final(self).wf(),
            final(self).input@ == old(self).input@,
            final(self).position == block_comment_end(old(self).input@, old(self).position as int),
            r@ == Lexeme::Comment(
                old(self).input@.subrange(old(self).position as int, final(self).position + 1),
            ),
    {
        let start = self.position;
        loop
            invariant_except_break
                block_comment_end(self.input@, self.position as int) == block_comment_end(
                    self.input@,
                    start as int,
                ),
            invariant
                self.wf(),
                self.input@ == old(self).input@,
                start <= self.position < self.input.len(),
            ensures
                self.wf(),
                self.input@ == old(self).input@,
                start <= self.position < self.input.len(),
                self.position == block_comment_end(self.input@, start as int),
            decreases self.input.len() - self.position,
        {
            if self.peek().is_none() {
                break;
            }
            self.next();
            if self.peek() == Some('*') && self.peek_peek() == Some('/') {
                self.next();
                self.next();
                break;
            }
        }
        Token::Comment(self.text_from(start))
    }

    /// Moves through a quoted run that opens at the current character, up to
    /// its closing `closed` or the end of input.
    fn scan_enclosed(&mut self, closed: char)
        requires
            old(self).wf(),
            old(self).position < old(self).input.len(),
        ensures
            final(self).wf(),
            final(self).input@ == old(self).input@,
            old(self).position <= final(self).position < final(self).input.len(),
            (final(self).position as int, final(self).escaping) == quote_end(
                old(self).input@,
                old(self).position as int,
                old(self).escaping,
                closed,
            ),
    {
        proof {
            lemma_quote_end_bounds(self.input@, self.position as int, self.escaping, closed);
        }
        loop
            invariant_except_break
                quote_end(self.input@, self.position as int, self.escaping, closed) == quote_end(
                    old(self).input@,
                    old(self).position as int,
                    old(self).escaping,
                    closed,
                ),
            invariant
                self.wf(),
                self.input@ == old(self).input@,
                self.position < self.input.len(),
            ensures
                self.wf(),
                self.input@ == old(self).input@,
                self.position < self.input.len(),
                (self.position as int, self.escaping) == quote_end(
                    old(self).input@,
                    old(self).position as int,
                    old(self).escaping,
                    closed,
                ),
            decreases self.input.len() - self.position,
        {
            proof {
                lemma_quote_end_bounds(self.input@, self.position as int, self.escaping, closed);
            }
            if self.peek().is_none() {
                break;
            }
            self.next();
            let c = self.input[self.position];
            if !self.escaping && c == closed {
                break;
            }
            self.escaping = c == '\\' && !self.escaping;
        }
    }

    /// A quoted value opening at the current character.
    fn token_enclosed_value(&mut self, closed: char) -> (r: Token)
        requires
            old(self).wf(),
            old(self).position < old(self).input.len(),
        ensures
            final(self).wf(),
            final(self).input@ == old(self).input@,
            (final(self).position as int, final(self).escaping) == quote_end(
                old(self).input@,
                old(self).position as int,
                old(self).escaping,
                closed,
            ),
            r@ == Lexeme::Value(
                old(self).input@.subrange(old(self).position as int, final(self).position + 1),
            ),
    {
        let start = self.position;
        self.scan_enclosed(closed);
        Token::Value(self.text_from(start))
    }

    fn token_single_quote_value(&mut self) -> (r: Token)
        requires
            old(self).wf(),
            old(self).position < old(self).input.len(),
        ensures
            final(self).wf(),
            final(self).input@ == old(self).input@,
            (final(self).position as int, final(self).escaping) == quote_end(
                old(self).input@,
                old(self).position as int,
                old(self).escaping,
                '\'',
            ),
            r@ == Lexeme::Value(
                old(self).input@.subrange(old(self).position as int, final(self).position + 1),
            ),
    {
        self.token_enclosed_value('\'')
    }

    fn token_double_quote_value(&mut self) -> (r: Token)
        requires
            old(self).wf(),
            old(self).position < old(self).input.len(),
        ensures
            final(self).wf(),
            final(self).input@ == old(self).input@,
            (final(self).position as int, final(self).escaping) == quote_end(
                old(self).input@,
                old(self).position as int,
                old(self).escaping,
                '"',
            ),
            r@ == Lexeme::Value(
                old(self).input@.subrange(old(self).position as int, final(self).position + 1),
            ),
    {
        self.token_enclosed_value('"')
    }

    /// An unquoted value starting at the current character.
    fn token_value(&mut self) -> (r: Token)
        requires
            old(self).wf(),
            old(self).position < old(self).input.len(),
        ensures
            final(self).wf(),
            final(self).input@ == old(self).input@,
            final(self).position == value_end(
                old(self).input@,
                old(self).position as int,
                old(self).escaping,
            ),
            r@ == Lexeme::Value(
                old(self).input@.subrange(old(self).position as int, final(self).position + 1),
            ),
    {
        let start = self.position;
        loop
            invariant_except_break
                value_end(self.input@, self.position as int, self.escaping) == value_end(
                    old(self).input@,
                    start as int,
                    old(self).escaping,
                ),
            invariant
                self.wf(),
                self.input@ == old(self).input@,
                start <= self.position < self.input.len(),
            ensures
                self.wf(),
                self.input@ == old(self).input@,
                start <= self.position < self.input.len(),
                self.position == value_end(old(self).input@, start as int, old(self).escaping),
            decreases self.input.len() - self.position,
        {
            let n = match self.peek() {
                Some(n) => n,
                None => break,
            };
            if !(self.escaping || Self::is_value(n)) {
                break;
            }
            self.next();
            if n == '\'' {
                self.scan_enclosed('\'');
            } else if n == '"' {
                self.scan_enclosed('"');
            }
            let c = self.input[self.position];
            self.escaping = c == '\\' && !self.escaping;
        }
        Token::Value(self.text_from(start))
    }

    /// Steps past the current character, keeping the row and column in
    /// step.
    fn next(&mut self)
        requires
            old(self).wf(),
            old(self).position < old(self).input.len(),
        ensures
            final(self).wf(),
            final(self).input@ == old(self).input@,
            final(self).position == old(self).position + 1,
            final(self).escaping == old(self).escaping,
    {
        proof {
            lemma_cursor_bounds(self.input@, self.position as int);
        }
        if self.input[self.position] == '\n' {
            self.column = 0;
            self.row = self.row + 1;
        } else {
            self.column = self.column + 1;
        }
        self.position = self.position + 1;
    }

    /// The current character.
    fn curr(&self) -> (r: Option<char>)
        requires
            self.position <= self.input.len(),
        ensures
            self.position < self.input.len() ==> r == Some(self.input@[self.position as int]),
            self.position >= self.input.len() ==> r is None,
    {
        if self.position < self.input.len() {
            Some(self.input[self.position])
        } else {
            None
        }
    }

    /// The character after the current one.
    fn peek(&self) -> (r: Option<char>)
        requires
            self.position <= self.input.len(),
        ensures
            self.position + 1 < self.input.len() ==> r == Some(
                self.input@[self.position + 1],
            ),
            self.position + 1 >= self.input.len() ==> r is None,
    {
        if self.input.len() - self.position > 1 {
            Some(self.input[self.position + 1])
        } else {
            None
        }
    }

    /// The second character after the current one.
    fn peek_peek(&self) -> (r: Option<char>)
        requires
            self.position <= self.input.len(),
        ensures
            self.position + 2 < self.input.len() ==> r == Some(
                self.input@[self.position + 2],
            ),
            self.position + 2 >= self.input.len() ==> r is None,
    {
        if self.input.len() - self.position > 2 {
            Some(self.input[self.position + 2])
        } else {
            None
        }
    }

    /// Row and column of the current character.
    fn curr_cursor(&self) -> (r: Cursor)
        requires
            self.wf(),
        ensures
            is_cursor(r, self.input@, self.position as int),
    {
        Cursor { row: self.row, column: self.column }
    }

    /// Whether `c` may continue an unquoted value.
    fn is_value(c: char) -> (r: bool)
        ensures
            r == is_value_char(c),
    {
        match c {
            ':' | ';' | ',' | '{' | ' ' | '\t' | '\n' => false,
            _ => true,
        }
    }
}

impl Clone for Lexer {
    /// An independent lexer at the same position, so that reading ahead with
    /// it leaves this one where it is.
    fn clone(&self) -> (r: Lexer)
        ensures
            r.source() == self.source(),
            r.offset() == self.offset(),
            self.wf() ==> r.wf(),
    {
        let input = copy_range(&self.input, 0, self.input.len());
        proof {
            assert(self.input@.subrange(0, self.input@.len() as int) == self.input@);
        }
        Lexer {
            input,
            position: self.position,
            row: self.row,
            column: self.column,
            escaping: self.escaping,
        }
    }
}

} // verus!
