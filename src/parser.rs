//! Builds the expression tree from the lexer's tokens.
//!
//! The spec functions read a token sequence (`spans_from` of the source) the
//! way the parser does: `parse_exprs` is the body loop, `parse_item` decides
//! between a declaration and a rule block by the first `;` or `{` ahead.
//! Each returns what it built and how many tokens it moved past.

use vstd::prelude::*;
use crate::lexer::{Lexer, PToken, Token, Range, Span, Lexeme, spans_from, next_span, ptoken_is, lemma_next_span_bounds};
use crate::expression::{Expr, Property, Scope, Node, strings_are, expr_is, exprs_are};
use crate::text::{trimmed, trim_chars, string_from_chars, push_str};

verus! {

/// Tokens left from index `i`; zero past the end.
pub open spec fn room(ts: Seq<Span>, i: int) -> int {
    if i <= ts.len() {
        ts.len() - i
    } else {
        0
    }
}

/// Which comes first from index `i` on: a `;` (`Some(true)`), a `{`
/// (`Some(false)`), or neither.
pub open spec fn first_stop(ts: Seq<Span>, i: int) -> Option<bool>
    decreases ts.len() - i,
{
    if 0 <= i < ts.len() {
        match ts[i].lexeme {
            Lexeme::Semicolon => Some(true),
            Lexeme::LBrace => Some(false),
            _ => first_stop(ts, i + 1),
        }
    } else {
        None
    }
}

/// Index of the first token from `i` on that is not a value, if any.
pub open spec fn first_non_value(ts: Seq<Span>, i: int) -> Option<int>
    decreases ts.len() - i,
{
    if 0 <= i < ts.len() {
        match ts[i].lexeme {
            Lexeme::Value(_) => first_non_value(ts, i + 1),
            _ => Some(i),
        }
    } else {
        None
    }
}

/// The run of value tokens from index `j`: `acc` followed by each value and
/// a space, and the number of values.
pub open spec fn value_run(ts: Seq<Span>, j: int, acc: Seq<char>) -> (Seq<char>, nat)
    decreases ts.len() - j,
{
    if 0 <= j < ts.len() {
        match ts[j].lexeme {
            Lexeme::Value(v) => {
                let (t, n) = value_run(ts, j + 1, acc + v + seq![' ']);
                (t, n + 1)
            },
            _ => (acc, 0),
        }
    } else {
        (acc, 0)
    }
}

/// Reading a selector list from index `j`, with the selectors `sels` done
/// and `acc` the one in progress: values join with spaces, a colon attaches
/// to the trimmed text before it, a comma ends a selector, `{` ends the last
/// one, and anything else stops the list. Gives the selectors and the
/// number of tokens before the one it stopped at.
pub open spec fn selector_scan(
    ts: Seq<Span>,
    j: int,
    sels: Seq<Seq<char>>,
    acc: Seq<char>,
) -> (Seq<Seq<char>>, nat)
    decreases ts.len() - j,
{
    if 0 <= j < ts.len() {
        match ts[j].lexeme {
            Lexeme::Value(v) => {
                let (r, n) = selector_scan(ts, j + 1, sels, acc + v + seq![' ']);
                (r, n + 1)
            },
            Lexeme::Comma => {
                let (r, n) = selector_scan(ts, j + 1, sels.push(trimmed(acc)), Seq::empty());
                (r, n + 1)
            },
            Lexeme::LBrace => (sels.push(trimmed(acc)), 0),
            Lexeme::Colon => {
                let (r, n) = selector_scan(ts, j + 1, sels, trimmed(acc) + seq![':']);
                (r, n + 1)
            },
            _ => (sels, 0),
        }
    } else {
        (sels, 0)
    }
}

/// A declaration at index `i`: a value as key, one token skipped (the
/// colon), then the run of values, trimmed. It ends at the first token after
/// the run; with no such token nothing is built.
pub open spec fn parse_property(ts: Seq<Span>, i: int) -> (Option<Node>, nat) {
    if 0 <= i < ts.len() {
        match ts[i].lexeme {
            Lexeme::Value(key) => {
                let (text, n) = value_run(ts, i + 2, Seq::empty());
                let k = i + 2 + n;
                (
                    if k < ts.len() {
                        Some(
                            Node::Property {
                                key,
                                value: trimmed(text),
                                from: ts[i].start,
                                to: ts[k].start,
                            },
                        )
                    } else {
                        None
                    },
                    n + 2,
                )
            },
            _ => (None, 0),
        }
    } else {
        (None, 0)
    }
}

/// A rule block at index `i`: its selector list, then the body up to the
/// closing `}`. Nothing is built without a closing token or without a
/// selector.
pub open spec fn parse_scope(ts: Seq<Span>, i: int) -> (Option<Node>, nat)
    decreases room(ts, i), 0int,
{
    if 0 <= i < ts.len() {
        let (sels, n) = selector_scan(ts, i, Seq::empty(), Seq::empty());
        let body = i + n + 1;
        let (children, m) = parse_exprs(ts, body);
        let close = body + m;
        (
            if close < ts.len() && sels.len() > 0 {
                Some(
                    Node::Scope {
                        selectors: sels,
                        children,
                        from: ts[i].start,
                        to: ts[close].start,
                    },
                )
            } else {
                None
            },
            n + 1 + m,
        )
    } else {
        (None, 0)
    }
}

/// The construct at index `i`: a declaration when a `;` comes before any
/// `{` in the tokens after it, a rule block when a `{` comes first, and
/// nothing otherwise.
pub open spec fn parse_item(ts: Seq<Span>, i: int) -> (Option<Node>, nat)
    decreases room(ts, i), 1int,
{
    if 0 <= i < ts.len() {
        match first_stop(ts, i + 1) {
            Some(true) => parse_property(ts, i),
            Some(false) => parse_scope(ts, i),
            None => (None, 0),
        }
    } else {
        (None, 0)
    }
}

/// The constructs from index `i` up to a `}` or the end, in order, and the
/// number of tokens before that stop.
pub open spec fn parse_exprs(ts: Seq<Span>, i: int) -> (Seq<Node>, nat)
    decreases room(ts, i), 2int,
{
    if 0 <= i < ts.len() && !(ts[i].lexeme is RBrace) {
        let (e, d) = parse_item(ts, i);
        let (rest, m) = parse_exprs(ts, i + d + 1);
        (
            match e {
                Some(x) => seq![x] + rest,
                None => rest,
            },
            d + 1 + m,
        )
    } else {
        (Seq::empty(), 0)
    }
}

/// The constructs of a whole source.
pub open spec fn parse_source(s: Seq<char>) -> Seq<Node> {
    parse_exprs(spans_from(s, 0), 0).0
}

/// `t` is the token at index `i` of `ts`, or there is none and `t` is
/// `None`.
pub open spec fn slot_is(t: Option<PToken>, s: Seq<char>, ts: Seq<Span>, i: int) -> bool {
    if 0 <= i < ts.len() {
        t matches Some(p) && ptoken_is(p, s, ts[i])
    } else {
        t is None
    }
}

/// Tokens of `ts` from index `k` on; none once `k` passes the end.
pub open spec fn tail_from(ts: Seq<Span>, k: int) -> Seq<Span> {
    if k <= ts.len() {
        ts.subrange(k, ts.len() as int)
    } else {
        Seq::empty()
    }
}

/// A parser over a lexer, holding the current token and the one after it.
pub struct Parser {
    lexer: Lexer,
    curr: Option<PToken>,
    peek: Option<PToken>,
    spans: Ghost<Seq<Span>>,
    index: Ghost<int>,
}

impl Parser {
    /// The characters being parsed.
    pub closed spec fn source(&self) -> Seq<char> {
        self.lexer.source()
    }

    /// The tokens the parser reads, from where its lexer stood when it was
    /// made.
    pub closed spec fn tokens(&self) -> Seq<Span> {
        self.spans@
    }

    /// Index in `tokens()` of the current token.
    pub closed spec fn at(&self) -> int {
        self.index@
    }

    /// The current and next tokens are those at `at()` and `at() + 1`, and
    /// the lexer stands after them.
    pub closed spec fn inv(&self) -> bool {
        let s = self.lexer.source();
        let ts = self.spans@;
        let i = self.index@;
        &&& self.lexer.wf()
        &&& 0 <= i
        &&& slot_is(self.curr, s, ts, i)
        &&& slot_is(self.peek, s, ts, i + 1)
        &&& spans_from(s, self.lexer.offset()) == tail_from(ts, i + 2)
    }

    /// A parser over the tokens `lexer` reads from where it stands.
    pub fn new(lexer: Lexer) -> (r: Parser)
        requires
            lexer.wf(),
        ensures
            r.inv(),
            r.source() == lexer.source(),
            r.tokens() == spans_from(lexer.source(), lexer.offset()),
            r.at() == 0,
    {
        let mut lexer = lexer;
        let ghost s = lexer.source();
        let ghost ts = spans_from(s, lexer.offset());
        proof {
            lexer.lemma_offset();
            assert(ts.subrange(0, ts.len() as int) =~= ts);
            lemma_tail_step(s, ts, 0, lexer.offset());
        }
        let curr = lexer.token();
        proof {
            lexer.lemma_offset();
            lemma_tail_step(s, ts, 1, lexer.offset());
        }
        let peek = lexer.token();
        Parser { lexer, curr, peek, spans: Ghost(ts), index: Ghost(0) }
    }

    /// Moves the window one token on.
    fn next(&mut self)
        requires
            old(self).inv(),
        ensures
            final(self).inv(),
            final(self).source() == old(self).source(),
            final(self).tokens() == old(self).tokens(),
            final(self).at() == old(self).at() + 1,
    {
        proof {
            self.lexer.lemma_offset();
            lemma_tail_step(self.lexer.source(), self.spans@, self.index@ + 2, self.lexer.offset());
        }
        let mut t = self.lexer.token();
        std::mem::swap(&mut self.peek, &mut t);
        self.curr = t;
        self.index = Ghost(self.index@ + 1);
    }

    /// The constructs of the whole input from the current token on.
    pub fn parse(&mut self) -> (r: Vec<Expr>)
        requires
            old(self).inv(),
        ensures
            final(self).inv(),
            exprs_are(old(self).source(), r@, parse_exprs(old(self).tokens(), old(self).at()).0),
    {
        self.parse_expression()
    }

    /// Which of `;` and `{` comes first among the tokens after the current
    /// one, read with a copy of the lexer.
    fn upcoming_stop(&self) -> (r: Option<bool>)
        requires
            self.inv(),
        ensures
            r == first_stop(self.tokens(), self.at() + 1),
    {
        let ghost s = self.lexer.source();
        let ghost ts = self.spans@;
        let ghost i = self.index@;
        match &self.peek {
            None => {
                return None;
            },
            Some(t) => match &t.token {
                Token::Semicolon => {
                    return Some(true);
                },
                Token::LBrace => {
                    return Some(false);
                },
                _ => {},
            },
        }
        let mut lexer = self.lexer.clone();
        let ghost mut k = i + 2;
        loop
            invariant
                lexer.wf(),
                lexer.source() == s,
                spans_from(s, lexer.offset()) == tail_from(ts, k),
                self.inv(),
                s == self.lexer.source(),
                ts == self.spans@,
                i == self.index@,
                0 <= i,
                i + 2 <= k <= ts.len(),
                first_stop(ts, k) == first_stop(ts, i + 1),
            decreases ts.len() - k,
        {
            proof {
                lexer.lemma_offset();
                lemma_tail_step(s, ts, k, lexer.offset());
            }
            match lexer.token() {
                None => {
                    return None;
                },
                Some(t) => match t.token {
                    Token::Semicolon => {
                        return Some(true);
                    },
                    Token::LBrace => {
                        return Some(false);
                    },
                    _ => {},
                },
            }
            proof {
                k = k + 1;
            }
        }
    }

    /// Whether the current token starts a declaration: a `;` comes before
    /// any `{`.
    fn is_property(&self) -> (r: bool)
        requires
            self.inv(),
        ensures
            r == (first_stop(self.tokens(), self.at() + 1) == Some(true)),
    {
        self.upcoming_stop() == Some(true)
    }

    /// Whether the current token starts a rule block: a `{` comes before any
    /// `;`.
    fn is_scope(&self) -> (r: bool)
        requires
            self.inv(),
        ensures
            r == (first_stop(self.tokens(), self.at() + 1) == Some(false)),
    {
        self.upcoming_stop() == Some(false)
    }

    /// The first token after the current one that is not a value.
    #[allow(dead_code)]
    fn next_not_value_token(&self) -> (r: Option<Token>)
        requires
            self.inv(),
        ensures
            match first_non_value(self.tokens(), self.at() + 1) {
                Some(k) => r matches Some(t) && t@ == self.tokens()[k].lexeme,
                None => r is None,
            },
    {
        let ghost s = self.lexer.source();
        let ghost ts = self.spans@;
        let ghost i = self.index@;
        match &self.peek {
            None => {
                return None;
            },
            Some(t) => match &t.token {
                Token::Value(_) => {},
                other => {
                    return Some(other.clone());
                },
            },
        }
        let mut lexer = self.lexer.clone();
        let ghost mut k = i + 2;
        loop
            invariant
                lexer.wf(),
                lexer.source() == s,
                spans_from(s, lexer.offset()) == tail_from(ts, k),
                self.inv(),
                s == self.lexer.source(),
                ts == self.spans@,
                i == self.index@,
                0 <= i,
                i + 2 <= k <= ts.len(),
                first_non_value(ts, k) == first_non_value(ts, i + 1),
            decreases ts.len() - k,
        {
            proof {
                lexer.lemma_offset();
                lemma_tail_step(s, ts, k, lexer.offset());
            }
            match lexer.token() {
                None => {
                    return None;
                },
                Some(t) => match t.token {
                    Token::Value(_) => {},
                    other => {
                        return Some(other);
                    },
                },
            }
            proof {
                k = k + 1;
            }
        }
    }

    /// The constructs from the current token up to a `}` or the end; the
    /// parser is left on that `}`.
    fn parse_expression(&mut self) -> (r: Vec<Expr>)
        requires
            old(self).inv(),
        ensures
            final(self).inv(),
            final(self).source() == old(self).source(),
            final(self).tokens() == old(self).tokens(),
            exprs_are(old(self).source(), r@, parse_exprs(old(self).tokens(), old(self).at()).0),
            final(self).at() == old(self).at() + parse_exprs(old(self).tokens(), old(self).at()).1,
        decreases room(old(self).tokens(), old(self).at()), 2int,
    {
        let ghost s = self.source();
        let ghost ts = self.tokens();
        let ghost i0 = self.at();
        let mut v: Vec<Expr> = Vec::new();
        let ghost mut vm: Seq<Node> = Seq::empty();
        loop
            invariant
                self.inv(),
                self.source() == s,
                self.tokens() == ts,
                i0 == old(self).at(),
                ts == old(self).tokens(),
                i0 <= self.at(),
                exprs_are(s, v@, vm),
                vm + parse_exprs(ts, self.at()).0 == parse_exprs(ts, i0).0,
                self.at() + parse_exprs(ts, self.at()).1 == i0 + parse_exprs(ts, i0).1,
            ensures
                self.inv(),
                self.source() == s,
                self.tokens() == ts,
                exprs_are(s, v@, parse_exprs(ts, i0).0),
                self.at() == i0 + parse_exprs(ts, i0).1,
            decreases room(ts, self.at()),
        {
            let stop = match &self.curr {
                None => true,
                Some(t) => match &t.token {
                    Token::RBrace => true,
                    _ => false,
                },
            };
            if stop {
                proof {
                    assert(vm + parse_exprs(ts, self.at()).0 =~= vm);
                }
                break;
            }
            let ghost at = self.at();
            let ghost item = parse_item(ts, at);
            let ghost rest = parse_exprs(ts, at + item.1 + 1);
            if self.is_property() {
                match self.parse_property() {
                    Some(p) => {
                        proof {
                            vm = vm.push(item.0->0);
                        }
                        v.push(Expr::Property(p));
                    },
                    None => {},
                }
            } else if self.is_scope() {
                match self.parse_scope() {
                    Some(sc) => {
                        proof {
                            vm = vm.push(item.0->0);
                        }
                        v.push(Expr::Scope(sc));
                    },
                    None => {},
                }
            }
            self.next();
            proof {
                assert(parse_exprs(ts, at).0 =~= match item.0 {
                    Some(x) => seq![x] + rest.0,
                    None => rest.0,
                });
                assert(vm + rest.0 =~= parse_exprs(ts, i0).0);
            }
        }
        v
    }

    /// A rule block at the current token; the parser is left on its closing
    /// `}`.
    fn parse_scope(&mut self) -> (r: Option<Scope>)
        requires
            old(self).inv(),
            old(self).at() < old(self).tokens().len(),
        ensures
            final(self).inv(),
            final(self).source() == old(self).source(),
            final(self).tokens() == old(self).tokens(),
            final(self).at() == old(self).at() + parse_scope(old(self).tokens(), old(self).at()).1,
            match parse_scope(old(self).tokens(), old(self).at()).0 {
                Some(n) => r matches Some(sc) && expr_is(old(self).source(), Expr::Scope(sc), n),
                None => r is None,
            },
        decreases room(old(self).tokens(), old(self).at()), 0int,
    {
        let ghost s = self.source();
        let ghost ts = self.tokens();
        let ghost i = self.at();
        let from = match &self.curr {
            Some(t) => t.range.from,
            None => {
                return None;
            },
        };
        let mut selectors: Vec<String> = Vec::new();
        let mut value: Vec<char> = Vec::new();
        let ghost mut sels: Seq<Seq<char>> = Seq::empty();
        loop
            invariant_except_break
                selector_scan(ts, self.at(), sels, value@).0 == selector_scan(
                    ts,
                    i,
                    Seq::empty(),
                    Seq::empty(),
                ).0,
                selector_scan(ts, self.at(), sels, value@).1 + (self.at() - i) == selector_scan(
                    ts,
                    i,
                    Seq::empty(),
                    Seq::empty(),
                ).1,
            invariant
                self.inv(),
                self.source() == s,
                self.tokens() == ts,
                i <= self.at(),
                strings_are(selectors@, sels),
            ensures
                sels == selector_scan(ts, i, Seq::empty(), Seq::empty()).0,
                self.at() - i == selector_scan(ts, i, Seq::empty(), Seq::empty()).1,
            decreases room(ts, self.at()),
        {
            match &self.curr {
                None => {
                    break;
                },
                Some(t) => match &t.token {
                    Token::Value(val) => {
                        let ghost before = value@;
                        push_str(&mut value, val);
                        value.push(' ');
                        proof {
                            assert(value@ =~= before + val@ + seq![' ']);
                        }
                    },
                    Token::Comma => {
                        selectors.push(string_from_chars(&trim_chars(&value)));
                        proof {
                            sels = sels.push(trimmed(value@));
                        }
                        value = Vec::new();
                    },
                    Token::LBrace => {
                        selectors.push(string_from_chars(&trim_chars(&value)));
                        proof {
                            sels = sels.push(trimmed(value@));
                        }
                        break;
                    },
                    Token::Colon => {
                        let mut t = trim_chars(&value);
                        t.push(':');
                        proof {
                            assert(t@ =~= trimmed(value@) + seq![':']);
                        }
                        value = t;
                    },
                    _ => {
                        break;
                    },
                },
            }
            self.next();
        }
        self.next();
        let children = self.parse_expression();
        let to = match &self.curr {
            Some(t) => t.range.from,
            None => {
                return None;
            },
        };
        if selectors.len() == 0 {
            return None;
        }
        Some(Scope { selectors, children, range: Range::new(from, to) })
    }

    /// A declaration at the current token; the parser is left on the token
    /// after its value.
    fn parse_property(&mut self) -> (r: Option<Property>)
        requires
            old(self).inv(),
            old(self).at() < old(self).tokens().len(),
        ensures
            final(self).inv(),
            final(self).source() == old(self).source(),
            final(self).tokens() == old(self).tokens(),
            final(self).at() == old(self).at() + parse_property(
                old(self).tokens(),
                old(self).at(),
            ).1,
            match parse_property(old(self).tokens(), old(self).at()).0 {
                Some(n) => r matches Some(p) && expr_is(old(self).source(), Expr::Property(p), n),
                None => r is None,
            },
    {
        let from = match &self.curr {
            Some(t) => t.range.from,
            None => {
                return None;
            },
        };
        let key = match &self.curr {
            Some(t) => match &t.token {
                Token::Value(k) => k.clone(),
                _ => {
                    return None;
                },
            },
            None => {
                return None;
            },
        };
        self.next();
        self.next();
        let value = match self.parse_property_value() {
            Some(v) => v,
            None => {
                return None;
            },
        };
        let to = match &self.curr {
            Some(t) => t.range.from,
            None => {
                return None;
            },
        };
        Some(Property { key, value, range: Range::new(from, to) })
    }

    /// The run of values from the current token, joined by single spaces
    /// and trimmed; the parser is left on the first token after it.
    fn parse_property_value(&mut self) -> (r: Option<String>)
        requires
            old(self).inv(),
        ensures
            final(self).inv(),
            final(self).source() == old(self).source(),
            final(self).tokens() == old(self).tokens(),
            final(self).at() == old(self).at() + value_run(
                old(self).tokens(),
                old(self).at(),
                Seq::empty(),
            ).1,
            r matches Some(v) && v@ == trimmed(
                value_run(old(self).tokens(), old(self).at(), Seq::empty()).0,
            ),
    {
        let ghost ts = self.tokens();
        let ghost i = self.at();
        let mut value: Vec<char> = Vec::new();
        loop
            invariant_except_break
                value_run(ts, self.at(), value@).0 == value_run(ts, i, Seq::empty()).0,
                value_run(ts, self.at(), value@).1 + (self.at() - i) == value_run(
                    ts,
                    i,
                    Seq::empty(),
                ).1,
            invariant
                self.inv(),
                self.source() == old(self).source(),
                self.tokens() == ts,
                i <= self.at(),
            ensures
                value@ == value_run(ts, i, Seq::empty()).0,
                self.at() - i == value_run(ts, i, Seq::empty()).1,
            decreases room(ts, self.at()),
        {
            match &self.curr {
                Some(t) => match &t.token {
                    Token::Value(val) => {
                        let ghost before = value@;
                        push_str(&mut value, val);
                        value.push(' ');
                        proof {
                            assert(value@ =~= before + val@ + seq![' ']);
                        }
                    },
                    _ => {
                        break;
                    },
                },
                None => {
                    break;
                },
            }
            self.next();
        }
        Some(string_from_chars(&trim_chars(&value)))
    }
}

/// From `spans_from(s, p)` being the tail of `ts` at `k`, the next token
/// read at `p` is `ts[k]`, or there is none.
proof fn lemma_tail_step(s: Seq<char>, ts: Seq<Span>, k: int, p: int)
    requires
        0 <= k,
        0 <= p,
        spans_from(s, p) == tail_from(ts, k),
    ensures
        next_span(s, p) matches Some(sp) ==> {
            &&& k < ts.len()
            &&& sp == ts[k]
            &&& spans_from(s, sp.end + 1) == tail_from(ts, k + 1)
        },
        next_span(s, p) is None ==> k >= ts.len() && spans_from(s, s.len() as int)
            == tail_from(ts, k + 1),
{
    lemma_next_span_bounds(s, p);
    match next_span(s, p) {
        Some(sp) => {
            assert(spans_from(s, p)[0] == sp);
            assert(spans_from(s, sp.end + 1) =~= spans_from(s, p).drop_first());
            assert(tail_from(ts, k + 1) =~= tail_from(ts, k).drop_first());
        },
        None => {
            assert(spans_from(s, p).len() == 0);
            lemma_next_span_bounds(s, s.len() as int);
            assert(next_span(s, s.len() as int) is None);
        },
    }
}

} // verus!
