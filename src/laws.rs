//! Properties of the lexer and parser, proved over the spec functions their
//! contracts use.

use vstd::prelude::*;
use crate::text::{white_space, trimmed};
use crate::expression::Node;
use crate::parser::{
    first_stop, value_run, selector_scan, parse_property, parse_scope, parse_item, parse_exprs,
    parse_source, room,
};
use crate::lexer::{
    Span, Lexeme, cursor_at, span_at, next_span, spans_from, lemma_next_span_bounds,
    lemma_span_at_bounds,
};

verus! {

/// `a` comes no later than `b` in row-major order.
pub open spec fn cursor_le(a: (int, int), b: (int, int)) -> bool {
    a.0 < b.0 || (a.0 == b.0 && a.1 <= b.1)
}

/// `a` comes strictly before `b` in row-major order.
pub open spec fn cursor_lt(a: (int, int), b: (int, int)) -> bool {
    a.0 < b.0 || (a.0 == b.0 && a.1 < b.1)
}

/// Rows and columns only move forward through the source.
pub proof fn lemma_cursor_monotone(s: Seq<char>, a: int, b: int)
    requires
        0 <= a <= b,
    ensures
        cursor_le(cursor_at(s, a), cursor_at(s, b)),
        a < b ==> cursor_lt(cursor_at(s, a), cursor_at(s, b)),
    decreases b - a,
{
    if a < b {
        lemma_cursor_monotone(s, a, b - 1);
    }
}

/// Tokens read from `p` lie inside the source, in order, without overlap.
pub proof fn lemma_spans_ordered(s: Seq<char>, p: int)
    requires
        0 <= p,
    ensures
        forall|k: int|
            0 <= k < spans_from(s, p).len() ==> p <= (#[trigger] spans_from(s, p)[k]).start
                <= spans_from(s, p)[k].end < s.len(),
        forall|k: int|
            0 <= k < spans_from(s, p).len() - 1 ==> (#[trigger] spans_from(s, p)[k]).end
                < spans_from(s, p)[k + 1].start,
    decreases s.len() - p,
{
    lemma_next_span_bounds(s, p);
    if let Some(sp) = next_span(s, p) {
        let ts = spans_from(s, p);
        let rest = spans_from(s, sp.end + 1);
        lemma_spans_ordered(s, sp.end + 1);
        assert forall|k: int| 0 <= k < ts.len() implies p <= (#[trigger] ts[k]).start
            <= ts[k].end < s.len() by {
            if k > 0 {
                assert(ts[k] == rest[k - 1]);
            }
        }
        assert forall|k: int| 0 <= k < ts.len() - 1 implies (#[trigger] ts[k]).end < ts[k
            + 1].start by {
            assert(ts[k + 1] == rest[k]);
            if k > 0 {
                assert(ts[k] == rest[k - 1]);
            }
        }
    }
}

/// Every token of a source starts no later than it ends, and ends strictly
/// before the next token starts, by row and column.
pub proof fn lemma_token_positions(s: Seq<char>)
    ensures
        forall|k: int|
            0 <= k < spans_from(s, 0).len() ==> cursor_le(
                cursor_at(s, (#[trigger] spans_from(s, 0)[k]).start),
                cursor_at(s, spans_from(s, 0)[k].end),
            ),
        forall|k: int|
            0 <= k < spans_from(s, 0).len() - 1 ==> cursor_lt(
                cursor_at(s, (#[trigger] spans_from(s, 0)[k]).end),
                cursor_at(s, spans_from(s, 0)[k + 1].start),
            ),
{
    let ts = spans_from(s, 0);
    lemma_spans_ordered(s, 0);
    assert forall|k: int| 0 <= k < ts.len() implies cursor_le(
        cursor_at(s, (#[trigger] ts[k]).start),
        cursor_at(s, ts[k].end),
    ) by {
        lemma_cursor_monotone(s, ts[k].start, ts[k].end);
    }
    assert forall|k: int| 0 <= k < ts.len() - 1 implies cursor_lt(
        cursor_at(s, (#[trigger] ts[k]).end),
        cursor_at(s, ts[k + 1].start),
    ) by {
        lemma_cursor_monotone(s, ts[k].end, ts[k + 1].start);
    }
}

/// The characters a token stands for.
pub open spec fn lexeme_text(l: Lexeme) -> Seq<char> {
    match l {
        Lexeme::Value(t) => t,
        Lexeme::Comment(t) => t,
        Lexeme::Comma => seq![','],
        Lexeme::LBrace => seq!['{'],
        Lexeme::RBrace => seq!['}'],
        Lexeme::Colon => seq![':'],
        Lexeme::Semicolon => seq![';'],
    }
}

/// Text put back together from tokens `ts` read from `p`: before each token
/// the source characters since the previous one, then the token's text, and
/// after the last token the rest of the source.
pub open spec fn rebuild(s: Seq<char>, ts: Seq<Span>, p: int) -> Seq<char>
    decreases ts.len(),
{
    if ts.len() == 0 {
        s.subrange(p, s.len() as int)
    } else {
        s.subrange(p, ts[0].start) + lexeme_text(ts[0].lexeme) + rebuild(
            s,
            ts.drop_first(),
            ts[0].end + 1,
        )
    }
}

/// Where the gap before token `k` starts: `p` for the first token, else just
/// after the token before.
pub open spec fn gap_start(ts: Seq<Span>, p: int, k: int) -> int {
    if k == 0 {
        p
    } else {
        ts[k - 1].end + 1
    }
}

proof fn lemma_span_text(s: Seq<char>, t: int)
    requires
        0 <= t < s.len(),
    ensures
        lexeme_text(span_at(s, t).lexeme) == s.subrange(t, span_at(s, t).end + 1),
{
    lemma_span_at_bounds(s, t);
    let sp = span_at(s, t);
    if sp.start == sp.end {
        assert(s.subrange(t, t + 1) =~= seq![s[t]]);
    }
}

/// Tokens read from `p` are slices of the source.
pub proof fn lemma_spans_text(s: Seq<char>, p: int)
    requires
        0 <= p <= s.len(),
    ensures
        forall|k: int|
            0 <= k < spans_from(s, p).len() ==> lexeme_text(
                (#[trigger] spans_from(s, p)[k]).lexeme,
            ) == s.subrange(spans_from(s, p)[k].start, spans_from(s, p)[k].end + 1),
    decreases s.len() - p,
{
    lemma_next_span_bounds(s, p);
    if let Some(sp) = next_span(s, p) {
        let ts = spans_from(s, p);
        let rest = spans_from(s, sp.end + 1);
        lemma_spans_text(s, sp.end + 1);
        lemma_span_text(s, sp.start);
        assert forall|k: int| 0 <= k < ts.len() implies lexeme_text((#[trigger] ts[k]).lexeme)
            == s.subrange(ts[k].start, ts[k].end + 1) by {
            if k > 0 {
                assert(ts[k] == rest[k - 1]);
            }
        }
    }
}

/// Between tokens read from `p`, and after the last, there is only white
/// space.
pub proof fn lemma_spans_gaps(s: Seq<char>, p: int)
    requires
        0 <= p <= s.len(),
    ensures
        forall|k: int, j: int|
            0 <= k < spans_from(s, p).len() && gap_start(spans_from(s, p), p, k) <= j < (
            #[trigger] spans_from(s, p)[k]).start ==> white_space(#[trigger] s[j]),
        forall|j: int|
            gap_start(spans_from(s, p), p, spans_from(s, p).len() as int) <= j < s.len()
                ==> white_space(#[trigger] s[j]),
    decreases s.len() - p,
{
    lemma_next_span_bounds(s, p);
    let ts = spans_from(s, p);
    if let Some(sp) = next_span(s, p) {
        let q = sp.end + 1;
        let rest = spans_from(s, q);
        lemma_spans_gaps(s, q);
        assert forall|k: int, j: int|
            0 <= k < ts.len() && gap_start(ts, p, k) <= j < (#[trigger] ts[k]).start implies white_space(
            #[trigger] s[j],
        ) by {
            if k > 0 {
                assert(ts[k] == rest[k - 1]);
                assert(gap_start(ts, p, k) == gap_start(rest, q, k - 1));
            }
        }
        if rest.len() > 0 {
            assert(ts[ts.len() - 1] == rest[rest.len() - 1]);
        }
        assert(gap_start(ts, p, ts.len() as int) == gap_start(rest, q, rest.len() as int));
    }
}

/// Putting the tokens read from `p` back together with the gaps between
/// them gives the source from `p` on.
pub proof fn lemma_spans_rebuild(s: Seq<char>, p: int)
    requires
        0 <= p <= s.len(),
    ensures
        rebuild(s, spans_from(s, p), p) == s.subrange(p, s.len() as int),
    decreases s.len() - p,
{
    lemma_next_span_bounds(s, p);
    let ts = spans_from(s, p);
    if let Some(sp) = next_span(s, p) {
        let q = sp.end + 1;
        lemma_spans_rebuild(s, q);
        lemma_span_text(s, sp.start);
        assert(ts.drop_first() =~= spans_from(s, q));
        assert(rebuild(s, ts, p) =~= s.subrange(p, s.len() as int));
    }
}

/// Lexing loses nothing: every character of a source is either inside a
/// token, whose text is exactly its slice of the source, or white space
/// between tokens. So the tokens' texts with the white space between them
/// give back the source, and lexing that text again reads the same tokens.
pub proof fn lemma_lexing_loses_nothing(s: Seq<char>)
    ensures
        forall|k: int|
            0 <= k < spans_from(s, 0).len() ==> lexeme_text(
                (#[trigger] spans_from(s, 0)[k]).lexeme,
            ) == s.subrange(spans_from(s, 0)[k].start, spans_from(s, 0)[k].end + 1),
        forall|k: int, j: int|
            0 <= k < spans_from(s, 0).len() && gap_start(spans_from(s, 0), 0, k) <= j < (
            #[trigger] spans_from(s, 0)[k]).start ==> white_space(#[trigger] s[j]),
        forall|j: int|
            gap_start(spans_from(s, 0), 0, spans_from(s, 0).len() as int) <= j < s.len()
                ==> white_space(#[trigger] s[j]),
        rebuild(s, spans_from(s, 0), 0) == s,
        spans_from(rebuild(s, spans_from(s, 0), 0), 0) == spans_from(s, 0),
{
    lemma_spans_text(s, 0);
    lemma_spans_gaps(s, 0);
    lemma_spans_rebuild(s, 0);
    assert(s.subrange(0, s.len() as int) =~= s);
}

/// No token from index `i` up to `j` is a `;` or a `{`.
pub open spec fn no_stop_between(ts: Seq<Span>, i: int, j: int) -> bool {
    forall|m: int| i <= m < j ==> !(#[trigger] ts[m].lexeme is Semicolon) && !(ts[m].lexeme is LBrace)
}

proof fn lemma_first_stop_at(ts: Seq<Span>, i: int, j: int)
    requires
        0 <= i <= j < ts.len(),
        no_stop_between(ts, i, j),
    ensures
        first_stop(ts, i) == first_stop(ts, j),
    decreases j - i,
{
    if i < j {
        assert(!(ts[i].lexeme is Semicolon) && !(ts[i].lexeme is LBrace));
        lemma_first_stop_at(ts, i + 1, j);
    }
}

/// How the parser tells the two constructs apart: the construct at index
/// `i` is read as a declaration when the first `;` or `{` after it is a `;`,
/// and as a rule block when it is a `{`, however many other tokens (values,
/// colons, commas) come between.
pub proof fn lemma_disambiguation(ts: Seq<Span>, i: int, j: int)
    requires
        0 <= i < j < ts.len(),
        no_stop_between(ts, i + 1, j),
        ts[j].lexeme is Semicolon || ts[j].lexeme is LBrace,
    ensures
        ts[j].lexeme is Semicolon ==> parse_item(ts, i) == parse_property(ts, i),
        ts[j].lexeme is LBrace ==> parse_item(ts, i) == parse_scope(ts, i),
{
    lemma_first_stop_at(ts, i + 1, j);
}

/// The values of a run read from `j` are the tokens `j` up to the run's end.
proof fn lemma_value_run_values(ts: Seq<Span>, j: int, acc: Seq<char>)
    requires
        0 <= j,
    ensures
        forall|m: int|
            j <= m < j + value_run(ts, j, acc).1 ==> (#[trigger] ts[m].lexeme) is Value,
        j + value_run(ts, j, acc).1 <= ts.len() || value_run(ts, j, acc).1 == 0,
    decreases ts.len() - j,
{
    if 0 <= j < ts.len() {
        if let Lexeme::Value(v) = ts[j].lexeme {
            lemma_value_run_values(ts, j + 1, acc + v + seq![' ']);
        }
    }
}

/// The text of a value token; empty for any other token.
pub open spec fn value_of(l: Lexeme) -> Seq<char> {
    match l {
        Lexeme::Value(v) => v,
        _ => Seq::empty(),
    }
}

/// From index `i` to the end, `ts` is a run of declarations: each a value
/// (the key), a colon, a run of values, and a `;`.
pub open spec fn declarations(ts: Seq<Span>, i: int) -> bool
    decreases ts.len() - i,
{
    if 0 <= i < ts.len() {
        let n = value_run(ts, i + 2, Seq::empty()).1;
        &&& ts[i].lexeme is Value
        &&& i + 1 < ts.len()
        &&& ts[i + 1].lexeme is Colon
        &&& i + 2 + n < ts.len()
        &&& ts[i + 2 + n].lexeme is Semicolon
        &&& declarations(ts, i + 3 + n)
    } else {
        i == ts.len()
    }
}

/// One property for each declaration of such a run, in order: its key, and
/// its values joined by single spaces and trimmed.
pub open spec fn declared(ts: Seq<Span>, i: int) -> Seq<Node>
    decreases room(ts, i),
{
    if 0 <= i < ts.len() {
        let (text, n) = value_run(ts, i + 2, Seq::empty());
        seq![
            Node::Property {
                key: value_of(ts[i].lexeme),
                value: trimmed(text),
                from: ts[i].start,
                to: ts[i + 2 + n].start,
            },
        ] + declared(ts, i + 3 + n)
    } else {
        Seq::empty()
    }
}

/// A run of declarations parses to exactly one property per declaration,
/// in order, and the parse reads it to the end.
pub proof fn lemma_declarations_parse(ts: Seq<Span>, i: int)
    requires
        0 <= i,
        declarations(ts, i),
    ensures
        parse_exprs(ts, i).0 == declared(ts, i),
        i + parse_exprs(ts, i).1 == ts.len(),
    decreases ts.len() - i,
{
    if i < ts.len() {
        let n = value_run(ts, i + 2, Seq::empty()).1;
        lemma_value_run_values(ts, i + 2, Seq::empty());
        lemma_first_stop_at(ts, i + 2, i + 2 + n);
        assert(first_stop(ts, i + 1) == first_stop(ts, i + 2));
        assert(parse_item(ts, i) == parse_property(ts, i));
        lemma_declarations_parse(ts, i + 3 + n);
        assert(parse_exprs(ts, i).0 =~= declared(ts, i));
    }
}

/// A source whose tokens are nothing but well-formed `key: value;`
/// declarations parses to exactly one property per declaration, in order of
/// the source, each with its key and its values joined by single spaces and
/// trimmed.
pub proof fn lemma_declarations_source(s: Seq<char>)
    requires
        declarations(spans_from(s, 0), 0),
    ensures
        parse_source(s) == declared(spans_from(s, 0), 0),
{
    lemma_declarations_parse(spans_from(s, 0), 0);
}

/// Tokens from `i` up to `j` can make up a selector list: values, colons and
/// commas.
pub open spec fn selector_tokens(ts: Seq<Span>, i: int, j: int) -> bool {
    forall|m: int|
        i <= m < j ==> (#[trigger] ts[m].lexeme is Value) || ts[m].lexeme is Colon
            || ts[m].lexeme is Comma
}

/// Number of commas among the tokens from `i` up to `j`.
pub open spec fn commas(ts: Seq<Span>, i: int, j: int) -> nat
    decreases j - i,
{
    if i < j {
        (if ts[i].lexeme is Comma {
            1nat
        } else {
            0nat
        }) + commas(ts, i + 1, j)
    } else {
        0
    }
}

proof fn lemma_selector_scan_to(
    ts: Seq<Span>,
    m: int,
    j: int,
    sels: Seq<Seq<char>>,
    acc: Seq<char>,
)
    requires
        0 <= m <= j < ts.len(),
        selector_tokens(ts, m, j),
        ts[j].lexeme is LBrace,
    ensures
        selector_scan(ts, m, sels, acc).1 == j - m,
        selector_scan(ts, m, sels, acc).0.len() == sels.len() + commas(ts, m, j) + 1,
    decreases j - m,
{
    if m < j {
        assert(ts[m].lexeme is Value || ts[m].lexeme is Colon || ts[m].lexeme is Comma);
        match ts[m].lexeme {
            Lexeme::Value(v) => {
                lemma_selector_scan_to(ts, m + 1, j, sels, acc + v + seq![' ']);
            },
            Lexeme::Comma => {
                lemma_selector_scan_to(ts, m + 1, j, sels.push(trimmed(acc)), Seq::empty());
            },
            _ => {
                lemma_selector_scan_to(ts, m + 1, j, sels, trimmed(acc) + seq![':']);
            },
        }
    }
}

/// The body loop stops on a `}` or at the end of the tokens.
pub proof fn lemma_parse_exprs_stop(ts: Seq<Span>, i: int)
    requires
        0 <= i,
    ensures
        i + parse_exprs(ts, i).1 >= ts.len() || ts[i + parse_exprs(ts, i).1].lexeme is RBrace,
    decreases room(ts, i),
{
    if 0 <= i < ts.len() && !(ts[i].lexeme is RBrace) {
        let d = parse_item(ts, i).1;
        lemma_parse_exprs_stop(ts, i + d + 1);
    }
}

/// A well-formed rule block, selector tokens from `i` up to a `{` at `j`
/// and a body closed by a `}`, parses to one rule block: its selectors are
/// the comma-separated list read in order, one more than the commas, and
/// its children are the parse of the body.
pub proof fn lemma_rule_block(ts: Seq<Span>, i: int, j: int)
    requires
        0 <= i < j < ts.len(),
        selector_tokens(ts, i, j),
        ts[j].lexeme is LBrace,
        j + 1 + parse_exprs(ts, j + 1).1 < ts.len(),
    ensures
        ({
            let close = j + 1 + parse_exprs(ts, j + 1).1;
            let sels = selector_scan(ts, i, Seq::empty(), Seq::empty()).0;
            &&& ts[close].lexeme is RBrace
            &&& sels.len() == commas(ts, i, j) + 1
            &&& parse_item(ts, i) == (
                Some(
                    Node::Scope {
                        selectors: sels,
                        children: parse_exprs(ts, j + 1).0,
                        from: ts[i].start,
                        to: ts[close].start,
                    },
                ),
                (close - i) as nat,
            )
        }),
{
    assert forall|m: int| i + 1 <= m < j implies !(#[trigger] ts[m].lexeme is Semicolon) && !(
    ts[m].lexeme is LBrace) by {
        assert(ts[m].lexeme is Value || ts[m].lexeme is Colon || ts[m].lexeme is Comma);
    }
    lemma_first_stop_at(ts, i + 1, j);
    lemma_selector_scan_to(ts, i, j, Seq::empty(), Seq::empty());
    lemma_parse_exprs_stop(ts, j + 1);
}

} // verus!
