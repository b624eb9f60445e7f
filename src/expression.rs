//! The tree that parsing builds, and the mathematical model it is checked
//! against.

use vstd::prelude::*;
use crate::lexer::{Range, is_cursor};

verus! {

/// A rule block: selectors and a nested body.
#[derive(Debug, PartialEq)]
pub struct Scope {
    pub range: Range,
    pub selectors: Vec<String>,
    pub children: Vec<Expr>,
}

/// A `key: value;` declaration.
#[derive(Debug, PartialEq, Clone)]
pub struct Property {
    pub range: Range,
    pub key: String,
    pub value: String,
}

#[derive(Debug, PartialEq, Clone)]
pub struct Import {
    pub range: Range,
    pub path: String,
}

#[derive(Debug, PartialEq, Clone)]
pub struct Include {
    pub range: Range,
    text: String,
}

#[derive(Debug, PartialEq)]
pub struct Mixin {
    pub range: Range,
    text: String,
    pub children: Vec<Expr>,
}

#[derive(Debug, PartialEq)]
pub struct Media {
    pub range: Range,
    pub name: String,
    pub children: Vec<Expr>,
}

#[derive(Debug, PartialEq)]
pub enum Expr {
    Scope(Scope),
    Property(Property),
    Import(Import),
    Include(Include),
    Mixin(Mixin),
    Media(Media),
}

/// The model of a parsed construct. Positions are indices into the source:
/// `from` is the first character of the construct's first token, `to` the
/// first character of the token that ends it (`;` or `}`).
pub enum Node {
    Scope { selectors: Seq<Seq<char>>, children: Seq<Node>, from: int, to: int },
    Property { key: Seq<char>, value: Seq<char>, from: int, to: int },
}

/// `v` holds the strings `t`, in order.
pub open spec fn strings_are(v: Seq<String>, t: Seq<Seq<char>>) -> bool {
    &&& v.len() == t.len()
    &&& forall|j: int| 0 <= j < v.len() ==> (#[trigger] v[j])@ == t[j]
}

/// `e` is the construct `m` of source `s`, with the rows and columns of its
/// positions.
pub open spec fn expr_is(s: Seq<char>, e: Expr, m: Node) -> bool
    decreases m,
{
    match m {
        Node::Property { key, value, from, to } => {
            &&& e matches Expr::Property(p)
            &&& p.key@ == key
            &&& p.value@ == value
            &&& is_cursor(p.range.from, s, from)
            &&& is_cursor(p.range.to, s, to)
        },
        Node::Scope { selectors, children, from, to } => {
            &&& e matches Expr::Scope(sc)
            &&& strings_are(sc.selectors@, selectors)
            &&& sc.children@.len() == children.len()
            &&& forall|j: int|
                0 <= j < children.len() ==> expr_is(s, #[trigger] sc.children@[j], children[j])
            &&& is_cursor(sc.range.from, s, from)
            &&& is_cursor(sc.range.to, s, to)
        },
    }
}

/// `v` holds the constructs `m` of source `s`, in order.
pub open spec fn exprs_are(s: Seq<char>, v: Seq<Expr>, m: Seq<Node>) -> bool {
    &&& v.len() == m.len()
    &&& forall|j: int| 0 <= j < v.len() ==> expr_is(s, #[trigger] v[j], m[j])
}

/// A deep copy of `e`: the same construct of any source.
fn copy_expr(e: &Expr) -> (r: Expr)
    ensures
        forall|s: Seq<char>, m: Node| expr_is(s, *e, m) ==> #[trigger] expr_is(s, r, m),
    decreases e,
{
    match e {
        Expr::Scope(sc) => Expr::Scope(copy_scope(sc)),
        Expr::Property(p) => Expr::Property(
            Property { range: p.range, key: p.key.clone(), value: p.value.clone() },
        ),
        Expr::Import(i) => Expr::Import(i.clone()),
        Expr::Include(i) => Expr::Include(i.clone()),
        Expr::Mixin(m) => Expr::Mixin(
            Mixin { range: m.range, text: m.text.clone(), children: copy_exprs(&m.children) },
        ),
        Expr::Media(m) => Expr::Media(
            Media { range: m.range, name: m.name.clone(), children: copy_exprs(&m.children) },
        ),
    }
}

fn copy_scope(sc: &Scope) -> (r: Scope)
    ensures
        forall|s: Seq<char>, m: Node|
            expr_is(s, Expr::Scope(*sc), m) ==> #[trigger] expr_is(s, Expr::Scope(r), m),
    decreases sc,
{
    let r = Scope {
        range: sc.range,
        selectors: copy_strings(&sc.selectors),
        children: copy_exprs(&sc.children),
    };
    proof {
        assert forall|s: Seq<char>, m: Node| expr_is(s, Expr::Scope(*sc), m) implies #[trigger] expr_is(
            s,
            Expr::Scope(r),
            m,
        ) by {
            if let Node::Scope { selectors, children, from, to } = m {
                assert forall|j: int| 0 <= j < children.len() implies expr_is(
                    s,
                    #[trigger] r.children@[j],
                    children[j],
                ) by {
                    assert(expr_is(s, sc.children@[j], children[j]));
                }
            }
        }
    }
    r
}

fn copy_strings(v: &Vec<String>) -> (r: Vec<String>)
    ensures
        r@.len() == v@.len(),
        forall|j: int| 0 <= j < v@.len() ==> (#[trigger] r@[j])@ == v@[j]@,
{
    let mut out: Vec<String> = Vec::new();
    let mut k: usize = 0;
    while k < v.len()
        invariant
            k <= v.len(),
            out@.len() == k,
            forall|j: int| 0 <= j < k ==> (#[trigger] out@[j])@ == v@[j]@,
        decreases v.len() - k,
    {
        out.push(v[k].clone());
        k = k + 1;
    }
    out
}

fn copy_exprs(v: &Vec<Expr>) -> (r: Vec<Expr>)
    ensures
        r@.len() == v@.len(),
        forall|j: int, s: Seq<char>, m: Node|
            0 <= j < v@.len() && expr_is(s, v@[j], m) ==> #[trigger] expr_is(s, r@[j], m),
    decreases v,
{
    let mut out: Vec<Expr> = Vec::new();
    let mut k: usize = 0;
    while k < v.len()
        invariant
            k <= v.len(),
            out@.len() == k,
            forall|j: int, s: Seq<char>, m: Node|
                0 <= j < k && expr_is(s, v@[j], m) ==> #[trigger] expr_is(s, out@[j], m),
        decreases v.len() - k,
    {
        out.push(copy_expr(&v[k]));
        k = k + 1;
    }
    out
}

impl Clone for Expr {
    fn clone(&self) -> (r: Expr)
        ensures
            forall|s: Seq<char>, m: Node| expr_is(s, *self, m) ==> #[trigger] expr_is(s, r, m),
    {
        copy_expr(self)
    }
}

impl Clone for Scope {
    fn clone(&self) -> (r: Scope)
        ensures
            forall|s: Seq<char>, m: Node|
                expr_is(s, Expr::Scope(*self), m) ==> #[trigger] expr_is(s, Expr::Scope(r), m),
    {
        copy_scope(self)
    }
}

impl Clone for Mixin {
    fn clone(&self) -> (r: Mixin) {
        Mixin { range: self.range, text: self.text.clone(), children: copy_exprs(&self.children) }
    }
}

impl Clone for Media {
    fn clone(&self) -> (r: Media) {
        Media { range: self.range, name: self.name.clone(), children: copy_exprs(&self.children) }
    }
}

} // verus!
