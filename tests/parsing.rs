use sass_rta::expression::{Expr, Property, Scope};
use sass_rta::lexer::{Cursor, Lexer, Range};
use sass_rta::parser::Parser;

fn parse(input: &str) -> Vec<Expr> {
    let lexer = Lexer::new(input.chars().collect());
    let mut parser = Parser::new(lexer);
    parser.parse()
}

fn do_parser(input: &str, expect: Vec<Expr>) {
    assert_eq!(parse(input), expect);
}

fn range(r0: usize, c0: usize, r1: usize, c1: usize) -> Range {
    Range::new(Cursor::new(r0, c0), Cursor::new(r1, c1))
}

fn decl(key: &str, value: &str, range: Range) -> Expr {
    Expr::Property(Property { key: key.to_string(), value: value.to_string(), range })
}

fn scope(selectors: &[&str], children: Vec<Expr>, range: Range) -> Expr {
    Expr::Scope(Scope {
        selectors: selectors.iter().map(|s| s.to_string()).collect(),
        children,
        range,
    })
}

#[test]
fn property() {
    do_parser(
        "color: red;\npadding: 1px 1rem; margin: 0 1px 2px;",
        vec![
            decl("color", "red", range(0, 0, 0, 10)),
            decl("padding", "1px 1rem", range(1, 0, 1, 17)),
            decl("margin", "0 1px 2px", range(1, 19, 1, 36)),
        ],
    );
}

#[test]
fn variable() {
    do_parser(
        "$primary: #123456;",
        vec![decl("$primary", "#123456", range(0, 0, 0, 17))],
    );
}

#[test]
fn selectors_1() {
    do_parser(
        ".a {}\n.c {}",
        vec![
            scope(&[".a"], vec![], range(0, 0, 0, 4)),
            scope(&[".c"], vec![], range(1, 0, 1, 4)),
        ],
    );
}

#[test]
fn selectors_2() {
    do_parser(
        ".a .b {}\n.c, .d {}",
        vec![
            scope(&[".a .b"], vec![], range(0, 0, 0, 7)),
            scope(&[".c", ".d"], vec![], range(1, 0, 1, 8)),
        ],
    );
}

#[test]
fn parser_pseudo() {
    do_parser(
        ".a:b {} .cc::ff {}",
        vec![
            scope(&[".a:b"], vec![], range(0, 0, 0, 6)),
            scope(&[".cc::ff"], vec![], range(0, 8, 0, 17)),
        ],
    );
}

#[test]
fn nested_selectors() {
    do_parser(
        ".a .b { .c, .d {} #e {} }",
        vec![scope(
            &[".a .b"],
            vec![
                scope(&[".c", ".d"], vec![], range(0, 8, 0, 16)),
                scope(&["#e"], vec![], range(0, 18, 0, 22)),
            ],
            range(0, 0, 0, 24),
        )],
    );
}

#[test]
fn with_property() {
    do_parser(
        ".a { color: red; .b { width: 100px; } }",
        vec![scope(
            &[".a"],
            vec![
                decl("color", "red", range(0, 5, 0, 15)),
                scope(
                    &[".b"],
                    vec![decl("width", "100px", range(0, 22, 0, 34))],
                    range(0, 17, 0, 36),
                ),
            ],
            range(0, 0, 0, 38),
        )],
    );
}
