use sass_rta::ambuster::has_evil_amp;
use sass_rta::expression::{Expr, Property, Scope};
use sass_rta::lexer::{Cursor, Lexer, PToken, Range, Token};
use sass_rta::parser::Parser;
use sass_rta::text::is_white_space;

fn tokens_of(text: &str) -> Vec<PToken> {
    let mut lexer = Lexer::new(text.chars().collect());
    let mut out = Vec::new();
    while let Some(t) = lexer.token() {
        out.push(t);
    }
    out
}

fn parse_text(text: &str) -> Vec<Expr> {
    Parser::new(Lexer::new(text.chars().collect())).parse()
}

fn at(r0: usize, c0: usize, r1: usize, c1: usize) -> Range {
    Range::new(Cursor::new(r0, c0), Cursor::new(r1, c1))
}

fn prop(key: &str, value: &str, range: Range) -> Expr {
    Expr::Property(Property { key: key.to_string(), value: value.to_string(), range })
}

fn rule(selectors: &[&str], children: Vec<Expr>, range: Range) -> Expr {
    Expr::Scope(Scope {
        selectors: selectors.iter().map(|s| s.to_string()).collect(),
        children,
        range,
    })
}

fn text_of(t: &Token) -> String {
    match t {
        Token::Value(v) => v.clone(),
        Token::Comment(c) => c.clone(),
        Token::Comma => ",".to_string(),
        Token::LBrace => "{".to_string(),
        Token::RBrace => "}".to_string(),
        Token::Colon => ":".to_string(),
        Token::Semicolon => ";".to_string(),
    }
}

/// Index in `chars` of a row and column.
fn index_of(chars: &[char], c: &Cursor) -> usize {
    let mut row = 0;
    let mut col = 0;
    for (k, ch) in chars.iter().enumerate() {
        if row == c.row && col == c.column {
            return k;
        }
        if *ch == '\n' {
            row += 1;
            col = 0;
        } else {
            col += 1;
        }
    }
    chars.len()
}

#[test]
fn empty_and_blank_input_give_no_token() {
    assert_eq!(tokens_of(""), vec![]);
    assert_eq!(tokens_of(" \t\n\r\u{3000}"), vec![]);
    assert_eq!(parse_text(""), vec![]);
}

#[test]
fn quoted_values_keep_their_text() {
    let mut lexer = Lexer::new("url(\"a\\\"b\")".chars().collect());
    assert_eq!(lexer.token().unwrap().token, Token::Value("url(\"a\\\"b\")".to_string()));
    assert_eq!(lexer.token(), None);
    let mut lexer = Lexer::new("'a b; c'".chars().collect());
    let t = lexer.token().unwrap();
    assert_eq!(t.token, Token::Value("'a b; c'".to_string()));
    assert_eq!(t.range, at(0, 0, 0, 7));
    assert_eq!(lexer.token(), None);
}

#[test]
fn unterminated_constructs_run_to_the_end() {
    assert_eq!(tokens_of("'abc")[0].token, Token::Value("'abc".to_string()));
    let t = tokens_of("a /* abc");
    assert_eq!(t.len(), 2);
    assert_eq!(t[1].token, Token::Comment("/* abc".to_string()));
    assert_eq!(t[1].range, at(0, 2, 0, 7));
    let t = tokens_of("x /");
    assert_eq!(t[1].token, Token::Value("/".to_string()));
}

#[test]
fn closing_brace_continues_a_value() {
    let t = tokens_of("red} }");
    assert_eq!(t[0].token, Token::Value("red}".to_string()));
    assert_eq!(t[1].token, Token::RBrace);
}

#[test]
fn escapes_carry_delimiters() {
    let t = tokens_of("\\{a b");
    assert_eq!(t[0].token, Token::Value("\\{a".to_string()));
    let t = tokens_of("a\\ b;");
    assert_eq!(t[0].token, Token::Value("a\\ b".to_string()));
    assert_eq!(t[1].token, Token::Semicolon);
}

#[test]
fn white_space_matches_std() {
    for u in 0..=0x10FFFFu32 {
        if let Some(c) = char::from_u32(u) {
            assert_eq!(is_white_space(c), c.is_whitespace(), "{:?}", c);
        }
    }
}

#[test]
fn relexing_rebuilt_text_gives_the_source() {
    let source = ".a, .b:hover { // note\n  color : red;\n\t/* x\n y */ url('p q') }\u{3000}";
    let chars: Vec<char> = source.chars().collect();
    let tokens = tokens_of(source);
    let mut rebuilt = String::new();
    let mut next = 0;
    for t in &tokens {
        let from = index_of(&chars, &t.range.from);
        let to = index_of(&chars, &t.range.to);
        assert!(from <= to);
        let gap: String = chars[next..from].iter().collect();
        assert!(gap.chars().all(|c| c.is_whitespace()));
        let slice: String = chars[from..=to].iter().collect();
        assert_eq!(slice, text_of(&t.token));
        rebuilt.push_str(&gap);
        rebuilt.push_str(&text_of(&t.token));
        next = to + 1;
    }
    let tail: String = chars[next..].iter().collect();
    assert!(tail.chars().all(|c| c.is_whitespace()));
    rebuilt.push_str(&tail);
    assert_eq!(rebuilt, source);
    assert_eq!(tokens_of(&rebuilt), tokens);
}

#[test]
fn token_ranges_are_ordered() {
    let tokens = tokens_of(".a {\n  b: c d;\n}\n/* e\nf */ g");
    let key = |c: &Cursor| (c.row, c.column);
    for t in &tokens {
        assert!(key(&t.range.from) <= key(&t.range.to));
    }
    for w in tokens.windows(2) {
        assert!(key(&w[0].range.to) < key(&w[1].range.from));
    }
    assert_eq!(tokens[7].range, at(2, 0, 2, 0));
    assert_eq!(tokens[8].range, at(3, 0, 4, 3));
}

#[test]
fn declarations_parse_one_property_each() {
    assert_eq!(
        parse_text("a :  b   c ;\n  d:e;f: g\n h;"),
        vec![
            prop("a", "b c", at(0, 0, 0, 11)),
            prop("d", "e", at(1, 2, 1, 5)),
            prop("f", "g h", at(1, 6, 2, 2)),
        ]
    );
}

#[test]
fn rule_block_selectors_split_on_commas() {
    assert_eq!(
        parse_text(".a, .b:hover, .c .d ,e::x { k: v; }"),
        vec![rule(
            &[".a", ".b:hover", ".c .d", "e::x"],
            vec![prop("k", "v", at(0, 28, 0, 32))],
            at(0, 0, 0, 34),
        )]
    );
}

#[test]
fn nesting_keeps_order() {
    assert_eq!(
        parse_text(".a { .b { color: red; } }"),
        vec![rule(
            &[".a"],
            vec![rule(&[".b"], vec![prop("color", "red", at(0, 10, 0, 20))], at(0, 5, 0, 22))],
            at(0, 0, 0, 24),
        )]
    );
    assert_eq!(
        parse_text("a{b{c{d{x:y;}}}}"),
        vec![rule(
            &["a"],
            vec![rule(
                &["b"],
                vec![rule(
                    &["c"],
                    vec![rule(&["d"], vec![prop("x", "y", at(0, 8, 0, 11))], at(0, 6, 0, 12))],
                    at(0, 4, 0, 13),
                )],
                at(0, 2, 0, 14),
            )],
            at(0, 0, 0, 15),
        )]
    );
}

#[test]
fn first_semicolon_or_brace_decides() {
    assert_eq!(
        parse_text(".a:hover {}"),
        vec![rule(&[".a:hover"], vec![], at(0, 0, 0, 10))]
    );
    assert_eq!(parse_text("a:hover;"), vec![prop("a", "hover", at(0, 0, 0, 7))]);
    assert_eq!(
        parse_text("a b c d e {}"),
        vec![rule(&["a b c d e"], vec![], at(0, 0, 0, 11))]
    );
}

#[test]
fn broken_constructs_are_dropped() {
    assert_eq!(parse_text("color: red"), vec![]);
    assert_eq!(parse_text(".a { color: red;"), vec![]);
    assert_eq!(parse_text(": a;"), vec![]);
    assert_eq!(parse_text("; .a {} }"), vec![]);
    assert_eq!(parse_text("x: y; }"), vec![prop("x", "y", at(0, 0, 0, 4))]);
}

#[test]
fn comments_in_a_body_are_skipped() {
    assert_eq!(
        parse_text(".a { /* c */ color: red; }"),
        vec![rule(&[".a"], vec![prop("color", "red", at(0, 13, 0, 23))], at(0, 0, 0, 25))]
    );
}

#[test]
fn ampersand_truth_table() {
    for s in ["&a", "a&", "&-a", "a_&", "&0", "9&", "x &y", "&.a, b&"] {
        assert!(has_evil_amp(s), "{}", s);
    }
    for s in [
        ".a", "", "&", "& a a &", "&.a", "a.&", "&:a", "a:&", "&#a", "a#&", "&+a", "a+&", "&>a",
        "a>&", "&~a", "a~&", "&[a", "a[&", "&&", "&é",
    ] {
        assert!(!has_evil_amp(s), "{}", s);
    }
}

#[test]
fn scope_is_evil_when_any_selector_is() {
    let mut exprs = parse_text(".a, &b {} .c, &.d {}");
    assert_eq!(exprs.len(), 2);
    match &mut exprs[0] {
        Expr::Scope(s) => assert!(s.has_evil_amp()),
        _ => panic!("expected a rule block"),
    }
    match &mut exprs[1] {
        Expr::Scope(s) => assert!(!s.has_evil_amp()),
        _ => panic!("expected a rule block"),
    }
}

#[test]
fn cloned_tree_equals_its_source_tree() {
    let exprs = parse_text(".a, .b { c: d e; .f { g: h; } }");
    let copies: Vec<Expr> = exprs.iter().map(|e| e.clone()).collect();
    assert_eq!(copies, exprs);
    let lexer = Lexer::new("a: b;".chars().collect());
    let mut ahead = lexer.clone();
    assert_eq!(ahead.token().unwrap().token, Token::Value("a".to_string()));
    let mut first = lexer;
    assert_eq!(first.token().unwrap().token, Token::Value("a".to_string()));
}
