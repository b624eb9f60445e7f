use sass_rta::lexer::{Cursor, Lexer, PToken, Range, Token};

fn lexer_of(text: &str) -> Lexer {
    Lexer::new(text.chars().collect())
}

fn value(text: &str) -> Token {
    Token::Value(text.to_string())
}

#[test]
fn single() {
    let mut lexer = lexer_of(".a { }");
    assert_eq!(
        lexer.token().unwrap(),
        PToken {
            token: value(".a"),
            range: Range::new(Cursor::new(0, 0), Cursor::new(0, 1)),
        }
    );
    assert_eq!(
        lexer.token().unwrap(),
        PToken {
            token: Token::LBrace,
            range: Range::new(Cursor::new(0, 3), Cursor::new(0, 3)),
        }
    );
    assert_eq!(
        lexer.token().unwrap(),
        PToken {
            token: Token::RBrace,
            range: Range::new(Cursor::new(0, 5), Cursor::new(0, 5)),
        }
    );
    assert_eq!(lexer.token(), None);
}

#[test]
fn multi() {
    let mut lexer = lexer_of(".aa, .bb {");
    assert_eq!(lexer.token().unwrap().token, value(".aa"));
    assert_eq!(lexer.token().unwrap().token, Token::Comma);
    assert_eq!(lexer.token().unwrap().token, value(".bb"));
    assert_eq!(lexer.token().unwrap().token, Token::LBrace);
}

#[test]
fn multi_line() {
    let mut lexer = lexer_of(".a,\n.b {");
    assert_eq!(
        lexer.token().unwrap(),
        PToken {
            token: value(".a"),
            range: Range::new(Cursor::new(0, 0), Cursor::new(0, 1)),
        }
    );
    assert_eq!(
        lexer.token().unwrap(),
        PToken {
            token: Token::Comma,
            range: Range::new(Cursor::new(0, 2), Cursor::new(0, 2)),
        }
    );
    assert_eq!(
        lexer.token().unwrap(),
        PToken {
            token: value(".b"),
            range: Range::new(Cursor::new(1, 0), Cursor::new(1, 1)),
        }
    );
    assert_eq!(
        lexer.token().unwrap(),
        PToken {
            token: Token::LBrace,
            range: Range::new(Cursor::new(1, 3), Cursor::new(1, 3)),
        }
    );
}

#[test]
fn nested() {
    let mut lexer = lexer_of(".a .b {");
    assert_eq!(lexer.token().unwrap().token, value(".a"));
    assert_eq!(lexer.token().unwrap().token, value(".b"));
    assert_eq!(lexer.token().unwrap().token, Token::LBrace);
}

#[test]
fn escaped() {
    let mut lexer = lexer_of(".a\\:b {");
    assert_eq!(lexer.token().unwrap().token, value(".a\\:b"));
    assert_eq!(lexer.token().unwrap().token, Token::LBrace);
}

#[test]
fn prefix() {
    let mut lexer = lexer_of(".a:hover {");
    assert_eq!(lexer.token().unwrap().token, value(".a"));
    assert_eq!(lexer.token().unwrap().token, Token::Colon);
    assert_eq!(lexer.token().unwrap().token, value("hover"));
    assert_eq!(lexer.token().unwrap().token, Token::LBrace);
}

#[test]
fn lexer_pseudo() {
    let mut lexer = lexer_of(".a::before {");
    assert_eq!(lexer.token().unwrap().token, value(".a"));
    assert_eq!(lexer.token().unwrap().token, Token::Colon);
    assert_eq!(lexer.token().unwrap().token, Token::Colon);
    assert_eq!(lexer.token().unwrap().token, value("before"));
    assert_eq!(lexer.token().unwrap().token, Token::LBrace);
}

#[test]
fn simple() {
    let mut lexer = lexer_of("color: red;");
    assert_eq!(lexer.token().unwrap().token, value("color"));
    assert_eq!(lexer.token().unwrap().token, Token::Colon);
    assert_eq!(lexer.token().unwrap().token, value("red"));
    assert_eq!(lexer.token().unwrap().token, Token::Semicolon);
    assert_eq!(lexer.token(), None);
}

#[test]
fn multi_value_online() {
    let mut lexer = lexer_of("padding: 10px 1rem;");
    assert_eq!(lexer.token().unwrap().token, value("padding"));
    assert_eq!(lexer.token().unwrap().token, Token::Colon);
    assert_eq!(lexer.token().unwrap().token, value("10px"));
    assert_eq!(lexer.token().unwrap().token, value("1rem"));
    assert_eq!(lexer.token().unwrap().token, Token::Semicolon);
    assert_eq!(lexer.token(), None);
}

#[test]
fn multi_value_multi_line() {
    let mut lexer = lexer_of("padding: 10px\n1rem;");
    assert_eq!(lexer.token().unwrap().token, value("padding"));
    assert_eq!(lexer.token().unwrap().token, Token::Colon);
    assert_eq!(lexer.token().unwrap().token, value("10px"));
    assert_eq!(lexer.token().unwrap().token, value("1rem"));
    assert_eq!(lexer.token().unwrap().token, Token::Semicolon);
    assert_eq!(lexer.token(), None);
}

#[test]
fn single_quote_value() {
    let mut lexer = lexer_of("url('http://example.com')");
    assert_eq!(lexer.token().unwrap().token, value("url('http://example.com')"));
    assert_eq!(lexer.token(), None);
}

#[test]
fn double_quote_value() {
    let mut lexer = lexer_of("url(\"http://example.com\")");
    assert_eq!(lexer.token().unwrap().token, value("url(\"http://example.com\")"));
    assert_eq!(lexer.token(), None);
}

#[test]
fn single_quote_escaped_value() {
    let mut lexer = lexer_of("url('http://ex\\'ample.com')");
    assert_eq!(lexer.token().unwrap().token, value("url('http://ex\\'ample.com')"));
    assert_eq!(lexer.token(), None);
}

#[test]
fn double_quote_escaped_value() {
    let mut lexer = lexer_of("url(\"http://ex\\\"ample.com\")");
    assert_eq!(lexer.token().unwrap().token, value("url(\"http://ex\\\"ample.com\")"));
    assert_eq!(lexer.token(), None);
}

#[test]
fn test() {
    let mut lexer = lexer_of(".a // abc \n.b");
    assert_eq!(lexer.token().unwrap().token, value(".a"));
    assert_eq!(lexer.token().unwrap().token, Token::Comment("// abc ".to_string()));
    assert_eq!(lexer.token().unwrap().token, value(".b"));
    assert_eq!(lexer.token(), None);
}

#[test]
fn online() {
    let mut lexer = lexer_of(".a /* abc */ {");
    assert_eq!(lexer.token().unwrap().token, value(".a"));
    assert_eq!(lexer.token().unwrap().token, Token::Comment("/* abc */".to_string()));
    assert_eq!(lexer.token().unwrap().token, Token::LBrace);
    assert_eq!(lexer.token(), None);
}

#[test]
fn multiline() {
    let mut lexer = lexer_of(".a /*\n abc \n*/ {");
    assert_eq!(lexer.token().unwrap().token, value(".a"));
    assert_eq!(lexer.token().unwrap().token, Token::Comment("/*\n abc \n*/".to_string()));
    assert_eq!(lexer.token().unwrap().token, Token::LBrace);
    assert_eq!(lexer.token(), None);
}
