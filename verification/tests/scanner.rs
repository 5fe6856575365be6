use banjoc::scanner::{is_scannable, Scanner, Token, TokenType};

fn kinds(source: &str) -> Vec<TokenType> {
    let mut scanner = Scanner::new(source);
    let mut out = Vec::new();
    loop {
        let token = scanner.scan_token();
        out.push(token.token_type);
        if token.token_type == TokenType::Eof {
            return out;
        }
    }
}

#[test]
fn keywords_and_identifiers() {
    assert_eq!(
        kinds("and call if or true var else eq fn false param product digraph divide subtract sum negate neqq nil not ref return gt gte lt lte "),
        vec![
            TokenType::And, TokenType::Call, TokenType::If, TokenType::Or, TokenType::True, TokenType::Var, TokenType::Else, TokenType::Equals, TokenType::Fn, TokenType::False, TokenType::Param, TokenType::Product, TokenType::Digraph, TokenType::Divide,
            TokenType::Subtract, TokenType::Sum, TokenType::Negate, TokenType::NotEquals, TokenType::Nil, TokenType::Not, TokenType::Ref, TokenType::Return, TokenType::Greater, TokenType::GreaterEqual, TokenType::Less,
            TokenType::LessEqual, TokenType::Eof
        ]
    );
    // near misses are identifiers; the keyword for "not equals" is spelled `neqq`
    assert_eq!(
        kinds("neq digraphs g _x gtee "),
        vec![TokenType::Identifier, TokenType::Identifier, TokenType::Identifier, TokenType::Identifier, TokenType::Identifier, TokenType::Eof]
    );
}

#[test]
fn punctuation_literals_and_lines() {
    let mut scanner = Scanner::new("{ a -> \"two\nlines\" [x=1.5] } // note\n,");
    let expected = [
        (TokenType::LeftBrace, "{", 1),
        (TokenType::Identifier, "a", 1),
        (TokenType::Arrow, "->", 1),
        (TokenType::String, "\"two\nlines\"", 2),
        (TokenType::LeftBracket, "[", 2),
        (TokenType::Identifier, "x", 2),
        (TokenType::Equal, "=", 2),
        (TokenType::Number, "1.5", 2),
        (TokenType::RightBracket, "]", 2),
        (TokenType::RightBrace, "}", 2),
        (TokenType::Comma, ",", 3),
        (TokenType::Eof, "", 3),
    ];
    for (kind, lexeme, line) in expected {
        let token = scanner.scan_token();
        assert_eq!(token.token_type, kind);
        assert_eq!(token.lexeme, lexeme);
        assert_eq!(token.line, line);
    }
}

#[test]
fn error_tokens() {
    let mut scanner = Scanner::new("\"open");
    let token = scanner.scan_token();
    assert_eq!(token.token_type, TokenType::Error);
    assert_eq!(token.lexeme, "Unterminated string.");
    let mut scanner = Scanner::new("@ ");
    let token = scanner.scan_token();
    assert_eq!(token.token_type, TokenType::Error);
    assert_eq!(token.lexeme, "Unexpected character.");
    let token = Token::none();
    assert_eq!(token.token_type, TokenType::Error);
    assert_eq!(token.lexeme, "");
    assert_eq!(token.line, 0);
}

#[test]
fn scannable_sources() {
    assert!(is_scannable("digraph { a } "));
    assert!(is_scannable("{ 12 }"));
    // an identifier or a number's fraction at the very end is read past its end
    assert!(!is_scannable("digraph { a } b"));
    assert!(is_scannable("{ 1."));
    assert!(!is_scannable("{ 1.5"));
}

#[test]
fn tokens_before_a_bad_end_scan() {
    // the number and the stray dot come back; only a later token could fail
    let mut scanner = Scanner::new("1.x");
    let t = scanner.scan_token();
    assert_eq!((t.token_type, t.lexeme), (TokenType::Number, "1"));
    let t = scanner.scan_token();
    assert_eq!((t.token_type, t.lexeme), (TokenType::Error, "Unexpected character."));
}

#[test]
fn comments_and_blank_lines_are_skipped() {
    let mut scanner = Scanner::new("// c\n\n  a ");
    let t = scanner.scan_token();
    assert_eq!((t.token_type, t.lexeme, t.line), (TokenType::Identifier, "a", 3));
}

#[test]
fn the_end_comes_again_after_the_end() {
    let mut scanner = Scanner::new("a b ");
    let mut kinds = Vec::new();
    // the end comes within len + 1 scans, and again after
    for _ in 0..5 {
        kinds.push(scanner.scan_token().token_type);
    }
    assert_eq!(kinds, vec![TokenType::Identifier, TokenType::Identifier, TokenType::Eof, TokenType::Eof, TokenType::Eof]);
    assert_eq!(scanner.scan_token().lexeme, "");
}
