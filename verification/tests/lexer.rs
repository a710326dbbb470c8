use brainwash::lexer::{Lexer, LexerError, Token};

#[test]
fn test_valid_filename() {
    // the original wrote "++++." into a file first; the lexer itself only
    // ever sees the bytes of the source
    let lx = Lexer::new(b"++++.");
    assert_eq!(
        lx.tokens,
        vec![
            Token::PlusToken,
            Token::PlusToken,
            Token::PlusToken,
            Token::PlusToken,
            Token::DotToken,
        ]
    );
}

#[test]
fn test_invalid_filename() {
    // opening the missing file fails in the caller before any bytes reach
    // the lexer; fed the name itself as source text, only its dot is a
    // command byte
    let lx = Lexer::new(b"does_not_exist.bf");
    assert_eq!(lx.tokens, vec![Token::DotToken]);
}

#[test]
fn test_lex_tokens() {
    let lx = Lexer::new(b"+-[+]><.");
    let test_tokens: Vec<Token> = vec![
        Token::PlusToken,
        Token::MinusToken,
        Token::LeftBracketToken,
        Token::PlusToken,
        Token::RightBracketToken,
        Token::GreaterThanToken,
        Token::SmallerThanToken,
        Token::DotToken,
    ];
    assert_eq!(lx.tokens, test_tokens);
}

#[test]
fn test_valid_brackets() {
    let lx = Lexer::new(b"[[]+[]][]");
    assert!(lx.check_loops().is_ok());
}

#[test]
fn test_invalid_brackets() {
    let lx = Lexer::new(b"[[]");
    assert!(lx.check_loops().is_err());
}

#[test]
fn test_unopened_close_fails_same_kind() {
    // a close without an open fails with the same error kind as an open
    // left unclosed
    let unopened = Lexer::new(b"]");
    let unclosed = Lexer::new(b"[");
    assert_eq!(
        unopened.check_loops().unwrap_err(),
        LexerError::BracketsInvalidError
    );
    assert_eq!(
        unclosed.check_loops().unwrap_err(),
        LexerError::BracketsInvalidError
    );
}

#[test]
fn test_empty_source_balanced() {
    let lx = Lexer::new(b"");
    assert!(lx.tokens.is_empty());
    assert!(lx.check_loops().is_ok());
}

#[test]
fn test_newlines_and_comments_dropped() {
    let lx = Lexer::new(b"+ a\nb -\n");
    assert_eq!(lx.tokens, vec![Token::PlusToken, Token::MinusToken]);
}

#[test]
fn test_get_tokens_copies() {
    let lx = Lexer::new(b"+>.");
    assert_eq!(lx.get_tokens(), lx.tokens);
}
