use tiro::lexer::error::LexingError;
use tiro::lexer::token::Token;
use tiro::lexer::{tokenize, Lexer};

fn ident(s: &str) -> Token {
    Token::Identifier(s.to_string())
}

#[test]
fn echo() {
    assert_eq!(tokenize("echo"), Ok(vec![Token::Echo]));
}

#[test]
fn catena() {
    assert_eq!(tokenize("\"a string\""), Ok(vec![Token::Catena("a string".to_string())]));
}

#[test]
fn ignore() {
    assert_eq!(tokenize(" \t\n"), Ok(vec![]));
}

#[test]
fn sit() {
    assert_eq!(tokenize("sit"), Ok(vec![Token::Sit]));
}

#[test]
fn column() {
    assert_eq!(tokenize(":"), Ok(vec![Token::Column]));
}

#[test]
fn identifier() {
    assert_eq!(tokenize("_abc12"), Ok(vec![ident("_abc12")]));
}

#[test]
fn functio() {
    assert_eq!(tokenize("fvnctio"), Ok(vec![Token::Functio]));
}

#[test]
fn right_arrow() {
    assert_eq!(tokenize("=>"), Ok(vec![Token::RightArrow]));
}

#[test]
fn paran() {
    assert_eq!(tokenize("()"), Ok(vec![Token::LeftParan, Token::RightParan]));
}

#[test]
fn brace() {
    assert_eq!(tokenize("{}"), Ok(vec![Token::LeftBrace, Token::RightBrace]));
}

#[test]
fn comma() {
    assert_eq!(tokenize(","), Ok(vec![Token::Comma]));
}

#[test]
fn voc() {
    assert_eq!(tokenize("voc"), Ok(vec![Token::Voc]));
}

#[test]
fn number() {
    assert_eq!(tokenize("12_000_004"), Ok(vec![Token::Number(12000004)]));
}

#[test]
fn operations() {
    assert_eq!(
        tokenize("+-*/^~"),
        Ok(vec![Token::Plus, Token::Minus, Token::Star, Token::Slash, Token::Caret, Token::Tile])
    );
}

#[test]
fn hello_world() {
    assert_eq!(
        tokenize("echo \"Hello,\"\necho \"world!\""),
        Ok(vec![
            Token::Echo,
            Token::Catena("Hello,".to_string()),
            Token::Echo,
            Token::Catena("world!".to_string())
        ])
    );
}

#[test]
fn variable_declaration() {
    assert_eq!(
        tokenize("sit _a1:cat \"a\""),
        Ok(vec![Token::Sit, ident("_a1"), Token::Column, ident("cat"), Token::Catena("a".to_string())])
    );
}

#[test]
fn function_declaration() {
    assert_eq!(
        tokenize("fvnctio greet()=>nil echo \"Hello\" reddi"),
        Ok(vec![
            Token::Functio,
            ident("greet"),
            Token::LeftParan,
            Token::RightParan,
            Token::RightArrow,
            ident("nil"),
            Token::Echo,
            Token::Catena("Hello".to_string()),
            Token::Reddi
        ])
    );
}

#[test]
fn function_call() {
    assert_eq!(
        tokenize("voc greet()"),
        Ok(vec![Token::Voc, ident("greet"), Token::LeftParan, Token::RightParan])
    );
}

#[test]
fn invalid_token() {
    assert_eq!(tokenize("§"), Err(LexingError::InvalidToken('§')));
}

#[test]
fn keywords_win_over_identifiers_of_the_same_length() {
    assert_eq!(tokenize("vervm falsvm"), Ok(vec![Token::True, Token::False]));
    assert_eq!(tokenize("echoes"), Ok(vec![ident("echoes")]));
}

#[test]
fn double_column_is_one_token() {
    assert_eq!(tokenize("a :: num"), Ok(vec![ident("a"), Token::DoubleColumn, ident("num")]));
}

#[test]
fn number_too_large() {
    assert!(matches!(tokenize("4294967296"), Err(LexingError::InvalidNumber(_))));
    assert_eq!(tokenize("4294967295"), Ok(vec![Token::Number(4294967295)]));
}

#[test]
fn unterminated_string() {
    assert_eq!(tokenize("\"abc"), Err(LexingError::InvalidToken('"')));
}

#[test]
fn lexer_gives_spans() {
    let mut lexer = Lexer::new("  sit x");
    assert_eq!(lexer.next_token(), Some(Ok((2, Token::Sit, 5))));
    assert_eq!(lexer.next_token(), Some(Ok((6, ident("x"), 7))));
    assert_eq!(lexer.next_token(), None);
}

#[test]
fn spans_count_bytes() {
    // "é" takes two bytes, "€" three.
    let mut lexer = Lexer::new("\"é\" \"€\" sit");
    assert_eq!(lexer.next_token(), Some(Ok((0, Token::Catena("é".to_string()), 4))));
    assert_eq!(lexer.next_token(), Some(Ok((5, Token::Catena("€".to_string()), 10))));
    assert_eq!(lexer.next_token(), Some(Ok((11, Token::Sit, 14))));
    assert_eq!(lexer.next_token(), None);
}
