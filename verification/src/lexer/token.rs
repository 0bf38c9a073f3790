use vstd::prelude::*;

verus! {

/// The tokens of the language. Keywords are Latin: `echo` prints, `sit`
/// declares a variable, `fvnctio` opens a function, `reddi` returns from it
/// and `voc` evaluates an expression for its effect.
#[derive(Debug, Clone, PartialEq)]
pub enum Token {
    Catena(String),
    Number(u32),
    Echo,
    Sit,
    Functio,
    Reddi,
    Voc,
    True,
    False,
    Plus,
    Minus,
    Star,
    Slash,
    Caret,
    Tile,
    DoubleColumn,
    RightArrow,
    LeftParan,
    RightParan,
    LeftBrace,
    RightBrace,
    Comma,
    Column,
    Identifier(String),
}

/// The mathematical model of a token: its text payloads as `Seq<char>`.
pub enum SpecToken {
    Catena(Seq<char>),
    Number(u32),
    Echo,
    Sit,
    Functio,
    Reddi,
    Voc,
    True,
    False,
    Plus,
    Minus,
    Star,
    Slash,
    Caret,
    Tile,
    DoubleColumn,
    RightArrow,
    LeftParan,
    RightParan,
    LeftBrace,
    RightBrace,
    Comma,
    Column,
    Identifier(Seq<char>),
}

pub open spec fn token_view(t: Token) -> SpecToken {
    match t {
        Token::Catena(s) => SpecToken::Catena(s@),
        Token::Number(n) => SpecToken::Number(n),
        Token::Echo => SpecToken::Echo,
        Token::Sit => SpecToken::Sit,
        Token::Functio => SpecToken::Functio,
        Token::Reddi => SpecToken::Reddi,
        Token::Voc => SpecToken::Voc,
        Token::True => SpecToken::True,
        Token::False => SpecToken::False,
        Token::Plus => SpecToken::Plus,
        Token::Minus => SpecToken::Minus,
        Token::Star => SpecToken::Star,
        Token::Slash => SpecToken::Slash,
        Token::Caret => SpecToken::Caret,
        Token::Tile => SpecToken::Tile,
        Token::DoubleColumn => SpecToken::DoubleColumn,
        Token::RightArrow => SpecToken::RightArrow,
        Token::LeftParan => SpecToken::LeftParan,
        Token::RightParan => SpecToken::RightParan,
        Token::LeftBrace => SpecToken::LeftBrace,
        Token::RightBrace => SpecToken::RightBrace,
        Token::Comma => SpecToken::Comma,
        Token::Column => SpecToken::Column,
        Token::Identifier(s) => SpecToken::Identifier(s@),
    }
}

impl View for Token {
    type V = SpecToken;

    open spec fn view(&self) -> SpecToken {
        token_view(*self)
    }
}

/// The model of a token sequence.
pub open spec fn tokens_view(ts: Seq<Token>) -> Seq<SpecToken> {
    ts.map_values(|t: Token| token_view(t))
}

/// A copy of a token with the same model.
pub fn copy_token(t: &Token) -> (r: Token)
    ensures
        r@ == t@,
{
    match t {
        Token::Catena(s) => Token::Catena(s.clone()),
        Token::Number(n) => Token::Number(*n),
        Token::Echo => Token::Echo,
        Token::Sit => Token::Sit,
        Token::Functio => Token::Functio,
        Token::Reddi => Token::Reddi,
        Token::Voc => Token::Voc,
        Token::True => Token::True,
        Token::False => Token::False,
        Token::Plus => Token::Plus,
        Token::Minus => Token::Minus,
        Token::Star => Token::Star,
        Token::Slash => Token::Slash,
        Token::Caret => Token::Caret,
        Token::Tile => Token::Tile,
        Token::DoubleColumn => Token::DoubleColumn,
        Token::RightArrow => Token::RightArrow,
        Token::LeftParan => Token::LeftParan,
        Token::RightParan => Token::RightParan,
        Token::LeftBrace => Token::LeftBrace,
        Token::RightBrace => Token::RightBrace,
        Token::Comma => Token::Comma,
        Token::Column => Token::Column,
        Token::Identifier(s) => Token::Identifier(s.clone()),
    }
}

} // verus!
