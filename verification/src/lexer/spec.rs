//! What the lexer computes, character by character: whitespace is skipped
//! and at every other position the longest token that starts there is taken
//! (a keyword wins over an identifier of the same length).
use vstd::prelude::*;
use crate::lexer::token::SpecToken;

verus! {

/// The model of a lexing error.
pub enum SpecLexError {
    InvalidToken(char),
    RegexStringError(Seq<char>),
    InvalidNumber(Seq<char>),
    Other,
}

pub open spec fn is_whitespace(c: char) -> bool {
    c == ' ' || c == '\t' || c == '\n' || c == '\r'
}

pub open spec fn is_digit(c: char) -> bool {
    '0' <= c && c <= '9'
}

pub open spec fn is_ident_start(c: char) -> bool {
    ('a' <= c && c <= 'z') || ('A' <= c && c <= 'Z') || c == '_'
}

pub open spec fn is_ident_char(c: char) -> bool {
    is_ident_start(c) || is_digit(c)
}

pub open spec fn is_number_char(c: char) -> bool {
    is_digit(c) || c == '_'
}

/// The end of the run of identifier characters starting at `i`.
pub open spec fn ident_end(s: Seq<char>, i: int) -> int
    decreases s.len() - i,
{
    if 0 <= i < s.len() && is_ident_char(s[i]) {
        ident_end(s, i + 1)
    } else {
        i
    }
}

/// The end of the run of digits and underscores starting at `i`.
pub open spec fn number_end(s: Seq<char>, i: int) -> int
    decreases s.len() - i,
{
    if 0 <= i < s.len() && is_number_char(s[i]) {
        number_end(s, i + 1)
    } else {
        i
    }
}

/// The first position at or after `i` that is not whitespace.
pub open spec fn skip_whitespace(s: Seq<char>, i: int) -> int
    decreases s.len() - i,
{
    if 0 <= i < s.len() && is_whitespace(s[i]) {
        skip_whitespace(s, i + 1)
    } else {
        i
    }
}

/// The first double quote at or after `i`.
pub open spec fn closing_quote(s: Seq<char>, i: int) -> Option<int>
    decreases s.len() - i,
{
    if i < 0 || i >= s.len() {
        None
    } else if s[i] == '"' {
        Some(i)
    } else {
        closing_quote(s, i + 1)
    }
}

pub open spec fn digit_value(c: char) -> nat {
    (c as int - '0' as int) as nat
}

/// The number written by digits and underscores; underscores only separate.
pub open spec fn number_value(w: Seq<char>) -> nat
    decreases w.len(),
{
    if w.len() == 0 {
        0
    } else {
        let last = w[w.len() - 1];
        let front = w.subrange(0, w.len() - 1);
        if last == '_' {
            number_value(front)
        } else {
            number_value(front) * 10 + digit_value(last)
        }
    }
}

pub open spec fn keyword(w: Seq<char>) -> Option<SpecToken> {
    if w == seq!['e', 'c', 'h', 'o'] {
        Some(SpecToken::Echo)
    } else if w == seq!['s', 'i', 't'] {
        Some(SpecToken::Sit)
    } else if w == seq!['f', 'v', 'n', 'c', 't', 'i', 'o'] {
        Some(SpecToken::Functio)
    } else if w == seq!['r', 'e', 'd', 'd', 'i'] {
        Some(SpecToken::Reddi)
    } else if w == seq!['v', 'o', 'c'] {
        Some(SpecToken::Voc)
    } else if w == seq!['v', 'e', 'r', 'v', 'm'] {
        Some(SpecToken::True)
    } else if w == seq!['f', 'a', 'l', 's', 'v', 'm'] {
        Some(SpecToken::False)
    } else {
        None
    }
}

/// Tokens made of one character that starts no longer token.
pub open spec fn single_char_token(c: char) -> Option<SpecToken> {
    if c == '+' {
        Some(SpecToken::Plus)
    } else if c == '-' {
        Some(SpecToken::Minus)
    } else if c == '*' {
        Some(SpecToken::Star)
    } else if c == '/' {
        Some(SpecToken::Slash)
    } else if c == '^' {
        Some(SpecToken::Caret)
    } else if c == '~' {
        Some(SpecToken::Tile)
    } else if c == '(' {
        Some(SpecToken::LeftParan)
    } else if c == ')' {
        Some(SpecToken::RightParan)
    } else if c == '{' {
        Some(SpecToken::LeftBrace)
    } else if c == '}' {
        Some(SpecToken::RightBrace)
    } else if c == ',' {
        Some(SpecToken::Comma)
    } else {
        None
    }
}

/// The longest token starting at `i` (which is not whitespace), with the
/// position just after it, or why there is none.
pub open spec fn scan_token(s: Seq<char>, i: int) -> Result<(SpecToken, int), SpecLexError> {
    let c = s[i];
    if c == '"' {
        match closing_quote(s, i + 1) {
            Some(k) => Ok((SpecToken::Catena(s.subrange(i + 1, k)), k + 1)),
            None => Err(SpecLexError::InvalidToken(c)),
        }
    } else if is_digit(c) {
        let j = number_end(s, i);
        let v = number_value(s.subrange(i, j));
        if v <= u32::MAX {
            Ok((SpecToken::Number(v as u32), j))
        } else {
            Err(SpecLexError::InvalidNumber(s.subrange(i, j)))
        }
    } else if is_ident_start(c) {
        let j = ident_end(s, i);
        let w = s.subrange(i, j);
        match keyword(w) {
            Some(k) => Ok((k, j)),
            None => Ok((SpecToken::Identifier(w), j)),
        }
    } else if c == ':' {
        if i + 1 < s.len() && s[i + 1] == ':' {
            Ok((SpecToken::DoubleColumn, i + 2))
        } else {
            Ok((SpecToken::Column, i + 1))
        }
    } else if c == '=' && i + 1 < s.len() && s[i + 1] == '>' {
        Ok((SpecToken::RightArrow, i + 2))
    } else {
        match single_char_token(c) {
            Some(t) => Ok((t, i + 1)),
            None => Err(SpecLexError::InvalidToken(c)),
        }
    }
}

/// Where lexing resumes after an error at `i`: past the offending number,
/// or past the offending character.
pub open spec fn error_end(s: Seq<char>, i: int) -> int {
    if is_digit(s[i]) {
        number_end(s, i)
    } else {
        i + 1
    }
}

/// The tokens of `s` from position `i` on, or the first error.
pub open spec fn lex_from(s: Seq<char>, i: int) -> Result<Seq<SpecToken>, SpecLexError>
    decreases s.len() - i,
{
    if i < 0 || i >= s.len() {
        Ok(Seq::empty())
    } else if is_whitespace(s[i]) {
        lex_from(s, i + 1)
    } else {
        match scan_token(s, i) {
            Ok((t, j)) => if j <= i || j > s.len() {
                Err(SpecLexError::Other)
            } else {
                match lex_from(s, j) {
                    Ok(rest) => Ok(seq![t] + rest),
                    Err(e) => Err(e),
                }
            },
            Err(e) => Err(e),
        }
    }
}

/// The tokens of a whole source text.
pub open spec fn spec_tokenize(s: Seq<char>) -> Result<Seq<SpecToken>, SpecLexError> {
    lex_from(s, 0)
}

// ---------------------------------------------------------------------------
// Lemmas
// ---------------------------------------------------------------------------

pub proof fn lemma_ident_end(s: Seq<char>, i: int)
    requires
        0 <= i <= s.len(),
    ensures
        i <= ident_end(s, i) <= s.len(),
        forall|k: int| i <= k < ident_end(s, i) ==> is_ident_char(#[trigger] s[k]),
        ident_end(s, i) < s.len() ==> !is_ident_char(s[ident_end(s, i)]),
    decreases s.len() - i,
{
    if i < s.len() && is_ident_char(s[i]) {
        lemma_ident_end(s, i + 1);
    }
}

pub proof fn lemma_number_end(s: Seq<char>, i: int)
    requires
        0 <= i <= s.len(),
    ensures
        i <= number_end(s, i) <= s.len(),
        forall|k: int| i <= k < number_end(s, i) ==> is_number_char(#[trigger] s[k]),
        number_end(s, i) < s.len() ==> !is_number_char(s[number_end(s, i)]),
    decreases s.len() - i,
{
    if i < s.len() && is_number_char(s[i]) {
        lemma_number_end(s, i + 1);
    }
}

pub proof fn lemma_skip_whitespace(s: Seq<char>, i: int)
    requires
        0 <= i <= s.len(),
    ensures
        i <= skip_whitespace(s, i) <= s.len(),
        lex_from(s, i) == lex_from(s, skip_whitespace(s, i)),
        skip_whitespace(s, i) < s.len() ==> !is_whitespace(s[skip_whitespace(s, i)]),
    decreases s.len() - i,
{
    if i < s.len() && is_whitespace(s[i]) {
        lemma_skip_whitespace(s, i + 1);
    }
}

pub proof fn lemma_closing_quote(s: Seq<char>, i: int)
    requires
        0 <= i <= s.len(),
    ensures
        closing_quote(s, i) matches Some(k) ==> i <= k < s.len() && s[k] == '"',
    decreases s.len() - i,
{
    if i < s.len() && s[i] != '"' {
        lemma_closing_quote(s, i + 1);
    }
}

/// A token takes at least one character.
pub proof fn lemma_scan_progress(s: Seq<char>, i: int)
    requires
        0 <= i < s.len(),
    ensures
        scan_token(s, i) matches Ok((_, j)) ==> i < j <= s.len(),
{
    lemma_ident_end(s, i);
    lemma_number_end(s, i);
    lemma_closing_quote(s, i + 1);
}

/// Appending a character never lowers the value of a digit string.
pub proof fn lemma_number_value_grows(w: Seq<char>, c: char)
    requires
        is_number_char(c),
    ensures
        number_value(w.push(c)) >= number_value(w),
{
    assert(w.push(c).subrange(0, w.len() as int) =~= w);
}

proof fn lemma_ident_end_at(s: Seq<char>, i: int, j: int)
    requires
        0 <= i <= j <= s.len(),
        forall|k: int| i <= k < j ==> is_ident_char(#[trigger] s[k]),
        j == s.len() || !is_ident_char(s[j]),
    ensures
        ident_end(s, i) == j,
    decreases j - i,
{
    if i < j {
        lemma_ident_end_at(s, i + 1, j);
    }
}

/// A word is lexed as one identifier: where a letter (`a`-`z`, `A`-`Z`) or
/// an underscore starts a longest run of letters, digits and underscores
/// that is not a keyword, the lexer gives one `Identifier` token holding
/// the whole run and goes on just after it.
pub proof fn lemma_identifier_token(s: Seq<char>, i: int, j: int)
    requires
        0 <= i < j <= s.len(),
        ('a' <= s[i] <= 'z') || ('A' <= s[i] <= 'Z') || s[i] == '_',
        forall|k: int|
            i < k < j ==> ('a' <= #[trigger] s[k] <= 'z') || ('A' <= s[k] <= 'Z') || ('0' <= s[k] <= '9') || s[k]
                == '_',
        j == s.len() || !(('a' <= s[j] <= 'z') || ('A' <= s[j] <= 'Z') || ('0' <= s[j] <= '9') || s[j] == '_'),
        s.subrange(i, j) != seq!['e', 'c', 'h', 'o'],
        s.subrange(i, j) != seq!['s', 'i', 't'],
        s.subrange(i, j) != seq!['f', 'v', 'n', 'c', 't', 'i', 'o'],
        s.subrange(i, j) != seq!['r', 'e', 'd', 'd', 'i'],
        s.subrange(i, j) != seq!['v', 'o', 'c'],
        s.subrange(i, j) != seq!['v', 'e', 'r', 'v', 'm'],
        s.subrange(i, j) != seq!['f', 'a', 'l', 's', 'v', 'm'],
    ensures
        lex_from(s, i) == match lex_from(s, j) {
            Ok(rest) => Ok(seq![SpecToken::Identifier(s.subrange(i, j))] + rest),
            Err(e) => Err(e),
        },
{
    assert forall|k: int| i <= k < j implies is_ident_char(#[trigger] s[k]) by {
        if k > i {
            assert(('a' <= s[k] <= 'z') || ('A' <= s[k] <= 'Z') || ('0' <= s[k] <= '9') || s[k] == '_');
        }
    }
    lemma_ident_end_at(s, i, j);
    assert(!is_whitespace(s[i]));
    assert(s[i] != '"' && !is_digit(s[i]));
}

proof fn lemma_closing_quote_at(s: Seq<char>, i: int, k: int)
    requires
        0 <= i <= k < s.len(),
        s[k] == '"',
        forall|m: int| i <= m < k ==> #[trigger] s[m] != '"',
    ensures
        closing_quote(s, i) == Some(k),
    decreases k - i,
{
    if i < k {
        lemma_closing_quote_at(s, i + 1, k);
    }
}

/// A string literal is lexed as its text: from a double quote to the next
/// one, the lexer gives one `Catena` token holding exactly the characters
/// between them and goes on after the closing quote; a double quote with no
/// closing one is refused.
pub proof fn lemma_string_token(s: Seq<char>, i: int, k: int)
    requires
        0 <= i < k < s.len(),
        s[i] == '"',
        s[k] == '"',
        forall|m: int| i < m < k ==> #[trigger] s[m] != '"',
    ensures
        lex_from(s, i) == match lex_from(s, k + 1) {
            Ok(rest) => Ok(seq![SpecToken::Catena(s.subrange(i + 1, k))] + rest),
            Err(e) => Err(e),
        },
{
    lemma_closing_quote_at(s, i + 1, k);
}

/// An unclosed string literal is an error at its quote.
pub proof fn lemma_unclosed_string(s: Seq<char>, i: int)
    requires
        0 <= i < s.len(),
        s[i] == '"',
        forall|m: int| i < m < s.len() ==> #[trigger] s[m] != '"',
    ensures
        lex_from(s, i) == Err::<Seq<SpecToken>, SpecLexError>(SpecLexError::InvalidToken('"')),
{
    assert(closing_quote(s, i + 1) is None) by {
        lemma_closing_quote(s, i + 1);
    }
}

/// The keywords are lexed as their tokens where they stand as whole words:
/// `echo`, `sit`, `fvnctio`, `reddi`, `voc`, `vervm` and `falsvm`.
pub proof fn lemma_keyword_tokens(s: Seq<char>, i: int, j: int)
    requires
        0 <= i < j <= s.len(),
        forall|k: int| i <= k < j ==> ('a' <= #[trigger] s[k] <= 'z'),
        j == s.len() || !(('a' <= s[j] <= 'z') || ('A' <= s[j] <= 'Z') || ('0' <= s[j] <= '9') || s[j] == '_'),
    ensures
        ({
            let w = s.subrange(i, j);
            let t = if w == seq!['e', 'c', 'h', 'o'] {
                Some(SpecToken::Echo)
            } else if w == seq!['s', 'i', 't'] {
                Some(SpecToken::Sit)
            } else if w == seq!['f', 'v', 'n', 'c', 't', 'i', 'o'] {
                Some(SpecToken::Functio)
            } else if w == seq!['r', 'e', 'd', 'd', 'i'] {
                Some(SpecToken::Reddi)
            } else if w == seq!['v', 'o', 'c'] {
                Some(SpecToken::Voc)
            } else if w == seq!['v', 'e', 'r', 'v', 'm'] {
                Some(SpecToken::True)
            } else if w == seq!['f', 'a', 'l', 's', 'v', 'm'] {
                Some(SpecToken::False)
            } else {
                None
            };
            t matches Some(tok) ==> lex_from(s, i) == match lex_from(s, j) {
                Ok(rest) => Ok(seq![tok] + rest),
                Err(e) => Err(e),
            }
        }),
{
    assert forall|k: int| i <= k < j implies is_ident_char(#[trigger] s[k]) by {}
    lemma_ident_end_at(s, i, j);
}

} // verus!
