//! Turns source text into tokens, following `spec::lex_from`.
pub mod error;
pub mod spec;
pub mod token;

use vstd::prelude::*;
use self::error::LexingError;
use self::spec::{
    SpecLexError, closing_quote, digit_value, error_end, ident_end, is_digit, is_ident_char,
    is_ident_start, is_number_char, is_whitespace, keyword, lemma_closing_quote, lemma_ident_end,
    lemma_number_end, lemma_number_value_grows, lemma_scan_progress, lemma_skip_whitespace, lex_from,
    number_end, number_value, scan_token, single_char_token, skip_whitespace, spec_tokenize,
};
use self::token::{SpecToken, Token, tokens_view};
use vstd::utf8::{encode_scalar, encode_utf8};

verus! {

pub open spec fn lex_error_view(e: LexingError) -> SpecLexError {
    match e {
        LexingError::InvalidToken(c) => SpecLexError::InvalidToken(c),
        LexingError::RegexStringError(s) => SpecLexError::RegexStringError(s@),
        LexingError::InvalidNumber(s) => SpecLexError::InvalidNumber(s@),
        LexingError::Other => SpecLexError::Other,
    }
}

impl View for LexingError {
    type V = SpecLexError;

    open spec fn view(&self) -> SpecLexError {
        lex_error_view(*self)
    }
}

pub open spec fn scan_view(r: Result<(Token, usize), LexingError>) -> Result<(SpecToken, int), SpecLexError> {
    match r {
        Ok((t, j)) => Ok((t@, j as int)),
        Err(e) => Err(e@),
    }
}

pub open spec fn tokens_result_view(r: Result<Vec<Token>, LexingError>) -> Result<Seq<SpecToken>, SpecLexError> {
    match r {
        Ok(v) => Ok(tokens_view(v@)),
        Err(e) => Err(e@),
    }
}

/// Appends a character to a string.
#[verifier::external_body]
pub(crate) fn push_char(s: &mut String, c: char)
    ensures
        final(s)@ == old(s)@.push(c),
{
    s.push(c);
}

/// The characters of a string.
pub fn chars_of(code: &str) -> (v: Vec<char>)
    ensures
        v@ == code@,
{
    broadcast use vstd::string::group_string_axioms;

    let mut v: Vec<char> = Vec::new();
    for c in it: code.chars()
        invariant
            it.seq() == code@,
            v@ == code@.take(it.index() as int),
    {
        v.push(c);
    }
    v
}

/// The string made of `chars[i..j]`.
fn string_of(chars: &Vec<char>, i: usize, j: usize) -> (s: String)
    requires
        i <= j <= chars.len(),
    ensures
        s@ == chars@.subrange(i as int, j as int),
{
    let mut s = String::new();
    let mut k = i;
    while k < j
        invariant
            i <= k <= j <= chars.len(),
            s@ == chars@.subrange(i as int, k as int),
        decreases j - k,
    {
        push_char(&mut s, chars[k]);
        k = k + 1;
        proof {
            assert(s@ =~= chars@.subrange(i as int, k as int));
        }
    }
    s
}

fn whitespace(c: char) -> (b: bool)
    ensures
        b == is_whitespace(c),
{
    c == ' ' || c == '\t' || c == '\n' || c == '\r'
}

fn digit(c: char) -> (b: bool)
    ensures
        b == is_digit(c),
{
    '0' <= c && c <= '9'
}

fn ident_start(c: char) -> (b: bool)
    ensures
        b == is_ident_start(c),
{
    ('a' <= c && c <= 'z') || ('A' <= c && c <= 'Z') || c == '_'
}

fn ident_char(c: char) -> (b: bool)
    ensures
        b == is_ident_char(c),
{
    ident_start(c) || digit(c)
}

fn number_char(c: char) -> (b: bool)
    ensures
        b == is_number_char(c),
{
    digit(c) || c == '_'
}

fn find_ident_end(chars: &Vec<char>, i: usize) -> (j: usize)
    requires
        i <= chars.len(),
    ensures
        j == ident_end(chars@, i as int),
{
    let mut j = i;
    while j < chars.len() && ident_char(chars[j])
        invariant
            i <= j <= chars.len(),
            ident_end(chars@, j as int) == ident_end(chars@, i as int),
        decreases chars.len() - j,
    {
        j = j + 1;
    }
    j
}

fn find_number_end(chars: &Vec<char>, i: usize) -> (j: usize)
    requires
        i <= chars.len(),
    ensures
        j == number_end(chars@, i as int),
{
    let mut j = i;
    while j < chars.len() && number_char(chars[j])
        invariant
            i <= j <= chars.len(),
            number_end(chars@, j as int) == number_end(chars@, i as int),
        decreases chars.len() - j,
    {
        j = j + 1;
    }
    j
}

fn find_nonblank(chars: &Vec<char>, i: usize) -> (j: usize)
    requires
        i <= chars.len(),
    ensures
        j == skip_whitespace(chars@, i as int),
{
    let mut j = i;
    while j < chars.len() && whitespace(chars[j])
        invariant
            i <= j <= chars.len(),
            skip_whitespace(chars@, j as int) == skip_whitespace(chars@, i as int),
        decreases chars.len() - j,
    {
        j = j + 1;
    }
    j
}

fn find_quote(chars: &Vec<char>, i: usize) -> (r: Option<usize>)
    requires
        i <= chars.len(),
    ensures
        r matches Some(k) ==> closing_quote(chars@, i as int) == Some(k as int),
        r is None ==> closing_quote(chars@, i as int) is None,
{
    let mut j = i;
    while j < chars.len()
        invariant
            i <= j <= chars.len(),
            closing_quote(chars@, j as int) == closing_quote(chars@, i as int),
        decreases chars.len() - j,
    {
        if chars[j] == '"' {
            return Some(j);
        }
        j = j + 1;
    }
    None
}

/// The value of the digit string `chars[i..j]`, if it fits in a `u32`.
fn read_number(chars: &Vec<char>, i: usize, j: usize) -> (r: Option<u32>)
    requires
        i <= j <= chars.len(),
        forall|k: int| i <= k < j ==> is_number_char(#[trigger] chars@[k]),
    ensures
        r matches Some(v) ==> v == number_value(chars@.subrange(i as int, j as int)),
        r is None ==> number_value(chars@.subrange(i as int, j as int)) > u32::MAX,
{
    let mut acc: u32 = 0;
    let mut k = i;
    while k < j
        invariant
            i <= k <= j <= chars.len(),
            forall|m: int| i <= m < j ==> is_number_char(#[trigger] chars@[m]),
            acc == number_value(chars@.subrange(i as int, k as int)),
        decreases j - k,
    {
        let c = chars[k];
        let ghost before = chars@.subrange(i as int, k as int);
        proof {
            assert(chars@.subrange(i as int, k + 1) =~= before.push(c));
            assert(before.push(c).subrange(0, before.len() as int) =~= before);
        }
        if c != '_' {
            let d: u32 = c as u32 - '0' as u32;
            proof {
                assert(d == digit_value(c));
            }
            if acc > 429496729 || (acc == 429496729 && d > 5) {
                proof {
                    // The value only grows as the rest of the digits are read.
                    assert forall|q: int| k + 1 <= q <= j implies number_value(#[trigger] chars@.subrange(i as int, q)) > u32::MAX by {
                        lemma_value_from(chars@, i as int, k + 1, q);
                    }
                }
                return None;
            }
            acc = acc * 10 + d;
        }
        k = k + 1;
    }
    Some(acc)
}

pub(crate) proof fn lemma_value_from(s: Seq<char>, i: int, k: int, q: int)
    requires
        0 <= i <= k <= q <= s.len(),
        forall|m: int| i <= m < q ==> is_number_char(#[trigger] s[m]),
    ensures
        number_value(s.subrange(i, q)) >= number_value(s.subrange(i, k)),
    decreases q - k,
{
    if q > k {
        lemma_value_from(s, i, k, q - 1);
        assert(s.subrange(i, q) =~= s.subrange(i, q - 1).push(s[q - 1]));
        lemma_number_value_grows(s.subrange(i, q - 1), s[q - 1]);
    }
}

/// The keyword spelled by `chars[i..j]`, if any.
fn find_keyword(chars: &Vec<char>, i: usize, j: usize) -> (r: Option<Token>)
    requires
        i <= j <= chars.len(),
    ensures
        r matches Some(t) ==> keyword(chars@.subrange(i as int, j as int)) == Some(t@),
        r is None ==> keyword(chars@.subrange(i as int, j as int)) is None,
{
    let ghost w = chars@.subrange(i as int, j as int);
    let n = j - i;
    if n == 4 && chars[i] == 'e' && chars[i + 1] == 'c' && chars[i + 2] == 'h' && chars[i + 3] == 'o' {
        proof {
            assert(w =~= seq!['e', 'c', 'h', 'o']);
        }
        return Some(Token::Echo);
    }
    if n == 3 && chars[i] == 's' && chars[i + 1] == 'i' && chars[i + 2] == 't' {
        proof {
            assert(w =~= seq!['s', 'i', 't']);
        }
        return Some(Token::Sit);
    }
    if n == 7 && chars[i] == 'f' && chars[i + 1] == 'v' && chars[i + 2] == 'n' && chars[i + 3] == 'c'
        && chars[i + 4] == 't' && chars[i + 5] == 'i' && chars[i + 6] == 'o' {
        proof {
            assert(w =~= seq!['f', 'v', 'n', 'c', 't', 'i', 'o']);
        }
        return Some(Token::Functio);
    }
    if n == 5 && chars[i] == 'r' && chars[i + 1] == 'e' && chars[i + 2] == 'd' && chars[i + 3] == 'd'
        && chars[i + 4] == 'i' {
        proof {
            assert(w =~= seq!['r', 'e', 'd', 'd', 'i']);
        }
        return Some(Token::Reddi);
    }
    if n == 3 && chars[i] == 'v' && chars[i + 1] == 'o' && chars[i + 2] == 'c' {
        proof {
            assert(w =~= seq!['v', 'o', 'c']);
        }
        return Some(Token::Voc);
    }
    if n == 5 && chars[i] == 'v' && chars[i + 1] == 'e' && chars[i + 2] == 'r' && chars[i + 3] == 'v'
        && chars[i + 4] == 'm' {
        proof {
            assert(w =~= seq!['v', 'e', 'r', 'v', 'm']);
        }
        return Some(Token::True);
    }
    if n == 6 && chars[i] == 'f' && chars[i + 1] == 'a' && chars[i + 2] == 'l' && chars[i + 3] == 's'
        && chars[i + 4] == 'v' && chars[i + 5] == 'm' {
        proof {
            assert(w =~= seq!['f', 'a', 'l', 's', 'v', 'm']);
        }
        return Some(Token::False);
    }
    proof {
        assert(w.len() == n);
        assert forall|k: int| 0 <= k < n implies w[k] == chars@[i + k] by {}
        assert(w != seq!['e', 'c', 'h', 'o']);
        assert(w != seq!['s', 'i', 't']);
        assert(w != seq!['f', 'v', 'n', 'c', 't', 'i', 'o']);
        assert(w != seq!['r', 'e', 'd', 'd', 'i']);
        assert(w != seq!['v', 'o', 'c']);
        assert(w != seq!['v', 'e', 'r', 'v', 'm']);
        assert(w != seq!['f', 'a', 'l', 's', 'v', 'm']);
    }
    None
}

fn single_char(c: char) -> (r: Option<Token>)
    ensures
        r matches Some(t) ==> single_char_token(c) == Some(t@),
        r is None ==> single_char_token(c) is None,
{
    if c == '+' {
        Some(Token::Plus)
    } else if c == '-' {
        Some(Token::Minus)
    } else if c == '*' {
        Some(Token::Star)
    } else if c == '/' {
        Some(Token::Slash)
    } else if c == '^' {
        Some(Token::Caret)
    } else if c == '~' {
        Some(Token::Tile)
    } else if c == '(' {
        Some(Token::LeftParan)
    } else if c == ')' {
        Some(Token::RightParan)
    } else if c == '{' {
        Some(Token::LeftBrace)
    } else if c == '}' {
        Some(Token::RightBrace)
    } else if c == ',' {
        Some(Token::Comma)
    } else {
        None
    }
}

/// Reads the token that starts at `i`.
fn read_token(chars: &Vec<char>, i: usize) -> (r: Result<(Token, usize), LexingError>)
    requires
        i < chars.len(),
    ensures
        scan_view(r) == scan_token(chars@, i as int),
{
    let c = chars[i];
    if c == '"' {
        match find_quote(chars, i + 1) {
            Some(k) => {
                proof {
                    lemma_closing_quote(chars@, i + 1);
                }
                let text = string_of(chars, i + 1, k);
                Ok((Token::Catena(text), k + 1))
            },
            None => Err(LexingError::InvalidToken(c)),
        }
    } else if digit(c) {
        let j = find_number_end(chars, i);
        proof {
            lemma_number_end(chars@, i as int);
        }
        match read_number(chars, i, j) {
            Some(v) => Ok((Token::Number(v), j)),
            None => Err(LexingError::InvalidNumber(string_of(chars, i, j))),
        }
    } else if ident_start(c) {
        let j = find_ident_end(chars, i);
        proof {
            lemma_ident_end(chars@, i as int);
        }
        match find_keyword(chars, i, j) {
            Some(k) => Ok((k, j)),
            None => Ok((Token::Identifier(string_of(chars, i, j)), j)),
        }
    } else if c == ':' {
        if i + 1 < chars.len() && chars[i + 1] == ':' {
            Ok((Token::DoubleColumn, i + 2))
        } else {
            Ok((Token::Column, i + 1))
        }
    } else if c == '=' && i + 1 < chars.len() && chars[i + 1] == '>' {
        Ok((Token::RightArrow, i + 2))
    } else {
        match single_char(c) {
            Some(t) => Ok((t, i + 1)),
            None => Err(LexingError::InvalidToken(c)),
        }
    }
}

fn resume_after_error(chars: &Vec<char>, i: usize) -> (j: usize)
    requires
        i < chars.len(),
    ensures
        j == error_end(chars@, i as int),
        i < j <= chars.len(),
{
    if digit(chars[i]) {
        proof {
            lemma_number_end(chars@, i as int);
        }
        find_number_end(chars, i)
    } else {
        i + 1
    }
}

/// The number of bytes that the first `i` characters of `s` take in UTF-8.
pub open spec fn byte_offset(s: Seq<char>, i: int) -> nat {
    encode_utf8(s.subrange(0, i)).len()
}

proof fn lemma_encode_concat(a: Seq<char>, b: Seq<char>)
    ensures
        encode_utf8(a + b) == encode_utf8(a) + encode_utf8(b),
    decreases a.len(),
{
    if a.len() == 0 {
        assert(a + b =~= b);
        assert(encode_utf8(a) + encode_utf8(b) =~= encode_utf8(b));
    } else {
        assert((a + b).drop_first() =~= a.drop_first() + b);
        assert((a + b)[0] == a[0]);
        lemma_encode_concat(a.drop_first(), b);
        assert(encode_utf8(a + b) =~= encode_scalar(a[0] as u32) + (encode_utf8(a.drop_first()) + encode_utf8(b)));
    }
}

/// Each character adds the length of its encoding, so offsets grow with
/// the position.
proof fn lemma_byte_offset_step(s: Seq<char>, k: int, n: int)
    requires
        0 <= k < n <= s.len(),
    ensures
        byte_offset(s, k + 1) == byte_offset(s, k) + encode_scalar(s[k] as u32).len(),
        byte_offset(s, k + 1) <= byte_offset(s, n),
{
    assert(s.subrange(0, k + 1) =~= s.subrange(0, k) + seq![s[k]]);
    lemma_encode_concat(s.subrange(0, k), seq![s[k]]);
    assert(seq![s[k]].drop_first() =~= Seq::<char>::empty());
    assert(encode_utf8(seq![s[k]]) =~= encode_scalar(s[k] as u32) + encode_utf8(Seq::<char>::empty()));
    assert(s.subrange(0, n) =~= s.subrange(0, k + 1) + s.subrange(k + 1, n));
    lemma_encode_concat(s.subrange(0, k + 1), s.subrange(k + 1, n));
}

/// The number of bytes of a character in UTF-8.
fn char_width(c: char) -> (w: usize)
    ensures
        w == encode_scalar(c as u32).len(),
{
    proof {
        vstd::utf8::char_is_scalar(c);
    }
    let u = c as u32;
    if u <= 0x7F {
        1
    } else if u <= 0x7FF {
        2
    } else if u <= 0xFFFF {
        3
    } else {
        4
    }
}

/// The byte offset of character position `to`, from that of `from`.
fn advance_bytes(chars: &Vec<char>, from: usize, to: usize, bytes: usize) -> (r: usize)
    requires
        from <= to <= chars.len(),
        bytes == byte_offset(chars@, from as int),
        byte_offset(chars@, chars.len() as int) <= usize::MAX,
    ensures
        r == byte_offset(chars@, to as int),
{
    let mut k = from;
    let mut b = bytes;
    while k < to
        invariant
            from <= k <= to <= chars.len(),
            b == byte_offset(chars@, k as int),
            byte_offset(chars@, chars.len() as int) <= usize::MAX,
        decreases to - k,
    {
        proof {
            lemma_byte_offset_step(chars@, k as int, chars.len() as int);
        }
        b = b + char_width(chars[k]);
        k = k + 1;
    }
    b
}

/// A stream of tokens over a source text, each with its start and end
/// offsets in the text's UTF-8 bytes.
pub struct Lexer {
    chars: Vec<char>,
    /// Where the next token is looked for: in characters, and in bytes.
    at: (usize, usize),
}

impl Lexer {
    /// The source text.
    pub closed spec fn text(&self) -> Seq<char> {
        self.chars@
    }

    /// Where the next token is looked for, counted in characters.
    pub closed spec fn position(&self) -> int {
        self.at.0 as int
    }

    #[verifier::type_invariant]
    closed spec fn inv(&self) -> bool {
        &&& self.at.0 <= self.chars.len()
        &&& self.at.1 == byte_offset(self.chars@, self.at.0 as int)
        &&& byte_offset(self.chars@, self.chars.len() as int) <= usize::MAX
    }

    /// A lexer at the start of a text (whose UTF-8 bytes, as those of any
    /// string in memory, can be counted in a `usize`).
    pub fn new(input: &str) -> (l: Self)
        requires
            encode_utf8(input@).len() <= usize::MAX,
        ensures
            l.text() == input@,
            l.position() == 0,
    {
        let chars = chars_of(input);
        proof {
            assert(chars@.subrange(0, chars@.len() as int) =~= input@);
            assert(chars@.subrange(0, 0) =~= Seq::<char>::empty());
        }
        Lexer { chars, at: (0, 0) }
    }

    /// The next token with its span in bytes, the error that stops it, or
    /// `None` at the end of the text. After an error the stream goes on past
    /// the offending character (or number).
    pub fn next_token(&mut self) -> (r: Option<Result<(usize, Token, usize), LexingError>>)
        ensures
            final(self).text() == old(self).text(),
            0 <= old(self).position() <= old(self).text().len(),
            ({
                let s = old(self).text();
                let i = skip_whitespace(s, old(self).position());
                if i >= s.len() {
                    r is None && final(self).position() == s.len()
                } else {
                    match scan_token(s, i) {
                        Ok((t, j)) => r matches Some(Ok((a, t2, b))) && a == byte_offset(s, i) && t2@ == t
                            && b == byte_offset(s, j) && final(self).position() == j,
                        Err(e) => r matches Some(Err(e2)) && e2@ == e && final(self).position()
                            == error_end(s, i),
                    }
                }
            }),
    {
        proof {
            use_type_invariant(&*self);
        }
        let (pos, byte_pos) = self.at;
        let i = find_nonblank(&self.chars, pos);
        proof {
            lemma_skip_whitespace(self.chars@, pos as int);
        }
        if i >= self.chars.len() {
            let end = self.chars.len();
            self.at = (end, advance_bytes(&self.chars, pos, end, byte_pos));
            return None;
        }
        let start = advance_bytes(&self.chars, pos, i, byte_pos);
        proof {
            lemma_scan_progress(self.chars@, i as int);
        }
        match read_token(&self.chars, i) {
            Ok((t, j)) => {
                let end = advance_bytes(&self.chars, i, j, start);
                self.at = (j, end);
                Some(Ok((start, t, end)))
            },
            Err(e) => {
                let j = resume_after_error(&self.chars, i);
                self.at = (j, advance_bytes(&self.chars, i, j, start));
                Some(Err(e))
            },
        }
    }
}

/// All the tokens of the text from the lexer's position on, or the first
/// lexing error.
pub fn collect_tokens(lexer: &mut Lexer) -> (r: Result<Vec<Token>, LexingError>)
    ensures
        0 <= old(lexer).position() <= old(lexer).text().len(),
        tokens_result_view(r) == lex_from(old(lexer).text(), old(lexer).position()),
{
    let ghost s = lexer.text();
    let ghost start = lexer.position();
    let mut acc: Vec<Token> = Vec::new();
    proof {
        use_type_invariant(&*lexer);
        assert(tokens_view(acc@) =~= Seq::<SpecToken>::empty());
        assert(Seq::<SpecToken>::empty() + Seq::<SpecToken>::empty() =~= Seq::<SpecToken>::empty());
    }
    loop
        invariant
            lexer.text() == s,
            s == old(lexer).text(),
            start == old(lexer).position(),
            0 <= start <= s.len(),
            0 <= lexer.position() <= s.len(),
            lex_from(s, start) == match lex_from(s, lexer.position()) {
                Ok(rest) => Ok(tokens_view(acc@) + rest),
                Err(e) => Err(e),
            },
        decreases s.len() - lexer.position(),
    {
        let ghost at = lexer.position();
        proof {
            lemma_skip_whitespace(s, at);
        }
        match lexer.next_token() {
            None => {
                proof {
                    assert(tokens_view(acc@) + Seq::<SpecToken>::empty() =~= tokens_view(acc@));
                }
                return Ok(acc);
            },
            Some(Err(e)) => {
                return Err(e);
            },
            Some(Ok((_, t, _))) => {
                proof {
                    let i = skip_whitespace(s, at);
                    lemma_scan_progress(s, i);
                    assert(tokens_view(acc@.push(t)) =~= tokens_view(acc@).push(t@));
                    match lex_from(s, lexer.position()) {
                        Ok(rest) => {
                            assert(tokens_view(acc@) + (seq![t@] + rest) =~= tokens_view(acc@).push(t@) + rest);
                        },
                        Err(_) => {},
                    }
                }
                acc.push(t);
            },
        }
    }
}

/// The tokens of a source text, or the first lexing error.
pub fn tokenize(code: &str) -> (r: Result<Vec<Token>, LexingError>)
    requires
        encode_utf8(code@).len() <= usize::MAX,
    ensures
        tokens_result_view(r) == spec_tokenize(code@),
{
    let mut lexer = Lexer::new(code);
    collect_tokens(&mut lexer)
}

} // verus!
