//! The XPath tokenizer: reads an expression one token at a time.

use vstd::prelude::*;
use crate::error::XmlError;
use crate::io::char_utils::{char_is_alphabetic, char_is_alphanumeric, unicode_alphabetic, unicode_alphanumeric};
use crate::seqs::find_from;
use crate::text::{push_char, push_str, str_chars, string_from_chars};

verus! {

/// A token of an XPath expression. A number keeps the text of its numeral.
#[derive(Debug, Clone, PartialEq, Eq)]
pub enum Token {
    Slash,
    DoubleSlash,
    At,
    Dot,
    DoubleDot,
    Star,
    ColonColon,
    LeftParen,
    RightParen,
    LeftBracket,
    RightBracket,
    Comma,
    Pipe,
    Plus,
    Minus,
    Eq,
    NotEq,
    Lt,
    LtEq,
    Gt,
    GtEq,
    /// A name or keyword.
    Name(String),
    /// The text between the quotes of a string literal.
    LiteralString(String),
    /// The numeral of a number literal: digits with at most one `.`.
    LiteralNumber(String),
    /// The end of the expression.
    Eof,
}

/// The abstract content of a token.
pub enum TokV {
    Slash,
    DoubleSlash,
    At,
    Dot,
    DoubleDot,
    Star,
    ColonColon,
    LeftParen,
    RightParen,
    LeftBracket,
    RightBracket,
    Comma,
    Pipe,
    Plus,
    Minus,
    Eq,
    NotEq,
    Lt,
    LtEq,
    Gt,
    GtEq,
    Name(Seq<char>),
    LiteralString(Seq<char>),
    LiteralNumber(Seq<char>),
    Eof,
}

impl View for Token {
    type V = TokV;

    open spec fn view(&self) -> TokV {
        match self {
            Token::Slash => TokV::Slash,
            Token::DoubleSlash => TokV::DoubleSlash,
            Token::At => TokV::At,
            Token::Dot => TokV::Dot,
            Token::DoubleDot => TokV::DoubleDot,
            Token::Star => TokV::Star,
            Token::ColonColon => TokV::ColonColon,
            Token::LeftParen => TokV::LeftParen,
            Token::RightParen => TokV::RightParen,
            Token::LeftBracket => TokV::LeftBracket,
            Token::RightBracket => TokV::RightBracket,
            Token::Comma => TokV::Comma,
            Token::Pipe => TokV::Pipe,
            Token::Plus => TokV::Plus,
            Token::Minus => TokV::Minus,
            Token::Eq => TokV::Eq,
            Token::NotEq => TokV::NotEq,
            Token::Lt => TokV::Lt,
            Token::LtEq => TokV::LtEq,
            Token::Gt => TokV::Gt,
            Token::GtEq => TokV::GtEq,
            Token::Name(s) => TokV::Name(s@),
            Token::LiteralString(s) => TokV::LiteralString(s@),
            Token::LiteralNumber(s) => TokV::LiteralNumber(s@),
            Token::Eof => TokV::Eof,
        }
    }
}

/// ASCII white space as the tokenizer skips it: space, tab, line feed,
/// carriage return.
pub open spec fn lex_space(c: char) -> bool {
    c == ' ' || c == '\t' || c == '\n' || c == '\r'
}

/// An ASCII decimal digit.
pub open spec fn digit(c: char) -> bool {
    '0' <= c <= '9'
}

/// A character that continues a name.
pub open spec fn name_more(c: char) -> bool {
    unicode_alphanumeric(c) || c == '_' || c == '-' || c == '.'
}

/// The first position at or after `p` that is not white space.
pub open spec fn past_space(s: Seq<char>, p: int) -> int
    decreases s.len() - p,
{
    if p < 0 || p >= s.len() || !lex_space(s[p]) {
        p
    } else {
        past_space(s, p + 1)
    }
}

/// The first position at or after `p` that is neither a digit nor `.`.
pub open spec fn numeral_end(s: Seq<char>, p: int) -> int
    decreases s.len() - p,
{
    if p < 0 || p >= s.len() || !(digit(s[p]) || s[p] == '.') {
        p
    } else {
        numeral_end(s, p + 1)
    }
}

/// The first position at or after `p` that does not continue a name.
pub open spec fn name_end(s: Seq<char>, p: int) -> int
    decreases s.len() - p,
{
    if p < 0 || p >= s.len() || !name_more(s[p]) {
        p
    } else {
        name_end(s, p + 1)
    }
}

/// How many `.` a text holds.
pub open spec fn dots(t: Seq<char>) -> nat
    decreases t.len(),
{
    if t.len() == 0 {
        0
    } else {
        dots(t.drop_last()) + if t.last() == '.' {
            1nat
        } else {
            0nat
        }
    }
}

/// The number literal starting at `p`: its numeral when it has at most one
/// `.` (none when it has more), and where it ends.
pub open spec fn number_at(s: Seq<char>, p: int) -> (Option<TokV>, int) {
    let e = numeral_end(s, p);
    let t = s.subrange(p, e);
    if dots(t) <= 1 {
        (Some(TokV::LiteralNumber(t)), e)
    } else {
        (None, e)
    }
}

/// The token of a lone punctuation character.
pub open spec fn punct(c: char) -> Option<TokV> {
    if c == '@' {
        Some(TokV::At)
    } else if c == '*' {
        Some(TokV::Star)
    } else if c == '(' {
        Some(TokV::LeftParen)
    } else if c == ')' {
        Some(TokV::RightParen)
    } else if c == '[' {
        Some(TokV::LeftBracket)
    } else if c == ']' {
        Some(TokV::RightBracket)
    } else if c == ',' {
        Some(TokV::Comma)
    } else if c == '|' {
        Some(TokV::Pipe)
    } else if c == '+' {
        Some(TokV::Plus)
    } else if c == '-' {
        Some(TokV::Minus)
    } else if c == '=' {
        Some(TokV::Eq)
    } else {
        None
    }
}

/// Whether `s[p]` is `c`.
pub open spec fn at_is(s: Seq<char>, p: int, c: char) -> bool {
    0 <= p < s.len() && s[p] == c
}

/// The token after white space from position `p0` of `s` (none for a
/// lexical error), and the position after it: where the error was found
/// for an error.
pub open spec fn token_at(s: Seq<char>, p0: int) -> (Option<TokV>, int) {
    let p = past_space(s, p0);
    if p >= s.len() {
        (Some(TokV::Eof), p)
    } else {
        let c = s[p];
        if c == '/' {
            if at_is(s, p + 1, '/') {
                (Some(TokV::DoubleSlash), p + 2)
            } else {
                (Some(TokV::Slash), p + 1)
            }
        } else if c == '.' {
            if at_is(s, p + 1, '.') {
                (Some(TokV::DoubleDot), p + 2)
            } else if p + 1 < s.len() && digit(s[p + 1]) {
                number_at(s, p)
            } else {
                (Some(TokV::Dot), p + 1)
            }
        } else if punct(c) is Some {
            (punct(c), p + 1)
        } else if c == '!' {
            if at_is(s, p + 1, '=') {
                (Some(TokV::NotEq), p + 2)
            } else {
                (None, p + 1)
            }
        } else if c == '<' {
            if at_is(s, p + 1, '=') {
                (Some(TokV::LtEq), p + 2)
            } else {
                (Some(TokV::Lt), p + 1)
            }
        } else if c == '>' {
            if at_is(s, p + 1, '=') {
                (Some(TokV::GtEq), p + 2)
            } else {
                (Some(TokV::Gt), p + 1)
            }
        } else if c == ':' {
            if at_is(s, p + 1, ':') {
                (Some(TokV::ColonColon), p + 2)
            } else {
                (Some(TokV::Name(seq![':'])), p + 1)
            }
        } else if c == '"' || c == '\'' {
            match find_from(s, c, p + 1) {
                Some(e) => (Some(TokV::LiteralString(s.subrange(p + 1, e))), e + 1),
                None => (None, s.len() as int),
            }
        } else if digit(c) {
            number_at(s, p)
        } else if unicode_alphabetic(c) || c == '_' {
            (Some(TokV::Name(s.subrange(p, name_end(s, p + 1)))), name_end(s, p + 1))
        } else {
            (None, p)
        }
    }
}

/// The abstract state of a tokenizer: its input and how far it has read.
pub struct LexState {
    pub input: Seq<char>,
    pub pos: nat,
}

/// A tokenizer over an XPath expression.
#[derive(Debug)]
pub struct XPathLexer {
    input: Vec<char>,
    pos: usize,
}

impl Clone for XPathLexer {
    fn clone(&self) -> (r: Self)
        ensures
            r@ == self@,
    {
        proof {
            use_type_invariant(self);
        }
        let input = crate::entity::mapper::sub_chars(self.input.as_slice(), 0, self.input.len());
        assert(input@ =~= self.input@);
        XPathLexer { input, pos: self.pos }
    }
}

impl View for XPathLexer {
    type V = LexState;

    closed spec fn view(&self) -> LexState {
        LexState { input: self.input@, pos: self.pos as nat }
    }
}

impl XPathLexer {
    /// A tokenizer never reads past the end of its input.
    #[verifier::type_invariant]
    pub(crate) open spec fn within(self) -> bool {
        self@.pos <= self@.input.len()
    }

    /// A tokenizer at the start of `input`.
    pub fn new(input: &str) -> (r: Self)
        ensures
            r@.input == input@,
            r@.pos == 0,
    {
        XPathLexer { input: str_chars(input), pos: 0 }
    }

    /// The character at the current position.
    pub fn peek(&self) -> (r: Option<char>)
        ensures
            r == (if self@.pos < self@.input.len() {
                Some(self@.input[self@.pos as int])
            } else {
                None
            }),
    {
        if self.pos >= self.input.len() {
            None
        } else {
            Some(self.input[self.pos])
        }
    }

    /// Moves past the current character, returning it.
    fn advance(&mut self) -> (r: Option<char>)
        ensures
            final(self)@.input == old(self)@.input,
            old(self)@.pos < old(self)@.input.len() ==> r == Some(old(self)@.input[old(self)@.pos as int])
                && final(self)@.pos == old(self)@.pos + 1,
            old(self)@.pos >= old(self)@.input.len() ==> r is None && final(self)@ == old(self)@,
    {
        if self.pos >= self.input.len() {
            None
        } else {
            let ch = self.input[self.pos];
            self.pos = self.pos + 1;
            Some(ch)
        }
    }

    /// Moves past white space.
    fn skip_whitespace(&mut self)
        ensures
            final(self)@.input == old(self)@.input,
            final(self)@.pos == past_space(old(self)@.input, old(self)@.pos as int),
    {
        let ghost p0 = self.pos as int;
        let ghost s0 = self.input@;
        while self.pos < self.input.len()
            invariant_except_break
                p0 <= self.pos,
                past_space(self.input@, p0) == past_space(self.input@, self.pos as int),
            invariant
                self.input@ == s0,
                s0 == old(self)@.input,
                p0 == old(self)@.pos,
            ensures
                self.pos == past_space(self.input@, p0),
            decreases self.input@.len() - self.pos,
        {
            let b = self.input[self.pos];
            if b == ' ' || b == '\t' || b == '\n' || b == '\r' {
                self.pos = self.pos + 1;
            } else {
                break;
            }
        }
    }

    /// Reads the next token, after white space. A `!` without `=`, an
    /// unterminated string literal, a numeral with more than one `.` and a
    /// character that starts no token are errors.
    pub fn next_token(&mut self) -> (r: Result<Token, XmlError>)
        ensures
            final(self)@.input == old(self)@.input,
            final(self)@.pos == token_at(old(self)@.input, old(self)@.pos as int).1,
            match token_at(old(self)@.input, old(self)@.pos as int).0 {
                Some(t) => match r {
                    Ok(x) => x@ == t,
                    Err(_) => false,
                },
                None => r matches Err(x) && x is XPathError,
            },
    {
        let ghost s0 = self.input@;
        self.skip_whitespace();
        let ghost p = self.pos as int;
        let ch = match self.peek() {
            Some(c) => c,
            None => {
                return Ok(Token::Eof);
            },
        };
        assert(ch == s0[p]);
        if ch == '/' {
            self.advance();
            if self.peek() == Some('/') {
                self.advance();
                Ok(Token::DoubleSlash)
            } else {
                Ok(Token::Slash)
            }
        } else if ch == '.' {
            self.advance();
            if self.peek() == Some('.') {
                self.advance();
                Ok(Token::DoubleDot)
            } else if match self.peek() {
                Some(c) => '0' <= c && c <= '9',
                None => false,
            } {
                self.pos = self.pos - 1;
                self.read_number()
            } else {
                Ok(Token::Dot)
            }
        } else if ch == '@' || ch == '*' || ch == '(' || ch == ')' || ch == '[' || ch == ']' || ch == ',' || ch == '|'
            || ch == '+' || ch == '-' || ch == '=' {
            self.advance();
            let t = if ch == '@' {
                Token::At
            } else if ch == '*' {
                Token::Star
            } else if ch == '(' {
                Token::LeftParen
            } else if ch == ')' {
                Token::RightParen
            } else if ch == '[' {
                Token::LeftBracket
            } else if ch == ']' {
                Token::RightBracket
            } else if ch == ',' {
                Token::Comma
            } else if ch == '|' {
                Token::Pipe
            } else if ch == '+' {
                Token::Plus
            } else if ch == '-' {
                Token::Minus
            } else {
                Token::Eq
            };
            Ok(t)
        } else if ch == '!' {
            self.advance();
            if self.peek() == Some('=') {
                self.advance();
                Ok(Token::NotEq)
            } else {
                Err(XmlError::XPathError("Expected '=' after '!'".to_string()))
            }
        } else if ch == '<' {
            self.advance();
            if self.peek() == Some('=') {
                self.advance();
                Ok(Token::LtEq)
            } else {
                Ok(Token::Lt)
            }
        } else if ch == '>' {
            self.advance();
            if self.peek() == Some('=') {
                self.advance();
                Ok(Token::GtEq)
            } else {
                Ok(Token::Gt)
            }
        } else if ch == ':' {
            self.advance();
            if self.peek() == Some(':') {
                self.advance();
                Ok(Token::ColonColon)
            } else {
                let colon: [char; 1] = [':'];
                let name = string_from_chars(&colon);
                assert(name@ =~= seq![':']);
                Ok(Token::Name(name))
            }
        } else if ch == '"' || ch == '\'' {
            self.read_string(ch)
        } else if '0' <= ch && ch <= '9' {
            self.read_number()
        } else if char_is_alphabetic(ch) || ch == '_' {
            Ok(self.read_name())
        } else {
            let mut msg = String::new();
            push_str(&mut msg, "Unexpected character in XPath expression: '");
            push_char(&mut msg, ch);
            push_char(&mut msg, '\'');
            Err(XmlError::XPathError(msg))
        }
    }

    /// Reads a string literal whose opening quote is at the current position.
    fn read_string(&mut self, quote: char) -> (r: Result<Token, XmlError>)
        requires
            old(self)@.pos < old(self)@.input.len(),
            old(self)@.input[old(self)@.pos as int] == quote,
        ensures
            final(self)@.input == old(self)@.input,
            match find_from(old(self)@.input, quote, old(self)@.pos + 1int) {
                Some(e) => final(self)@.pos == e + 1 && match r {
                    Ok(t) => t@ == TokV::LiteralString(old(self)@.input.subrange(old(self)@.pos + 1int, e)),
                    Err(_) => false,
                },
                None => final(self)@.pos == old(self)@.input.len() && (r matches Err(x) && x is XPathError),
            },
    {
        let ghost s0 = self.input@;
        let ghost p0 = self.pos as int;
        self.advance();
        let start = self.pos;
        proof {
            crate::seqs::lemma_find_from(s0, quote, p0 + 1);
        }
        while self.pos < self.input.len()
            invariant
                self.input@ == s0,
                s0 == old(self)@.input,
                p0 == old(self)@.pos,
                p0 + 1 == start,
                start <= self.pos <= s0.len(),
                find_from(s0, quote, p0 + 1) == find_from(s0, quote, self.pos as int),
            decreases s0.len() - self.pos,
        {
            let ch = self.input[self.pos];
            if ch == quote {
                let t = string_from_chars(crate::entity::mapper::sub_chars(self.input.as_slice(), start, self.pos).as_slice());
                self.advance();
                return Ok(Token::LiteralString(t));
            }
            self.advance();
        }
        Err(XmlError::XPathError("Unterminated string literal in XPath".to_string()))
    }

    /// Reads a number literal starting at the current position.
    fn read_number(&mut self) -> (r: Result<Token, XmlError>)
        requires
            old(self)@.pos <= old(self)@.input.len(),
        ensures
            final(self)@.input == old(self)@.input,
            final(self)@.pos == number_at(old(self)@.input, old(self)@.pos as int).1,
            match number_at(old(self)@.input, old(self)@.pos as int).0 {
                Some(t) => match r {
                    Ok(x) => x@ == t,
                    Err(_) => false,
                },
                None => r matches Err(x) && x is XPathError,
            },
    {
        let ghost s0 = self.input@;
        let start = self.pos;
        while self.pos < self.input.len()
            invariant_except_break
                numeral_end(s0, start as int) == numeral_end(s0, self.pos as int),
            invariant
                self.input@ == s0,
                start <= self.pos <= s0.len(),
            ensures
                self.pos == numeral_end(s0, start as int),
            decreases s0.len() - self.pos,
        {
            let ch = self.input[self.pos];
            if ('0' <= ch && ch <= '9') || ch == '.' {
                self.pos = self.pos + 1;
            } else {
                break;
            }
        }
        let text = crate::entity::mapper::sub_chars(self.input.as_slice(), start, self.pos);
        if count_dots(text.as_slice()) <= 1 {
            Ok(Token::LiteralNumber(string_from_chars(text.as_slice())))
        } else {
            let mut msg = String::new();
            push_str(&mut msg, "Invalid number literal '");
            push_str(&mut msg, string_from_chars(text.as_slice()).as_str());
            push_char(&mut msg, '\'');
            Err(XmlError::XPathError(msg))
        }
    }

    /// Reads a name whose first character is at the current position.
    fn read_name(&mut self) -> (r: Token)
        requires
            old(self)@.pos < old(self)@.input.len(),
        ensures
            final(self)@.input == old(self)@.input,
            final(self)@.pos == name_end(old(self)@.input, old(self)@.pos + 1int),
            r@ == TokV::Name(old(self)@.input.subrange(old(self)@.pos as int, name_end(old(self)@.input, old(self)@.pos + 1int))),
    {
        let ghost s0 = self.input@;
        let start = self.pos;
        let n = self.input.len();
        assert(start < n);
        self.pos = start + 1;
        while self.pos < self.input.len()
            invariant_except_break
                name_end(s0, start + 1) == name_end(s0, self.pos as int),
            invariant
                self.input@ == s0,
                start < self.pos <= s0.len(),
            ensures
                self.pos == name_end(s0, start + 1),
            decreases s0.len() - self.pos,
        {
            let ch = self.input[self.pos];
            if char_is_alphanumeric(ch) || ch == '_' || ch == '-' || ch == '.' {
                self.pos = self.pos + 1;
            } else {
                break;
            }
        }
        let text = crate::entity::mapper::sub_chars(self.input.as_slice(), start, self.pos);
        Token::Name(string_from_chars(text.as_slice()))
    }
}

proof fn lemma_past_space(s: Seq<char>, p: int)
    requires
        0 <= p <= s.len(),
    ensures
        p <= past_space(s, p) <= s.len(),
    decreases s.len() - p,
{
    if p < s.len() && lex_space(s[p]) {
        lemma_past_space(s, p + 1);
    }
}

proof fn lemma_numeral_end(s: Seq<char>, p: int)
    requires
        0 <= p <= s.len(),
    ensures
        p <= numeral_end(s, p) <= s.len(),
    decreases s.len() - p,
{
    if p < s.len() && (digit(s[p]) || s[p] == '.') {
        lemma_numeral_end(s, p + 1);
    }
}

proof fn lemma_name_end(s: Seq<char>, p: int)
    requires
        0 <= p <= s.len(),
    ensures
        p <= name_end(s, p) <= s.len(),
    decreases s.len() - p,
{
    if p < s.len() && name_more(s[p]) {
        lemma_name_end(s, p + 1);
    }
}

/// Reading a token from a position inside the input ends inside the input,
/// and, unless it reads the end, strictly after where it started.
pub proof fn lemma_token_progress(s: Seq<char>, p: int)
    requires
        0 <= p <= s.len(),
    ensures
        token_at(s, p).0 matches Some(t) ==> p <= token_at(s, p).1 <= s.len() && (!(t is Eof)
            ==> p < token_at(s, p).1),
{
    lemma_past_space(s, p);
    let q = past_space(s, p);
    if q < s.len() {
        lemma_numeral_end(s, q + 1);
        lemma_name_end(s, q + 1);
        crate::seqs::lemma_find_from(s, s[q], q + 1);
        if digit(s[q]) || s[q] == '.' {
            assert(numeral_end(s, q) == numeral_end(s, q + 1));
        }
    }
}

/// How many `.` a text holds.
fn count_dots(t: &[char]) -> (r: usize)
    ensures
        r == dots(t@),
{
    let mut c: usize = 0;
    let mut i: usize = 0;
    while i < t.len()
        invariant
            i <= t@.len(),
            c == dots(t@.take(i as int)),
            c <= i,
        decreases t@.len() - i,
    {
        assert(t@.take(i + 1).drop_last() =~= t@.take(i as int));
        if t[i] == '.' {
            c = c + 1;
        }
        i = i + 1;
    }
    assert(t@.take(t@.len() as int) =~= t@);
    c
}

} // verus!
