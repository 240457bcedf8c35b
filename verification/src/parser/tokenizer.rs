use vstd::prelude::*;
use vstd::std_specs::iter::IteratorSpec;
use vstd::string::StringSliceAdditionalSpecFns;
use vstd::utf8::{char_is_scalar, encode_scalar, encode_utf8};
use super::result::{Flaw, ParseError, ParseErrorKind};
use crate::text::{is_letter, letter, push_char};

verus! {

/// The kinds of token of the surface syntax.
#[derive(Debug, PartialEq, Eq)]
pub enum TokenKind {
    LBracket,
    RBracket,
    Lambda,
    Word(String),
    AlphaChar(char),
    Dot,
    Colon,
    Arrow,
    Space,
    Equal,
    EOF,
}

/// The mathematical form of a `TokenKind`.
pub enum Tok {
    LBracket,
    RBracket,
    Lambda,
    Word(Seq<char>),
    AlphaChar(char),
    Dot,
    Colon,
    Arrow,
    Space,
    Equal,
    EOF,
}

impl View for TokenKind {
    type V = Tok;

    open spec fn view(&self) -> Tok {
        match self {
            TokenKind::LBracket => Tok::LBracket,
            TokenKind::RBracket => Tok::RBracket,
            TokenKind::Lambda => Tok::Lambda,
            TokenKind::Word(word) => Tok::Word(word@),
            TokenKind::AlphaChar(c) => Tok::AlphaChar(*c),
            TokenKind::Dot => Tok::Dot,
            TokenKind::Colon => Tok::Colon,
            TokenKind::Arrow => Tok::Arrow,
            TokenKind::Space => Tok::Space,
            TokenKind::Equal => Tok::Equal,
            TokenKind::EOF => Tok::EOF,
        }
    }
}

impl Clone for TokenKind {
    fn clone(&self) -> (res: Self)
        ensures
            res@ == self@,
    {
        match self {
            TokenKind::LBracket => TokenKind::LBracket,
            TokenKind::RBracket => TokenKind::RBracket,
            TokenKind::Lambda => TokenKind::Lambda,
            TokenKind::Word(word) => TokenKind::Word(word.clone()),
            TokenKind::AlphaChar(c) => TokenKind::AlphaChar(*c),
            TokenKind::Dot => TokenKind::Dot,
            TokenKind::Colon => TokenKind::Colon,
            TokenKind::Arrow => TokenKind::Arrow,
            TokenKind::Space => TokenKind::Space,
            TokenKind::Equal => TokenKind::Equal,
            TokenKind::EOF => TokenKind::EOF,
        }
    }
}

impl TokenKind {
    /// The token of this kind that begins at the byte offset `loc`.
    fn into_token(self, loc: usize) -> (token: Token)
        ensures
            token@ == (loc as int, self@),
    {
        Token { loc, kind: self }
    }

    /// Whether two kinds are the same kind, with the same word or character.
    pub fn same(&self, other: &TokenKind) -> (res: bool)
        ensures
            res == (self@ == other@),
    {
        match (self, other) {
            (TokenKind::LBracket, TokenKind::LBracket) => true,
            (TokenKind::RBracket, TokenKind::RBracket) => true,
            (TokenKind::Lambda, TokenKind::Lambda) => true,
            (TokenKind::Word(a), TokenKind::Word(b)) => *a == *b,
            (TokenKind::AlphaChar(a), TokenKind::AlphaChar(b)) => *a == *b,
            (TokenKind::Dot, TokenKind::Dot) => true,
            (TokenKind::Colon, TokenKind::Colon) => true,
            (TokenKind::Arrow, TokenKind::Arrow) => true,
            (TokenKind::Space, TokenKind::Space) => true,
            (TokenKind::Equal, TokenKind::Equal) => true,
            (TokenKind::EOF, TokenKind::EOF) => true,
            _ => false,
        }
    }
}

/// A token and the byte offset at which it begins.
#[derive(Debug, PartialEq, Eq)]
pub struct Token {
    loc: usize,
    kind: TokenKind,
}

impl View for Token {
    type V = (int, Tok);

    closed spec fn view(&self) -> (int, Tok) {
        (self.loc as int, self.kind@)
    }
}

impl Clone for Token {
    fn clone(&self) -> (res: Self)
        ensures
            res@ == self@,
    {
        Token { loc: self.loc, kind: self.kind.clone() }
    }
}

impl Token {
    /// The kind of the token.
    pub fn kind(&self) -> (kind: &TokenKind)
        ensures
            kind@ == self@.1,
    {
        &self.kind
    }

    /// The byte offset at which the token begins.
    pub fn loc(&self) -> (loc: usize)
        ensures
            loc == self@.0,
    {
        self.loc
    }

    /// The error that reports this token as one the grammar does not allow
    /// where it stands.
    pub fn into_unexpected(self) -> (error: ParseError)
        ensures
            error@ == (self@.0, Flaw::UnexpectedToken(self@.1)),
    {
        ParseError::new(self.loc, ParseErrorKind::UnexpectedToken(self.kind))
    }
}

/// The number of bytes that a character takes in UTF-8.
pub open spec fn utf8_width(c: char) -> nat {
    if (c as u32) < 0x80 {
        1
    } else if (c as u32) < 0x800 {
        2
    } else if (c as u32) < 0x10000 {
        3
    } else {
        4
    }
}

/// The number of bytes that a text takes in UTF-8.
pub open spec fn utf8_len(s: Seq<char>) -> nat
    decreases s.len(),
{
    if s.len() == 0 {
        0
    } else {
        utf8_width(s[0]) + utf8_len(s.drop_first())
    }
}

/// The byte offset of the character at position `p` of `s`.
pub open spec fn offset_of(s: Seq<char>, p: int) -> nat {
    utf8_len(s.take(p))
}

/// The number of bytes that a character takes in UTF-8.
fn width(c: char) -> (n: usize)
    ensures
        n == utf8_width(c),
{
    let v = c as u32;
    if v < 0x80 {
        1
    } else if v < 0x800 {
        2
    } else if v < 0x10000 {
        3
    } else {
        4
    }
}

/// The length of a text in bytes is that of its UTF-8 encoding.
pub proof fn lemma_utf8_len_encoded(s: Seq<char>)
    ensures
        encode_utf8(s).len() == utf8_len(s),
    decreases s.len(),
{
    if s.len() > 0 {
        char_is_scalar(s[0]);
        let v = s[0] as u32;
        assert(encode_scalar(v).len() == utf8_width(s[0]));
        lemma_utf8_len_encoded(s.drop_first());
    }
}

/// The byte offset of the next position is that of this one and the width of
/// the character here.
pub proof fn lemma_offset_next(s: Seq<char>, p: int)
    requires
        0 <= p < s.len(),
    ensures
        offset_of(s, p + 1) == offset_of(s, p) + utf8_width(s[p]),
    decreases p,
{
    let longer = s.take(p + 1);
    assert(longer.len() > 0 && longer[0] == s[0]);
    if p == 0 {
        assert(longer.drop_first() =~= Seq::<char>::empty());
        assert(utf8_len(longer.drop_first()) == 0);
        assert(s.take(0) =~= Seq::<char>::empty());
    } else {
        let shorter = s.take(p);
        assert(shorter.len() > 0 && shorter[0] == s[0]);
        lemma_offset_next(s.drop_first(), p - 1);
        assert(longer.drop_first() =~= s.drop_first().take(p));
        assert(shorter.drop_first() =~= s.drop_first().take(p - 1));
    }
}

/// Byte offsets grow with positions.
pub proof fn lemma_offset_grows(s: Seq<char>, p: int, q: int)
    requires
        0 <= p <= q <= s.len(),
    ensures
        offset_of(s, p) <= offset_of(s, q),
    decreases q - p,
{
    if p < q {
        lemma_offset_next(s, q - 1);
        lemma_offset_grows(s, p, q - 1);
    }
}

/// The first position at or after `p` whose character is no letter.
pub open spec fn word_end(s: Seq<char>, p: int) -> int
    decreases s.len() - p,
{
    if 0 <= p < s.len() && is_letter(s[p]) {
        word_end(s, p + 1)
    } else {
        p
    }
}

/// The token that begins at position `p` of `s`, and the position after it;
/// or what is wrong there. The end of the text is a token that takes no
/// room. A run of letters is one token: a word, or, where it is a single
/// character of one byte, that character.
#[verifier::opaque]
pub open spec fn scan(s: Seq<char>, p: int) -> Result<(Tok, int), Flaw> {
    if !(0 <= p < s.len()) {
        Ok((Tok::EOF, p))
    } else if s[p] == '(' {
        Ok((Tok::LBracket, p + 1))
    } else if s[p] == ')' {
        Ok((Tok::RBracket, p + 1))
    } else if s[p] == '\\' || s[p] == '\u{3bb}' {
        Ok((Tok::Lambda, p + 1))
    } else if s[p] == '.' {
        Ok((Tok::Dot, p + 1))
    } else if s[p] == ' ' {
        Ok((Tok::Space, p + 1))
    } else if s[p] == ':' {
        Ok((Tok::Colon, p + 1))
    } else if s[p] == '=' {
        Ok((Tok::Equal, p + 1))
    } else if s[p] == '-' {
        if p + 1 >= s.len() {
            Err(Flaw::UnexpectedToken(Tok::EOF))
        } else if s[p + 1] == '>' {
            Ok((Tok::Arrow, p + 2))
        } else {
            Err(Flaw::InvalidChar(s[p + 1]))
        }
    } else if is_letter(s[p]) {
        let end = word_end(s, p + 1);
        if utf8_len(s.subrange(p, end)) > 1 {
            Ok((Tok::Word(s.subrange(p, end)), end))
        } else {
            Ok((Tok::AlphaChar(s[p]), end))
        }
    } else {
        Err(Flaw::InvalidChar(s[p]))
    }
}

/// A place in a text: counted in characters, and in bytes.
#[derive(Clone, Copy)]
struct Place {
    pos: usize,
    loc: usize,
}

/// A cursor over a text that hands out its tokens one by one.
pub struct Tokenizer {
    chars: Vec<char>,
    at: Place,
}

impl Tokenizer {
    /// The cursor stands within the text, its byte offset is that of its
    /// position, and the byte length of the text fits a `usize`.
    #[verifier::type_invariant]
    spec fn wf(self) -> bool {
        &&& self.at.pos <= self.chars@.len()
        &&& self.at.loc == offset_of(self.chars@, self.at.pos as int)
        &&& utf8_len(self.chars@) <= usize::MAX
    }

    /// The text that is being read.
    pub closed spec fn text(&self) -> Seq<char> {
        self.chars@
    }

    /// The position, in characters, of the next token.
    pub closed spec fn pos(&self) -> int {
        self.at.pos as int
    }

    /// A cursor at the start of `input`.
    pub fn new(input: String) -> (tokens: Self)
        ensures
            tokens.text() == input@,
            tokens.pos() == 0,
            tokens.pos() <= tokens.text().len(),
    {
        let text = input.as_str();
        let size = text.as_bytes().len();
        assert(encode_utf8(input@).len() == size);
        let mut chars: Vec<char> = Vec::new();
        let mut rest = text.chars();
        loop
            invariant
                chars@ + rest.remaining() == input@,
                rest.obeys_prophetic_iter_laws(),
                rest.decrease() is Some,
            ensures
                chars@ == input@,
            decreases rest.decrease()->0,
        {
            match rest.next() {
                Some(c) => {
                    chars.push(c);
                },
                None => {
                    break ;
                },
            }
        }
        proof {
            lemma_utf8_len_encoded(input@);
            assert(chars@.take(0) == Seq::<char>::empty());
        }
        Tokenizer { chars, at: Place { pos: 0, loc: 0 } }
    }

    /// Reads the letters that follow the first character of a word, and
    /// returns the word, its length in characters and its length in bytes.
    fn read_word(&self, first: char) -> (res: (String, usize, usize))
        requires
            self.pos() < self.text().len(),
            first == self.text()[self.pos()],
        ensures
            self.pos() + res.1 == word_end(self.text(), self.pos() + 1),
            res.0@ == self.text().subrange(self.pos(), self.pos() + res.1),
            res.2 == utf8_len(res.0@),
            offset_of(self.text(), self.pos()) + res.2 == offset_of(
                self.text(),
                self.pos() + res.1,
            ),
            self.pos() + res.1 <= self.text().len(),
            offset_of(self.text(), self.pos() + res.1) <= usize::MAX,
    {
        proof {
            use_type_invariant(self);
        }
        let ghost s = self.chars@;
        let start = self.at.pos;
        let n = self.chars.len();
        let mut word = String::new();
        push_char(&mut word, first);
        let mut count: usize = 1;
        let mut bytes: usize = width(first);
        proof {
            lemma_offset_next(s, start as int);
            lemma_offset_next(s.skip(start as int), 0);
            assert(s.skip(start as int).take(1) == s.subrange(start as int, start + 1));
            assert(s.skip(start as int).take(0) == Seq::<char>::empty());
            assert(word@ == s.subrange(start as int, start + 1));
            lemma_offset_grows(s, start + 1, n as int);
            assert(s.take(n as int) == s);
        }
        while start + count < n && letter(self.chars[start + count])
            invariant
                s == self.chars@,
                n == s.len(),
                start == self.at.pos,
                1 <= count,
                start + count <= n,
                word_end(s, start + 1) == word_end(s, start + count),
                word@ == s.subrange(start as int, start + count),
                bytes == utf8_len(word@),
                self.at.loc == offset_of(s, start as int),
                self.at.loc + bytes == offset_of(s, start + count),
                utf8_len(s) <= usize::MAX,
                offset_of(s, start + count) <= utf8_len(s),
            decreases n - count,
        {
            let c = self.chars[start + count];
            proof {
                let t = s.skip(start as int);
                lemma_offset_next(s, start + count);
                lemma_offset_next(t, count as int);
                assert(t.take(count as int) == s.subrange(start as int, start + count));
                assert(t.take(count + 1) == s.subrange(start as int, start + count + 1));
                assert(word@.push(c) == s.subrange(start as int, start + count + 1));
                lemma_offset_grows(s, start + count + 1, n as int);
                assert(s.take(n as int) == s);
            }
            push_char(&mut word, c);
            bytes = bytes + width(c);
            count = count + 1;
        }
        (word, count, bytes)
    }

    /// Reads the token at the cursor and moves the cursor past it. Where the
    /// text has no token there, the cursor stays.
    pub fn next_token(&mut self) -> (res: Result<Token, ParseError>)
        ensures
            final(self).text() == old(self).text(),
            0 <= final(self).pos() <= final(self).text().len(),
            match scan(old(self).text(), old(self).pos()) {
                Ok((tok, next)) => final(self).pos() == next && res is Ok && res->Ok_0@ == (
                    offset_of(old(self).text(), old(self).pos()) as int,
                    tok,
                ),
                Err(flaw) => final(self).pos() == old(self).pos() && res is Err && res->Err_0@
                    == (offset_of(old(self).text(), old(self).pos()) as int, flaw),
            },
    {
        proof {
            use_type_invariant(&*self);
            reveal(scan);
        }
        let ghost s = self.chars@;
        let Place { pos, loc } = self.at;
        let n = self.chars.len();
        if pos >= n {
            return Ok(TokenKind::EOF.into_token(loc));
        }
        proof {
            lemma_offset_next(s, pos as int);
            lemma_offset_grows(s, pos + 1, n as int);
            assert(s.take(n as int) == s);
        }
        let c = self.chars[pos];
        let mut count: usize = 1;
        let mut bytes: usize = width(c);
        let kind = if c == '(' {
            TokenKind::LBracket
        } else if c == ')' {
            TokenKind::RBracket
        } else if c == '\\' || c == '\u{3bb}' {
            TokenKind::Lambda
        } else if c == '.' {
            TokenKind::Dot
        } else if c == ' ' {
            TokenKind::Space
        } else if c == ':' {
            TokenKind::Colon
        } else if c == '=' {
            TokenKind::Equal
        } else if c == '-' {
            if pos + 1 >= n {
                return Err(
                    ParseError::new(loc, ParseErrorKind::UnexpectedToken(TokenKind::EOF)),
                );
            }
            let d = self.chars[pos + 1];
            if d != '>' {
                return Err(ParseError::new(loc, ParseErrorKind::InvalidChar(d)));
            }
            proof {
                lemma_offset_next(s, pos + 1);
                lemma_offset_grows(s, pos + 2, n as int);
            }
            count = 2;
            bytes = bytes + width(d);
            TokenKind::Arrow
        } else if letter(c) {
            let (word, chars, size) = self.read_word(c);
            count = chars;
            bytes = size;
            if size > 1 {
                TokenKind::Word(word)
            } else {
                TokenKind::AlphaChar(c)
            }
        } else {
            return Err(ParseError::new(loc, ParseErrorKind::InvalidChar(c)));
        };
        let token = kind.into_token(loc);
        self.at = Place { pos: pos + count, loc: loc + bytes };
        Ok(token)
    }
}

} // verus!
