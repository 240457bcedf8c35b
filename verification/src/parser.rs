pub mod complete;
pub mod grammar;
pub mod result;
pub mod sound;
pub mod spelling;
pub mod tokenizer;

use vstd::prelude::*;
use vstd::string::StringExecFns;
use crate::text::push_char;
use crate::ty::{Binding, Ty};
use self::grammar::{
    lemma_read_lam_head_moves, lemma_read_let_head_moves, lemma_read_token_moves,
    lemma_read_triple_moves, lemma_scan_moves, read_all, read_app, read_exact, read_inner,
    read_lam, read_lam_head, read_let, read_let_head, read_name, read_pair, read_term,
    read_token, read_triple, read_ty,
};
use self::result::ParseError;
use self::complete::lemma_spelt_is_read;
use self::sound::lemma_read_is_spelt;
use self::spelling::{names_ok, plain};
use self::tokenizer::{offset_of, scan, Tok, Token, TokenKind, Tokenizer};

verus! {

/// The single-character name of a variable or binder.
pub type Name = char;

/// A term of the surface syntax, with variables referred to by name.
#[derive(Debug, PartialEq, Eq)]
pub enum NamedTerm {
    Unit,
    Var(Name),
    Abs(Binding, Box<NamedTerm>),
    App(Box<NamedTerm>, Box<NamedTerm>),
    Let(Name, Box<NamedTerm>, Box<NamedTerm>),
}

impl Clone for NamedTerm {
    fn clone(&self) -> (res: Self)
        ensures
            res == *self,
        decreases *self,
    {
        match self {
            NamedTerm::Unit => NamedTerm::Unit,
            NamedTerm::Var(name) => NamedTerm::Var(*name),
            NamedTerm::Abs(b, t) => NamedTerm::Abs(b.clone(), Box::new((**t).clone())),
            NamedTerm::App(f, a) => NamedTerm::App(
                Box::new((**f).clone()),
                Box::new((**a).clone()),
            ),
            NamedTerm::Let(name, t1, t2) => NamedTerm::Let(
                *name,
                Box::new((**t1).clone()),
                Box::new((**t2).clone()),
            ),
        }
    }
}

impl NamedTerm {
    /// The term as it is written, with a Greek lambda for each abstraction.
    pub open spec fn spelling(self) -> Seq<char>
        decreases self,
    {
        match self {
            NamedTerm::Unit => "unit"@,
            NamedTerm::Var(name) => seq![name],
            NamedTerm::Abs(b, body) => "(\u{3bb}"@.push(b.name) + ":"@ + b.ty.spelling() + ". "@
                + body.spelling() + ")"@,
            NamedTerm::App(t1, t2) => "("@ + t1.spelling() + " "@ + t2.spelling() + ")"@,
            NamedTerm::Let(name, t1, t2) => "(let "@.push(name) + " = "@ + t1.spelling() + " in "@
                + t2.spelling() + ")"@,
        }
    }

    /// Appends the written form of the term to `out`.
    pub fn write_to(&self, out: &mut String)
        ensures
            final(out)@ == old(out)@ + self.spelling(),
        decreases self,
    {
        match self {
            NamedTerm::Unit => {
                out.append("unit");
            },
            NamedTerm::Var(name) => {
                push_char(out, *name);
                assert(out@ == old(out)@ + self.spelling());
            },
            NamedTerm::Abs(b, body) => {
                out.append("(\u{3bb}");
                push_char(out, b.name);
                out.append(":");
                b.ty.write_to(out);
                out.append(". ");
                body.write_to(out);
                out.append(")");
                assert(out@ == old(out)@ + self.spelling());
            },
            NamedTerm::App(t1, t2) => {
                out.append("(");
                t1.write_to(out);
                out.append(" ");
                t2.write_to(out);
                out.append(")");
                assert(out@ == old(out)@ + self.spelling());
            },
            NamedTerm::Let(name, t1, t2) => {
                out.append("(let ");
                push_char(out, *name);
                out.append(" = ");
                t1.write_to(out);
                out.append(" in ");
                t2.write_to(out);
                out.append(")");
                assert(out@ == old(out)@ + self.spelling());
            },
        }
    }

    /// The term as it is written.
    pub fn render(&self) -> (text: String)
        ensures
            text@ == self.spelling(),
    {
        let mut text = String::new();
        self.write_to(&mut text);
        assert(text@ == self.spelling());
        text
    }
}

/// Reads the term that `input` spells. A term is read if and only if the
/// input, each backslash taken for a lambda, is the spelling of a term whose
/// names are Latin letters, and that term is the one read. Otherwise the
/// first error in the input is returned.
pub fn parse(input: String) -> (res: Result<NamedTerm, ParseError>)
    ensures
        match read_all(input@, 0) {
            Ok(term) => res is Ok && res->Ok_0 == term,
            Err(e) => res is Err && res->Err_0@ == e,
        },
        res is Ok ==> names_ok(res->Ok_0) && plain(input@) == res->Ok_0.spelling(),
        forall|t: NamedTerm|
            names_ok(t) && plain(input@) == #[trigger] t.spelling() ==> res is Ok && res->Ok_0
                == t,
{
    proof {
        match read_all(input@, 0) {
            Ok(term) => lemma_read_is_spelt(input@, term),
            Err(_) => {},
        }
        assert forall|t: NamedTerm|
            names_ok(t) && plain(input@) == #[trigger] t.spelling() implies read_all(input@, 0)
                == Ok::<NamedTerm, grammar::Failure>(t) by {
            lemma_spelt_is_read(input@, t);
        }
    }
    Parser::run(Tokenizer::new(input))
}

/// A recursive-descent parser with one token of lookahead.
struct Parser {
    lookahead: Token,
    tokens: Tokenizer,
    /// The position at which the lookahead token begins.
    at: Ghost<int>,
}

impl Parser {
    /// The text that is being parsed.
    spec fn text(&self) -> Seq<char> {
        self.tokens.text()
    }

    /// The position, in characters, of the lookahead token.
    spec fn at(&self) -> int {
        self.at@
    }

    /// The lookahead is the token at `at`, and the tokenizer stands behind
    /// it.
    spec fn inv(&self) -> bool {
        &&& 0 <= self.at()
        &&& self.tokens.pos() <= self.text().len()
        &&& scan(self.text(), self.at()) == Ok::<(Tok, int), result::Flaw>(
            (self.lookahead@.1, self.tokens.pos()),
        )
        &&& self.lookahead@.0 == offset_of(self.text(), self.at())
    }

    /// Parses the whole of what `tokens` has still to hand out.
    fn run(tokens: Tokenizer) -> (res: Result<NamedTerm, ParseError>)
        ensures
            match read_all(tokens.text(), tokens.pos()) {
                Ok(term) => res is Ok && res->Ok_0 == term,
                Err(e) => res is Err && res->Err_0@ == e,
            },
    {
        reveal(read_term);
        let ghost start = tokens.pos();
        proof {
            lemma_scan_moves(tokens.text(), start);
        }
        let mut tokens = tokens;
        let lookahead = match tokens.next_token() {
            Ok(token) => token,
            Err(e) => {
                return Err(e);
            },
        };
        let mut parser = Parser { lookahead, tokens, at: Ghost(start) };
        let term = match parser.parse_term() {
            Ok(term) => term,
            Err(e) => {
                return Err(e);
            },
        };
        match parser.expect_token(TokenKind::EOF) {
            Ok(()) => Ok(term),
            Err(e) => Err(e),
        }
    }

    /// Hands out the lookahead token and reads the next one in its place.
    fn consume_lookahead(&mut self) -> (res: Result<Token, ParseError>)
        requires
            old(self).inv(),
        ensures
            final(self).text() == old(self).text(),
            match read_token(old(self).text(), old(self).at()) {
                Ok((tok, n)) => res is Ok && res->Ok_0@ == (
                    offset_of(old(self).text(), old(self).at()) as int,
                    tok,
                ) && final(self).inv() && final(self).at() == old(self).at() + n,
                Err(e) => res is Err && res->Err_0@ == e,
            },
    {
        proof {
            lemma_scan_moves(self.text(), self.at());
        }
        let ghost next = self.tokens.pos();
        let mut token = match self.tokens.next_token() {
            Ok(token) => token,
            Err(e) => {
                return Err(e);
            },
        };
        std::mem::swap(&mut token, &mut self.lookahead);
        self.at = Ghost(next);
        Ok(token)
    }

    /// Consumes the lookahead token, which must be of the kind `expected`.
    fn expect_token(&mut self, expected: TokenKind) -> (res: Result<(), ParseError>)
        requires
            old(self).inv(),
        ensures
            final(self).text() == old(self).text(),
            match read_exact(old(self).text(), old(self).at(), expected@) {
                Ok(n) => res is Ok && final(self).inv() && final(self).at() == old(self).at() + n,
                Err(e) => res is Err && res->Err_0@ == e,
            },
    {
        let token = match self.consume_lookahead() {
            Ok(token) => token,
            Err(e) => {
                return Err(e);
            },
        };
        if expected.same(token.kind()) {
            Ok(())
        } else {
            Err(token.into_unexpected())
        }
    }

    /// Consumes the lookahead token, which must be the word `expected_word`.
    fn expect_word(&mut self, expected_word: &str) -> (res: Result<(), ParseError>)
        requires
            old(self).inv(),
        ensures
            final(self).text() == old(self).text(),
            match read_exact(old(self).text(), old(self).at(), Tok::Word(expected_word@)) {
                Ok(n) => res is Ok && final(self).inv() && final(self).at() == old(self).at() + n,
                Err(e) => res is Err && res->Err_0@ == e,
            },
    {
        self.expect_token(TokenKind::Word(expected_word.to_owned()))
    }

    /// Consumes the lookahead token, which must be a name.
    fn parse_name(&mut self) -> (res: Result<Name, ParseError>)
        requires
            old(self).inv(),
        ensures
            final(self).text() == old(self).text(),
            match read_name(old(self).text(), old(self).at()) {
                Ok((name, n)) => res is Ok && res->Ok_0 == name && final(self).inv()
                    && final(self).at() == old(self).at() + n,
                Err(e) => res is Err && res->Err_0@ == e,
            },
    {
        let token = match self.consume_lookahead() {
            Ok(token) => token,
            Err(e) => {
                return Err(e);
            },
        };
        match token.kind() {
            TokenKind::AlphaChar(c) => Ok(*c),
            _ => Err(token.into_unexpected()),
        }
    }

    /// Parses a term.
    fn parse_term(&mut self) -> (res: Result<NamedTerm, ParseError>)
        requires
            old(self).inv(),
        ensures
            final(self).text() == old(self).text(),
            match read_term(old(self).text(), old(self).at()) {
                Ok((value, n)) => res is Ok && res->Ok_0 == value && final(self).inv()
                    && final(self).at() == old(self).at() + n,
                Err(e) => res is Err && res->Err_0@ == e,
            },
        decreases old(self).text().len() - old(self).at(), 0nat,
    {
        reveal(read_term);
        reveal(read_inner);
        proof {
            lemma_read_token_moves(self.text(), self.at());
        }
        let token = match self.consume_lookahead() {
            Ok(token) => token,
            Err(e) => {
                return Err(e);
            },
        };
        match token.kind() {
            TokenKind::Word(chars) => {
                let unit = "unit".to_owned();
                if *chars == unit {
                    Ok(NamedTerm::Unit)
                } else {
                    Err(token.into_unexpected())
                }
            },
            TokenKind::AlphaChar(c) => Ok(NamedTerm::Var(*c)),
            TokenKind::LBracket => {
                let term = match self.parse_inner() {
                    Ok(term) => term,
                    Err(e) => {
                        return Err(e);
                    },
                };
                match self.expect_token(TokenKind::RBracket) {
                    Ok(()) => Ok(term),
                    Err(e) => Err(e),
                }
            },
            _ => Err(token.into_unexpected()),
        }
    }

    /// Parses what stands between two brackets, choosing the form by the
    /// lookahead token.
    fn parse_inner(&mut self) -> (res: Result<NamedTerm, ParseError>)
        requires
            old(self).inv(),
        ensures
            final(self).text() == old(self).text(),
            match read_inner(old(self).text(), old(self).at()) {
                Ok((value, n)) => res is Ok && res->Ok_0 == value && final(self).inv()
                    && final(self).at() == old(self).at() + n,
                Err(e) => res is Err && res->Err_0@ == e,
            },
        decreases old(self).text().len() - old(self).at(), 2nat,
    {
        reveal(read_inner);
        reveal(read_lam);
        reveal(read_let);
        reveal(read_app);
        let form: u8 = match self.lookahead.kind() {
            TokenKind::Lambda => 0,
            TokenKind::Word(chars) => {
                let word = "let".to_owned();
                if *chars == word {
                    1
                } else {
                    2
                }
            },
            _ => 2,
        };
        if form == 0 {
            self.parse_lam()
        } else if form == 1 {
            self.parse_let()
        } else {
            self.parse_app()
        }
    }

    /// Expects two tokens, one after the other.
    fn expect_pair(&mut self, a: TokenKind, b: TokenKind) -> (res: Result<(), ParseError>)
        requires
            old(self).inv(),
        ensures
            final(self).text() == old(self).text(),
            match read_pair(old(self).text(), old(self).at(), a@, b@) {
                Ok(n) => res is Ok && final(self).inv() && final(self).at() == old(self).at() + n,
                Err(e) => res is Err && res->Err_0@ == e,
            },
    {
        match self.expect_token(a) {
            Ok(()) => {},
            Err(e) => {
                return Err(e);
            },
        }
        self.expect_token(b)
    }

    /// Expects three tokens, one after the other.
    fn expect_triple(&mut self, a: TokenKind, b: TokenKind, c: TokenKind) -> (res: Result<
        (),
        ParseError,
    >)
        requires
            old(self).inv(),
        ensures
            final(self).text() == old(self).text(),
            match read_triple(old(self).text(), old(self).at(), a@, b@, c@) {
                Ok(n) => res is Ok && final(self).inv() && final(self).at() == old(self).at() + n,
                Err(e) => res is Err && res->Err_0@ == e,
            },
    {
        match self.expect_token(a) {
            Ok(()) => {},
            Err(e) => {
                return Err(e);
            },
        }
        self.expect_pair(b, c)
    }

    /// Parses the head of an abstraction, up to its body.
    fn parse_lam_head(&mut self) -> (res: Result<Binding, ParseError>)
        requires
            old(self).inv(),
        ensures
            final(self).text() == old(self).text(),
            match read_lam_head(old(self).text(), old(self).at()) {
                Ok((value, n)) => res is Ok && res->Ok_0 == value && final(self).inv()
                    && final(self).at() == old(self).at() + n,
                Err(e) => res is Err && res->Err_0@ == e,
            },
    {
        reveal(read_lam_head);
        match self.expect_token(TokenKind::Lambda) {
            Ok(()) => {},
            Err(e) => {
                return Err(e);
            },
        }
        let name = match self.parse_name() {
            Ok(value) => value,
            Err(e) => {
                return Err(e);
            },
        };
        match self.expect_token(TokenKind::Colon) {
            Ok(()) => {},
            Err(e) => {
                return Err(e);
            },
        }
        let ty = match self.parse_ty() {
            Ok(value) => value,
            Err(e) => {
                return Err(e);
            },
        };
        match self.expect_pair(TokenKind::Dot, TokenKind::Space) {
            Ok(()) => {},
            Err(e) => {
                return Err(e);
            },
        }
        Ok(Binding { name, ty })
    }

    /// Parses an abstraction, from its lambda to the end of its body.
    fn parse_lam(&mut self) -> (res: Result<NamedTerm, ParseError>)
        requires
            old(self).inv(),
        ensures
            final(self).text() == old(self).text(),
            match read_lam(old(self).text(), old(self).at()) {
                Ok((value, n)) => res is Ok && res->Ok_0 == value && final(self).inv()
                    && final(self).at() == old(self).at() + n,
                Err(e) => res is Err && res->Err_0@ == e,
            },
        decreases old(self).text().len() - old(self).at(), 1nat,
    {
        reveal(read_lam);
        reveal(read_term);
        proof {
            lemma_read_lam_head_moves(self.text(), self.at());
        }
        let bind = match self.parse_lam_head() {
            Ok(value) => value,
            Err(e) => {
                return Err(e);
            },
        };
        let body = match self.parse_term() {
            Ok(value) => value,
            Err(e) => {
                return Err(e);
            },
        };
        Ok(NamedTerm::Abs(bind, Box::new(body)))
    }

    /// Parses an application, from its function to the end of its argument.
    fn parse_app(&mut self) -> (res: Result<NamedTerm, ParseError>)
        requires
            old(self).inv(),
        ensures
            final(self).text() == old(self).text(),
            match read_app(old(self).text(), old(self).at()) {
                Ok((value, n)) => res is Ok && res->Ok_0 == value && final(self).inv()
                    && final(self).at() == old(self).at() + n,
                Err(e) => res is Err && res->Err_0@ == e,
            },
        decreases old(self).text().len() - old(self).at(), 1nat,
    {
        reveal(read_app);
        reveal(read_term);
        let t1 = match self.parse_term() {
            Ok(term) => term,
            Err(e) => {
                return Err(e);
            },
        };
        proof {
            lemma_read_token_moves(self.text(), self.at());
        }
        match self.expect_token(TokenKind::Space) {
            Ok(()) => {},
            Err(e) => {
                return Err(e);
            },
        }
        let t2 = match self.parse_term() {
            Ok(term) => term,
            Err(e) => {
                return Err(e);
            },
        };
        Ok(NamedTerm::App(Box::new(t1), Box::new(t2)))
    }

    /// Parses the head of a `let`, up to the term that is bound.
    fn parse_let_head(&mut self) -> (res: Result<Name, ParseError>)
        requires
            old(self).inv(),
        ensures
            final(self).text() == old(self).text(),
            match read_let_head(old(self).text(), old(self).at()) {
                Ok((value, n)) => res is Ok && res->Ok_0 == value && final(self).inv()
                    && final(self).at() == old(self).at() + n,
                Err(e) => res is Err && res->Err_0@ == e,
            },
    {
        reveal(read_let_head);
        match self.expect_word("let") {
            Ok(()) => {},
            Err(e) => {
                return Err(e);
            },
        }
        match self.expect_token(TokenKind::Space) {
            Ok(()) => {},
            Err(e) => {
                return Err(e);
            },
        }
        let name = match self.parse_name() {
            Ok(value) => value,
            Err(e) => {
                return Err(e);
            },
        };
        match self.expect_triple(TokenKind::Space, TokenKind::Equal, TokenKind::Space) {
            Ok(()) => {},
            Err(e) => {
                return Err(e);
            },
        }
        Ok(name)
    }

    /// Parses a `let`, from the word `let` to the end of its body.
    fn parse_let(&mut self) -> (res: Result<NamedTerm, ParseError>)
        requires
            old(self).inv(),
        ensures
            final(self).text() == old(self).text(),
            match read_let(old(self).text(), old(self).at()) {
                Ok((value, n)) => res is Ok && res->Ok_0 == value && final(self).inv()
                    && final(self).at() == old(self).at() + n,
                Err(e) => res is Err && res->Err_0@ == e,
            },
        decreases old(self).text().len() - old(self).at(), 1nat,
    {
        reveal(read_let);
        reveal(read_term);
        let ghost s = self.text();
        proof {
            lemma_read_let_head_moves(s, self.at());
        }
        let name = match self.parse_let_head() {
            Ok(value) => value,
            Err(e) => {
                return Err(e);
            },
        };
        let t1 = match self.parse_term() {
            Ok(value) => value,
            Err(e) => {
                return Err(e);
            },
        };
        proof {
            lemma_read_triple_moves(s, self.at(), Tok::Space, Tok::Word("in"@), Tok::Space);
        }
        let word = TokenKind::Word("in".to_owned());
        match self.expect_triple(TokenKind::Space, word, TokenKind::Space) {
            Ok(()) => {},
            Err(e) => {
                return Err(e);
            },
        }
        let t2 = match self.parse_term() {
            Ok(value) => value,
            Err(e) => {
                return Err(e);
            },
        };
        Ok(NamedTerm::Let(name, Box::new(t1), Box::new(t2)))
    }

    /// Parses a type.
    fn parse_ty(&mut self) -> (res: Result<Ty, ParseError>)
        requires
            old(self).inv(),
        ensures
            final(self).text() == old(self).text(),
            match read_ty(old(self).text(), old(self).at()) {
                Ok((value, n)) => res is Ok && res->Ok_0 == value && final(self).inv()
                    && final(self).at() == old(self).at() + n,
                Err(e) => res is Err && res->Err_0@ == e,
            },
        decreases old(self).text().len() - old(self).at(),
    {
        reveal(read_ty);
        let ghost s = self.text();
        let ghost p = self.at();
        proof {
            lemma_read_token_moves(s, p);
        }
        let token = match self.consume_lookahead() {
            Ok(token) => token,
            Err(e) => {
                return Err(e);
            },
        };
        match token.kind() {
            TokenKind::LBracket => {
                let t1 = match self.parse_ty() {
                    Ok(ty) => ty,
                    Err(e) => {
                        return Err(e);
                    },
                };
                proof {
                    lemma_read_triple_moves(s, self.at(), Tok::Space, Tok::Arrow, Tok::Space);
                }
                match self.expect_triple(TokenKind::Space, TokenKind::Arrow, TokenKind::Space) {
                    Ok(()) => {},
                    Err(e) => {
                        return Err(e);
                    },
                }
                let t2 = match self.parse_ty() {
                    Ok(ty) => ty,
                    Err(e) => {
                        return Err(e);
                    },
                };
                match self.expect_token(TokenKind::RBracket) {
                    Ok(()) => Ok(Ty::Arrow(Box::new(t1), Box::new(t2))),
                    Err(e) => Err(e),
                }
            },
            TokenKind::Word(chars) => {
                let unit = "Unit".to_owned();
                if *chars == unit {
                    Ok(Ty::Unit)
                } else {
                    Err(token.into_unexpected())
                }
            },
            _ => Err(token.into_unexpected()),
        }
    }
}

} // verus!
