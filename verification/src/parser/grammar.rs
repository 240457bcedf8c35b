use vstd::prelude::*;
use super::result::Flaw;
use super::tokenizer::{offset_of, scan, word_end, Tok};
use super::NamedTerm;
use crate::ty::{Binding, Ty};

verus! {

/// A parse error in its mathematical form: the byte offset of the token at
/// which it was found, and what was wrong.
pub type Failure = (int, Flaw);

/// The error that reports the token `tok`, which begins at position `p`, as
/// unexpected.
pub open spec fn unexpected(s: Seq<char>, p: int, tok: Tok) -> Failure {
    (offset_of(s, p) as int, Flaw::UnexpectedToken(tok))
}

/// The token at position `p` and the number of characters it takes. A token
/// is handed out only once the token after it has been read, so a flaw in
/// that one is reported first.
pub open spec fn read_token(s: Seq<char>, p: int) -> Result<(Tok, nat), Failure> {
    match scan(s, p) {
        Err(flaw) => Err((offset_of(s, p) as int, flaw)),
        Ok((tok, q)) => match scan(s, q) {
            Err(flaw) => Err((offset_of(s, q) as int, flaw)),
            Ok(_) => Ok((tok, (q - p) as nat)),
        },
    }
}

/// The number of characters that the token `tok` takes at position `p`, if
/// it is the token there.
pub open spec fn read_exact(s: Seq<char>, p: int, tok: Tok) -> Result<nat, Failure> {
    match read_token(s, p) {
        Err(e) => Err(e),
        Ok((found, n)) => if found == tok {
            Ok(n)
        } else {
            Err(unexpected(s, p, found))
        },
    }
}

/// The number of characters that the tokens `a` and `b`, one after the
/// other, take at position `p`.
pub open spec fn read_pair(s: Seq<char>, p: int, a: Tok, b: Tok) -> Result<nat, Failure> {
    match read_exact(s, p, a) {
        Err(e) => Err(e),
        Ok(n) => match read_exact(s, p + n, b) {
            Err(e) => Err(e),
            Ok(m) => Ok(n + m),
        },
    }
}

/// The number of characters that the tokens `a`, `b` and `c`, one after the
/// other, take at position `p`.
pub open spec fn read_triple(s: Seq<char>, p: int, a: Tok, b: Tok, c: Tok) -> Result<
    nat,
    Failure,
> {
    match read_exact(s, p, a) {
        Err(e) => Err(e),
        Ok(n) => match read_pair(s, p + n, b, c) {
            Err(e) => Err(e),
            Ok(m) => Ok(n + m),
        },
    }
}

/// A name: one letter that takes one byte.
pub open spec fn read_name(s: Seq<char>, p: int) -> Result<(char, nat), Failure> {
    match read_token(s, p) {
        Err(e) => Err(e),
        Ok((Tok::AlphaChar(c), n)) => Ok((c, n)),
        Ok((found, _)) => Err(unexpected(s, p, found)),
    }
}

/// A token that is not the end of the text lies within the text and takes
/// at least one character.
pub proof fn lemma_scan_moves(s: Seq<char>, p: int)
    ensures
        match scan(s, p) {
            Ok((tok, q)) => if tok == Tok::EOF {
                q == p
            } else {
                0 <= p < q <= s.len()
            },
            Err(_) => true,
        },
{
    reveal(scan);
    if 0 <= p < s.len() {
        lemma_word_end_bounds(s, p + 1);
    }
}

/// A run of letters ends at or after its start, within the text.
pub proof fn lemma_word_end_bounds(s: Seq<char>, p: int)
    requires
        0 <= p <= s.len(),
    ensures
        p <= word_end(s, p) <= s.len(),
    decreases s.len() - p,
{
    if p < s.len() && crate::text::is_letter(s[p]) {
        lemma_word_end_bounds(s, p + 1);
    }
}

/// A token other than the end of the text, once read, lies within the text
/// and takes at least one character.
pub proof fn lemma_read_token_moves(s: Seq<char>, p: int)
    ensures
        match read_token(s, p) {
            Ok((tok, n)) => tok != Tok::EOF ==> 0 <= p && n >= 1 && p + n <= s.len(),
            Err(_) => true,
        },
{
    lemma_scan_moves(s, p);
}

/// A type: `Unit`, or `(` type ` -> ` type `)`.
#[verifier::opaque]
pub open spec fn read_ty(s: Seq<char>, p: int) -> Result<(Ty, nat), Failure>
    decreases s.len() - p,
{
    match read_token(s, p) {
        Err(e) => Err(e),
        Ok((Tok::LBracket, n0)) => {
            proof {
                lemma_read_token_moves(s, p);
            }
            match read_ty(s, p + n0) {
                Err(e) => Err(e),
                Ok((t1, n1)) => match read_triple(
                    s,
                    p + n0 + n1,
                    Tok::Space,
                    Tok::Arrow,
                    Tok::Space,
                ) {
                    Err(e) => Err(e),
                    Ok(n2) => {
                        proof {
                            lemma_read_triple_moves(
                                s,
                                p + n0 + n1,
                                Tok::Space,
                                Tok::Arrow,
                                Tok::Space,
                            );
                        }
                        match read_ty(s, p + n0 + n1 + n2) {
                            Err(e) => Err(e),
                            Ok((t2, n3)) => match read_exact(
                                s,
                                p + n0 + n1 + n2 + n3,
                                Tok::RBracket,
                            ) {
                                Err(e) => Err(e),
                                Ok(n4) => Ok(
                                    (
                                        Ty::Arrow(Box::new(t1), Box::new(t2)),
                                        n0 + n1 + n2 + n3 + n4,
                                    ),
                                ),
                            },
                        }
                    },
                },
            }
        },
        Ok((Tok::Word(w), n0)) => if w == "Unit"@ {
            Ok((Ty::Unit, n0))
        } else {
            Err(unexpected(s, p, Tok::Word(w)))
        },
        Ok((found, _)) => Err(unexpected(s, p, found)),
    }
}

/// The head of an abstraction: a lambda, a name, `:`, a type and `. `.
#[verifier::opaque]
pub open spec fn read_lam_head(s: Seq<char>, p: int) -> Result<(Binding, nat), Failure> {
    match read_exact(s, p, Tok::Lambda) {
        Err(e) => Err(e),
        Ok(n0) => match read_name(s, p + n0) {
            Err(e) => Err(e),
            Ok((name, n1)) => match read_exact(s, p + n0 + n1, Tok::Colon) {
                Err(e) => Err(e),
                Ok(n2) => match read_ty(s, p + n0 + n1 + n2) {
                    Err(e) => Err(e),
                    Ok((ty, n3)) => match read_pair(
                        s,
                        p + n0 + n1 + n2 + n3,
                        Tok::Dot,
                        Tok::Space,
                    ) {
                        Err(e) => Err(e),
                        Ok(n4) => Ok((Binding { name, ty }, n0 + n1 + n2 + n3 + n4)),
                    },
                },
            },
        },
    }
}

/// The head of an abstraction, once read, lies within the text.
pub proof fn lemma_read_lam_head_moves(s: Seq<char>, p: int)
    ensures
        match read_lam_head(s, p) {
            Ok((_, n)) => 0 <= p && n >= 1 && p + n <= s.len(),
            Err(_) => true,
        },
{
    reveal(read_lam_head);
    lemma_read_token_moves(s, p);
    match read_lam_head(s, p) {
        Ok((_, n)) => {
            let n0 = read_exact(s, p, Tok::Lambda)->Ok_0;
            let n1 = read_name(s, p + n0)->Ok_0.1;
            let n2 = read_exact(s, p + n0 + n1, Tok::Colon)->Ok_0;
            let n3 = read_ty(s, p + n0 + n1 + n2)->Ok_0.1;
            lemma_read_pair_moves(s, p + n0 + n1 + n2 + n3, Tok::Dot, Tok::Space);
        },
        Err(_) => {},
    }
}

/// The body of a parenthesised abstraction: its head and a term.
#[verifier::opaque]
pub open spec fn read_lam(s: Seq<char>, p: int) -> Result<(NamedTerm, nat), Failure>
    decreases s.len() - p, 1nat,
{
    match read_lam_head(s, p) {
        Err(e) => Err(e),
        Ok((b, n0)) => {
            proof {
                lemma_read_lam_head_moves(s, p);
            }
            match read_term(s, p + n0) {
                Err(e) => Err(e),
                Ok((body, n1)) => Ok((NamedTerm::Abs(b, Box::new(body)), n0 + n1)),
            }
        },
    }
}

/// The body of a parenthesised application: a term, a space and a term.
#[verifier::opaque]
pub open spec fn read_app(s: Seq<char>, p: int) -> Result<(NamedTerm, nat), Failure>
    decreases s.len() - p, 1nat,
{
    match read_term(s, p) {
        Err(e) => Err(e),
        Ok((t1, n0)) => match read_exact(s, p + n0, Tok::Space) {
            Err(e) => Err(e),
            Ok(n1) => {
                proof {
                    lemma_read_token_moves(s, p + n0);
                }
                match read_term(s, p + n0 + n1) {
                    Err(e) => Err(e),
                    Ok((t2, n2)) => Ok((NamedTerm::App(Box::new(t1), Box::new(t2)), n0 + n1 + n2)),
                }
            },
        },
    }
}

/// The head of a `let`: `let`, a space, a name and ` = `.
#[verifier::opaque]
pub open spec fn read_let_head(s: Seq<char>, p: int) -> Result<(char, nat), Failure> {
    match read_pair(s, p, Tok::Word("let"@), Tok::Space) {
        Err(e) => Err(e),
        Ok(n0) => match read_name(s, p + n0) {
            Err(e) => Err(e),
            Ok((name, n1)) => match read_triple(
                s,
                p + n0 + n1,
                Tok::Space,
                Tok::Equal,
                Tok::Space,
            ) {
                Err(e) => Err(e),
                Ok(n2) => Ok((name, n0 + n1 + n2)),
            },
        },
    }
}

/// The head of a `let`, once read, lies within the text.
pub proof fn lemma_read_let_head_moves(s: Seq<char>, p: int)
    ensures
        match read_let_head(s, p) {
            Ok((_, n)) => 0 <= p && n >= 1 && p + n <= s.len(),
            Err(_) => true,
        },
{
    reveal(read_let_head);
    lemma_read_token_moves(s, p);
    match read_let_head(s, p) {
        Ok((_, n)) => {
            let n0 = read_pair(s, p, Tok::Word("let"@), Tok::Space)->Ok_0;
            let n1 = read_name(s, p + n0)->Ok_0.1;
            lemma_read_triple_moves(s, p + n0 + n1, Tok::Space, Tok::Equal, Tok::Space);
        },
        Err(_) => {},
    }
}

/// The body of a parenthesised `let`: its head, a term, ` in ` and a term.
#[verifier::opaque]
pub open spec fn read_let(s: Seq<char>, p: int) -> Result<(NamedTerm, nat), Failure>
    decreases s.len() - p, 1nat,
{
    match read_let_head(s, p) {
        Err(e) => Err(e),
        Ok((name, n0)) => {
            proof {
                lemma_read_let_head_moves(s, p);
            }
            match read_term(s, p + n0) {
                Err(e) => Err(e),
                Ok((t1, n1)) => match read_triple(
                    s,
                    p + n0 + n1,
                    Tok::Space,
                    Tok::Word("in"@),
                    Tok::Space,
                ) {
                    Err(e) => Err(e),
                    Ok(n2) => {
                        proof {
                            lemma_read_triple_moves(
                                s,
                                p + n0 + n1,
                                Tok::Space,
                                Tok::Word("in"@),
                                Tok::Space,
                            );
                        }
                        match read_term(s, p + n0 + n1 + n2) {
                            Err(e) => Err(e),
                            Ok((t2, n3)) => Ok(
                                (
                                    NamedTerm::Let(name, Box::new(t1), Box::new(t2)),
                                    n0 + n1 + n2 + n3,
                                ),
                            ),
                        }
                    },
                },
            }
        },
    }
}

/// Which form stands between the brackets at position `p`, by its first
/// token: a lambda begins an abstraction, the word `let` a `let`, anything
/// else an application.
#[verifier::opaque]
pub open spec fn read_inner(s: Seq<char>, p: int) -> Result<(NamedTerm, nat), Failure>
    decreases s.len() - p, 2nat,
{
    match scan(s, p) {
        Ok((Tok::Lambda, _)) => read_lam(s, p),
        Ok((Tok::Word(w), _)) => if w == "let"@ {
            read_let(s, p)
        } else {
            read_app(s, p)
        },
        _ => read_app(s, p),
    }
}

/// A term: `unit`, a name, or one of the three forms between brackets.
#[verifier::opaque]
pub open spec fn read_term(s: Seq<char>, p: int) -> Result<(NamedTerm, nat), Failure>
    decreases s.len() - p, 0nat,
{
    match read_token(s, p) {
        Err(e) => Err(e),
        Ok((Tok::Word(w), n0)) => if w == "unit"@ {
            Ok((NamedTerm::Unit, n0))
        } else {
            Err(unexpected(s, p, Tok::Word(w)))
        },
        Ok((Tok::AlphaChar(c), n0)) => Ok((NamedTerm::Var(c), n0)),
        Ok((Tok::LBracket, n0)) => {
            proof {
                lemma_read_token_moves(s, p);
            }
            match read_inner(s, p + n0) {
                Err(e) => Err(e),
                Ok((t, n1)) => match read_exact(s, p + n0 + n1, Tok::RBracket) {
                    Err(e) => Err(e),
                    Ok(n2) => Ok((t, n0 + n1 + n2)),
                },
            }
        },
        Ok((found, _)) => Err(unexpected(s, p, found)),
    }
}

/// The term that the text from position `p` on spells, which must reach to
/// the end of the text; or the first error found in it.
pub open spec fn read_all(s: Seq<char>, p: int) -> Result<NamedTerm, Failure> {
    match read_term(s, p) {
        Err(e) => Err(e),
        Ok((t, n)) => match read_exact(s, p + n, Tok::EOF) {
            Err(e) => Err(e),
            Ok(_) => Ok(t),
        },
    }
}

/// Two tokens read one after the other, neither of them the end of the
/// text, lie within the text.
pub proof fn lemma_read_pair_moves(s: Seq<char>, p: int, a: Tok, b: Tok)
    requires
        a != Tok::EOF,
        b != Tok::EOF,
    ensures
        match read_pair(s, p, a, b) {
            Ok(n) => 0 <= p && n >= 2 && p + n <= s.len(),
            Err(_) => true,
        },
{
    lemma_read_token_moves(s, p);
    match read_exact(s, p, a) {
        Ok(n) => lemma_read_token_moves(s, p + n),
        Err(_) => {},
    }
}

/// Three tokens read one after the other, none of them the end of the text,
/// lie within the text.
pub proof fn lemma_read_triple_moves(s: Seq<char>, p: int, a: Tok, b: Tok, c: Tok)
    requires
        a != Tok::EOF,
        b != Tok::EOF,
        c != Tok::EOF,
    ensures
        match read_triple(s, p, a, b, c) {
            Ok(n) => 0 <= p && n >= 3 && p + n <= s.len(),
            Err(_) => true,
        },
{
    lemma_read_token_moves(s, p);
    match read_exact(s, p, a) {
        Ok(n) => lemma_read_pair_moves(s, p + n, b, c),
        Err(_) => {},
    }
}

} // verus!
