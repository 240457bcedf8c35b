use vstd::prelude::*;
use super::grammar::{
    read_all, read_app, read_exact, read_inner, read_lam, read_lam_head, read_let,
    read_let_head, read_name, read_pair, read_term, read_token, read_triple, read_ty, Failure,
};
use super::result::Flaw;
use super::spelling::{
    ends_at, lemma_lengths, lemma_literals, lemma_spelling_plain, lemma_spelt_char,
    lemma_spelt_split, lemma_spelt_stands, lemma_stands_char, lemma_utf8_len_at_least, mark,
    names_ok, plain, plain_char, spelt_at, stands_at,
};
use super::tokenizer::{scan, utf8_len, utf8_width, word_end, Tok};
use super::NamedTerm;
use crate::text::{is_letter, is_name};
use crate::ty::{Binding, Ty};

verus! {

/// A run of letters reaches up to the first character that is none.
proof fn lemma_word_end_run(s: Seq<char>, p: int, q: int)
    requires
        0 <= p <= q <= s.len(),
        forall|i: int| p <= i < q ==> is_letter(#[trigger] s[i]),
        q < s.len() ==> !is_letter(s[q]),
    ensures
        word_end(s, p) == q,
    decreases q - p,
{
    if p < q {
        assert(is_letter(s[p]));
        lemma_word_end_run(s, p + 1, q);
    }
}

/// A word of two or more Latin letters is read as a word.
proof fn lemma_read_word(s: Seq<char>, p: int, w: Seq<char>)
    requires
        stands_at(s, p, w),
        w.len() >= 2,
        forall|i: int| 0 <= i < w.len() ==> is_name(#[trigger] w[i]),
        ends_at(s, p + w.len()),
    ensures
        scan(s, p) == Ok::<(Tok, int), Flaw>((Tok::Word(w), p + w.len())),
        read_token(s, p) == Ok::<(Tok, nat), Failure>((Tok::Word(w), w.len())),
{
    reveal(scan);
    reveal(stands_at);
    let q = p + w.len();
    assert forall|i: int| p <= i < q implies is_letter(#[trigger] s[i]) by {
        lemma_stands_char(s, p, w, i - p);
        assert(is_name(w[i - p]));
    }
    lemma_stands_char(s, p, w, 0);
    assert(is_name(w[0]));
    lemma_word_end_run(s, p + 1, q);
    lemma_utf8_len_at_least(w);
}

/// A Latin letter that no letter follows is read as a name.
proof fn lemma_read_letter(s: Seq<char>, p: int)
    requires
        0 <= p < s.len(),
        is_name(s[p]),
        ends_at(s, p + 1),
    ensures
        scan(s, p) == Ok::<(Tok, int), Flaw>((Tok::AlphaChar(s[p]), p + 1)),
        read_token(s, p) == Ok::<(Tok, nat), Failure>((Tok::AlphaChar(s[p]), 1)),
{
    reveal(scan);
    lemma_word_end_run(s, p + 1, p + 1);
    let w = s.subrange(p, p + 1);
    assert(w.drop_first() == Seq::<char>::empty());
    assert(utf8_len(w) == utf8_width(w[0]) + utf8_len(w.drop_first()));
    assert(utf8_len(w.drop_first()) == 0);
}

/// A token of one character is read where its character stands, a
/// backslash standing for a lambda, before something that can be read; and,
/// the lambda apart, a word may end before it.
proof fn lemma_read_mark(s: Seq<char>, p: int, tok: Tok)
    requires
        0 <= p < s.len(),
        plain_char(s[p]) == mark(tok),
        mark(tok) != '-',
        scan(s, p + 1) is Ok,
    ensures
        read_exact(s, p, tok) == Ok::<nat, Failure>(1),
        read_token(s, p) == Ok::<(Tok, nat), Failure>((tok, 1)),
        scan(s, p) is Ok,
        tok != Tok::Lambda ==> ends_at(s, p),
{
    reveal(scan);
}

/// An opening bracket is read before something that can be read.
proof fn lemma_read_open(s: Seq<char>, p: int)
    requires
        stands_at(s, p, "("@),
        scan(s, p + 1) is Ok,
    ensures
        "("@.len() == 1,
        read_token(s, p) == Ok::<(Tok, nat), Failure>((Tok::LBracket, 1)),
        scan(s, p) is Ok,
{
    reveal_strlit("(");
    lemma_stands_char(s, p, "("@, 0);
    lemma_read_mark(s, p, Tok::LBracket);
}

/// A closing bracket is read before something that can be read, and a word
/// may end before it.
proof fn lemma_read_close(s: Seq<char>, p: int)
    requires
        stands_at(s, p, ")"@),
        scan(s, p + 1) is Ok,
    ensures
        ")"@.len() == 1,
        read_exact(s, p, Tok::RBracket) == Ok::<nat, Failure>(1),
        ends_at(s, p),
{
    reveal_strlit(")");
    lemma_stands_char(s, p, ")"@, 0);
    lemma_read_mark(s, p, Tok::RBracket);
}

/// An arrow between two spaces is read before something that can be read,
/// and a word may end before it.
proof fn lemma_read_arrow(s: Seq<char>, p: int)
    requires
        stands_at(s, p, " -> "@),
        scan(s, p + 4) is Ok,
    ensures
        " -> "@.len() == 4,
        read_triple(s, p, Tok::Space, Tok::Arrow, Tok::Space) == Ok::<nat, Failure>(4),
        ends_at(s, p),
{
    reveal_strlit(" -> ");
    lemma_stands_char(s, p, " -> "@, 0);
    lemma_stands_char(s, p, " -> "@, 1);
    lemma_stands_char(s, p, " -> "@, 2);
    lemma_stands_char(s, p, " -> "@, 3);
    lemma_read_mark(s, p + 3, Tok::Space);
    assert(scan(s, p + 1) == Ok::<(Tok, int), Flaw>((Tok::Arrow, p + 3))) by {
        reveal(scan);
    }
    assert(read_exact(s, p + 1, Tok::Arrow) == Ok::<nat, Failure>(2));
    lemma_read_mark(s, p, Tok::Space);
}

/// The word `Unit` is read where it stands before the end of a word.
proof fn lemma_read_unit_ty(s: Seq<char>, p: int)
    requires
        stands_at(s, p, "Unit"@),
        ends_at(s, p + "Unit"@.len()),
    ensures
        "Unit"@.len() == 4,
        read_token(s, p) == Ok::<(Tok, nat), Failure>((Tok::Word("Unit"@), 4)),
        scan(s, p) is Ok,
{
    reveal_strlit("Unit");
    lemma_read_word(s, p, "Unit"@);
}

/// The type that a text spells is the type that is read from it.
proof fn lemma_read_ty_spelled(s: Seq<char>, p: int, ty: Ty)
    requires
        spelt_at(s, p, ty.spelling().len(), ty.spelling()),
        ends_at(s, p + ty.spelling().len()),
    ensures
        read_ty(s, p) == Ok::<(Ty, nat), Failure>((ty, ty.spelling().len())),
        scan(s, p) is Ok,
    decreases ty,
{
    reveal(read_ty);
    lemma_lengths();
    lemma_literals();
    match ty {
        Ty::Unit => {
            lemma_spelt_stands(s, p, "Unit"@);
            lemma_read_unit_ty(s, p);
        },
        Ty::Arrow(a, b) => {
            let sa = a.spelling();
            let sb = b.spelling();
            let x1 = "("@ + sa;
            let x2 = x1 + " -> "@;
            let x3 = x2 + sb;
            lemma_spelt_split(s, p, x3, ")"@);
            lemma_spelt_split(s, p, x2, sb);
            lemma_spelt_split(s, p, x1, " -> "@);
            lemma_spelt_split(s, p, "("@, sa);
            let q = p + 1 + sa.len();
            let r = q + 4 + sb.len();
            lemma_spelt_stands(s, r, ")"@);
            lemma_spelt_stands(s, q, " -> "@);
            lemma_spelt_stands(s, p, "("@);
            lemma_read_close(s, r);
            lemma_read_ty_spelled(s, q + 4, *b);
            lemma_read_arrow(s, q);
            lemma_read_ty_spelled(s, p + 1, *a);
            lemma_read_open(s, p);
        },
    }
}

/// The word `unit` is read where it stands before the end of a word.
proof fn lemma_read_unit(s: Seq<char>, p: int)
    requires
        stands_at(s, p, "unit"@),
        ends_at(s, p + 4),
    ensures
        read_term(s, p) == Ok::<(NamedTerm, nat), Failure>((NamedTerm::Unit, 4)),
        scan(s, p) == Ok::<(Tok, int), Flaw>((Tok::Word("unit"@), p + 4)),
{
    reveal(read_term);
    reveal_strlit("unit");
    lemma_read_word(s, p, "unit"@);
}

/// A name is read as a variable where it stands before the end of a word.
proof fn lemma_read_var(s: Seq<char>, p: int)
    requires
        0 <= p < s.len(),
        is_name(s[p]),
        ends_at(s, p + 1),
    ensures
        read_term(s, p) == Ok::<(NamedTerm, nat), Failure>((NamedTerm::Var(s[p]), 1)),
        scan(s, p) is Ok,
        scan(s, p)->Ok_0.0 == Tok::AlphaChar(s[p]),
{
    reveal(read_term);
    lemma_read_letter(s, p);
}

/// A colon is read before something that can be read.
proof fn lemma_read_colon(s: Seq<char>, p: int)
    requires
        stands_at(s, p, ":"@),
        scan(s, p + 1) is Ok,
    ensures
        read_exact(s, p, Tok::Colon) == Ok::<nat, Failure>(1),
        ends_at(s, p),
{
    reveal_strlit(":");
    lemma_stands_char(s, p, ":"@, 0);
    lemma_read_mark(s, p, Tok::Colon);
}

/// A space is read before something that can be read.
proof fn lemma_read_space(s: Seq<char>, p: int)
    requires
        stands_at(s, p, " "@),
        scan(s, p + 1) is Ok,
    ensures
        read_exact(s, p, Tok::Space) == Ok::<nat, Failure>(1),
        ends_at(s, p),
{
    reveal_strlit(" ");
    lemma_stands_char(s, p, " "@, 0);
    lemma_read_mark(s, p, Tok::Space);
}

/// A dot and a space are read before something that can be read.
proof fn lemma_read_dot_space(s: Seq<char>, p: int)
    requires
        stands_at(s, p, ". "@),
        scan(s, p + 2) is Ok,
    ensures
        read_pair(s, p, Tok::Dot, Tok::Space) == Ok::<nat, Failure>(2),
        ends_at(s, p),
{
    reveal_strlit(". ");
    lemma_stands_char(s, p, ". "@, 0);
    lemma_stands_char(s, p, ". "@, 1);
    lemma_read_mark(s, p + 1, Tok::Space);
    lemma_read_mark(s, p, Tok::Dot);
}

/// An equals sign between two spaces is read before something that can be
/// read.
proof fn lemma_read_equal(s: Seq<char>, p: int)
    requires
        stands_at(s, p, " = "@),
        scan(s, p + 3) is Ok,
    ensures
        read_triple(s, p, Tok::Space, Tok::Equal, Tok::Space) == Ok::<nat, Failure>(3),
        ends_at(s, p),
{
    reveal_strlit(" = ");
    lemma_stands_char(s, p, " = "@, 0);
    lemma_stands_char(s, p, " = "@, 1);
    lemma_stands_char(s, p, " = "@, 2);
    lemma_read_mark(s, p + 2, Tok::Space);
    lemma_read_mark(s, p + 1, Tok::Equal);
    lemma_read_mark(s, p, Tok::Space);
}

/// The word `in` between two spaces is read before something that can be
/// read.
proof fn lemma_read_in(s: Seq<char>, p: int)
    requires
        stands_at(s, p, " in "@),
        scan(s, p + 4) is Ok,
    ensures
        read_triple(s, p, Tok::Space, Tok::Word("in"@), Tok::Space) == Ok::<nat, Failure>(4),
        ends_at(s, p),
{
    reveal_strlit(" in ");
    reveal_strlit("in");
    lemma_stands_char(s, p, " in "@, 0);
    lemma_stands_char(s, p, " in "@, 1);
    lemma_stands_char(s, p, " in "@, 2);
    lemma_stands_char(s, p, " in "@, 3);
    lemma_read_mark(s, p + 3, Tok::Space);
    assert(stands_at(s, p + 1, "in"@)) by {
        reveal(stands_at);
        assert(s.subrange(p + 1, p + 3) == "in"@);
    }
    lemma_read_word(s, p + 1, "in"@);
    assert(read_exact(s, p + 1, Tok::Word("in"@)) == Ok::<nat, Failure>(2));
    lemma_read_mark(s, p, Tok::Space);
}

/// An opening bracket is read before a lambda.
proof fn lemma_read_lambda_open(s: Seq<char>, p: int)
    requires
        stands_at(s, p, "("@),
        p + 1 < s.len(),
        plain_char(s[p + 1]) == '\u{3bb}',
        scan(s, p + 2) is Ok,
    ensures
        0 <= p,
        read_token(s, p) == Ok::<(Tok, nat), Failure>((Tok::LBracket, 1)),
        scan(s, p) is Ok,
        scan(s, p)->Ok_0.0 == Tok::LBracket,
        scan(s, p + 1) is Ok,
        scan(s, p + 1)->Ok_0.0 == Tok::Lambda,
{
    reveal_strlit("(");
    lemma_stands_char(s, p, "("@, 0);
    lemma_read_mark(s, p + 1, Tok::Lambda);
    lemma_read_mark(s, p, Tok::LBracket);
    reveal(scan);
}

/// The head of an abstraction is read from its parts.
proof fn lemma_read_lam_head_parts(s: Seq<char>, q: int, b: Binding, n_ty: nat)
    requires
        0 <= q,
        q + 1 < s.len(),
        plain_char(s[q]) == '\u{3bb}',
        s[q + 1] == b.name,
        is_name(b.name),
        stands_at(s, q + 2, ":"@),
        read_ty(s, q + 3) == Ok::<(Ty, nat), Failure>((b.ty, n_ty)),
        scan(s, q + 3) is Ok,
        stands_at(s, q + 3 + n_ty, ". "@),
        scan(s, q + 5 + n_ty) is Ok,
    ensures
        read_lam_head(s, q) == Ok::<(Binding, nat), Failure>((b, 5 + n_ty)),
{
    reveal(read_lam_head);
    lemma_read_dot_space(s, q + 3 + n_ty);
    lemma_read_colon(s, q + 2);
    lemma_read_letter(s, q + 1);
    lemma_read_mark(s, q, Tok::Lambda);
    assert(read_name(s, q + 1) == Ok::<(char, nat), Failure>((b.name, 1)));
}

/// An abstraction is read from its head and its body.
proof fn lemma_read_abs(
    s: Seq<char>,
    p: int,
    b: Binding,
    n_head: nat,
    body: NamedTerm,
    n_body: nat,
)
    requires
        read_token(s, p) == Ok::<(Tok, nat), Failure>((Tok::LBracket, 1)),
        scan(s, p + 1) is Ok,
        scan(s, p + 1)->Ok_0.0 == Tok::Lambda,
        read_lam_head(s, p + 1) == Ok::<(Binding, nat), Failure>((b, n_head)),
        read_term(s, p + 1 + n_head) == Ok::<(NamedTerm, nat), Failure>((body, n_body)),
        stands_at(s, p + 1 + n_head + n_body, ")"@),
        scan(s, p + 2 + n_head + n_body) is Ok,
    ensures
        read_term(s, p) == Ok::<(NamedTerm, nat), Failure>(
            (NamedTerm::Abs(b, Box::new(body)), 2 + n_head + n_body),
        ),
{
    reveal(read_lam);
    reveal(read_inner);
    reveal(read_term);
    lemma_read_close(s, p + 1 + n_head + n_body);
    assert(read_lam(s, p + 1) == Ok::<(NamedTerm, nat), Failure>(
        (NamedTerm::Abs(b, Box::new(body)), n_head + n_body),
    ));
    assert(read_inner(s, p + 1) == read_lam(s, p + 1));
}

/// An application is read from its parts.
proof fn lemma_read_app(
    s: Seq<char>,
    p: int,
    t1: NamedTerm,
    n1: nat,
    t2: NamedTerm,
    n2: nat,
)
    requires
        stands_at(s, p, "("@),
        read_term(s, p + 1) == Ok::<(NamedTerm, nat), Failure>((t1, n1)),
        scan(s, p + 1) is Ok,
        scan(s, p + 1)->Ok_0.0 != Tok::Lambda,
        scan(s, p + 1)->Ok_0.0 != Tok::Word("let"@),
        stands_at(s, p + 1 + n1, " "@),
        read_term(s, p + 2 + n1) == Ok::<(NamedTerm, nat), Failure>((t2, n2)),
        scan(s, p + 2 + n1) is Ok,
        stands_at(s, p + 2 + n1 + n2, ")"@),
        scan(s, p + 3 + n1 + n2) is Ok,
    ensures
        read_term(s, p) == Ok::<(NamedTerm, nat), Failure>(
            (NamedTerm::App(Box::new(t1), Box::new(t2)), 3 + n1 + n2),
        ),
        scan(s, p) is Ok,
        scan(s, p)->Ok_0.0 == Tok::LBracket,
{
    reveal(read_app);
    reveal(read_inner);
    reveal(read_term);
    lemma_read_close(s, p + 2 + n1 + n2);
    lemma_read_space(s, p + 1 + n1);
    lemma_read_open(s, p);
    assert(read_inner(s, p + 1) == read_app(s, p + 1));
    assert(read_app(s, p + 1) == Ok::<(NamedTerm, nat), Failure>(
        (NamedTerm::App(Box::new(t1), Box::new(t2)), 1 + n1 + n2),
    ));
}

/// An opening bracket is read before the word `let`.
proof fn lemma_read_let_open(s: Seq<char>, p: int)
    requires
        stands_at(s, p, "(let "@),
        scan(s, p + 5) is Ok,
    ensures
        0 <= p,
        p + 5 <= s.len(),
        read_token(s, p) == Ok::<(Tok, nat), Failure>((Tok::LBracket, 1)),
        scan(s, p) is Ok,
        scan(s, p)->Ok_0.0 == Tok::LBracket,
        scan(s, p + 1) is Ok,
        scan(s, p + 1)->Ok_0.0 == Tok::Word("let"@),
        read_pair(s, p + 1, Tok::Word("let"@), Tok::Space) == Ok::<nat, Failure>(4),
{
    reveal_strlit("(let ");
    reveal_strlit("let");
    lemma_stands_char(s, p, "(let "@, 0);
    lemma_stands_char(s, p, "(let "@, 1);
    lemma_stands_char(s, p, "(let "@, 2);
    lemma_stands_char(s, p, "(let "@, 3);
    lemma_stands_char(s, p, "(let "@, 4);
    lemma_read_mark(s, p + 4, Tok::Space);
    assert(stands_at(s, p + 1, "let"@)) by {
        reveal(stands_at);
        assert(s.subrange(p + 1, p + 4) == "let"@);
    }
    lemma_read_word(s, p + 1, "let"@);
    assert(read_exact(s, p + 1, Tok::Word("let"@)) == Ok::<nat, Failure>(3));
    lemma_read_mark(s, p, Tok::LBracket);
}

/// The head of a `let` is read from its parts.
proof fn lemma_read_let_head_parts(s: Seq<char>, q: int, name: char)
    requires
        0 <= q,
        read_pair(s, q, Tok::Word("let"@), Tok::Space) == Ok::<nat, Failure>(4),
        q + 4 < s.len(),
        s[q + 4] == name,
        is_name(name),
        stands_at(s, q + 5, " = "@),
        scan(s, q + 8) is Ok,
    ensures
        read_let_head(s, q) == Ok::<(char, nat), Failure>((name, 8)),
{
    reveal(read_let_head);
    lemma_read_equal(s, q + 5);
    lemma_read_letter(s, q + 4);
    assert(read_name(s, q + 4) == Ok::<(char, nat), Failure>((name, 1)));
}

/// A `let` is read from its head, the term that is bound, and its body.
proof fn lemma_read_let(
    s: Seq<char>,
    p: int,
    name: char,
    t1: NamedTerm,
    n1: nat,
    t2: NamedTerm,
    n2: nat,
)
    requires
        read_token(s, p) == Ok::<(Tok, nat), Failure>((Tok::LBracket, 1)),
        scan(s, p + 1) is Ok,
        scan(s, p + 1)->Ok_0.0 == Tok::Word("let"@),
        read_let_head(s, p + 1) == Ok::<(char, nat), Failure>((name, 8)),
        read_term(s, p + 9) == Ok::<(NamedTerm, nat), Failure>((t1, n1)),
        stands_at(s, p + 9 + n1, " in "@),
        read_term(s, p + 13 + n1) == Ok::<(NamedTerm, nat), Failure>((t2, n2)),
        scan(s, p + 13 + n1) is Ok,
        stands_at(s, p + 13 + n1 + n2, ")"@),
        scan(s, p + 14 + n1 + n2) is Ok,
    ensures
        read_term(s, p) == Ok::<(NamedTerm, nat), Failure>(
            (NamedTerm::Let(name, Box::new(t1), Box::new(t2)), 14 + n1 + n2),
        ),
{
    reveal(read_let);
    reveal(read_inner);
    reveal(read_term);
    lemma_read_close(s, p + 13 + n1 + n2);
    lemma_read_in(s, p + 9 + n1);
    assert(read_let(s, p + 1) == Ok::<(NamedTerm, nat), Failure>(
        (NamedTerm::Let(name, Box::new(t1), Box::new(t2)), 12 + n1 + n2),
    ));
    assert(read_inner(s, p + 1) == read_let(s, p + 1));
}

/// The term that a text spells, a backslash standing for a lambda, is the
/// term that is read from it.
proof fn lemma_read_term_spelled(s: Seq<char>, p: int, t: NamedTerm)
    requires
        names_ok(t),
        spelt_at(s, p, t.spelling().len(), t.spelling()),
        ends_at(s, p + t.spelling().len()),
    ensures
        read_term(s, p) == Ok::<(NamedTerm, nat), Failure>((t, t.spelling().len())),
        scan(s, p) is Ok,
        scan(s, p)->Ok_0.0 != Tok::Lambda,
        scan(s, p)->Ok_0.0 != Tok::Word("let"@),
    decreases t,
{
    lemma_lengths();
    lemma_literals();
    let whole = t.spelling();
    let end = p + whole.len();
    assert(scan(s, end) is Ok);
    match t {
        NamedTerm::Unit => {
            lemma_spelt_stands(s, p, "unit"@);
            lemma_read_unit(s, p);
        },
        NamedTerm::Var(name) => {
            lemma_spelt_char(s, p, 1, whole, 0);
            lemma_read_var(s, p);
        },
        NamedTerm::Abs(b, body) => {
            let s_ty = b.ty.spelling();
            let s_body = body.spelling();
            let x0 = "(\u{3bb}"@.push(b.name);
            let x1 = x0 + ":"@;
            let x2 = x1 + s_ty;
            let x3 = x2 + ". "@;
            let x4 = x3 + s_body;
            assert(x0 == "(\u{3bb}"@ + seq![b.name]);
            assert("(\u{3bb}"@ == "("@ + seq!['\u{3bb}']);
            lemma_spelt_split(s, p, x4, ")"@);
            lemma_spelt_split(s, p, x3, s_body);
            lemma_spelt_split(s, p, x2, ". "@);
            lemma_spelt_split(s, p, x1, s_ty);
            lemma_spelt_split(s, p, x0, ":"@);
            lemma_spelt_split(s, p, "(\u{3bb}"@, seq![b.name]);
            lemma_spelt_split(s, p, "("@, seq!['\u{3bb}']);
            lemma_spelt_char(s, p + 1, 1, seq!['\u{3bb}'], 0);
            lemma_spelt_char(s, p + 2, 1, seq![b.name], 0);
            let at_dot = p + 4 + s_ty.len();
            let at_body = at_dot + 2;
            let at_close = at_body + s_body.len();
            lemma_spelt_stands(s, at_close, ")"@);
            lemma_spelt_stands(s, at_dot, ". "@);
            lemma_spelt_stands(s, p + 3, ":"@);
            lemma_spelt_stands(s, p, "("@);
            lemma_read_close(s, at_close);
            lemma_read_term_spelled(s, at_body, *body);
            lemma_read_dot_space(s, at_dot);
            lemma_read_ty_spelled(s, p + 4, b.ty);
            lemma_read_colon(s, p + 3);
            lemma_read_letter(s, p + 2);
            lemma_read_lambda_open(s, p);
            lemma_read_lam_head_parts(s, p + 1, b, s_ty.len());
            lemma_read_abs(s, p, b, 5 + s_ty.len(), *body, s_body.len());
        },
        NamedTerm::App(t1, t2) => {
            let s1 = t1.spelling();
            let s2 = t2.spelling();
            let x1 = "("@ + s1;
            let x2 = x1 + " "@;
            let x3 = x2 + s2;
            lemma_spelt_split(s, p, x3, ")"@);
            lemma_spelt_split(s, p, x2, s2);
            lemma_spelt_split(s, p, x1, " "@);
            lemma_spelt_split(s, p, "("@, s1);
            let at_space = p + 1 + s1.len();
            let at_close = at_space + 1 + s2.len();
            lemma_spelt_stands(s, at_close, ")"@);
            lemma_spelt_stands(s, at_space, " "@);
            lemma_spelt_stands(s, p, "("@);
            lemma_read_close(s, at_close);
            lemma_read_term_spelled(s, at_space + 1, *t2);
            lemma_read_space(s, at_space);
            lemma_read_term_spelled(s, p + 1, *t1);
            lemma_read_app(s, p, *t1, s1.len(), *t2, s2.len());
        },
        NamedTerm::Let(name, t1, t2) => {
            let s1 = t1.spelling();
            let s2 = t2.spelling();
            let x0 = "(let "@.push(name);
            let x1 = x0 + " = "@;
            let x2 = x1 + s1;
            let x3 = x2 + " in "@;
            let x4 = x3 + s2;
            assert(x0 == "(let "@ + seq![name]);
            lemma_spelt_split(s, p, x4, ")"@);
            lemma_spelt_split(s, p, x3, s2);
            lemma_spelt_split(s, p, x2, " in "@);
            lemma_spelt_split(s, p, x1, s1);
            lemma_spelt_split(s, p, x0, " = "@);
            lemma_spelt_split(s, p, "(let "@, seq![name]);
            lemma_spelt_char(s, p + 5, 1, seq![name], 0);
            let at_in = p + 9 + s1.len();
            let at_close = at_in + 4 + s2.len();
            lemma_spelt_stands(s, at_close, ")"@);
            lemma_spelt_stands(s, at_in, " in "@);
            lemma_spelt_stands(s, p + 6, " = "@);
            lemma_spelt_stands(s, p, "(let "@);
            lemma_read_close(s, at_close);
            lemma_read_term_spelled(s, at_in + 4, *t2);
            lemma_read_in(s, at_in);
            lemma_read_term_spelled(s, p + 9, *t1);
            lemma_read_equal(s, p + 6);
            lemma_read_letter(s, p + 5);
            lemma_read_let_open(s, p);
            lemma_read_let_head_parts(s, p + 1, name);
            lemma_read_let(s, p, name, *t1, s1.len(), *t2, s2.len());
        },
    }
}

/// What is written is what is read: a text that spells a term whose names
/// are Latin letters, each backslash taken for a lambda, is read as that
/// term.
pub proof fn lemma_spelt_is_read(s: Seq<char>, t: NamedTerm)
    requires
        names_ok(t),
        plain(s) == t.spelling(),
    ensures
        read_all(s, 0) == Ok::<NamedTerm, Failure>(t),
{
    assert(spelt_at(s, 0, s.len(), t.spelling())) by {
        reveal(spelt_at);
        assert(s.subrange(0, s.len() as int) == s);
    }
    assert(ends_at(s, s.len() as int) && scan(s, s.len() as int) == Ok::<
        (Tok, int),
        Flaw,
    >((Tok::EOF, s.len() as int))) by {
        reveal(scan);
    }
    lemma_read_term_spelled(s, 0, t);
}

/// Reading undoes writing: a term whose names are Latin letters is read
/// back from the text that spells it.
pub proof fn lemma_read_spelling(t: NamedTerm)
    requires
        names_ok(t),
    ensures
        read_all(t.spelling(), 0) == Ok::<NamedTerm, Failure>(t),
{
    lemma_spelling_plain(t);
    lemma_spelt_is_read(t.spelling(), t);
}

} // verus!
