use vstd::prelude::*;
use super::grammar::{
    lemma_read_pair_moves, lemma_read_token_moves, lemma_read_triple_moves, lemma_scan_moves,
    read_all, read_app, read_exact, read_inner, read_lam, read_lam_head, read_let,
    read_let_head, read_name, read_pair, read_term, read_token, read_triple, read_ty, Failure,
};
use super::spelling::{
    lemma_literals, lemma_spelt_join, lemma_spelt_within, lemma_utf8_len_at_least, names_ok,
    plain, spelt_at, token_text,
};
use super::tokenizer::{scan, utf8_len, utf8_width, word_end, Tok};
use super::NamedTerm;
use crate::text::{is_letter, is_name};
use crate::ty::{Binding, Ty};

verus! {

/// The letters of a run are letters.
proof fn lemma_word_end_letters(s: Seq<char>, p: int, i: int)
    requires
        0 <= p <= i < word_end(s, p),
    ensures
        0 <= i < s.len(),
        is_letter(s[i]),
    decreases i - p,
{
    if i > p {
        lemma_word_end_letters(s, p + 1, i);
    }
}

/// A token is spelt by the characters it takes, and a name is a Latin
/// letter.
proof fn lemma_scan_spelt(s: Seq<char>, p: int)
    requires
        0 <= p <= s.len(),
    ensures
        match scan(s, p) {
            Ok((tok, q)) => p <= q && spelt_at(s, p, (q - p) as nat, token_text(tok)) && (
            tok matches Tok::AlphaChar(c) ==> is_name(c)),
            Err(_) => true,
        },
{
    reveal(scan);
    reveal(spelt_at);
    lemma_scan_moves(s, p);
    match scan(s, p) {
        Ok((tok, q)) => {
            if tok == Tok::EOF {
                assert(q == p);
                assert(plain(s.subrange(p, p)) =~= Seq::<char>::empty());
            } else {
                let text = plain(s.subrange(p, q));
                match tok {
                    Tok::Word(w) => {
                        assert forall|i: int| 0 <= i < w.len() implies text[i] == w[i] by {
                            if i > 0 {
                                lemma_word_end_letters(s, p + 1, p + i);
                            }
                        }
                        assert(text =~= w);
                    },
                    Tok::AlphaChar(c) => {
                        let w = s.subrange(p, q);
                        lemma_utf8_len_at_least(w);
                        assert(w.len() == 1);
                        assert(w.drop_first() =~= Seq::<char>::empty());
                        assert(utf8_len(w.drop_first()) == 0);
                        assert(utf8_width(c) == 1);
                        assert(text =~= seq![c]);
                    },
                    _ => {
                        assert(text =~= token_text(tok));
                    },
                }
            }
        },
        Err(_) => {},
    }
}

/// A token that is read is spelt by the characters it takes.
proof fn lemma_token_spelt(s: Seq<char>, p: int)
    requires
        0 <= p <= s.len(),
    ensures
        match read_token(s, p) {
            Ok((tok, n)) => spelt_at(s, p, n, token_text(tok)) && p + n <= s.len() && (
            tok matches Tok::AlphaChar(c) ==> is_name(c)),
            Err(_) => true,
        },
{
    lemma_scan_spelt(s, p);
    match scan(s, p) {
        Ok((tok, q)) => {
            lemma_spelt_within(s, p, (q - p) as nat, token_text(tok));
        },
        Err(_) => {},
    }
}

/// A token that is expected and read is spelt by the characters it takes.
proof fn lemma_exact_spelt(s: Seq<char>, p: int, tok: Tok)
    requires
        0 <= p <= s.len(),
        read_exact(s, p, tok) is Ok,
    ensures
        spelt_at(s, p, read_exact(s, p, tok)->Ok_0, token_text(tok)),
        p + read_exact(s, p, tok)->Ok_0 <= s.len(),
{
    lemma_token_spelt(s, p);
}

/// Two tokens that are expected and read are spelt by the characters they
/// take.
proof fn lemma_pair_spelt(s: Seq<char>, p: int, a: Tok, b: Tok)
    requires
        0 <= p <= s.len(),
        read_pair(s, p, a, b) is Ok,
    ensures
        spelt_at(s, p, read_pair(s, p, a, b)->Ok_0, token_text(a) + token_text(b)),
        p + read_pair(s, p, a, b)->Ok_0 <= s.len(),
{
    lemma_exact_spelt(s, p, a);
    let n = read_exact(s, p, a)->Ok_0;
    lemma_exact_spelt(s, p + n, b);
    let m = read_exact(s, p + n, b)->Ok_0;
    lemma_spelt_join(s, p, n, token_text(a), m, token_text(b));
}

/// Three tokens that are expected and read are spelt by the characters they
/// take.
proof fn lemma_triple_spelt(s: Seq<char>, p: int, a: Tok, b: Tok, c: Tok)
    requires
        0 <= p <= s.len(),
        read_triple(s, p, a, b, c) is Ok,
    ensures
        spelt_at(
            s,
            p,
            read_triple(s, p, a, b, c)->Ok_0,
            token_text(a) + (token_text(b) + token_text(c)),
        ),
        p + read_triple(s, p, a, b, c)->Ok_0 <= s.len(),
{
    lemma_exact_spelt(s, p, a);
    let n = read_exact(s, p, a)->Ok_0;
    lemma_pair_spelt(s, p + n, b, c);
    let m = read_pair(s, p + n, b, c)->Ok_0;
    lemma_spelt_join(s, p, n, token_text(a), m, token_text(b) + token_text(c));
}

/// A token other than the end of the text that is expected and read lies
/// within the text and is spelt by the characters it takes.
proof fn lemma_mark_spelt(s: Seq<char>, p: int, tok: Tok)
    requires
        tok != Tok::EOF,
        read_exact(s, p, tok) is Ok,
    ensures
        0 <= p,
        p + read_exact(s, p, tok)->Ok_0 <= s.len(),
        spelt_at(s, p, read_exact(s, p, tok)->Ok_0, token_text(tok)),
{
    lemma_read_token_moves(s, p);
    lemma_exact_spelt(s, p, tok);
}

/// A name that is read is a Latin letter, spelt by the character it takes.
proof fn lemma_name_spelt(s: Seq<char>, p: int)
    requires
        read_name(s, p) is Ok,
    ensures
        0 <= p,
        p + read_name(s, p)->Ok_0.1 <= s.len(),
        is_name(read_name(s, p)->Ok_0.0),
        spelt_at(s, p, read_name(s, p)->Ok_0.1, seq![read_name(s, p)->Ok_0.0]),
{
    lemma_read_token_moves(s, p);
    lemma_token_spelt(s, p);
}

/// A type begins within the text.
proof fn lemma_ty_within(s: Seq<char>, p: int)
    requires
        read_ty(s, p) is Ok,
    ensures
        0 <= p < s.len(),
{
    reveal(read_ty);
    lemma_read_token_moves(s, p);
}

/// A type that is read is spelt by the characters it takes.
proof fn lemma_ty_spelt(s: Seq<char>, p: int, ty: Ty, n: nat)
    requires
        0 <= p <= s.len(),
        read_ty(s, p) == Ok::<(Ty, nat), Failure>((ty, n)),
    ensures
        spelt_at(s, p, n, ty.spelling()),
        p + n <= s.len(),
    decreases ty,
{
    reveal(read_ty);
    lemma_literals();
    lemma_token_spelt(s, p);
    let (tok, n0) = read_token(s, p)->Ok_0;
    match ty {
        Ty::Unit => {
            assert(tok == Tok::Word("Unit"@));
        },
        Ty::Arrow(a, b) => {
            assert(tok == Tok::LBracket);
            let p1 = p + n0;
            let n1 = read_ty(s, p1)->Ok_0.1;
            lemma_ty_spelt(s, p1, *a, n1);
            let p2 = p1 + n1;
            lemma_triple_spelt(s, p2, Tok::Space, Tok::Arrow, Tok::Space);
            let n2 = read_triple(s, p2, Tok::Space, Tok::Arrow, Tok::Space)->Ok_0;
            let p3 = p2 + n2;
            let n3 = read_ty(s, p3)->Ok_0.1;
            lemma_ty_spelt(s, p3, *b, n3);
            let p4 = p3 + n3;
            lemma_exact_spelt(s, p4, Tok::RBracket);
            let n4 = read_exact(s, p4, Tok::RBracket)->Ok_0;
            let arrow = token_text(Tok::Space) + (token_text(Tok::Arrow) + token_text(
                Tok::Space,
            ));
            assert(arrow =~= " -> "@);
            lemma_spelt_join(s, p, n0, "("@, n1, a.spelling());
            lemma_spelt_join(s, p, n0 + n1, "("@ + a.spelling(), n2, " -> "@);
            lemma_spelt_join(
                s,
                p,
                n0 + n1 + n2,
                "("@ + a.spelling() + " -> "@,
                n3,
                b.spelling(),
            );
            lemma_spelt_join(
                s,
                p,
                n0 + n1 + n2 + n3,
                "("@ + a.spelling() + " -> "@ + b.spelling(),
                n4,
                ")"@,
            );
        },
    }
}

/// A term begins within the text.
proof fn lemma_term_within(s: Seq<char>, p: int)
    requires
        read_term(s, p) is Ok,
    ensures
        0 <= p < s.len(),
{
    reveal(read_term);
    lemma_read_token_moves(s, p);
}

/// What stands between two brackets is read as the form that it is.
proof fn lemma_inner_form(s: Seq<char>, p: int, t: NamedTerm, n: nat)
    requires
        read_inner(s, p) == Ok::<(NamedTerm, nat), Failure>((t, n)),
    ensures
        t is Abs || t is Let || t is App,
        t is Abs ==> read_lam(s, p) == Ok::<(NamedTerm, nat), Failure>((t, n)),
        t is Let ==> read_let(s, p) == Ok::<(NamedTerm, nat), Failure>((t, n)),
        t is App ==> read_app(s, p) == Ok::<(NamedTerm, nat), Failure>((t, n)),
{
    reveal(read_inner);
    reveal(read_lam);
    reveal(read_let);
    reveal(read_app);
}

/// The head of an abstraction that is read is spelt by the characters it
/// takes.
proof fn lemma_lam_head_spelt(s: Seq<char>, p: int, b: Binding, n: nat)
    requires
        read_lam_head(s, p) == Ok::<(Binding, nat), Failure>((b, n)),
    ensures
        0 <= p,
        p + n <= s.len(),
        is_name(b.name),
        spelt_at(s, p, n, seq!['\u{3bb}', b.name] + ":"@ + b.ty.spelling() + ". "@),
{
    reveal(read_lam_head);
    lemma_literals();
    lemma_mark_spelt(s, p, Tok::Lambda);
    let n0 = read_exact(s, p, Tok::Lambda)->Ok_0;
    lemma_name_spelt(s, p + n0);
    let n1 = read_name(s, p + n0)->Ok_0.1;
    lemma_mark_spelt(s, p + n0 + n1, Tok::Colon);
    let n2 = read_exact(s, p + n0 + n1, Tok::Colon)->Ok_0;
    let p3 = p + n0 + n1 + n2;
    lemma_ty_within(s, p3);
    let n3 = read_ty(s, p3)->Ok_0.1;
    lemma_ty_spelt(s, p3, b.ty, n3);
    let p4 = p3 + n3;
    lemma_read_pair_moves(s, p4, Tok::Dot, Tok::Space);
    lemma_pair_spelt(s, p4, Tok::Dot, Tok::Space);
    let n4 = read_pair(s, p4, Tok::Dot, Tok::Space)->Ok_0;
    let w0 = seq!['\u{3bb}'];
    let w1 = seq![b.name];
    lemma_spelt_join(s, p, n0, w0, n1, w1);
    assert(w0 + w1 =~= seq!['\u{3bb}', b.name]);
    lemma_spelt_join(s, p, n0 + n1, seq!['\u{3bb}', b.name], n2, ":"@);
    lemma_spelt_join(
        s,
        p,
        n0 + n1 + n2,
        seq!['\u{3bb}', b.name] + ":"@,
        n3,
        b.ty.spelling(),
    );
    assert(token_text(Tok::Dot) + token_text(Tok::Space) =~= ". "@);
    lemma_spelt_join(
        s,
        p,
        n0 + n1 + n2 + n3,
        seq!['\u{3bb}', b.name] + ":"@ + b.ty.spelling(),
        n4,
        ". "@,
    );
}

/// The head of a `let` that is read is spelt by the characters it takes.
proof fn lemma_let_head_spelt(s: Seq<char>, p: int, name: char, n: nat)
    requires
        read_let_head(s, p) == Ok::<(char, nat), Failure>((name, n)),
    ensures
        0 <= p,
        p + n <= s.len(),
        is_name(name),
        spelt_at(s, p, n, seq!['l', 'e', 't', ' ', name] + " = "@),
{
    reveal(read_let_head);
    lemma_literals();
    lemma_read_pair_moves(s, p, Tok::Word("let"@), Tok::Space);
    lemma_pair_spelt(s, p, Tok::Word("let"@), Tok::Space);
    let n0 = read_pair(s, p, Tok::Word("let"@), Tok::Space)->Ok_0;
    lemma_name_spelt(s, p + n0);
    let n1 = read_name(s, p + n0)->Ok_0.1;
    let p2 = p + n0 + n1;
    lemma_read_triple_moves(s, p2, Tok::Space, Tok::Equal, Tok::Space);
    lemma_triple_spelt(s, p2, Tok::Space, Tok::Equal, Tok::Space);
    let n2 = read_triple(s, p2, Tok::Space, Tok::Equal, Tok::Space)->Ok_0;
    let w0 = token_text(Tok::Word("let"@)) + token_text(Tok::Space);
    assert(w0 =~= seq!['l', 'e', 't', ' ']);
    lemma_spelt_join(s, p, n0, w0, n1, seq![name]);
    assert(w0 + seq![name] =~= seq!['l', 'e', 't', ' ', name]);
    let w2 = token_text(Tok::Space) + (token_text(Tok::Equal) + token_text(Tok::Space));
    assert(w2 =~= " = "@);
    lemma_spelt_join(s, p, n0 + n1, seq!['l', 'e', 't', ' ', name], n2, " = "@);
}

/// An abstraction that is read has a body that is read, at the place and of
/// the length that are returned; where the body is spelt there, the
/// abstraction is spelt by the characters it takes.
proof fn lemma_abs_spelt(
    s: Seq<char>,
    p: int,
    b: Binding,
    body: NamedTerm,
    n: nat,
) -> (part: (int, nat))
    requires
        read_term(s, p) == Ok::<(NamedTerm, nat), Failure>(
            (NamedTerm::Abs(b, Box::new(body)), n),
        ),
    ensures
        read_term(s, part.0) == Ok::<(NamedTerm, nat), Failure>((body, part.1)),
        is_name(b.name),
        spelt_at(s, part.0, part.1, body.spelling()) ==> spelt_at(
            s,
            p,
            n,
            NamedTerm::Abs(b, Box::new(body)).spelling(),
        ),
{
    let t = NamedTerm::Abs(b, Box::new(body));
    lemma_literals();
    lemma_term_within(s, p);
    lemma_token_spelt(s, p);
    let n0 = read_token(s, p)->Ok_0.1;
    let p1 = p + n0;
    let n1 = read_inner(s, p1)->Ok_0.1;
    assert(read_token(s, p) is Ok && read_token(s, p)->Ok_0.0 == Tok::LBracket && read_inner(
        s,
        p1,
    ) == Ok::<
        (NamedTerm, nat),
        Failure,
    >((t, n1)) && read_exact(s, p1 + n1, Tok::RBracket) is Ok && n == n0 + n1 + read_exact(
        s,
        p1 + n1,
        Tok::RBracket,
    )->Ok_0) by {
        reveal(read_term);
        reveal(read_inner);
    }
    lemma_inner_form(s, p1, t, n1);
    let nh = read_lam_head(s, p1)->Ok_0.1;
    let q = p1 + nh;
    let nb = read_term(s, q)->Ok_0.1;
    assert(read_lam_head(s, p1) == Ok::<(Binding, nat), Failure>((b, nh))
        && read_term(s, q) == Ok::<(NamedTerm, nat), Failure>((body, nb)) && n1 == nh + nb) by {
        reveal(read_lam);
        reveal(read_term);
    }
    lemma_lam_head_spelt(s, p1, b, nh);
    lemma_mark_spelt(s, q + nb, Tok::RBracket);
    let n2 = read_exact(s, q + nb, Tok::RBracket)->Ok_0;
    if spelt_at(s, q, nb, body.spelling()) {
        let head = seq!['\u{3bb}', b.name] + ":"@ + b.ty.spelling() + ". "@;
        lemma_spelt_join(s, p, n0, seq!['('], nh, head);
        lemma_spelt_join(s, p, n0 + nh, seq!['('] + head, nb, body.spelling());
        lemma_spelt_join(s, p, n0 + nh + nb, seq!['('] + head + body.spelling(), n2, ")"@);
        assert(seq!['('] + head + body.spelling() + ")"@ =~= t.spelling());
    }
    (q, nb)
}

/// An application that is read has a function and an argument that are
/// read, at the places and of the lengths that are returned; where they
/// are spelt there, the application is spelt by the characters it takes.
proof fn lemma_app_spelt(s: Seq<char>, p: int, t1: NamedTerm, t2: NamedTerm, n: nat) -> (part:
    (int, nat, int, nat))
    requires
        read_term(s, p) == Ok::<(NamedTerm, nat), Failure>(
            (NamedTerm::App(Box::new(t1), Box::new(t2)), n),
        ),
    ensures
        read_term(s, part.0) == Ok::<(NamedTerm, nat), Failure>((t1, part.1)),
        read_term(s, part.2) == Ok::<(NamedTerm, nat), Failure>((t2, part.3)),
        spelt_at(s, part.0, part.1, t1.spelling()) && spelt_at(
            s,
            part.2,
            part.3,
            t2.spelling(),
        ) ==> spelt_at(s, p, n, NamedTerm::App(Box::new(t1), Box::new(t2)).spelling()),
{
    let t = NamedTerm::App(Box::new(t1), Box::new(t2));
    lemma_literals();
    lemma_term_within(s, p);
    lemma_token_spelt(s, p);
    let n0 = read_token(s, p)->Ok_0.1;
    let p1 = p + n0;
    let n1 = read_inner(s, p1)->Ok_0.1;
    assert(read_token(s, p) is Ok && read_token(s, p)->Ok_0.0 == Tok::LBracket && read_inner(
        s,
        p1,
    ) == Ok::<
        (NamedTerm, nat),
        Failure,
    >((t, n1)) && read_exact(s, p1 + n1, Tok::RBracket) is Ok && n == n0 + n1 + read_exact(
        s,
        p1 + n1,
        Tok::RBracket,
    )->Ok_0) by {
        reveal(read_term);
        reveal(read_inner);
    }
    lemma_inner_form(s, p1, t, n1);
    let na = read_term(s, p1)->Ok_0.1;
    let ns = read_exact(s, p1 + na, Tok::Space)->Ok_0;
    let q = p1 + na + ns;
    let nb = read_term(s, q)->Ok_0.1;
    assert(read_term(s, p1) == Ok::<(NamedTerm, nat), Failure>((t1, na)) && read_exact(
        s,
        p1 + na,
        Tok::Space,
    ) is Ok && read_term(s, q) == Ok::<(NamedTerm, nat), Failure>((t2, nb)) && n1 == na + ns
        + nb) by {
        reveal(read_app);
        reveal(read_term);
    }
    lemma_mark_spelt(s, p1 + na, Tok::Space);
    lemma_mark_spelt(s, q + nb, Tok::RBracket);
    let n2 = read_exact(s, q + nb, Tok::RBracket)->Ok_0;
    if spelt_at(s, p1, na, t1.spelling()) && spelt_at(s, q, nb, t2.spelling()) {
        lemma_spelt_join(s, p, n0, "("@, na, t1.spelling());
        lemma_spelt_join(s, p, n0 + na, "("@ + t1.spelling(), ns, " "@);
        lemma_spelt_join(s, p, n0 + na + ns, "("@ + t1.spelling() + " "@, nb, t2.spelling());
        lemma_spelt_join(
            s,
            p,
            n0 + na + ns + nb,
            "("@ + t1.spelling() + " "@ + t2.spelling(),
            n2,
            ")"@,
        );
    }
    (p1, na, q, nb)
}

/// A `let` that is read has a bound term and a body that are read, at the
/// places and of the lengths that are returned; where they are spelt there,
/// the `let` is spelt by the characters it takes.
proof fn lemma_let_spelt(
    s: Seq<char>,
    p: int,
    name: char,
    t1: NamedTerm,
    t2: NamedTerm,
    n: nat,
) -> (part: (int, nat, int, nat))
    requires
        read_term(s, p) == Ok::<(NamedTerm, nat), Failure>(
            (NamedTerm::Let(name, Box::new(t1), Box::new(t2)), n),
        ),
    ensures
        read_term(s, part.0) == Ok::<(NamedTerm, nat), Failure>((t1, part.1)),
        read_term(s, part.2) == Ok::<(NamedTerm, nat), Failure>((t2, part.3)),
        is_name(name),
        spelt_at(s, part.0, part.1, t1.spelling()) && spelt_at(
            s,
            part.2,
            part.3,
            t2.spelling(),
        ) ==> spelt_at(s, p, n, NamedTerm::Let(name, Box::new(t1), Box::new(t2)).spelling()),
{
    let t = NamedTerm::Let(name, Box::new(t1), Box::new(t2));
    lemma_literals();
    lemma_term_within(s, p);
    lemma_token_spelt(s, p);
    let n0 = read_token(s, p)->Ok_0.1;
    let p1 = p + n0;
    let n1 = read_inner(s, p1)->Ok_0.1;
    assert(read_token(s, p) is Ok && read_token(s, p)->Ok_0.0 == Tok::LBracket && read_inner(
        s,
        p1,
    ) == Ok::<
        (NamedTerm, nat),
        Failure,
    >((t, n1)) && read_exact(s, p1 + n1, Tok::RBracket) is Ok && n == n0 + n1 + read_exact(
        s,
        p1 + n1,
        Tok::RBracket,
    )->Ok_0) by {
        reveal(read_term);
        reveal(read_inner);
    }
    lemma_inner_form(s, p1, t, n1);
    let nh = read_let_head(s, p1)->Ok_0.1;
    let qa = p1 + nh;
    let na = read_term(s, qa)->Ok_0.1;
    let ni = read_triple(s, qa + na, Tok::Space, Tok::Word("in"@), Tok::Space)->Ok_0;
    let qb = qa + na + ni;
    let nb = read_term(s, qb)->Ok_0.1;
    assert(read_let_head(s, p1) == Ok::<(char, nat), Failure>((name, nh)) && read_term(s, qa)
        == Ok::<(NamedTerm, nat), Failure>((t1, na)) && read_triple(
        s,
        qa + na,
        Tok::Space,
        Tok::Word("in"@),
        Tok::Space,
    ) is Ok && read_term(s, qb) == Ok::<(NamedTerm, nat), Failure>((t2, nb)) && n1 == nh + na
        + ni + nb) by {
        reveal(read_let);
        reveal(read_term);
    }
    lemma_let_head_spelt(s, p1, name, nh);
    lemma_read_triple_moves(
        s,
        qa + na,
        Tok::Space,
        Tok::Word("in"@),
        Tok::Space,
    );
    lemma_triple_spelt(s, qa + na, Tok::Space, Tok::Word("in"@), Tok::Space);
    lemma_mark_spelt(s, qb + nb, Tok::RBracket);
    let n2 = read_exact(s, qb + nb, Tok::RBracket)->Ok_0;
    if spelt_at(s, qa, na, t1.spelling()) && spelt_at(s, qb, nb, t2.spelling()) {
        let head = seq!['l', 'e', 't', ' ', name] + " = "@;
        let word = token_text(Tok::Space) + (token_text(Tok::Word("in"@)) + token_text(
            Tok::Space,
        ));
        assert(word =~= " in "@);
        lemma_spelt_join(s, p, n0, seq!['('], nh, head);
        lemma_spelt_join(s, p, n0 + nh, seq!['('] + head, na, t1.spelling());
        lemma_spelt_join(s, p, n0 + nh + na, seq!['('] + head + t1.spelling(), ni, " in "@);
        lemma_spelt_join(
            s,
            p,
            n0 + nh + na + ni,
            seq!['('] + head + t1.spelling() + " in "@,
            nb,
            t2.spelling(),
        );
        lemma_spelt_join(
            s,
            p,
            n0 + nh + na + ni + nb,
            seq!['('] + head + t1.spelling() + " in "@ + t2.spelling(),
            n2,
            ")"@,
        );
        assert(seq!['('] + head + t1.spelling() + " in "@ + t2.spelling() + ")"@
            =~= t.spelling());
    }
    (qa, na, qb, nb)
}

/// A term that is read is spelt by the characters it takes, and its names
/// are Latin letters.
proof fn lemma_term_spelt(s: Seq<char>, p: int, t: NamedTerm, n: nat)
    requires
        read_term(s, p) == Ok::<(NamedTerm, nat), Failure>((t, n)),
    ensures
        spelt_at(s, p, n, t.spelling()),
        names_ok(t),
    decreases t,
{
    match t {
        NamedTerm::Unit => {
            reveal(read_term);
            lemma_term_within(s, p);
            lemma_token_spelt(s, p);
        },
        NamedTerm::Var(_) => {
            reveal(read_term);
            lemma_term_within(s, p);
            lemma_token_spelt(s, p);
        },
        NamedTerm::Abs(b, body) => {
            let part = lemma_abs_spelt(s, p, b, *body, n);
            lemma_term_spelt(s, part.0, *body, part.1);
        },
        NamedTerm::App(t1, t2) => {
            let part = lemma_app_spelt(s, p, *t1, *t2, n);
            lemma_term_spelt(s, part.0, *t1, part.1);
            lemma_term_spelt(s, part.2, *t2, part.3);
        },
        NamedTerm::Let(name, t1, t2) => {
            let part = lemma_let_spelt(s, p, name, *t1, *t2, n);
            lemma_term_spelt(s, part.0, *t1, part.1);
            lemma_term_spelt(s, part.2, *t2, part.3);
        },
    }
}

/// What is read is what was written: a text from which a term is read
/// spells that term, each backslash taken for a lambda, and the names of
/// the term are Latin letters.
pub proof fn lemma_read_is_spelt(s: Seq<char>, t: NamedTerm)
    requires
        read_all(s, 0) == Ok::<NamedTerm, Failure>(t),
    ensures
        plain(s) == t.spelling(),
        names_ok(t),
{
    let n = read_term(s, 0)->Ok_0.1;
    lemma_term_spelt(s, 0, t, n);
    lemma_spelt_within(s, 0, n, t.spelling());
    assert(n == s.len()) by {
        reveal(scan);
    }
    assert(s.subrange(0, s.len() as int) == s);
    reveal(spelt_at);
}

} // verus!
