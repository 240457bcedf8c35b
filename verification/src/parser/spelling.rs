use vstd::prelude::*;
use super::tokenizer::{scan, utf8_len, Tok};
use super::NamedTerm;
use crate::text::{is_letter, is_name};
use crate::ty::Ty;

verus! {

/// Every name in the term, of a variable or of a binder, is a letter of the
/// Latin alphabet.
pub open spec fn names_ok(t: NamedTerm) -> bool
    decreases t,
{
    match t {
        NamedTerm::Unit => true,
        NamedTerm::Var(name) => is_name(name),
        NamedTerm::Abs(b, body) => is_name(b.name) && names_ok(*body),
        NamedTerm::App(t1, t2) => names_ok(*t1) && names_ok(*t2),
        NamedTerm::Let(name, t1, t2) => is_name(name) && names_ok(*t1) && names_ok(*t2),
    }
}

/// The text `w` stands at position `p` of `s`.
#[verifier::opaque]
pub open spec fn stands_at(s: Seq<char>, p: int, w: Seq<char>) -> bool {
    0 <= p && p + w.len() <= s.len() && s.subrange(p, p + w.len()) == w
}

/// A word may end before position `q`: what stands there can be read and is
/// no letter.
pub open spec fn ends_at(s: Seq<char>, q: int) -> bool {
    scan(s, q) is Ok && (0 <= q < s.len() ==> !is_letter(s[q]))
}

/// A character as it is written out: a backslash is the other way to write
/// a lambda.
pub open spec fn plain_char(c: char) -> char {
    if c == '\\' {
        '\u{3bb}'
    } else {
        c
    }
}

/// A text with each backslash written as a lambda.
pub open spec fn plain(w: Seq<char>) -> Seq<char> {
    Seq::new(w.len(), |i: int| plain_char(w[i]))
}

/// The `n` characters at position `p` of `s` spell `w`, a backslash standing
/// for a lambda.
#[verifier::opaque]
pub open spec fn spelt_at(s: Seq<char>, p: int, n: nat, w: Seq<char>) -> bool {
    0 <= p && p + n <= s.len() && plain(s.subrange(p, p + n)) == w
}

/// What spells a token.
pub open spec fn token_text(tok: Tok) -> Seq<char> {
    match tok {
        Tok::LBracket => seq!['('],
        Tok::RBracket => seq![')'],
        Tok::Lambda => seq!['\u{3bb}'],
        Tok::Word(w) => w,
        Tok::AlphaChar(c) => seq![c],
        Tok::Dot => seq!['.'],
        Tok::Colon => seq![':'],
        Tok::Arrow => seq!['-', '>'],
        Tok::Space => seq![' '],
        Tok::Equal => seq!['='],
        Tok::EOF => Seq::empty(),
    }
}

/// The character that spells a token of one character.
pub open spec fn mark(tok: Tok) -> char {
    match tok {
        Tok::LBracket => '(',
        Tok::RBracket => ')',
        Tok::Lambda => '\u{3bb}',
        Tok::Dot => '.',
        Tok::Colon => ':',
        Tok::Space => ' ',
        Tok::Equal => '=',
        _ => '-',
    }
}

/// What is spelt lies within the text.
pub(crate) proof fn lemma_spelt_within(s: Seq<char>, p: int, n: nat, w: Seq<char>)
    requires
        spelt_at(s, p, n, w),
    ensures
        0 <= p,
        p + n <= s.len(),
        n == w.len(),
{
    reveal(spelt_at);
}

/// What two stretches of text spell one after the other, they spell
/// together.
pub(crate) proof fn lemma_spelt_join(
    s: Seq<char>,
    p: int,
    n1: nat,
    a: Seq<char>,
    n2: nat,
    b: Seq<char>,
)
    requires
        spelt_at(s, p, n1, a),
        spelt_at(s, p + n1, n2, b),
    ensures
        spelt_at(s, p, n1 + n2, a + b),
{
    reveal(spelt_at);
    let left = plain(s.subrange(p, p + n1));
    let right = plain(s.subrange(p + n1, p + n1 + n2));
    let both = plain(s.subrange(p, p + n1 + n2));
    assert(both =~= left + right);
}

/// The characters of what is spelt are found in the text, a backslash for a
/// lambda.
pub(crate) proof fn lemma_spelt_char(s: Seq<char>, p: int, n: nat, w: Seq<char>, i: int)
    requires
        spelt_at(s, p, n, w),
        0 <= i < n,
    ensures
        0 <= p + i < s.len(),
        plain_char(s[p + i]) == w[i],
{
    reveal(spelt_at);
    assert(plain(s.subrange(p, p + n))[i] == plain_char(s[p + i]));
}

/// Where a text spells two texts one after the other, it spells each of
/// them.
pub(crate) proof fn lemma_spelt_split(s: Seq<char>, p: int, a: Seq<char>, b: Seq<char>)
    requires
        spelt_at(s, p, a.len() + b.len(), a + b),
    ensures
        spelt_at(s, p, a.len(), a),
        spelt_at(s, p + a.len(), b.len(), b),
{
    reveal(spelt_at);
    let n = a.len() + b.len();
    assert forall|i: int| 0 <= i < a.len() implies plain(s.subrange(p, p + a.len()))[i]
        == a[i] by {
        lemma_spelt_char(s, p, n, a + b, i);
    }
    let q = p + a.len();
    assert forall|i: int| 0 <= i < b.len() implies plain(s.subrange(q, q + b.len()))[i]
        == b[i] by {
        lemma_spelt_char(s, p, n, a + b, a.len() + i);
    }
    assert(plain(s.subrange(p, p + a.len())) =~= a);
    assert(plain(s.subrange(q, q + b.len())) =~= b);
}

/// What is spelt without a lambda stands as it is.
pub(crate) proof fn lemma_spelt_stands(s: Seq<char>, p: int, w: Seq<char>)
    requires
        spelt_at(s, p, w.len(), w),
        forall|i: int| 0 <= i < w.len() ==> w[i] != '\u{3bb}',
    ensures
        stands_at(s, p, w),
{
    reveal(spelt_at);
    reveal(stands_at);
    assert forall|i: int| 0 <= i < w.len() implies s.subrange(p, p + w.len())[i] == w[i] by {
        lemma_spelt_char(s, p, w.len(), w, i);
    }
    assert(s.subrange(p, p + w.len()) =~= w);
}

/// The characters of a text that stands in another are found there.
pub(crate) proof fn lemma_stands_char(s: Seq<char>, p: int, w: Seq<char>, i: int)
    requires
        stands_at(s, p, w),
        0 <= i < w.len(),
    ensures
        0 <= p + i < s.len(),
        s[p + i] == w[i],
{
    reveal(stands_at);
    assert(s.subrange(p, p + w.len())[i] == s[p + i]);
}

/// A text takes at least as many bytes as it has characters.
pub(crate) proof fn lemma_utf8_len_at_least(w: Seq<char>)
    ensures
        utf8_len(w) >= w.len(),
    decreases w.len(),
{
    if w.len() > 0 {
        lemma_utf8_len_at_least(w.drop_first());
    }
}

/// The fixed parts of the syntax, character by character.
pub(crate) proof fn lemma_literals()
    ensures
        "("@ == seq!['('],
        ")"@ == seq![')'],
        " -> "@ == seq![' ', '-', '>', ' '],
        "(\u{3bb}"@ == seq!['(', '\u{3bb}'],
        ":"@ == seq![':'],
        ". "@ == seq!['.', ' '],
        " "@ == seq![' '],
        "(let "@ == seq!['(', 'l', 'e', 't', ' '],
        " = "@ == seq![' ', '=', ' '],
        " in "@ == seq![' ', 'i', 'n', ' '],
        "let"@ == seq!['l', 'e', 't'],
        "in"@ == seq!['i', 'n'],
        "unit"@ == seq!['u', 'n', 'i', 't'],
        "Unit"@ == seq!['U', 'n', 'i', 't'],
{
    reveal_strlit("unit");
    reveal_strlit("Unit");
    assert("unit"@ =~= seq!['u', 'n', 'i', 't']);
    assert("Unit"@ =~= seq!['U', 'n', 'i', 't']);
    reveal_strlit("(");
    reveal_strlit(")");
    reveal_strlit(" -> ");
    reveal_strlit("(\u{3bb}");
    reveal_strlit(":");
    reveal_strlit(". ");
    reveal_strlit(" ");
    reveal_strlit("(let ");
    reveal_strlit(" = ");
    reveal_strlit(" in ");
    reveal_strlit("let");
    reveal_strlit("in");
    assert("("@ =~= seq!['(']);
    assert(")"@ =~= seq![')']);
    assert(" -> "@ =~= seq![' ', '-', '>', ' ']);
    assert("(\u{3bb}"@ =~= seq!['(', '\u{3bb}']);
    assert(":"@ =~= seq![':']);
    assert(". "@ =~= seq!['.', ' ']);
    assert(" "@ =~= seq![' ']);
    assert("(let "@ =~= seq!['(', 'l', 'e', 't', ' ']);
    assert(" = "@ =~= seq![' ', '=', ' ']);
    assert(" in "@ =~= seq![' ', 'i', 'n', ' ']);
    assert("let"@ =~= seq!['l', 'e', 't']);
    assert("in"@ =~= seq!['i', 'n']);
}

/// The lengths of the fixed parts of the syntax.
pub(crate) proof fn lemma_lengths()
    ensures
        "("@.len() == 1,
        ")"@.len() == 1,
        " -> "@.len() == 4,
        "Unit"@.len() == 4,
        "unit"@.len() == 4,
        "(\u{3bb}"@.len() == 2,
        ":"@.len() == 1,
        ". "@.len() == 2,
        " "@.len() == 1,
        "(let "@.len() == 5,
        " = "@.len() == 3,
        " in "@.len() == 4,
        "let"@.len() == 3,
        "in"@.len() == 2,
{
    reveal_strlit("(");
    reveal_strlit(")");
    reveal_strlit(" -> ");
    reveal_strlit("Unit");
    reveal_strlit("unit");
    reveal_strlit("(\u{3bb}");
    reveal_strlit(":");
    reveal_strlit(". ");
    reveal_strlit(" ");
    reveal_strlit("(let ");
    reveal_strlit(" = ");
    reveal_strlit(" in ");
    reveal_strlit("let");
    reveal_strlit("in");
}

/// Writing out two texts one after the other writes out each.
proof fn lemma_plain_add(a: Seq<char>, b: Seq<char>)
    ensures
        plain(a + b) == plain(a) + plain(b),
{
    assert(plain(a + b) =~= plain(a) + plain(b));
}

/// The spelling of a type holds no backslash.
pub proof fn lemma_ty_spelling_plain(ty: Ty)
    ensures
        plain(ty.spelling()) == ty.spelling(),
    decreases ty,
{
    lemma_literals();
    match ty {
        Ty::Unit => {
            assert(plain("Unit"@) =~= "Unit"@);
        },
        Ty::Arrow(a, b) => {
            lemma_ty_spelling_plain(*a);
            lemma_ty_spelling_plain(*b);
            assert(plain("("@) =~= "("@);
            assert(plain(" -> "@) =~= " -> "@);
            assert(plain(")"@) =~= ")"@);
            lemma_plain_add("("@, a.spelling());
            lemma_plain_add("("@ + a.spelling(), " -> "@);
            lemma_plain_add("("@ + a.spelling() + " -> "@, b.spelling());
            lemma_plain_add("("@ + a.spelling() + " -> "@ + b.spelling(), ")"@);
        },
    }
}

/// The spelling of a term whose names are Latin letters holds no backslash.
pub proof fn lemma_spelling_plain(t: NamedTerm)
    requires
        names_ok(t),
    ensures
        plain(t.spelling()) == t.spelling(),
    decreases t,
{
    lemma_literals();
    assert(plain("("@) =~= "("@);
    assert(plain(")"@) =~= ")"@);
    match t {
        NamedTerm::Unit => {
            assert(plain("unit"@) =~= "unit"@);
        },
        NamedTerm::Var(name) => {
            assert(plain(seq![name]) =~= seq![name]);
        },
        NamedTerm::Abs(b, body) => {
            lemma_ty_spelling_plain(b.ty);
            lemma_spelling_plain(*body);
            let x0 = "(\u{3bb}"@.push(b.name);
            let x1 = x0 + ":"@;
            let x2 = x1 + b.ty.spelling();
            let x3 = x2 + ". "@;
            let x4 = x3 + body.spelling();
            assert(plain(x0) =~= x0);
            assert(plain(":"@) =~= ":"@);
            assert(plain(". "@) =~= ". "@);
            lemma_plain_add(x0, ":"@);
            lemma_plain_add(x1, b.ty.spelling());
            lemma_plain_add(x2, ". "@);
            lemma_plain_add(x3, body.spelling());
            lemma_plain_add(x4, ")"@);
        },
        NamedTerm::App(t1, t2) => {
            lemma_spelling_plain(*t1);
            lemma_spelling_plain(*t2);
            assert(plain(" "@) =~= " "@);
            lemma_plain_add("("@, t1.spelling());
            lemma_plain_add("("@ + t1.spelling(), " "@);
            lemma_plain_add("("@ + t1.spelling() + " "@, t2.spelling());
            lemma_plain_add("("@ + t1.spelling() + " "@ + t2.spelling(), ")"@);
        },
        NamedTerm::Let(name, t1, t2) => {
            lemma_spelling_plain(*t1);
            lemma_spelling_plain(*t2);
            let x0 = "(let "@.push(name);
            let x1 = x0 + " = "@;
            let x2 = x1 + t1.spelling();
            let x3 = x2 + " in "@;
            let x4 = x3 + t2.spelling();
            assert(plain(x0) =~= x0);
            assert(plain(" = "@) =~= " = "@);
            assert(plain(" in "@) =~= " in "@);
            lemma_plain_add(x0, " = "@);
            lemma_plain_add(x1, t1.spelling());
            lemma_plain_add(x2, " in "@);
            lemma_plain_add(x3, t2.spelling());
            lemma_plain_add(x4, ")"@);
        },
    }
}

} // verus!
