use vstd::prelude::*;
use crate::ctx::{
    lemma_lookup_finds, let_free, lookup, rename, resolve, Context, Fault,
};
use crate::eval::{Index, Term};
use crate::model::{lemma_shift_shift, lemma_shift_within, Lam};
use crate::parser::{Name, NamedTerm};
use crate::ty::{Binding, Ty};

verus! {

/// Why the names of a term could not be removed or restored.
#[derive(Debug, PartialEq, Eq)]
pub enum NamingError {
    /// A variable is referred to with no enclosing binder of that name.
    MissingIndex(Name),
    /// An index that points outside the binders in scope.
    MissingName(Index),
    /// A variable whose binder lies further out than an index can count.
    TooDeep(Name),
    /// A `let`: the binder that it stands for cannot be annotated without
    /// the type of the bound term.
    UntypedLet(Name),
}

/// The mathematical form of a `NamingError`.
pub enum NamingFault {
    MissingIndex(Name),
    MissingName(int),
    TooDeep(Name),
    UntypedLet(Name),
}

impl View for NamingError {
    type V = NamingFault;

    open spec fn view(&self) -> NamingFault {
        match self {
            NamingError::MissingIndex(name) => NamingFault::MissingIndex(*name),
            NamingError::MissingName(index) => NamingFault::MissingName(*index as int),
            NamingError::TooDeep(name) => NamingFault::TooDeep(*name),
            NamingError::UntypedLet(name) => NamingFault::UntypedLet(*name),
        }
    }
}

/// The nameless form of `t` beneath the binders `ctx`, whatever its type or
/// want of one: each variable is the distance to the innermost binder of its
/// name. The parts are visited from left to right and the first fault is the
/// one reported.
pub open spec fn erase(ctx: Seq<Binding>, t: NamedTerm) -> Result<Lam, NamingFault>
    decreases t,
{
    match t {
        NamedTerm::Unit => Ok(Lam::Unit),
        NamedTerm::Var(name) => match lookup(ctx, name) {
            None => Err(NamingFault::MissingIndex(name)),
            Some(i) => if i <= Index::MAX {
                Ok(Lam::Var(i))
            } else {
                Err(NamingFault::TooDeep(name))
            },
        },
        NamedTerm::Abs(b, body) => match erase(ctx.push(b), *body) {
            Ok(m) => Ok(Lam::Abs(b, Box::new(m))),
            Err(e) => Err(e),
        },
        NamedTerm::App(t1, t2) => match erase(ctx, *t1) {
            Err(e) => Err(e),
            Ok(m1) => match erase(ctx, *t2) {
                Err(e) => Err(e),
                Ok(m2) => Ok(Lam::App(Box::new(m1), Box::new(m2))),
            },
        },
        NamedTerm::Let(name, _, _) => Err(NamingFault::UntypedLet(name)),
    }
}

/// Resolves the names of a term that stands beneath no binder, without
/// regard to types.
pub fn remove_names(term: NamedTerm) -> (res: Result<Term, NamingError>)
    ensures
        match res {
            Ok(t) => erase(Seq::empty(), term) == Ok::<Lam, NamingFault>(t@),
            Err(e) => erase(Seq::empty(), term) == Err::<Lam, NamingFault>(e@),
        },
{
    let mut ctx = Context::new();
    ctx.remove_names(term)
}

/// Gives the variables of a term that stands beneath no binder the names of
/// the binders they refer to.
pub fn restore_names(term: Term) -> (res: Result<NamedTerm, NamingError>)
    ensures
        res is Ok <==> term@.scoped(0),
        match res {
            Ok(n) => rename(Seq::empty(), term@) == Ok::<NamedTerm, Fault>(n),
            Err(e) => e is MissingName && rename(Seq::empty(), term@) == Err::<
                NamedTerm,
                Fault,
            >(Fault::Dangling(e->MissingName_0 as int)),
        },
{
    let mut ctx = Context::new();
    ctx.restore_names(term)
}

/// Where a term without `let` resolves with its type, it resolves to the
/// same nameless term without regard to types.
pub proof fn lemma_erase_resolves(ctx: Seq<Binding>, t: NamedTerm)
    requires
        resolve(ctx, t) is Ok,
        let_free(t),
    ensures
        erase(ctx, t) == Ok::<Lam, NamingFault>(resolve(ctx, t)->Ok_0.0),
    decreases t,
{
    match t {
        NamedTerm::Unit => {},
        NamedTerm::Var(_) => {},
        NamedTerm::Abs(b, body) => lemma_erase_resolves(ctx.push(b), *body),
        NamedTerm::App(t1, t2) => {
            lemma_erase_resolves(ctx, *t1);
            lemma_erase_resolves(ctx, *t2);
        },
        NamedTerm::Let(_, _, _) => {},
    }
}

/// Restoring the names of a term whose names were removed gives the term
/// back, whether it has a type or not.
pub proof fn lemma_restore_remove(ctx: Seq<Binding>, t: NamedTerm)
    requires
        erase(ctx, t) is Ok,
    ensures
        rename(ctx, erase(ctx, t)->Ok_0) == Ok::<NamedTerm, Fault>(t),
    decreases t,
{
    match t {
        NamedTerm::Unit => {},
        NamedTerm::Var(name) => {
            lemma_lookup_finds(ctx, name);
        },
        NamedTerm::Abs(b, body) => lemma_restore_remove(ctx.push(b), *body),
        NamedTerm::App(t1, t2) => {
            lemma_restore_remove(ctx, *t1);
            lemma_restore_remove(ctx, *t2);
        },
        NamedTerm::Let(_, _, _) => {},
    }
}

/// The variable `name` occurs free in `t`.
pub open spec fn free_in(name: Name, t: NamedTerm) -> bool
    decreases t,
{
    match t {
        NamedTerm::Unit => false,
        NamedTerm::Var(other) => other == name,
        NamedTerm::Abs(b, body) => b.name != name && free_in(name, *body),
        NamedTerm::App(t1, t2) => free_in(name, *t1) || free_in(name, *t2),
        NamedTerm::Let(other, t1, t2) => free_in(name, *t1) || (other != name && free_in(
            name,
            *t2,
        )),
    }
}

/// `t` with `s` written in the place of each variable called `x`. This is
/// substitution as it is done on paper; it means what it should where
/// `binds_apart` holds.
pub open spec fn replace_name(t: NamedTerm, x: Name, s: NamedTerm) -> NamedTerm
    decreases t,
{
    match t {
        NamedTerm::Unit => NamedTerm::Unit,
        NamedTerm::Var(other) => if other == x {
            s
        } else {
            NamedTerm::Var(other)
        },
        NamedTerm::Abs(b, body) => NamedTerm::Abs(b, Box::new(replace_name(*body, x, s))),
        NamedTerm::App(t1, t2) => NamedTerm::App(
            Box::new(replace_name(*t1, x, s)),
            Box::new(replace_name(*t2, x, s)),
        ),
        NamedTerm::Let(other, t1, t2) => NamedTerm::Let(
            other,
            Box::new(replace_name(*t1, x, s)),
            Box::new(replace_name(*t2, x, s)),
        ),
    }
}

/// No binder of `t` is called `x` or by a name that is free in `s`: writing
/// `s` for `x` in `t` captures no variable.
pub open spec fn binds_apart(t: NamedTerm, x: Name, s: NamedTerm) -> bool
    decreases t,
{
    match t {
        NamedTerm::Unit => true,
        NamedTerm::Var(_) => true,
        NamedTerm::Abs(b, body) => b.name != x && !free_in(b.name, s) && binds_apart(*body, x, s),
        NamedTerm::App(t1, t2) => binds_apart(*t1, x, s) && binds_apart(*t2, x, s),
        NamedTerm::Let(other, t1, t2) => other != x && !free_in(other, s) && binds_apart(
            *t1,
            x,
            s,
        ) && binds_apart(*t2, x, s),
    }
}

/// The largest number of binders above any part of the term.
pub open spec fn depth(t: NamedTerm) -> nat
    decreases t,
{
    match t {
        NamedTerm::Unit => 0,
        NamedTerm::Var(_) => 0,
        NamedTerm::Abs(_, body) => depth(*body) + 1,
        NamedTerm::App(t1, t2) => if depth(*t1) >= depth(*t2) {
            depth(*t1)
        } else {
            depth(*t2)
        },
        NamedTerm::Let(_, t1, t2) => if depth(*t1) >= depth(*t2) + 1 {
            depth(*t1)
        } else {
            depth(*t2) + 1
        },
    }
}

/// A name is looked up in the inner binders first, then in the outer ones.
pub proof fn lemma_lookup_append(ctx: Seq<Binding>, inner: Seq<Binding>, name: Name)
    ensures
        lookup(ctx + inner, name) == match lookup(inner, name) {
            Some(i) => Some(i),
            None => match lookup(ctx, name) {
                Some(i) => Some(i + inner.len()),
                None => None,
            },
        },
    decreases inner.len(),
{
    if inner.len() == 0 {
        assert(ctx + inner == ctx);
    } else {
        assert((ctx + inner).last() == inner.last());
        assert((ctx + inner).drop_last() == ctx + inner.drop_last());
        lemma_lookup_append(ctx, inner.drop_last(), name);
    }
}

/// A name that no binder has is not found.
pub proof fn lemma_lookup_misses(ctx: Seq<Binding>, name: Name)
    requires
        forall|k: int| 0 <= k < ctx.len() ==> ctx[k].name != name,
    ensures
        lookup(ctx, name) is None,
    decreases ctx.len(),
{
    if ctx.len() > 0 {
        lemma_lookup_misses(ctx.drop_last(), name);
    }
}

/// Weakening: binders put between the outer binders `ctx` and the inner
/// binders `inner` move the variables that refer to `ctx` up, and change
/// neither the type nor anything else, as long as each of their names that
/// is free in the term is bound again by `inner`.
pub proof fn lemma_resolve_weaken(
    ctx: Seq<Binding>,
    extra: Seq<Binding>,
    inner: Seq<Binding>,
    t: NamedTerm,
)
    requires
        resolve(ctx + inner, t) is Ok,
        forall|k: int|
            0 <= k < extra.len() && free_in(#[trigger] extra[k].name, t) ==> lookup(
                inner,
                extra[k].name,
            ) is Some,
        ctx.len() + extra.len() + inner.len() + depth(t) <= 256,
    ensures
        resolve(ctx + extra + inner, t) == Ok::<(Lam, Ty), Fault>(
            (
                resolve(ctx + inner, t)->Ok_0.0.shift(extra.len() as int, inner.len() as int),
                resolve(ctx + inner, t)->Ok_0.1,
            ),
        ),
    decreases t,
{
    let before = ctx + inner;
    let after = ctx + extra + inner;
    match t {
        NamedTerm::Unit => {},
        NamedTerm::Var(name) => {
            lemma_lookup_append(ctx, inner, name);
            lemma_lookup_append(ctx + extra, inner, name);
            lemma_lookup_append(ctx, extra, name);
            lemma_lookup_finds(inner, name);
            lemma_lookup_finds(ctx, name);
            lemma_lookup_finds(extra, name);
            if lookup(inner, name) is None {
                if lookup(extra, name) is Some {
                    let k = extra.len() - 1 - lookup(extra, name)->Some_0;
                    assert(extra[k].name == name);
                    assert(free_in(extra[k].name, t));
                }
            }
        },
        NamedTerm::Abs(b, body) => {
            assert(before.push(b) == ctx + inner.push(b));
            assert(after.push(b) == ctx + extra + inner.push(b));
            assert forall|k: int|
                0 <= k < extra.len() && free_in(#[trigger] extra[k].name, *body) implies lookup(
                inner.push(b),
                extra[k].name,
            ) is Some by {
                if extra[k].name != b.name {
                    assert(free_in(extra[k].name, t));
                    assert(inner.push(b).drop_last() == inner);
                }
            }
            lemma_resolve_weaken(ctx, extra, inner.push(b), *body);
        },
        NamedTerm::App(t1, t2) => {
            assert forall|k: int|
                0 <= k < extra.len() && free_in(#[trigger] extra[k].name, *t1) implies lookup(
                inner,
                extra[k].name,
            ) is Some by {
                assert(free_in(extra[k].name, t));
            }
            assert forall|k: int|
                0 <= k < extra.len() && free_in(#[trigger] extra[k].name, *t2) implies lookup(
                inner,
                extra[k].name,
            ) is Some by {
                assert(free_in(extra[k].name, t));
            }
            lemma_resolve_weaken(ctx, extra, inner, *t1);
            lemma_resolve_weaken(ctx, extra, inner, *t2);
        },
        NamedTerm::Let(name, t1, t2) => {
            assert forall|k: int|
                0 <= k < extra.len() && free_in(#[trigger] extra[k].name, *t1) implies lookup(
                inner,
                extra[k].name,
            ) is Some by {
                assert(free_in(extra[k].name, t));
            }
            lemma_resolve_weaken(ctx, extra, inner, *t1);
            let b = Binding { name, ty: resolve(before, *t1)->Ok_0.1 };
            assert(before.push(b) == ctx + inner.push(b));
            assert(after.push(b) == ctx + extra + inner.push(b));
            assert forall|k: int|
                0 <= k < extra.len() && free_in(#[trigger] extra[k].name, *t2) implies lookup(
                inner.push(b),
                extra[k].name,
            ) is Some by {
                if extra[k].name != b.name {
                    assert(free_in(extra[k].name, t));
                    assert(inner.push(b).drop_last() == inner);
                }
            }
            lemma_resolve_weaken(ctx, extra, inner.push(b), *t2);
            let m2 = resolve(before.push(b), *t2)->Ok_0.0;
            let f = Lam::Abs(b, Box::new(m2));
            assert(f.shift(extra.len() as int, inner.len() as int) == Lam::Abs(
                b,
                Box::new(m2.shift(extra.len() as int, inner.len() as int + 1)),
            ));
        },
    }
}

/// Substitution by names agrees with substitution by indices, beneath the
/// binders `inner` of the term in which `arg` is written for the variable
/// of `bx`.
pub proof fn lemma_replace_name_resolves(
    ctx: Seq<Binding>,
    bx: Binding,
    inner: Seq<Binding>,
    t: NamedTerm,
    arg: NamedTerm,
)
    requires
        resolve(ctx.push(bx) + inner, t) is Ok,
        resolve(ctx, arg) is Ok,
        resolve(ctx, arg)->Ok_0.1 == bx.ty,
        binds_apart(t, bx.name, arg),
        forall|k: int|
            0 <= k < inner.len() ==> (#[trigger] inner[k]).name != bx.name && !free_in(
                inner[k].name,
                arg,
            ),
        ctx.len() + inner.len() + depth(t) + depth(arg) + 1 <= 256,
    ensures
        resolve(ctx + inner, replace_name(t, bx.name, arg)) == Ok::<(Lam, Ty), Fault>(
            (
                resolve(ctx.push(bx) + inner, t)->Ok_0.0.inst(
                    inner.len() as int,
                    resolve(ctx, arg)->Ok_0.0.shift(inner.len() as int + 1, 0),
                ),
                resolve(ctx.push(bx) + inner, t)->Ok_0.1,
            ),
        ),
    decreases t,
{
    let x = bx.name;
    let before = ctx.push(bx) + inner;
    let after = ctx + inner;
    let ma = resolve(ctx, arg)->Ok_0.0;
    let d = inner.len() as int;
    let s = ma.shift(d + 1, 0);
    match t {
        NamedTerm::Unit => {},
        NamedTerm::Var(name) => {
            lemma_lookup_append(ctx.push(bx), inner, name);
            lemma_lookup_append(ctx, inner, name);
            lemma_lookup_finds(inner, name);
            lemma_lookup_finds(ctx, name);
            assert(ctx.push(bx).drop_last() == ctx);
            if name == x {
                lemma_lookup_misses(inner, x);
                let none = Seq::<Binding>::empty();
                assert(ctx + none == ctx);
                assert(ctx + inner + none == ctx + inner);
                assert forall|k: int|
                    0 <= k < inner.len() && free_in(#[trigger] inner[k].name, arg) implies lookup(
                    none,
                    inner[k].name,
                ) is Some by {
                    assert(!free_in(inner[k].name, arg));
                }
                lemma_resolve_weaken(ctx, inner, none, arg);
                lemma_shift_within(ma, d + 1, -1, 0, d);
            }
        },
        NamedTerm::Abs(b, body) => {
            assert(before.push(b) == ctx.push(bx) + inner.push(b));
            assert(after.push(b) == ctx + inner.push(b));
            lemma_shift_shift(ma, d + 1, 1, 0);
            lemma_replace_name_resolves(ctx, bx, inner.push(b), *body, arg);
        },
        NamedTerm::App(t1, t2) => {
            lemma_replace_name_resolves(ctx, bx, inner, *t1, arg);
            lemma_replace_name_resolves(ctx, bx, inner, *t2, arg);
        },
        NamedTerm::Let(name, t1, t2) => {
            lemma_replace_name_resolves(ctx, bx, inner, *t1, arg);
            let b = Binding { name, ty: resolve(before, *t1)->Ok_0.1 };
            assert(before.push(b) == ctx.push(bx) + inner.push(b));
            assert(after.push(b) == ctx + inner.push(b));
            lemma_shift_shift(ma, d + 1, 1, 0);
            lemma_replace_name_resolves(ctx, bx, inner.push(b), *t2, arg);
            let m1 = resolve(before, *t1)->Ok_0.0;
            let m2 = resolve(before.push(b), *t2)->Ok_0.0;
            let f = Lam::Abs(b, Box::new(m2));
            assert(f.inst(d, s) == Lam::Abs(b, Box::new(m2.inst(d + 1, s.shift(1, 0)))));
        },
    }
}

/// The substitution law: contracting the redex `(\x. body) arg` on indices
/// gives the nameless form of `body` with `arg` written for `x`, wherever
/// that writing captures no variable and the nesting stays within what an
/// index can count.
pub proof fn lemma_beta_is_substitution(
    ctx: Seq<Binding>,
    bx: Binding,
    body: NamedTerm,
    arg: NamedTerm,
)
    requires
        resolve(ctx.push(bx), body) is Ok,
        resolve(ctx, arg) is Ok,
        resolve(ctx, arg)->Ok_0.1 == bx.ty,
        binds_apart(body, bx.name, arg),
        ctx.len() + depth(body) + depth(arg) + 1 <= 256,
    ensures
        resolve(ctx, replace_name(body, bx.name, arg)) == Ok::<(Lam, Ty), Fault>(
            (
                Lam::beta(resolve(ctx.push(bx), body)->Ok_0.0, resolve(ctx, arg)->Ok_0.0),
                resolve(ctx.push(bx), body)->Ok_0.1,
            ),
        ),
{
    let none = Seq::<Binding>::empty();
    assert(ctx.push(bx) + none == ctx.push(bx));
    assert(ctx + none == ctx);
    lemma_replace_name_resolves(ctx, bx, none, body, arg);
}

} // verus!
