use vstd::prelude::*;
use crate::ctx::{at, lemma_lookup_finds, lemma_rename_scoped, lookup, rename, resolve, Fault};
use crate::model::{lemma_shift_avoids, lemma_subst_avoids, mu_free, Lam};
use crate::parser::NamedTerm;
use crate::ty::{Binding, Ty};

verus! {

/// The type of `m` beneath binders of the types `ctx`, innermost last, if it
/// has one. A recursion binder has the type of its annotation, which its
/// body must have too.
pub open spec fn type_of(ctx: Seq<Ty>, m: Lam) -> Option<Ty>
    decreases m,
{
    match m {
        Lam::Unit => Some(Ty::Unit),
        Lam::Var(i) => if 0 <= i < ctx.len() {
            Some(ctx[ctx.len() - 1 - i])
        } else {
            None
        },
        Lam::Abs(b, t) => match type_of(ctx.push(b.ty), *t) {
            Some(ty) => Some(Ty::Arrow(Box::new(b.ty), Box::new(ty))),
            None => None,
        },
        Lam::Mu(b, t) => if type_of(ctx.push(b.ty), *t) == Some(b.ty) {
            Some(b.ty)
        } else {
            None
        },
        Lam::App(f, a) => match type_of(ctx, *f) {
            Some(Ty::Arrow(dom, cod)) => if type_of(ctx, *a) == Some(*dom) {
                Some(*cod)
            } else {
                None
            },
            _ => None,
        },
    }
}

/// The types of the binders of a context.
pub open spec fn types(ctx: Seq<Binding>) -> Seq<Ty> {
    Seq::new(ctx.len(), |i: int| ctx[i].ty)
}

/// The type that name resolution derives is the type of the nameless term,
/// which has no recursion binder.
pub proof fn lemma_resolve_types(ctx: Seq<Binding>, t: NamedTerm)
    requires
        resolve(ctx, t) is Ok,
    ensures
        type_of(types(ctx), resolve(ctx, t)->Ok_0.0) == Some(resolve(ctx, t)->Ok_0.1),
        mu_free(resolve(ctx, t)->Ok_0.0),
    decreases t,
{
    match t {
        NamedTerm::Unit => {},
        NamedTerm::Var(name) => {
            lemma_lookup_finds(ctx, name);
        },
        NamedTerm::Abs(b, body) => {
            lemma_resolve_types(ctx.push(b), *body);
            assert(types(ctx.push(b)) == types(ctx).push(b.ty));
        },
        NamedTerm::App(t1, t2) => {
            lemma_resolve_types(ctx, *t1);
            lemma_resolve_types(ctx, *t2);
        },
        NamedTerm::Let(name, t1, t2) => {
            lemma_resolve_types(ctx, *t1);
            let (m1, ty1) = resolve(ctx, *t1)->Ok_0;
            let b = Binding { name, ty: ty1 };
            lemma_resolve_types(ctx.push(b), *t2);
            let (m2, ty2) = resolve(ctx.push(b), *t2)->Ok_0;
            assert(types(ctx.push(b)) == types(ctx).push(b.ty));
            let f = Lam::Abs(b, Box::new(m2));
            assert(type_of(types(ctx), f) == Some(Ty::Arrow(Box::new(ty1), Box::new(ty2))));
            assert(mu_free(f));
        },
    }
}

/// Weakening: a term keeps its type when a binder is put into its context
/// `cutoff` binders from the top and the term is shifted up at `cutoff`.
pub proof fn lemma_shift_types(ctx: Seq<Ty>, m: Lam, cutoff: int, extra: Ty)
    requires
        0 <= cutoff <= ctx.len(),
        type_of(ctx, m) is Some,
    ensures
        type_of(ctx.insert(ctx.len() - cutoff, extra), m.shift(1, cutoff)) == type_of(ctx, m),
        mu_free(m.shift(1, cutoff)) == mu_free(m),
    decreases m,
{
    let wider = ctx.insert(ctx.len() - cutoff, extra);
    match m {
        Lam::Unit => {},
        Lam::Var(_) => {},
        Lam::Abs(b, t) => {
            assert(ctx.push(b.ty).insert(ctx.len() + 1 - (cutoff + 1), extra) == wider.push(b.ty));
            lemma_shift_types(ctx.push(b.ty), *t, cutoff + 1, extra);
        },
        Lam::Mu(b, t) => {
            assert(ctx.push(b.ty).insert(ctx.len() + 1 - (cutoff + 1), extra) == wider.push(b.ty));
            lemma_shift_types(ctx.push(b.ty), *t, cutoff + 1, extra);
        },
        Lam::App(f, a) => {
            lemma_shift_types(ctx, *f, cutoff, extra);
            lemma_shift_types(ctx, *a, cutoff, extra);
        },
    }
}

/// Strengthening: a term that does not use the binder `cutoff` binders from
/// the top keeps its type when that binder is taken out of its context and
/// the term is shifted down at `cutoff`.
pub proof fn lemma_shift_down_types(ctx: Seq<Ty>, m: Lam, cutoff: int)
    requires
        0 <= cutoff < ctx.len(),
        m.avoids(cutoff),
        type_of(ctx, m) is Some,
    ensures
        type_of(ctx.remove(ctx.len() - 1 - cutoff), m.shift(-1, cutoff)) == type_of(ctx, m),
        mu_free(m.shift(-1, cutoff)) == mu_free(m),
    decreases m,
{
    let narrower = ctx.remove(ctx.len() - 1 - cutoff);
    match m {
        Lam::Unit => {},
        Lam::Var(_) => {},
        Lam::Abs(b, t) => {
            assert(ctx.push(b.ty).remove(ctx.len() + 1 - 1 - (cutoff + 1)) == narrower.push(b.ty));
            lemma_shift_down_types(ctx.push(b.ty), *t, cutoff + 1);
        },
        Lam::Mu(b, t) => {
            assert(ctx.push(b.ty).remove(ctx.len() + 1 - 1 - (cutoff + 1)) == narrower.push(b.ty));
            lemma_shift_down_types(ctx.push(b.ty), *t, cutoff + 1);
        },
        Lam::App(f, a) => {
            lemma_shift_down_types(ctx, *f, cutoff);
            lemma_shift_down_types(ctx, *a, cutoff);
        },
    }
}

/// A term keeps its type when a variable is replaced by a term of the
/// variable's type.
pub proof fn lemma_subst_types(ctx: Seq<Ty>, m: Lam, index: int, s: Lam)
    requires
        0 <= index < ctx.len(),
        type_of(ctx, s) == Some(ctx[ctx.len() - 1 - index]),
        type_of(ctx, m) is Some,
    ensures
        type_of(ctx, m.subst(index, s)) == type_of(ctx, m),
        mu_free(m) && mu_free(s) ==> mu_free(m.subst(index, s)),
    decreases m,
{
    match m {
        Lam::Unit => {},
        Lam::Var(_) => {},
        Lam::Abs(b, t) => {
            lemma_shift_types(ctx, s, 0, b.ty);
            assert(ctx.insert(ctx.len() as int, b.ty) == ctx.push(b.ty));
            lemma_subst_types(ctx.push(b.ty), *t, index + 1, s.shift(1, 0));
        },
        Lam::Mu(b, t) => {
            lemma_shift_types(ctx, s, 0, b.ty);
            assert(ctx.insert(ctx.len() as int, b.ty) == ctx.push(b.ty));
            lemma_subst_types(ctx.push(b.ty), *t, index + 1, s.shift(1, 0));
        },
        Lam::App(f, a) => {
            lemma_subst_types(ctx, *f, index, s);
            lemma_subst_types(ctx, *a, index, s);
        },
    }
}

/// Contracting a redex keeps the type of its body.
pub proof fn lemma_beta_types(ctx: Seq<Ty>, param: Ty, body: Lam, arg: Lam)
    requires
        type_of(ctx.push(param), body) is Some,
        type_of(ctx, arg) == Some(param),
    ensures
        type_of(ctx, Lam::beta(body, arg)) == type_of(ctx.push(param), body),
        mu_free(body) && mu_free(arg) ==> mu_free(Lam::beta(body, arg)),
{
    let inner = ctx.push(param);
    let lifted = arg.shift(1, 0);
    lemma_shift_types(ctx, arg, 0, param);
    assert(ctx.insert(ctx.len() as int, param) == inner);
    lemma_subst_types(inner, body, 0, lifted);
    lemma_shift_avoids(arg, 0);
    lemma_subst_avoids(body, 0, lifted);
    lemma_shift_down_types(inner, body.subst(0, lifted), 0);
    assert(inner.remove(inner.len() - 1) == ctx);
}

/// Preservation: a rewrite of a typed term without recursion binders gives
/// a term of the same type, again without recursion binders.
pub proof fn lemma_step_types(ctx: Seq<Ty>, m: Lam)
    requires
        type_of(ctx, m) is Some,
        mu_free(m),
        m.step() is Some,
    ensures
        type_of(ctx, m.step()->Some_0) == type_of(ctx, m),
        mu_free(m.step()->Some_0),
    decreases m,
{
    match m {
        Lam::Unit => {},
        Lam::Var(_) => {},
        Lam::Abs(b, t) => {
            lemma_step_types(ctx.push(b.ty), *t);
        },
        Lam::Mu(_, _) => {},
        Lam::App(f, a) => {
            if f.step() is Some {
                lemma_step_types(ctx, *f);
            } else if a.step() is Some {
                lemma_step_types(ctx, *a);
            } else {
                match *f {
                    Lam::Abs(b, body) => {
                        assert(mu_free(*f));
                        assert(mu_free(*body));
                        assert(type_of(ctx, *f) is Some);
                        assert(type_of(ctx.push(b.ty), *body) is Some);
                        assert(type_of(ctx, *a) == Some(b.ty));
                        lemma_beta_types(ctx, b.ty, *body, *a);
                        assert(m.step() == Some(Lam::beta(*body, *a)));
                    },
                    Lam::Mu(_, _) => {
                        assert(!mu_free(*f));
                    },
                    _ => {
                        assert(m.step() is None);
                    },
                }
            }
        },
    }
}

/// Preservation along a run: however many rewrites are made, the type
/// stays.
pub proof fn lemma_iterate_types(ctx: Seq<Ty>, m: Lam, n: nat)
    requires
        type_of(ctx, m) is Some,
        mu_free(m),
    ensures
        type_of(ctx, m.iterate(n)) == type_of(ctx, m),
        mu_free(m.iterate(n)),
    decreases n,
{
    if n > 0 && m.step() is Some {
        lemma_step_types(ctx, m);
        lemma_iterate_types(ctx, m.step()->Some_0, (n - 1) as nat);
    }
}

/// A typed term has no dangling index.
pub proof fn lemma_typed_scoped(ctx: Seq<Ty>, m: Lam)
    requires
        type_of(ctx, m) is Some,
    ensures
        m.scoped(ctx.len() as int),
    decreases m,
{
    match m {
        Lam::Unit => {},
        Lam::Var(_) => {},
        Lam::Abs(b, t) => lemma_typed_scoped(ctx.push(b.ty), *t),
        Lam::Mu(b, t) => lemma_typed_scoped(ctx.push(b.ty), *t),
        Lam::App(f, a) => {
            lemma_typed_scoped(ctx, *f);
            lemma_typed_scoped(ctx, *a);
        },
    }
}

/// A typed term has no dangling index: its names can be restored.
pub proof fn lemma_typed_restores(ctx: Seq<Binding>, m: Lam)
    requires
        type_of(types(ctx), m) is Some,
    ensures
        rename(ctx, m) is Ok,
{
    lemma_typed_scoped(types(ctx), m);
    lemma_rename_scoped(ctx, m);
}

/// Name resolution leaves no dangling index and no recursion binder.
pub proof fn lemma_resolve_scoped(ctx: Seq<Binding>, t: NamedTerm)
    requires
        resolve(ctx, t) is Ok,
    ensures
        resolve(ctx, t)->Ok_0.0.scoped(ctx.len() as int),
        resolve(ctx, t)->Ok_0.0.fits(),
        mu_free(resolve(ctx, t)->Ok_0.0),
{
    lemma_resolve_types(ctx, t);
    lemma_typed_scoped(types(ctx), resolve(ctx, t)->Ok_0.0);
    lemma_resolve_fits(ctx, t);
}

/// Name resolution gives no index beyond what an index can count.
pub proof fn lemma_resolve_fits(ctx: Seq<Binding>, t: NamedTerm)
    requires
        resolve(ctx, t) is Ok,
    ensures
        resolve(ctx, t)->Ok_0.0.fits(),
    decreases t,
{
    match t {
        NamedTerm::Unit => {},
        NamedTerm::Var(name) => {
            lemma_lookup_finds(ctx, name);
        },
        NamedTerm::Abs(b, body) => {
            lemma_resolve_fits(ctx.push(b), *body);
        },
        NamedTerm::App(t1, t2) => {
            lemma_resolve_fits(ctx, *t1);
            lemma_resolve_fits(ctx, *t2);
        },
        NamedTerm::Let(name, t1, t2) => {
            lemma_resolve_fits(ctx, *t1);
            let b = Binding { name, ty: resolve(ctx, *t1)->Ok_0.1 };
            lemma_resolve_fits(ctx.push(b), *t2);
            let m2 = resolve(ctx.push(b), *t2)->Ok_0.0;
            assert(Lam::Abs(b, Box::new(m2)).fits());
        },
    }
}

/// A resolved term keeps its type through any number of rewrites, and the
/// names of what it has become can be restored.
pub proof fn lemma_resolved_runs_typed(ctx: Seq<Binding>, t: NamedTerm, n: nat)
    requires
        resolve(ctx, t) is Ok,
    ensures
        type_of(types(ctx), resolve(ctx, t)->Ok_0.0.iterate(n)) == Some(resolve(ctx, t)->Ok_0.1),
        rename(ctx, resolve(ctx, t)->Ok_0.0.iterate(n)) is Ok,
{
    let m = resolve(ctx, t)->Ok_0.0;
    lemma_resolve_types(ctx, t);
    lemma_iterate_types(types(ctx), m, n);
    lemma_typed_restores(ctx, m.iterate(n));
}

/// No two binders of the context have one name.
pub open spec fn distinct(ctx: Seq<Binding>) -> bool {
    forall|i: int, j: int| 0 <= i < j < ctx.len() ==> ctx[i].name != ctx[j].name
}

/// No binder of the term has the name of a binder around it, in the term
/// or in `ctx`.
pub open spec fn binds_afresh(ctx: Seq<Binding>, m: Lam) -> bool
    decreases m,
{
    match m {
        Lam::Unit => true,
        Lam::Var(_) => true,
        Lam::Abs(b, t) => lookup(ctx, b.name) is None && binds_afresh(ctx.push(b), *t),
        Lam::Mu(b, t) => lookup(ctx, b.name) is None && binds_afresh(ctx.push(b), *t),
        Lam::App(f, a) => binds_afresh(ctx, *f) && binds_afresh(ctx, *a),
    }
}

/// Where no two binders have one name, the name of a binder is found at
/// that binder.
pub proof fn lemma_lookup_distinct(ctx: Seq<Binding>, i: int)
    requires
        distinct(ctx),
        0 <= i < ctx.len(),
    ensures
        lookup(ctx, at(ctx, i).name) == Some(i),
    decreases ctx.len(),
{
    if i > 0 {
        let rest = ctx.drop_last();
        assert(at(rest, i - 1) == at(ctx, i));
        lemma_lookup_distinct(rest, i - 1);
    }
}

/// A name that is not found is the name of no binder.
pub proof fn lemma_lookup_none(ctx: Seq<Binding>, name: crate::parser::Name, k: int)
    requires
        lookup(ctx, name) is None,
        0 <= k < ctx.len(),
    ensures
        ctx[k].name != name,
    decreases ctx.len(),
{
    if k < ctx.len() - 1 {
        lemma_lookup_none(ctx.drop_last(), name, k);
    }
}

/// Resolution undoes restoring: where no name is bound twice in one scope,
/// a typed term without recursion binders, once its names are restored,
/// resolves to itself and its type.
pub proof fn lemma_desugar_restore(ctx: Seq<Binding>, m: Lam)
    requires
        distinct(ctx),
        binds_afresh(ctx, m),
        type_of(types(ctx), m) is Some,
        mu_free(m),
        m.fits(),
    ensures
        rename(ctx, m) is Ok,
        resolve(ctx, rename(ctx, m)->Ok_0) == Ok::<(Lam, Ty), Fault>(
            (m, type_of(types(ctx), m)->Some_0),
        ),
    decreases m,
{
    match m {
        Lam::Unit => {},
        Lam::Var(i) => {
            lemma_lookup_distinct(ctx, i);
        },
        Lam::Abs(b, t) => {
            let inner = ctx.push(b);
            assert(types(inner) == types(ctx).push(b.ty));
            assert forall|i: int, j: int| 0 <= i < j < inner.len() implies inner[i].name
                != inner[j].name by {
                if j == ctx.len() {
                    lemma_lookup_none(ctx, b.name, i);
                }
            }
            lemma_desugar_restore(inner, *t);
        },
        Lam::Mu(_, _) => {},
        Lam::App(f, a) => {
            lemma_desugar_restore(ctx, *f);
            lemma_desugar_restore(ctx, *a);
        },
    }
}

} // verus!
