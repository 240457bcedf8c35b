use vstd::prelude::*;
use crate::ctx::{rename, resolve};
use crate::model::{
    lemma_shift_avoids, lemma_shift_keeps_avoiding, lemma_subst_avoids, mu_free, Lam,
};
use crate::parser::NamedTerm;
use crate::ty::{Binding, Ty};
use crate::typing::{
    lemma_iterate_types, lemma_resolve_types, lemma_shift_down_types, lemma_shift_types,
    lemma_subst_types, lemma_typed_restores, type_of, types,
};

verus! {

/// The number of constructors of a type.
pub open spec fn size(ty: Ty) -> nat
    decreases ty,
{
    match ty {
        Ty::Unit => 1,
        Ty::Arrow(a, b) => 1 + size(*a) + size(*b),
    }
}

/// A shift neither makes nor removes a redex.
pub proof fn lemma_shift_normal(m: Lam, by: int, cutoff: int)
    ensures
        m.shift(by, cutoff).is_normal() == m.is_normal(),
    decreases m,
{
    match m {
        Lam::Unit => {},
        Lam::Var(_) => {},
        Lam::Abs(_, t) => lemma_shift_normal(*t, by, cutoff + 1),
        Lam::Mu(_, t) => lemma_shift_normal(*t, by, cutoff + 1),
        Lam::App(f, a) => {
            lemma_shift_normal(*f, by, cutoff);
            lemma_shift_normal(*a, by, cutoff);
        },
    }
}

/// Rewrites made one run after another add up.
pub proof fn lemma_iterate_add(m: Lam, j: nat, k: nat)
    ensures
        m.iterate(j).iterate(k) == m.iterate(j + k),
    decreases j,
{
    if j > 0 {
        match m.step() {
            Some(next) => {
                lemma_iterate_add(next, (j - 1) as nat, k);
            },
            None => {
                lemma_iterate_normal(m, k);
                lemma_iterate_normal(m, j + k);
            },
        }
    }
}

/// A normal form stays as it is.
pub proof fn lemma_iterate_normal(m: Lam, n: nat)
    requires
        m.is_normal(),
    ensures
        m.iterate(n) == m,
{
}

/// The rewrites of an abstraction are those of its body.
pub proof fn lemma_run_abs(b: Binding, t: Lam, n: nat)
    ensures
        Lam::Abs(b, Box::new(t)).iterate(n) == Lam::Abs(b, Box::new(t.iterate(n))),
    decreases n,
{
    if n > 0 {
        match t.step() {
            Some(next) => lemma_run_abs(b, next, (n - 1) as nat),
            None => {},
        }
    }
}

/// While the function of an application can be rewritten, the application
/// is rewritten there: what the function reaches, the application reaches
/// with it.
pub proof fn lemma_run_fun(f: Lam, a: Lam, n: nat) -> (k: nat)
    ensures
        Lam::App(Box::new(f), Box::new(a)).iterate(k) == Lam::App(
            Box::new(f.iterate(n)),
            Box::new(a),
        ),
    decreases n,
{
    if n == 0 {
        0
    } else {
        match f.step() {
            Some(next) => {
                let k = lemma_run_fun(next, a, (n - 1) as nat);
                k + 1
            },
            None => 0,
        }
    }
}

/// Once the function of an application is in normal form, the application
/// is rewritten in its argument.
pub proof fn lemma_run_arg(f: Lam, a: Lam, n: nat) -> (k: nat)
    requires
        f.is_normal(),
    ensures
        Lam::App(Box::new(f), Box::new(a)).iterate(k) == Lam::App(
            Box::new(f),
            Box::new(a.iterate(n)),
        ),
    decreases n,
{
    if n == 0 {
        0
    } else {
        match a.step() {
            Some(next) => {
                let k = lemma_run_arg(f, next, (n - 1) as nat);
                k + 1
            },
            None => 0,
        }
    }
}

/// Putting a normal form in the place of a variable of a normal form gives
/// a term that reaches a normal form: the number of rewrites is returned.
/// Where a term that is no abstraction becomes one, its type is no larger
/// than that of the variable. The induction is on the type of the variable,
/// then on the term.
pub proof fn lemma_inst_halts(ctx: Seq<Ty>, t: Lam, index: int, s: Lam) -> (n: nat)
    requires
        0 <= index < ctx.len(),
        type_of(ctx, t) is Some,
        type_of(ctx, s) == Some(ctx[ctx.len() - 1 - index]),
        mu_free(t),
        mu_free(s),
        t.is_normal(),
        s.is_normal(),
        s.avoids(index),
    ensures
        t.inst(index, s).iterate(n).is_normal(),
        !(t is Abs) && t.inst(index, s).iterate(n) is Abs ==> size(type_of(ctx, t)->Some_0)
            <= size(ctx[ctx.len() - 1 - index]),
    decreases size(ctx[ctx.len() - 1 - index]), t,
{
    let here = ctx.len() - 1 - index;
    let whole = t.inst(index, s);
    match t {
        Lam::Unit => 0,
        Lam::Var(_) => {
            lemma_shift_normal(s, -1, index);
            0
        },
        Lam::Mu(_, _) => 0,
        Lam::Abs(b, body) => {
            let inner = ctx.push(b.ty);
            let lifted = s.shift(1, 0);
            lemma_shift_types(ctx, s, 0, b.ty);
            assert(ctx.insert(ctx.len() as int, b.ty) == inner);
            lemma_shift_normal(s, 1, 0);
            lemma_shift_keeps_avoiding(s, index, 0);
            let n = lemma_inst_halts(inner, *body, index + 1, lifted);
            lemma_run_abs(b, body.inst(index + 1, lifted), n);
            assert(whole == Lam::Abs(b, Box::new(body.inst(index + 1, lifted))));
            n
        },
        Lam::App(f, a) => {
            let rest = ctx.remove(here);
            let dom = type_of(ctx, *a)->Some_0;
            let cod = type_of(ctx, t)->Some_0;
            let fun_ty = Ty::Arrow(Box::new(dom), Box::new(cod));
            assert(type_of(ctx, *f) == Some(fun_ty));
            let n1 = lemma_inst_halts(ctx, *f, index, s);
            let n2 = lemma_inst_halts(ctx, *a, index, s);
            let f0 = f.inst(index, s);
            let a0 = a.inst(index, s);
            assert(whole == Lam::App(Box::new(f0), Box::new(a0)));
            let f1 = f0.iterate(n1);
            let a1 = a0.iterate(n2);
            // The types of the two sides, before and after their rewrites.
            lemma_subst_types(ctx, *f, index, s);
            lemma_subst_avoids(*f, index, s);
            lemma_shift_down_types(ctx, f.subst(index, s), index);
            lemma_iterate_types(rest, f0, n1);
            lemma_subst_types(ctx, *a, index, s);
            lemma_subst_avoids(*a, index, s);
            lemma_shift_down_types(ctx, a.subst(index, s), index);
            lemma_iterate_types(rest, a0, n2);
            assert(type_of(rest, f1) == Some(fun_ty));
            assert(type_of(rest, a1) == Some(dom));
            // The application follows its sides.
            let k1 = lemma_run_fun(f0, a0, n1);
            let k2 = lemma_run_arg(f1, a0, n2);
            let both = Lam::App(Box::new(f1), Box::new(a1));
            lemma_iterate_add(whole, k1, k2);
            assert(whole.iterate(k1 + k2) == both);
            match f1 {
                Lam::Abs(b, body) => {
                    assert(b.ty == dom);
                    assert(type_of(rest.push(dom), *body) == Some(cod));
                    assert(body.is_normal());
                    assert(mu_free(*body));
                    let lifted = a1.shift(1, 0);
                    lemma_shift_types(rest, a1, 0, dom);
                    assert(rest.insert(rest.len() as int, dom) == rest.push(dom));
                    lemma_shift_normal(a1, 1, 0);
                    lemma_shift_avoids(a1, 0);
                    assert(size(dom) < size(fun_ty));
                    assert(size(cod) < size(fun_ty));
                    let n3 = lemma_inst_halts(rest.push(dom), *body, 0, lifted);
                    let fired = body.inst(0, lifted);
                    assert(both.step() == Some(fired));
                    assert(both.iterate(1) == fired) by {
                        reveal_with_fuel(Lam::iterate, 2);
                    }
                    lemma_iterate_add(whole, k1 + k2, 1);
                    lemma_iterate_add(whole, k1 + k2 + 1, n3);
                    k1 + k2 + 1 + n3
                },
                Lam::Mu(_, _) => {
                    assert(!mu_free(f1));
                    0
                },
                _ => {
                    assert(both.is_normal());
                    k1 + k2
                },
            }
        },
    }
}

/// Normalization: a typed term without recursion binders reaches a normal
/// form after the number of rewrites that is returned.
pub proof fn lemma_normalizes(ctx: Seq<Ty>, m: Lam) -> (n: nat)
    requires
        type_of(ctx, m) is Some,
        mu_free(m),
    ensures
        m.iterate(n).is_normal(),
    decreases m,
{
    match m {
        Lam::Unit => 0,
        Lam::Var(_) => 0,
        Lam::Mu(_, _) => 0,
        Lam::Abs(b, body) => {
            let n = lemma_normalizes(ctx.push(b.ty), *body);
            lemma_run_abs(b, *body, n);
            n
        },
        Lam::App(f, a) => {
            let n1 = lemma_normalizes(ctx, *f);
            let n2 = lemma_normalizes(ctx, *a);
            let f1 = f.iterate(n1);
            let a1 = a.iterate(n2);
            lemma_iterate_types(ctx, *f, n1);
            lemma_iterate_types(ctx, *a, n2);
            let k1 = lemma_run_fun(*f, *a, n1);
            let k2 = lemma_run_arg(f1, *a, n2);
            let both = Lam::App(Box::new(f1), Box::new(a1));
            lemma_iterate_add(m, k1, k2);
            assert(m.iterate(k1 + k2) == both);
            match f1 {
                Lam::Abs(b, body) => {
                    let dom = b.ty;
                    assert(type_of(ctx, a1) == Some(dom));
                    assert(type_of(ctx.push(dom), *body) is Some);
                    assert(body.is_normal());
                    assert(mu_free(*body));
                    let lifted = a1.shift(1, 0);
                    lemma_shift_types(ctx, a1, 0, dom);
                    assert(ctx.insert(ctx.len() as int, dom) == ctx.push(dom));
                    lemma_shift_normal(a1, 1, 0);
                    lemma_shift_avoids(a1, 0);
                    let n3 = lemma_inst_halts(ctx.push(dom), *body, 0, lifted);
                    let fired = body.inst(0, lifted);
                    assert(both.step() == Some(fired));
                    assert(both.iterate(1) == fired) by {
                        reveal_with_fuel(Lam::iterate, 2);
                    }
                    lemma_iterate_add(m, k1 + k2, 1);
                    lemma_iterate_add(m, k1 + k2 + 1, n3);
                    k1 + k2 + 1 + n3
                },
                Lam::Mu(_, _) => {
                    assert(!mu_free(f1));
                    0
                },
                _ => {
                    assert(both.is_normal());
                    k1 + k2
                },
            }
        },
    }
}

/// A term that resolves is evaluated in finitely many rewrites, returned
/// here, to a normal form of the type that resolution derived, whose names
/// can be restored.
pub proof fn lemma_resolved_normalizes(ctx: Seq<Binding>, t: NamedTerm) -> (n: nat)
    requires
        resolve(ctx, t) is Ok,
    ensures
        resolve(ctx, t)->Ok_0.0.iterate(n).is_normal(),
        type_of(types(ctx), resolve(ctx, t)->Ok_0.0.iterate(n)) == Some(resolve(ctx, t)->Ok_0.1),
        rename(ctx, resolve(ctx, t)->Ok_0.0.iterate(n)) is Ok,
{
    let m = resolve(ctx, t)->Ok_0.0;
    lemma_resolve_types(ctx, t);
    let n = lemma_normalizes(types(ctx), m);
    lemma_iterate_types(types(ctx), m, n);
    lemma_typed_restores(ctx, m.iterate(n));
    n
}

} // verus!
