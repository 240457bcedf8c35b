use vstd::prelude::*;
use crate::eval::{Index, Term};
use crate::model::Lam;
use crate::naming::{erase, NamingError, NamingFault};
use crate::parser::{Name, NamedTerm};
use crate::ty::{Binding, Ty};

verus! {

/// Why a term could not be resolved or restored.
#[derive(Debug, PartialEq, Eq)]
pub enum CtxError {
    /// A variable is referred to with no enclosing binder of that name.
    MissingBinding(Name),
    /// An application whose function does not take an argument of the type
    /// of its argument: the argument, and the type it has.
    UnexpectedType(Term, Ty),
    /// A variable whose binder lies further out than an index can count.
    TooDeep(Name),
    /// An index that points outside the binders in scope.
    Dangling(Index),
}

/// The mathematical form of a `CtxError`.
pub enum Fault {
    MissingBinding(Name),
    UnexpectedType(Lam, Ty),
    TooDeep(Name),
    Dangling(int),
}

impl View for CtxError {
    type V = Fault;

    open spec fn view(&self) -> Fault {
        match self {
            CtxError::MissingBinding(name) => Fault::MissingBinding(*name),
            CtxError::UnexpectedType(term, ty) => Fault::UnexpectedType(term@, *ty),
            CtxError::TooDeep(name) => Fault::TooDeep(*name),
            CtxError::Dangling(index) => Fault::Dangling(*index as int),
        }
    }
}

/// The number of binders between the top of `ctx` and the innermost binder
/// called `name`, if there is one.
pub open spec fn lookup(ctx: Seq<Binding>, name: Name) -> Option<int>
    decreases ctx.len(),
{
    if ctx.len() == 0 {
        None
    } else if ctx.last().name == name {
        Some(0)
    } else {
        match lookup(ctx.drop_last(), name) {
            Some(i) => Some(i + 1),
            None => None,
        }
    }
}

/// The binding that the index `i` refers to in `ctx`, whose innermost binding
/// is its last.
pub open spec fn at(ctx: Seq<Binding>, i: int) -> Binding {
    ctx[ctx.len() - 1 - i]
}

/// The nameless form and the type of `t` beneath the binders `ctx`, or what
/// is wrong with it. A variable is the distance to the innermost binder of
/// its name and has that binder's type; an abstraction has a function type
/// from its annotation; the function of an application must have a function
/// type from exactly the argument's type; `let` is an abstraction applied at
/// once. The parts are visited from left to right and the first fault is
/// the one reported.
pub open spec fn resolve(ctx: Seq<Binding>, t: NamedTerm) -> Result<(Lam, Ty), Fault>
    decreases t,
{
    match t {
        NamedTerm::Unit => Ok((Lam::Unit, Ty::Unit)),
        NamedTerm::Var(name) => match lookup(ctx, name) {
            None => Err(Fault::MissingBinding(name)),
            Some(i) => if i <= Index::MAX {
                Ok((Lam::Var(i), at(ctx, i).ty))
            } else {
                Err(Fault::TooDeep(name))
            },
        },
        NamedTerm::Abs(b, body) => match resolve(ctx.push(b), *body) {
            Ok((m, ty)) => Ok(
                (Lam::Abs(b, Box::new(m)), Ty::Arrow(Box::new(b.ty), Box::new(ty))),
            ),
            Err(e) => Err(e),
        },
        NamedTerm::App(t1, t2) => match resolve(ctx, *t1) {
            Err(e) => Err(e),
            Ok((m1, ty1)) => match resolve(ctx, *t2) {
                Err(e) => Err(e),
                Ok((m2, ty2)) => match ty1 {
                    Ty::Arrow(dom, cod) => if *dom == ty2 {
                        Ok((Lam::App(Box::new(m1), Box::new(m2)), *cod))
                    } else {
                        Err(Fault::UnexpectedType(m2, ty2))
                    },
                    Ty::Unit => Err(Fault::UnexpectedType(m2, ty2)),
                },
            },
        },
        NamedTerm::Let(name, t1, t2) => match resolve(ctx, *t1) {
            Err(e) => Err(e),
            Ok((m1, ty1)) => {
                let b = Binding { name, ty: ty1 };
                match resolve(ctx.push(b), *t2) {
                    Err(e) => Err(e),
                    Ok((m2, ty2)) => Ok(
                        (
                            Lam::App(Box::new(Lam::Abs(b, Box::new(m2))), Box::new(m1)),
                            ty2,
                        ),
                    ),
                }
            },
        },
    }
}

/// The named form of `m` beneath the binders `ctx`: each index becomes the
/// name of the binder it refers to, and each binder keeps its binding. A
/// recursion binder is written as an abstraction, the surface syntax having
/// no form of its own for it. The first index that refers to no binder is
/// reported.
pub open spec fn rename(ctx: Seq<Binding>, m: Lam) -> Result<NamedTerm, Fault>
    decreases m,
{
    match m {
        Lam::Unit => Ok(NamedTerm::Unit),
        Lam::Var(i) => if 0 <= i < ctx.len() {
            Ok(NamedTerm::Var(at(ctx, i).name))
        } else {
            Err(Fault::Dangling(i))
        },
        Lam::Abs(b, t) => match rename(ctx.push(b), *t) {
            Ok(n) => Ok(NamedTerm::Abs(b, Box::new(n))),
            Err(e) => Err(e),
        },
        Lam::Mu(b, t) => match rename(ctx.push(b), *t) {
            Ok(n) => Ok(NamedTerm::Abs(b, Box::new(n))),
            Err(e) => Err(e),
        },
        Lam::App(f, a) => match rename(ctx, *f) {
            Err(e) => Err(e),
            Ok(nf) => match rename(ctx, *a) {
                Err(e) => Err(e),
                Ok(na) => Ok(NamedTerm::App(Box::new(nf), Box::new(na))),
            },
        },
    }
}

/// The binders in scope, innermost last.
pub struct Context {
    inner: Vec<Binding>,
}

impl View for Context {
    type V = Seq<Binding>;

    closed spec fn view(&self) -> Seq<Binding> {
        self.inner@
    }
}

impl Default for Context {
    fn default() -> (ctx: Context)
        ensures
            ctx@ == Seq::<Binding>::empty(),
    {
        Context::new()
    }
}

impl Context {
    /// A context with no binder in scope.
    pub fn new() -> (ctx: Context)
        ensures
            ctx@ == Seq::<Binding>::empty(),
    {
        Context { inner: Vec::new() }
    }

    /// The index and the binding of the innermost binder called `name`.
    fn find(&self, name: Name) -> (found: Option<(usize, &Binding)>)
        ensures
            match found {
                Some((i, b)) => lookup(self@, name) == Some(i as int) && *b == at(self@, i as int),
                None => lookup(self@, name) is None,
            },
    {
        let n = self.inner.len();
        let mut i: usize = 0;
        assert(self.inner@.take(n as int) == self.inner@);
        while i < n
            invariant
                n == self.inner@.len(),
                i <= n,
                lookup(self.inner@, name) == match lookup(
                    self.inner@.take(n - i),
                    name,
                ) {
                    Some(k) => Some(k + i),
                    None => None,
                },
            decreases n - i,
        {
            let b = &self.inner[n - 1 - i];
            if b.name == name {
                return Some((i, b));
            }
            proof {
                let here = self.inner@.take(n - i);
                assert(here.drop_last() == self.inner@.take(n - (i + 1)));
            }
            i = i + 1;
        }
        None
    }

    /// Resolves the names of `term` beneath the binders in scope and derives
    /// its type. A variable may lie at most 255 binders from its own: one
    /// that lies further is rejected as too deep. The binders in scope are
    /// the same afterwards, whether the term resolved or not.
    pub fn desugar(&mut self, term: NamedTerm) -> (res: Result<(Term, Ty), CtxError>)
        ensures
            final(self)@ == old(self)@,
            match res {
                Ok((t, ty)) => resolve(old(self)@, term) == Ok::<(Lam, Ty), Fault>((t@, ty)),
                Err(e) => resolve(old(self)@, term) == Err::<(Lam, Ty), Fault>(e@),
            },
        decreases term,
    {
        match term {
            NamedTerm::Unit => Ok((Term::Unit, Ty::Unit)),
            NamedTerm::Var(name) => match self.find(name) {
                None => Err(CtxError::MissingBinding(name)),
                Some((i, b)) => if i <= Index::MAX as usize {
                    Ok((Term::Var(i as Index), b.ty.clone()))
                } else {
                    Err(CtxError::TooDeep(name))
                },
            },
            NamedTerm::Abs(bind, body) => {
                self.inner.push(bind);
                let inner = self.desugar(*body);
                let bind = self.inner.pop().unwrap();
                match inner {
                    Ok((body, body_ty)) => {
                        let ty = Ty::Arrow(Box::new(bind.ty.clone()), Box::new(body_ty));
                        Ok((Term::Abs(bind, Box::new(body)), ty))
                    },
                    Err(e) => Err(e),
                }
            },
            NamedTerm::App(t1, t2) => {
                let (t1, ty1) = match self.desugar(*t1) {
                    Ok(r) => r,
                    Err(e) => {
                        return Err(e);
                    },
                };
                let (t2, ty2) = match self.desugar(*t2) {
                    Ok(r) => r,
                    Err(e) => {
                        return Err(e);
                    },
                };
                match ty1 {
                    Ty::Arrow(dom, cod) => if dom.same(&ty2) {
                        Ok((Term::App(Box::new(t1), Box::new(t2)), *cod))
                    } else {
                        Err(CtxError::UnexpectedType(t2, ty2))
                    },
                    Ty::Unit => Err(CtxError::UnexpectedType(t2, ty2)),
                }
            },
            NamedTerm::Let(name, t1, t2) => {
                let (t1, ty1) = match self.desugar(*t1) {
                    Ok(r) => r,
                    Err(e) => {
                        return Err(e);
                    },
                };
                self.inner.push(Binding { name, ty: ty1 });
                let inner = self.desugar(*t2);
                let bind = self.inner.pop().unwrap();
                match inner {
                    Ok((t2, ty2)) => {
                        let f = Term::Abs(bind, Box::new(t2));
                        assert(f@ == Lam::Abs(bind, Box::new(t2@)));
                        Ok((Term::App(Box::new(f), Box::new(t1)), ty2))
                    },
                    Err(e) => Err(e),
                }
            },
        }
    }

    /// Gives the variables of `term` the names of the binders they refer
    /// to, beneath the binders in scope. It succeeds if and only if no index
    /// of the term dangles. The binders in scope are the same afterwards,
    /// whether it succeeded or not.
    pub fn restore(&mut self, term: Term) -> (res: Result<NamedTerm, CtxError>)
        ensures
            final(self)@ == old(self)@,
            res is Ok <==> term@.scoped(old(self)@.len() as int),
            match res {
                Ok(n) => rename(old(self)@, term@) == Ok::<NamedTerm, Fault>(n),
                Err(e) => rename(old(self)@, term@) == Err::<NamedTerm, Fault>(e@),
            },
        decreases term,
    {
        proof {
            lemma_rename_scoped(self@, term@);
        }
        match term {
            Term::Unit => Ok(NamedTerm::Unit),
            Term::Var(index) => {
                let n = self.inner.len();
                if (index as usize) < n {
                    Ok(NamedTerm::Var(self.inner[n - 1 - index as usize].name))
                } else {
                    Err(CtxError::Dangling(index))
                }
            },
            Term::Abs(bind, body) => {
                self.inner.push(bind);
                let inner = self.restore(*body);
                let bind = self.inner.pop().unwrap();
                match inner {
                    Ok(body) => Ok(NamedTerm::Abs(bind, Box::new(body))),
                    Err(e) => Err(e),
                }
            },
            Term::Mu(bind, body) => {
                self.inner.push(bind);
                let inner = self.restore(*body);
                let bind = self.inner.pop().unwrap();
                match inner {
                    Ok(body) => Ok(NamedTerm::Abs(bind, Box::new(body))),
                    Err(e) => Err(e),
                }
            },
            Term::App(t1, t2) => {
                let t1 = match self.restore(*t1) {
                    Ok(r) => r,
                    Err(e) => {
                        return Err(e);
                    },
                };
                let t2 = match self.restore(*t2) {
                    Ok(r) => r,
                    Err(e) => {
                        return Err(e);
                    },
                };
                Ok(NamedTerm::App(Box::new(t1), Box::new(t2)))
            },
        }
    }
}

impl Context {
    /// Resolves the names of `term` beneath the binders in scope without
    /// regard to types, so that a term of no type can be evaluated too. A
    /// `let` is not resolved: the binder that it stands for is annotated
    /// with the type of the bound term, which only `desugar` derives. The
    /// binders in scope are the same afterwards.
    pub fn remove_names(&mut self, term: NamedTerm) -> (res: Result<Term, NamingError>)
        ensures
            final(self)@ == old(self)@,
            match res {
                Ok(t) => erase(old(self)@, term) == Ok::<Lam, NamingFault>(t@),
                Err(e) => erase(old(self)@, term) == Err::<Lam, NamingFault>(e@),
            },
        decreases term,
    {
        match term {
            NamedTerm::Unit => Ok(Term::Unit),
            NamedTerm::Var(name) => match self.find(name) {
                None => Err(NamingError::MissingIndex(name)),
                Some((i, _)) => if i <= Index::MAX as usize {
                    Ok(Term::Var(i as Index))
                } else {
                    Err(NamingError::TooDeep(name))
                },
            },
            NamedTerm::Abs(bind, body) => {
                self.inner.push(bind);
                let inner = self.remove_names(*body);
                let bind = self.inner.pop().unwrap();
                match inner {
                    Ok(body) => Ok(Term::Abs(bind, Box::new(body))),
                    Err(e) => Err(e),
                }
            },
            NamedTerm::App(t1, t2) => {
                let t1 = match self.remove_names(*t1) {
                    Ok(r) => r,
                    Err(e) => {
                        return Err(e);
                    },
                };
                let t2 = match self.remove_names(*t2) {
                    Ok(r) => r,
                    Err(e) => {
                        return Err(e);
                    },
                };
                Ok(Term::App(Box::new(t1), Box::new(t2)))
            },
            NamedTerm::Let(name, _, _) => Err(NamingError::UntypedLet(name)),
        }
    }

    /// Gives the variables of `term` the names of the binders they refer
    /// to, as `restore` does, and reports a dangling index as a missing
    /// name.
    pub fn restore_names(&mut self, term: Term) -> (res: Result<NamedTerm, NamingError>)
        ensures
            final(self)@ == old(self)@,
            res is Ok <==> term@.scoped(old(self)@.len() as int),
            match res {
                Ok(n) => rename(old(self)@, term@) == Ok::<NamedTerm, Fault>(n),
                Err(e) => e is MissingName && rename(old(self)@, term@) == Err::<
                    NamedTerm,
                    Fault,
                >(Fault::Dangling(e->MissingName_0 as int)),
            },
    {
        proof {
            lemma_rename_fault(self@, term@);
        }
        match self.restore(term) {
            Ok(named) => Ok(named),
            Err(CtxError::Dangling(index)) => Err(NamingError::MissingName(index)),
            // Restoring fails on a dangling index only.
            Err(_) => Err(NamingError::MissingName(0)),
        }
    }
}

/// Resolves the names of a term that stands beneath no binder and derives
/// its type.
pub fn desugar(term: NamedTerm) -> (res: Result<(Term, Ty), CtxError>)
    ensures
        match res {
            Ok((t, ty)) => resolve(Seq::empty(), term) == Ok::<(Lam, Ty), Fault>((t@, ty)),
            Err(e) => resolve(Seq::empty(), term) == Err::<(Lam, Ty), Fault>(e@),
        },
{
    let mut ctx = Context::new();
    ctx.desugar(term)
}

/// Gives the variables of a term that stands beneath no binder the names of
/// the binders they refer to.
pub fn restore(term: Term) -> (res: Result<NamedTerm, CtxError>)
    ensures
        res is Ok <==> term@.scoped(0),
        match res {
            Ok(n) => rename(Seq::empty(), term@) == Ok::<NamedTerm, Fault>(n),
            Err(e) => rename(Seq::empty(), term@) == Err::<NamedTerm, Fault>(e@),
        },
{
    let mut ctx = Context::new();
    ctx.restore(term)
}

/// Restoring names fails on a dangling index only.
pub proof fn lemma_rename_fault(ctx: Seq<Binding>, m: Lam)
    ensures
        rename(ctx, m) is Err ==> rename(ctx, m)->Err_0 is Dangling,
    decreases m,
{
    match m {
        Lam::Unit => {},
        Lam::Var(_) => {},
        Lam::Abs(b, t) => lemma_rename_fault(ctx.push(b), *t),
        Lam::Mu(b, t) => lemma_rename_fault(ctx.push(b), *t),
        Lam::App(f, a) => {
            lemma_rename_fault(ctx, *f);
            lemma_rename_fault(ctx, *a);
        },
    }
}

/// The names of a term can be restored if and only if none of its indices
/// dangles.
pub proof fn lemma_rename_scoped(ctx: Seq<Binding>, m: Lam)
    ensures
        rename(ctx, m) is Ok <==> m.scoped(ctx.len() as int),
    decreases m,
{
    match m {
        Lam::Unit => {},
        Lam::Var(_) => {},
        Lam::Abs(b, t) => lemma_rename_scoped(ctx.push(b), *t),
        Lam::Mu(b, t) => lemma_rename_scoped(ctx.push(b), *t),
        Lam::App(f, a) => {
            lemma_rename_scoped(ctx, *f);
            lemma_rename_scoped(ctx, *a);
        },
    }
}

/// `t` with each `let` written out as the abstraction, applied at once, that
/// it stands for. The abstraction is annotated with the type that the bound
/// term has beneath `ctx`.
pub open spec fn unlet(ctx: Seq<Binding>, t: NamedTerm) -> NamedTerm
    decreases t,
{
    match t {
        NamedTerm::Unit => NamedTerm::Unit,
        NamedTerm::Var(name) => NamedTerm::Var(name),
        NamedTerm::Abs(b, body) => NamedTerm::Abs(b, Box::new(unlet(ctx.push(b), *body))),
        NamedTerm::App(t1, t2) => NamedTerm::App(
            Box::new(unlet(ctx, *t1)),
            Box::new(unlet(ctx, *t2)),
        ),
        NamedTerm::Let(name, t1, t2) => match resolve(ctx, *t1) {
            Ok((_, ty1)) => {
                let b = Binding { name, ty: ty1 };
                NamedTerm::App(
                    Box::new(NamedTerm::Abs(b, Box::new(unlet(ctx.push(b), *t2)))),
                    Box::new(unlet(ctx, *t1)),
                )
            },
            Err(_) => t,
        },
    }
}

/// No `let` occurs in the term.
pub open spec fn let_free(t: NamedTerm) -> bool
    decreases t,
{
    match t {
        NamedTerm::Unit => true,
        NamedTerm::Var(_) => true,
        NamedTerm::Abs(_, body) => let_free(*body),
        NamedTerm::App(t1, t2) => let_free(*t1) && let_free(*t2),
        NamedTerm::Let(_, _, _) => false,
    }
}

/// The index that `lookup` finds lies within the context and refers to a
/// binder of the name that was looked up.
pub proof fn lemma_lookup_finds(ctx: Seq<Binding>, name: Name)
    ensures
        match lookup(ctx, name) {
            Some(i) => 0 <= i < ctx.len() && at(ctx, i).name == name,
            None => true,
        },
    decreases ctx.len(),
{
    if ctx.len() > 0 && ctx.last().name != name {
        lemma_lookup_finds(ctx.drop_last(), name);
    }
}

/// Restoring the names of a resolved term gives the term back, its `let`s
/// written out. The two have the same nameless form and the same type, so
/// they are equal up to the names of bound variables, and a term without
/// `let` comes back as it was.
pub proof fn lemma_restore_desugar(ctx: Seq<Binding>, t: NamedTerm)
    requires
        resolve(ctx, t) is Ok,
    ensures
        rename(ctx, resolve(ctx, t)->Ok_0.0) == Ok::<NamedTerm, Fault>(unlet(ctx, t)),
        resolve(ctx, unlet(ctx, t)) == resolve(ctx, t),
        let_free(unlet(ctx, t)),
        let_free(t) ==> unlet(ctx, t) == t,
    decreases t,
{
    match t {
        NamedTerm::Unit => {},
        NamedTerm::Var(name) => {
            lemma_lookup_finds(ctx, name);
        },
        NamedTerm::Abs(b, body) => {
            lemma_restore_desugar(ctx.push(b), *body);
        },
        NamedTerm::App(t1, t2) => {
            lemma_restore_desugar(ctx, *t1);
            lemma_restore_desugar(ctx, *t2);
        },
        NamedTerm::Let(name, t1, t2) => {
            lemma_restore_desugar(ctx, *t1);
            let (m1, ty1) = resolve(ctx, *t1)->Ok_0;
            let b = Binding { name, ty: ty1 };
            lemma_restore_desugar(ctx.push(b), *t2);
            let (m2, ty2) = resolve(ctx.push(b), *t2)->Ok_0;
            let f = Lam::Abs(b, Box::new(m2));
            let nf = NamedTerm::Abs(b, Box::new(unlet(ctx.push(b), *t2)));
            assert(let_free(nf));
            assert(rename(ctx, f) == Ok::<NamedTerm, Fault>(nf));
            assert(resolve(ctx, nf) == Ok::<(Lam, Ty), Fault>(
                (f, Ty::Arrow(Box::new(ty1), Box::new(ty2))),
            ));
        },
    }
}

} // verus!
