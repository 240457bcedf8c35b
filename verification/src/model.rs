use vstd::prelude::*;
use crate::text::decimal;
use crate::ty::Binding;

verus! {

/// The mathematical form of a nameless term. Variables are de Bruijn indices
/// (0 is the nearest enclosing binder) and are unbounded integers, so that
/// shifting and substitution are total and their algebra holds without
/// side conditions.
pub enum Lam {
    Unit,
    Var(int),
    Abs(Binding, Box<Lam>),
    Mu(Binding, Box<Lam>),
    App(Box<Lam>, Box<Lam>),
}

impl Lam {
    /// Adds `by` to every variable that is free at `cutoff`: an index `i`
    /// found beneath `k` binders is free when `i >= cutoff + k`.
    pub open spec fn shift(self, by: int, cutoff: int) -> Lam
        decreases self,
    {
        match self {
            Lam::Unit => Lam::Unit,
            Lam::Var(i) => if i >= cutoff {
                Lam::Var(i + by)
            } else {
                Lam::Var(i)
            },
            Lam::Abs(b, t) => Lam::Abs(b, Box::new(t.shift(by, cutoff + 1))),
            Lam::Mu(b, t) => Lam::Mu(b, Box::new(t.shift(by, cutoff + 1))),
            Lam::App(f, a) => Lam::App(
                Box::new(f.shift(by, cutoff)),
                Box::new(a.shift(by, cutoff)),
            ),
        }
    }

    /// Every index lies in the range of the executable index type.
    pub open spec fn fits(self) -> bool
        decreases self,
    {
        match self {
            Lam::Unit => true,
            Lam::Var(i) => 0 <= i <= 255,
            Lam::Abs(_, t) => t.fits(),
            Lam::Mu(_, t) => t.fits(),
            Lam::App(f, a) => f.fits() && a.fits(),
        }
    }

    /// No index dangles: each variable refers to a binder of the term or to
    /// one of the `depth` binders around it.
    pub open spec fn scoped(self, depth: int) -> bool
        decreases self,
    {
        match self {
            Lam::Unit => true,
            Lam::Var(i) => 0 <= i < depth,
            Lam::Abs(_, t) => t.scoped(depth + 1),
            Lam::Mu(_, t) => t.scoped(depth + 1),
            Lam::App(f, a) => f.scoped(depth) && a.scoped(depth),
        }
    }

    /// The largest number of binders above any node of the term.
    pub open spec fn height(self) -> nat
        decreases self,
    {
        match self {
            Lam::Unit => 0,
            Lam::Var(_) => 0,
            Lam::Abs(_, t) => t.height() + 1,
            Lam::Mu(_, t) => t.height() + 1,
            Lam::App(f, a) => if f.height() >= a.height() {
                f.height()
            } else {
                a.height()
            },
        }
    }

    /// The variable `index` has no free occurrence.
    pub open spec fn avoids(self, index: int) -> bool
        decreases self,
    {
        match self {
            Lam::Unit => true,
            Lam::Var(i) => i != index,
            Lam::Abs(_, t) => t.avoids(index + 1),
            Lam::Mu(_, t) => t.avoids(index + 1),
            Lam::App(f, a) => f.avoids(index) && a.avoids(index),
        }
    }

    /// Replaces every free occurrence of `index` by `s`. Beneath a binder the
    /// target index grows by one and `s` is shifted up by one, so that no free
    /// variable of `s` is captured.
    pub open spec fn subst(self, index: int, s: Lam) -> Lam
        decreases self,
    {
        match self {
            Lam::Unit => Lam::Unit,
            Lam::Var(i) => if i == index {
                s
            } else {
                Lam::Var(i)
            },
            Lam::Abs(b, t) => Lam::Abs(b, Box::new(t.subst(index + 1, s.shift(1, 0)))),
            Lam::Mu(b, t) => Lam::Mu(b, Box::new(t.subst(index + 1, s.shift(1, 0)))),
            Lam::App(f, a) => Lam::App(Box::new(f.subst(index, s)), Box::new(a.subst(index, s))),
        }
    }

    /// The term with the variable `index` replaced by `s` and the binder of
    /// that variable gone: the variables above it move down by one.
    pub open spec fn inst(self, index: int, s: Lam) -> Lam {
        self.subst(index, s).shift(-1, index)
    }

    /// The contraction of the redex `(\. body) arg`: `arg` enters the scope
    /// of the binder, takes the place of the bound variable, and the result
    /// leaves that scope again.
    pub open spec fn beta(body: Lam, arg: Lam) -> Lam {
        body.inst(0, arg.shift(1, 0))
    }

    /// One unrolling of a recursive body against a pending argument: every
    /// application whose function is the variable `me` hands its own argument
    /// the pending one, `me x` becoming `x arg`. Beneath a binder `me` grows by
    /// one and `arg` is shifted up by one.
    pub open spec fn unfold(self, me: int, arg: Lam) -> Lam
        decreases self,
    {
        match self {
            Lam::Unit => Lam::Unit,
            Lam::Var(i) => Lam::Var(i),
            Lam::Abs(b, t) => Lam::Abs(b, Box::new(t.unfold(me + 1, arg.shift(1, 0)))),
            Lam::Mu(b, t) => Lam::Mu(b, Box::new(t.unfold(me + 1, arg.shift(1, 0)))),
            Lam::App(f, a) => if *f == Lam::Var(me) {
                Lam::App(Box::new(a.unfold(me, arg)), Box::new(arg))
            } else {
                Lam::App(Box::new(f.unfold(me, arg)), Box::new(a.unfold(me, arg)))
            },
        }
    }

    /// What an application whose two sides are in normal form rewrites to:
    /// an abstraction is contracted, a recursion binder is unrolled once
    /// (its body takes the place of the application as it stands), anything
    /// else is no redex.
    pub open spec fn fire(f: Lam, a: Lam) -> Option<Lam> {
        match f {
            Lam::Abs(_, body) => Some(Lam::beta(*body, a)),
            Lam::Mu(_, body) => Some(body.unfold(0, a.shift(1, 0))),
            _ => None,
        }
    }

    /// One rewrite, or `None` for a normal form. The search is deterministic:
    /// beneath a binder, in its body; at an application, in the function,
    /// else in the argument, else the application itself if it is a redex.
    pub open spec fn step(self) -> Option<Lam>
        decreases self,
    {
        match self {
            Lam::Unit => None,
            Lam::Var(_) => None,
            Lam::Abs(b, t) => match t.step() {
                Some(t2) => Some(Lam::Abs(b, Box::new(t2))),
                None => None,
            },
            Lam::Mu(b, t) => match t.step() {
                Some(t2) => Some(Lam::Mu(b, Box::new(t2))),
                None => None,
            },
            Lam::App(f, a) => match f.step() {
                Some(f2) => Some(Lam::App(Box::new(f2), a)),
                None => match a.step() {
                    Some(a2) => Some(Lam::App(f, Box::new(a2))),
                    None => Lam::fire(*f, *a),
                },
            },
        }
    }

    /// No rewrite applies.
    pub open spec fn is_normal(self) -> bool {
        self.step() is None
    }

    /// The redex `f a` can be rewritten in place: the argument, carried
    /// beneath every binder of the body, keeps its indices in range.
    pub open spec fn fire_room(f: Lam, a: Lam) -> bool {
        match f {
            Lam::Abs(_, body) => a.shift(body.height() as int + 1, 0).fits(),
            Lam::Mu(_, body) => a.shift(body.height() as int + 1, 0).fits(),
            _ => true,
        }
    }

    /// The rewrite that `step` finds can be carried out within the index
    /// range.
    pub open spec fn room(self) -> bool
        decreases self,
    {
        match self {
            Lam::Unit => true,
            Lam::Var(_) => true,
            Lam::Abs(_, t) => t.room(),
            Lam::Mu(_, t) => t.room(),
            Lam::App(f, a) => if f.step() is Some {
                f.room()
            } else if a.step() is Some {
                a.room()
            } else {
                Lam::fire_room(*f, *a)
            },
        }
    }

    /// The term after `n` rewrites, or the normal form if it is reached
    /// before.
    pub open spec fn iterate(self, n: nat) -> Lam
        decreases n,
    {
        if n == 0 {
            self
        } else {
            match self.step() {
                Some(next) => next.iterate((n - 1) as nat),
                None => self,
            }
        }
    }

    /// Each of the first `n` rewrites exists and can be carried out within
    /// the index range.
    pub open spec fn runs(self, n: nat) -> bool
        decreases n,
    {
        n == 0 || (self.step() is Some && self.room() && self.step().unwrap().runs((n - 1) as nat))
    }

    /// The term as it is written: an index in decimal, a binder without its
    /// name.
    pub open spec fn spelling(self) -> Seq<char>
        decreases self,
    {
        match self {
            Lam::Unit => "unit"@,
            Lam::Var(i) => decimal(i as nat),
            Lam::Abs(_, body) => "(\u{3bb}. "@ + body.spelling() + ")"@,
            Lam::Mu(_, body) => "(\u{3bc}. "@ + body.spelling() + ")"@,
            Lam::App(t1, t2) => "("@ + t1.spelling() + " "@ + t2.spelling() + ")"@,
        }
    }
}

/// No recursion binder occurs in the term.
pub open spec fn mu_free(m: Lam) -> bool
    decreases m,
{
    match m {
        Lam::Unit => true,
        Lam::Var(_) => true,
        Lam::Abs(_, t) => mu_free(*t),
        Lam::Mu(_, _) => false,
        Lam::App(f, a) => mu_free(*f) && mu_free(*a),
    }
}

/// Shifting up and then down by the same amount at the same cutoff gives the
/// term back.
pub proof fn lemma_shift_inverse(m: Lam, by: int, cutoff: int)
    requires
        by >= 0,
    ensures
        m.shift(by, cutoff).shift(-by, cutoff) == m,
    decreases m,
{
    match m {
        Lam::Unit => {},
        Lam::Var(_) => {},
        Lam::Abs(_, t) => lemma_shift_inverse(*t, by, cutoff + 1),
        Lam::Mu(_, t) => lemma_shift_inverse(*t, by, cutoff + 1),
        Lam::App(f, a) => {
            lemma_shift_inverse(*f, by, cutoff);
            lemma_shift_inverse(*a, by, cutoff);
        },
    }
}

/// A shift whose cutoff lies above every index of the term changes nothing.
pub proof fn lemma_shift_beyond(m: Lam, by: int, cutoff: int)
    requires
        m.fits(),
        cutoff > 255,
    ensures
        m.shift(by, cutoff) == m,
    decreases m,
{
    match m {
        Lam::Unit => {},
        Lam::Var(_) => {},
        Lam::Abs(_, t) => lemma_shift_beyond(*t, by, cutoff + 1),
        Lam::Mu(_, t) => lemma_shift_beyond(*t, by, cutoff + 1),
        Lam::App(f, a) => {
            lemma_shift_beyond(*f, by, cutoff);
            lemma_shift_beyond(*a, by, cutoff);
        },
    }
}

/// Two shifts at one cutoff, the first of them upward, add up.
pub proof fn lemma_shift_shift(m: Lam, a: int, b: int, cutoff: int)
    requires
        a >= 0,
    ensures
        m.shift(a, cutoff).shift(b, cutoff) == m.shift(a + b, cutoff),
    decreases m,
{
    match m {
        Lam::Unit => {},
        Lam::Var(_) => {},
        Lam::Abs(_, t) => lemma_shift_shift(*t, a, b, cutoff + 1),
        Lam::Mu(_, t) => lemma_shift_shift(*t, a, b, cutoff + 1),
        Lam::App(f, x) => {
            lemma_shift_shift(*f, a, b, cutoff);
            lemma_shift_shift(*x, a, b, cutoff);
        },
    }
}

/// A term that fits before and after an upward shift fits after every
/// smaller upward shift.
pub proof fn lemma_shift_fits_less(m: Lam, by: int, less: int, cutoff: int)
    requires
        0 <= less <= by,
        m.fits(),
        m.shift(by, cutoff).fits(),
    ensures
        m.shift(less, cutoff).fits(),
    decreases m,
{
    match m {
        Lam::Unit => {},
        Lam::Var(_) => {},
        Lam::Abs(_, t) => lemma_shift_fits_less(*t, by, less, cutoff + 1),
        Lam::Mu(_, t) => lemma_shift_fits_less(*t, by, less, cutoff + 1),
        Lam::App(f, a) => {
            lemma_shift_fits_less(*f, by, less, cutoff);
            lemma_shift_fits_less(*a, by, less, cutoff);
        },
    }
}

/// Substituting for an index above every index of the term changes nothing.
pub proof fn lemma_subst_beyond(m: Lam, index: int, s: Lam)
    requires
        m.fits(),
        index > 255,
    ensures
        m.subst(index, s) == m,
    decreases m,
{
    match m {
        Lam::Unit => {},
        Lam::Var(_) => {},
        Lam::Abs(_, t) => lemma_subst_beyond(*t, index + 1, s.shift(1, 0)),
        Lam::Mu(_, t) => lemma_subst_beyond(*t, index + 1, s.shift(1, 0)),
        Lam::App(f, a) => {
            lemma_subst_beyond(*f, index, s);
            lemma_subst_beyond(*a, index, s);
        },
    }
}

/// Unrolling against a variable above every index of the term changes
/// nothing.
pub proof fn lemma_unfold_beyond(m: Lam, me: int, arg: Lam)
    requires
        m.fits(),
        me > 255,
    ensures
        m.unfold(me, arg) == m,
    decreases m,
{
    match m {
        Lam::Unit => {},
        Lam::Var(_) => {},
        Lam::Abs(_, t) => lemma_unfold_beyond(*t, me + 1, arg.shift(1, 0)),
        Lam::Mu(_, t) => lemma_unfold_beyond(*t, me + 1, arg.shift(1, 0)),
        Lam::App(f, a) => {
            assert(*f != Lam::Var(me)) by {
                if *f == Lam::Var(me) {
                    assert(!f.fits());
                }
            }
            lemma_unfold_beyond(*f, me, arg);
            lemma_unfold_beyond(*a, me, arg);
        },
    }
}

/// An upward shift at `cutoff` leaves the index `cutoff` unused.
pub proof fn lemma_shift_avoids(m: Lam, cutoff: int)
    ensures
        m.shift(1, cutoff).avoids(cutoff),
    decreases m,
{
    match m {
        Lam::Unit => {},
        Lam::Var(_) => {},
        Lam::Abs(_, t) => lemma_shift_avoids(*t, cutoff + 1),
        Lam::Mu(_, t) => lemma_shift_avoids(*t, cutoff + 1),
        Lam::App(f, a) => {
            lemma_shift_avoids(*f, cutoff);
            lemma_shift_avoids(*a, cutoff);
        },
    }
}

/// An index that a term does not use stays unused, one higher, after an
/// upward shift at a cutoff at or below it.
pub proof fn lemma_shift_keeps_avoiding(m: Lam, index: int, cutoff: int)
    requires
        m.avoids(index),
        cutoff <= index,
    ensures
        m.shift(1, cutoff).avoids(index + 1),
    decreases m,
{
    match m {
        Lam::Unit => {},
        Lam::Var(_) => {},
        Lam::Abs(_, t) => lemma_shift_keeps_avoiding(*t, index + 1, cutoff + 1),
        Lam::Mu(_, t) => lemma_shift_keeps_avoiding(*t, index + 1, cutoff + 1),
        Lam::App(f, a) => {
            lemma_shift_keeps_avoiding(*f, index, cutoff);
            lemma_shift_keeps_avoiding(*a, index, cutoff);
        },
    }
}

/// Substitution uses up its variable: once every occurrence of `index` is
/// replaced by a term that does not use `index`, none is left.
pub proof fn lemma_subst_avoids(m: Lam, index: int, s: Lam)
    requires
        s.avoids(index),
        index >= 0,
    ensures
        m.subst(index, s).avoids(index),
    decreases m,
{
    match m {
        Lam::Unit => {},
        Lam::Var(_) => {},
        Lam::Abs(_, t) => {
            lemma_shift_keeps_avoiding(s, index, 0);
            lemma_subst_avoids(*t, index + 1, s.shift(1, 0));
        },
        Lam::Mu(_, t) => {
            lemma_shift_keeps_avoiding(s, index, 0);
            lemma_subst_avoids(*t, index + 1, s.shift(1, 0));
        },
        Lam::App(f, a) => {
            lemma_subst_avoids(*f, index, s);
            lemma_subst_avoids(*a, index, s);
        },
    }
}

/// A term in range that does not use the index `cutoff` stays in range when
/// shifted down at `cutoff`.
pub proof fn lemma_shift_down_fits(m: Lam, cutoff: int)
    requires
        m.fits(),
        m.avoids(cutoff),
        cutoff >= 0,
    ensures
        m.shift(-1, cutoff).fits(),
    decreases m,
{
    match m {
        Lam::Unit => {},
        Lam::Var(_) => {},
        Lam::Abs(_, t) => lemma_shift_down_fits(*t, cutoff + 1),
        Lam::Mu(_, t) => lemma_shift_down_fits(*t, cutoff + 1),
        Lam::App(f, a) => {
            lemma_shift_down_fits(*f, cutoff);
            lemma_shift_down_fits(*a, cutoff);
        },
    }
}

/// Whether a term stays in range under an upward shift by more than the
/// whole index range does not depend on the amount: it does if and only if
/// the shift moves nothing.
pub proof fn lemma_shift_fits_far(m: Lam, a: int, b: int, cutoff: int)
    requires
        m.fits(),
        a > 255,
        b > 255,
        cutoff >= 0,
    ensures
        m.shift(a, cutoff).fits() == m.shift(b, cutoff).fits(),
    decreases m,
{
    match m {
        Lam::Unit => {},
        Lam::Var(_) => {},
        Lam::Abs(_, t) => lemma_shift_fits_far(*t, a, b, cutoff + 1),
        Lam::Mu(_, t) => lemma_shift_fits_far(*t, a, b, cutoff + 1),
        Lam::App(f, x) => {
            lemma_shift_fits_far(*f, a, b, cutoff);
            lemma_shift_fits_far(*x, a, b, cutoff);
        },
    }
}

/// After `n` rewrites that ran, one more that exists and has room makes
/// `n + 1` rewrites that ran, and `iterate` follows it.
pub proof fn lemma_iterate_next(m: Lam, n: nat)
    requires
        m.runs(n),
        m.iterate(n).step() is Some,
        m.iterate(n).room(),
    ensures
        m.runs(n + 1),
        m.iterate(n + 1) == m.iterate(n).step().unwrap(),
    decreases n,
{
    reveal_with_fuel(Lam::runs, 2);
    reveal_with_fuel(Lam::iterate, 2);
    if n > 0 {
        let next = m.step().unwrap();
        lemma_iterate_next(next, (n - 1) as nat);
        assert(m.iterate(n) == next.iterate((n - 1) as nat));
        assert(m.iterate(n + 1) == next.iterate(n));
        assert(next.runs(n));
    }
}

/// An upward shift followed by a shift at a cutoff within the gap that the
/// first one opened is one shift by the sum.
pub proof fn lemma_shift_within(m: Lam, a: int, b: int, cutoff: int, within: int)
    requires
        a >= 0,
        cutoff <= within <= cutoff + a,
    ensures
        m.shift(a, cutoff).shift(b, within) == m.shift(a + b, cutoff),
    decreases m,
{
    match m {
        Lam::Unit => {},
        Lam::Var(_) => {},
        Lam::Abs(_, t) => lemma_shift_within(*t, a, b, cutoff + 1, within + 1),
        Lam::Mu(_, t) => lemma_shift_within(*t, a, b, cutoff + 1, within + 1),
        Lam::App(f, x) => {
            lemma_shift_within(*f, a, b, cutoff, within);
            lemma_shift_within(*x, a, b, cutoff, within);
        },
    }
}

/// An upward shift leaves no index dangling among as many more binders.
pub proof fn lemma_shift_scoped(m: Lam, by: int, cutoff: int, depth: int)
    requires
        m.scoped(depth),
        by >= 0,
        cutoff >= 0,
    ensures
        m.shift(by, cutoff).scoped(depth + by),
        mu_free(m.shift(by, cutoff)) == mu_free(m),
    decreases m,
{
    match m {
        Lam::Unit => {},
        Lam::Var(_) => {},
        Lam::Abs(_, t) => lemma_shift_scoped(*t, by, cutoff + 1, depth + 1),
        Lam::Mu(_, t) => lemma_shift_scoped(*t, by, cutoff + 1, depth + 1),
        Lam::App(f, a) => {
            lemma_shift_scoped(*f, by, cutoff, depth);
            lemma_shift_scoped(*a, by, cutoff, depth);
        },
    }
}

/// Substitution of a term without dangling indices leaves none dangling.
pub proof fn lemma_subst_scoped(m: Lam, index: int, s: Lam, depth: int)
    requires
        m.scoped(depth),
        s.scoped(depth),
    ensures
        m.subst(index, s).scoped(depth),
        mu_free(m) && mu_free(s) ==> mu_free(m.subst(index, s)),
    decreases m,
{
    match m {
        Lam::Unit => {},
        Lam::Var(_) => {},
        Lam::Abs(_, t) => {
            lemma_shift_scoped(s, 1, 0, depth);
            lemma_subst_scoped(*t, index + 1, s.shift(1, 0), depth + 1);
        },
        Lam::Mu(_, t) => {
            lemma_shift_scoped(s, 1, 0, depth);
            lemma_subst_scoped(*t, index + 1, s.shift(1, 0), depth + 1);
        },
        Lam::App(f, a) => {
            lemma_subst_scoped(*f, index, s, depth);
            lemma_subst_scoped(*a, index, s, depth);
        },
    }
}

/// A term that does not use the binder `cutoff` binders out has no dangling
/// index once that binder is gone.
pub proof fn lemma_shift_down_scoped(m: Lam, cutoff: int, depth: int)
    requires
        m.scoped(depth),
        m.avoids(cutoff),
        0 <= cutoff < depth,
    ensures
        m.shift(-1, cutoff).scoped(depth - 1),
        mu_free(m.shift(-1, cutoff)) == mu_free(m),
    decreases m,
{
    match m {
        Lam::Unit => {},
        Lam::Var(_) => {},
        Lam::Abs(_, t) => lemma_shift_down_scoped(*t, cutoff + 1, depth + 1),
        Lam::Mu(_, t) => lemma_shift_down_scoped(*t, cutoff + 1, depth + 1),
        Lam::App(f, a) => {
            lemma_shift_down_scoped(*f, cutoff, depth);
            lemma_shift_down_scoped(*a, cutoff, depth);
        },
    }
}

/// Contracting a redex leaves no index dangling.
pub proof fn lemma_beta_scoped(body: Lam, arg: Lam, depth: int)
    requires
        body.scoped(depth + 1),
        arg.scoped(depth),
        depth >= 0,
    ensures
        Lam::beta(body, arg).scoped(depth),
        mu_free(body) && mu_free(arg) ==> mu_free(Lam::beta(body, arg)),
{
    let lifted = arg.shift(1, 0);
    lemma_shift_scoped(arg, 1, 0, depth);
    lemma_subst_scoped(body, 0, lifted, depth + 1);
    lemma_shift_avoids(arg, 0);
    lemma_subst_avoids(body, 0, lifted);
    lemma_shift_down_scoped(body.subst(0, lifted), 0, depth + 1);
}

/// A rewrite of a term without recursion binders leaves no index dangling,
/// whether the term has a type or not.
pub proof fn lemma_step_scoped(m: Lam, depth: int)
    requires
        m.scoped(depth),
        mu_free(m),
        m.step() is Some,
        depth >= 0,
    ensures
        m.step()->Some_0.scoped(depth),
        mu_free(m.step()->Some_0),
    decreases m,
{
    match m {
        Lam::Unit => {},
        Lam::Var(_) => {},
        Lam::Abs(_, t) => lemma_step_scoped(*t, depth + 1),
        Lam::Mu(_, _) => {},
        Lam::App(f, a) => {
            if f.step() is Some {
                lemma_step_scoped(*f, depth);
            } else if a.step() is Some {
                lemma_step_scoped(*a, depth);
            } else {
                match *f {
                    Lam::Abs(_, body) => {
                        assert(mu_free(*f));
                        assert(mu_free(*body));
                        assert(f.scoped(depth));
                        assert(body.scoped(depth + 1));
                        lemma_beta_scoped(*body, *a, depth);
                        assert(m.step() == Some(Lam::beta(*body, *a)));
                    },
                    Lam::Mu(_, _) => {
                        assert(!mu_free(*f));
                    },
                    _ => {
                        assert(m.step() is None);
                    },
                }
            }
        },
    }
}

} // verus!
