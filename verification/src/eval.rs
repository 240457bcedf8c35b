use vstd::prelude::*;
use vstd::string::StringExecFns;
use crate::text::write_decimal;
use crate::model::{
    Lam, lemma_iterate_next, lemma_shift_avoids, lemma_shift_beyond, lemma_shift_down_fits,
    lemma_shift_fits_far, lemma_shift_fits_less, lemma_shift_inverse, lemma_shift_shift,
    lemma_subst_avoids, lemma_subst_beyond, lemma_unfold_beyond,
};
use crate::ty::Binding;

verus! {

/// A de Bruijn index: the number of binders between a variable and its own.
/// It counts up to 255; no operation of this module lets an index wrap
/// round.
pub type Index = u8;

/// How an attempt at one rewrite ended.
#[derive(Clone, Copy, Debug, PartialEq, Eq, Structural)]
pub enum Step {
    /// One rewrite was made.
    Rewritten,
    /// The term is in normal form; nothing was changed.
    Normal,
    /// The term has a redex, but rewriting it would take an index out of the
    /// index type; nothing was changed.
    Stuck,
}

/// A nameless term. Each binder keeps the binding it was written with, so
/// that names can be restored after evaluation.
#[derive(Debug, PartialEq, Eq)]
pub enum Term {
    Unit,
    Var(Index),
    Abs(Binding, Box<Term>),
    Mu(Binding, Box<Term>),
    App(Box<Term>, Box<Term>),
}

impl Term {
    /// The mathematical term that this term stands for.
    pub open spec fn model(&self) -> Lam
        decreases self,
    {
        match self {
            Term::Unit => Lam::Unit,
            Term::Var(i) => Lam::Var(*i as int),
            Term::Abs(b, t) => Lam::Abs(*b, Box::new(t.model())),
            Term::Mu(b, t) => Lam::Mu(*b, Box::new(t.model())),
            Term::App(f, a) => Lam::App(Box::new(f.model()), Box::new(a.model())),
        }
    }

    /// Every executable term fits the index range.
    pub proof fn lemma_fits(&self)
        ensures
            self@.fits(),
        decreases self,
    {
        match self {
            Term::Unit => {},
            Term::Var(_) => {},
            Term::Abs(_, t) => t.lemma_fits(),
            Term::Mu(_, t) => t.lemma_fits(),
            Term::App(f, a) => {
                f.lemma_fits();
                a.lemma_fits();
            },
        }
    }
}

impl Clone for Term {
    fn clone(&self) -> (res: Self)
        ensures
            res == *self,
        decreases *self,
    {
        match self {
            Term::Unit => Term::Unit,
            Term::Var(i) => Term::Var(*i),
            Term::Abs(b, t) => Term::Abs(b.clone(), Box::new((**t).clone())),
            Term::Mu(b, t) => Term::Mu(b.clone(), Box::new((**t).clone())),
            Term::App(f, a) => Term::App(Box::new((**f).clone()), Box::new((**a).clone())),
        }
    }
}

impl View for Term {
    type V = Lam;

    open spec fn view(&self) -> Lam {
        self.model()
    }
}

/// The amount by which a shift in the given direction moves an index.
pub open spec fn step_of(up: bool) -> int {
    if up {
        1
    } else {
        -1
    }
}

impl Term {
    /// Whether the variables that are free at `cutoff` can move one up, or
    /// one down, without any of them leaving the index type.
    pub fn can_shift(&self, up: bool, cutoff: Index) -> (ok: bool)
        ensures
            ok == self@.shift(step_of(up), cutoff as int).fits(),
        decreases self,
    {
        match self {
            Term::Unit => true,
            Term::Var(index) => *index < cutoff || (if up {
                *index < Index::MAX
            } else {
                *index > 0
            }),
            Term::Abs(_, body) => {
                if cutoff < Index::MAX {
                    body.can_shift(up, cutoff + 1)
                } else {
                    proof {
                        body.lemma_fits();
                        lemma_shift_beyond(body@, step_of(up), cutoff + 1);
                    }
                    true
                }
            },
            Term::Mu(_, body) => {
                if cutoff < Index::MAX {
                    body.can_shift(up, cutoff + 1)
                } else {
                    proof {
                        body.lemma_fits();
                        lemma_shift_beyond(body@, step_of(up), cutoff + 1);
                    }
                    true
                }
            },
            Term::App(t1, t2) => t1.can_shift(up, cutoff) && t2.can_shift(up, cutoff),
        }
    }

    /// Renumbers, in place, the variables that are free at `cutoff`: one up
    /// or one down. The caller sees to it that none of them leaves the index
    /// type; `can_shift` tells.
    pub fn shift(&mut self, up: bool, cutoff: Index)
        requires
            old(self)@.shift(step_of(up), cutoff as int).fits(),
        ensures
            final(self)@ == old(self)@.shift(step_of(up), cutoff as int),
        decreases *old(self),
    {
        match self {
            Term::Unit => (),
            Term::Var(index) => {
                if *index >= cutoff {
                    if up {
                        *index += 1;
                    } else {
                        *index -= 1;
                    }
                }
            },
            Term::Abs(_, body) => {
                if cutoff < Index::MAX {
                    body.shift(up, cutoff + 1);
                } else {
                    proof {
                        body.lemma_fits();
                        lemma_shift_beyond(body@, step_of(up), cutoff + 1);
                    }
                }
            },
            Term::Mu(_, body) => {
                if cutoff < Index::MAX {
                    body.shift(up, cutoff + 1);
                } else {
                    proof {
                        body.lemma_fits();
                        lemma_shift_beyond(body@, step_of(up), cutoff + 1);
                    }
                }
            },
            Term::App(t1, t2) => {
                t1.shift(up, cutoff);
                t2.shift(up, cutoff);
            },
        }
    }
}

impl Term {
    /// Carries `subs` beneath one binder, rewrites `body` there, and brings
    /// `subs` back: the two shifts are a pair.
    fn replace_under(body: &mut Term, index: Index, subs: &mut Term)
        requires
            old(subs)@.shift(old(body)@.height() as int + 1, 0).fits(),
        ensures
            final(body)@ == old(body)@.subst(index + 1, old(subs)@.shift(1, 0)),
            final(subs)@ == old(subs)@,
        decreases *old(body), 1nat,
    {
        proof {
            subs.lemma_fits();
            body.lemma_fits();
            lemma_shift_fits_less(subs@, body@.height() as int + 1, 1, 0);
            lemma_shift_shift(subs@, 1, body@.height() as int, 0);
            lemma_shift_inverse(subs@, 1, 0);
        }
        if index < Index::MAX {
            subs.shift(true, 0);
            body.replace(index + 1, subs);
            subs.shift(false, 0);
        } else {
            proof {
                lemma_subst_beyond(body@, index + 1, subs@.shift(1, 0));
            }
        }
    }

    /// Rewrites, in place, every free occurrence of `index` into a copy of
    /// `subs`. `subs` is shifted up while the rewriting is beneath a binder
    /// and shifted down again after it, so that it is handed back as it came.
    /// The caller sees to it that `subs` can be carried beneath every binder
    /// of the term; `can_carry` tells.
    pub fn replace(&mut self, index: Index, subs: &mut Term)
        requires
            old(subs)@.shift(old(self)@.height() as int, 0).fits(),
        ensures
            final(self)@ == old(self)@.subst(index as int, old(subs)@),
            final(subs)@ == old(subs)@,
        decreases *old(self), 0nat,
    {
        match self {
            Term::Unit => (),
            Term::Var(index2) => {
                if index == *index2 {
                    *self = subs.clone();
                }
            },
            Term::Abs(_, body) => {
                Term::replace_under(body, index, subs);
            },
            Term::Mu(_, body) => {
                Term::replace_under(body, index, subs);
            },
            Term::App(t1, t2) => {
                proof {
                    subs.lemma_fits();
                    let h = old(self)@.height() as int;
                    lemma_shift_fits_less(subs@, h, t1@.height() as int, 0);
                    lemma_shift_fits_less(subs@, h, t2@.height() as int, 0);
                }
                t1.replace(index, subs);
                t2.replace(index, subs);
            },
        }
    }
}

impl Term {
    /// Carries `arg` beneath one binder, unrolls `body` there, and brings
    /// `arg` back.
    fn unfold_under(body: &mut Term, me: Index, arg: &mut Term)
        requires
            old(arg)@.shift(old(body)@.height() as int + 1, 0).fits(),
        ensures
            final(body)@ == old(body)@.unfold(me + 1, old(arg)@.shift(1, 0)),
            final(arg)@ == old(arg)@,
        decreases *old(body), 1nat,
    {
        proof {
            arg.lemma_fits();
            body.lemma_fits();
            lemma_shift_fits_less(arg@, body@.height() as int + 1, 1, 0);
            lemma_shift_shift(arg@, 1, body@.height() as int, 0);
            lemma_shift_inverse(arg@, 1, 0);
        }
        if me < Index::MAX {
            arg.shift(true, 0);
            body.unfold(me + 1, arg);
            arg.shift(false, 0);
        } else {
            proof {
                lemma_unfold_beyond(body@, me + 1, arg@.shift(1, 0));
            }
        }
    }

    /// Unrolls, in place, a recursive body against the pending argument
    /// `arg`: each application of the variable `me` to some `x` becomes the
    /// application of `x` to a copy of `arg`. `arg` is handed back as it
    /// came. The caller sees to it that `arg` can be carried beneath every
    /// binder of the term; `can_carry` tells.
    pub fn unfold(&mut self, me: Index, arg: &mut Term)
        requires
            old(arg)@.shift(old(self)@.height() as int, 0).fits(),
        ensures
            final(self)@ == old(self)@.unfold(me as int, old(arg)@),
            final(arg)@ == old(arg)@,
        decreases *old(self), 0nat,
    {
        match self {
            Term::Unit => (),
            Term::Var(_) => (),
            Term::Abs(_, body) => {
                Term::unfold_under(body, me, arg);
            },
            Term::Mu(_, body) => {
                Term::unfold_under(body, me, arg);
            },
            Term::App(t1, t2) => {
                proof {
                    arg.lemma_fits();
                    let h = old(self)@.height() as int;
                    lemma_shift_fits_less(arg@, h, t1@.height() as int, 0);
                    lemma_shift_fits_less(arg@, h, t2@.height() as int, 0);
                }
                let hit = match &**t1 {
                    Term::Var(i) => *i == me,
                    _ => false,
                };
                t2.unfold(me, arg);
                if hit {
                    std::mem::swap(&mut **t1, &mut **t2);
                    **t2 = arg.clone();
                } else {
                    t1.unfold(me, arg);
                }
            },
        }
    }

    /// The height of the term, counted no further than one past the index
    /// range.
    fn height_capped(&self) -> (h: u16)
        ensures
            h == if self@.height() <= 256 { self@.height() } else { 256 },
        decreases self,
    {
        match self {
            Term::Unit => 0,
            Term::Var(_) => 0,
            Term::Abs(_, t) => {
                let h: u16 = t.height_capped();
                if h < 256 { h + 1 } else { 256 }
            },
            Term::Mu(_, t) => {
                let h: u16 = t.height_capped();
                if h < 256 { h + 1 } else { 256 }
            },
            Term::App(f, a) => {
                let hf: u16 = f.height_capped();
                let ha: u16 = a.height_capped();
                if hf >= ha { hf } else { ha }
            },
        }
    }

    /// Whether the term stays within the index range when the variables that
    /// are free at `cutoff` move up by `by`.
    fn lift_fits(&self, by: u16, cutoff: u16) -> (ok: bool)
        requires
            by <= 1000,
        ensures
            ok == self@.shift(by as int, cutoff as int).fits(),
        decreases self,
    {
        match self {
            Term::Unit => true,
            Term::Var(i) => (*i as u16) < cutoff || (*i as u16) + by <= 255,
            Term::Abs(_, t) => {
                if cutoff > 255 {
                    proof {
                        t.lemma_fits();
                        lemma_shift_beyond(t@, by as int, cutoff + 1);
                    }
                    true
                } else {
                    t.lift_fits(by, cutoff + 1)
                }
            },
            Term::Mu(_, t) => {
                if cutoff > 255 {
                    proof {
                        t.lemma_fits();
                        lemma_shift_beyond(t@, by as int, cutoff + 1);
                    }
                    true
                } else {
                    t.lift_fits(by, cutoff + 1)
                }
            },
            Term::App(f, a) => f.lift_fits(by, cutoff) && a.lift_fits(by, cutoff),
        }
    }

    /// Whether `subs` can be carried beneath every binder of the term
    /// without any of its indices leaving the index type.
    pub fn can_carry(&self, subs: &Term) -> (ok: bool)
        ensures
            ok == subs@.shift(self@.height() as int, 0).fits(),
    {
        let h: u16 = self.height_capped();
        proof {
            subs.lemma_fits();
            if self@.height() > 256 {
                lemma_shift_fits_far(subs@, 256, self@.height() as int, 0);
            }
        }
        subs.lift_fits(h, 0)
    }

    /// Whether `arg` can be carried beneath the binder of `body` and every
    /// binder in it.
    fn has_fire_room(body: &Term, arg: &Term) -> (ok: bool)
        ensures
            ok == arg@.shift(body@.height() as int + 1, 0).fits(),
    {
        let h: u16 = body.height_capped();
        proof {
            arg.lemma_fits();
            if body@.height() > 256 {
                lemma_shift_fits_far(arg@, 257, body@.height() as int + 1, 0);
            }
        }
        arg.lift_fits(h + 1, 0)
    }

    /// Rewrites an application whose two sides are in normal form, if it is
    /// a redex and there is room.
    fn fire(&mut self) -> (res: Step)
        requires
            *old(self) matches Term::App(f, a) && f@.is_normal() && a@.is_normal(),
        ensures
            res == Step::Rewritten ==> old(self)@.room(),
            res == Step::Rewritten ==> old(self)@.step() == Some(final(self)@),
            res == Step::Normal ==> old(self)@.is_normal(),
            res == Step::Stuck ==> !old(self)@.is_normal() && !old(self)@.room(),
            res != Step::Rewritten ==> *final(self) == *old(self),
    {
        let ready = match &*self {
            Term::App(t1, t2) => match &**t1 {
                Term::Abs(_, body) => Some(Term::has_fire_room(body, t2)),
                Term::Mu(_, body) => Some(Term::has_fire_room(body, t2)),
                _ => None,
            },
            _ => None,
        };
        match ready {
            None => {
                return Step::Normal;
            },
            Some(false) => {
                return Step::Stuck;
            },
            Some(true) => {},
        }
        let mut out = Term::Unit;
        match self {
            Term::App(t1, t2) => {
                match &mut **t1 {
                    Term::Abs(_, body) => {
                        proof {
                            t2.lemma_fits();
                            lemma_shift_fits_less(t2@, body@.height() as int + 1, 1, 0);
                            lemma_shift_shift(t2@, 1, body@.height() as int, 0);
                            lemma_shift_avoids(t2@, 0);
                            lemma_subst_avoids(body@, 0, t2@.shift(1, 0));
                        }
                        t2.shift(true, 0);
                        body.replace(0, t2);
                        proof {
                            body.lemma_fits();
                            lemma_shift_down_fits(body@, 0);
                        }
                        body.shift(false, 0);
                        std::mem::swap(&mut out, &mut **body);
                    },
                    Term::Mu(_, body) => {
                        proof {
                            t2.lemma_fits();
                            lemma_shift_fits_less(t2@, body@.height() as int + 1, 1, 0);
                            lemma_shift_shift(t2@, 1, body@.height() as int, 0);
                        }
                        t2.shift(true, 0);
                        body.unfold(0, t2);
                        std::mem::swap(&mut out, &mut **body);
                    },
                    _ => {},
                }
            },
            _ => {},
        }
        *self = out;
        Step::Rewritten
    }

    /// Attempts one rewrite, in place, and says how it ended. The redex is
    /// searched for in the function of an application, else in its argument,
    /// else the application itself is rewritten; beneath a binder the search
    /// goes on in its body.
    pub fn advance(&mut self) -> (res: Step)
        ensures
            res == Step::Rewritten ==> old(self)@.room(),
            res == Step::Rewritten ==> old(self)@.step() == Some(final(self)@),
            res == Step::Normal ==> old(self)@.is_normal(),
            res == Step::Stuck ==> !old(self)@.is_normal() && !old(self)@.room(),
            res != Step::Rewritten ==> *final(self) == *old(self),
        decreases *old(self),
    {
        match self {
            Term::Unit => Step::Normal,
            Term::Var(_) => Step::Normal,
            Term::Abs(_, body) => body.advance(),
            Term::Mu(_, body) => body.advance(),
            Term::App(t1, t2) => {
                match t1.advance() {
                    Step::Normal => {},
                    other => {
                        return other;
                    },
                }
                match t2.advance() {
                    Step::Normal => {},
                    other => {
                        return other;
                    },
                }
                self.fire()
            },
        }
    }

    /// Performs at most one rewrite, in place, and reports whether one was
    /// made. None is made on a normal form, nor where the rewrite would
    /// leave the index range.
    pub fn reduce(&mut self) -> (progress: bool)
        ensures
            progress == (!old(self)@.is_normal() && old(self)@.room()),
            progress ==> old(self)@.step() == Some(final(self)@),
            !progress ==> *final(self) == *old(self),
    {
        match self.advance() {
            Step::Rewritten => true,
            _ => false,
        }
    }

    /// Rewrites, in place, until no rewrite is made or `limit` rewrites were
    /// made, and returns their number. On a normal form that number is zero.
    /// Where fewer than `limit` rewrites were made, the term is in normal
    /// form, or its next rewrite would leave the index range.
    pub fn evaluate(&mut self, limit: u64) -> (steps: u64)
        ensures
            steps <= limit,
            old(self)@.runs(steps as nat),
            final(self)@ == old(self)@.iterate(steps as nat),
            steps < limit ==> final(self)@.is_normal() || !final(self)@.room(),
            old(self)@.is_normal() ==> steps == 0 && *final(self) == *old(self),
    {
        let ghost start = *self;
        let mut steps: u64 = 0;
        while steps < limit
            invariant
                start == *old(self),
                steps <= limit,
                start@.runs(steps as nat),
                self@ == start@.iterate(steps as nat),
                steps == 0 ==> *self == start,
            decreases limit - steps,
        {
            if !self.reduce() {
                return steps;
            }
            proof {
                lemma_iterate_next(start@, steps as nat);
            }
            steps = steps + 1;
        }
        steps
    }

    /// Whether no rewrite applies.
    pub fn is_normal(&self) -> (res: bool)
        ensures
            res == self@.is_normal(),
        decreases self,
    {
        match self {
            Term::Unit => true,
            Term::Var(_) => true,
            Term::Abs(_, body) => body.is_normal(),
            Term::Mu(_, body) => body.is_normal(),
            Term::App(t1, t2) => {
                let head = match &**t1 {
                    Term::Abs(_, _) => true,
                    Term::Mu(_, _) => true,
                    _ => false,
                };
                !head && t1.is_normal() && t2.is_normal()
            },
        }
    }
}

impl Term {
    /// Appends the written form of the term to `out`.
    pub fn write_to(&self, out: &mut String)
        ensures
            final(out)@ == old(out)@ + self@.spelling(),
        decreases self,
    {
        match self {
            Term::Unit => {
                out.append("unit");
            },
            Term::Var(index) => {
                write_decimal(*index, out);
            },
            Term::Abs(_, body) => {
                out.append("(\u{3bb}. ");
                body.write_to(out);
                out.append(")");
                assert(out@ == old(out)@ + self@.spelling());
            },
            Term::Mu(_, body) => {
                out.append("(\u{3bc}. ");
                body.write_to(out);
                out.append(")");
                assert(out@ == old(out)@ + self@.spelling());
            },
            Term::App(t1, t2) => {
                out.append("(");
                t1.write_to(out);
                out.append(" ");
                t2.write_to(out);
                out.append(")");
                assert(out@ == old(out)@ + self@.spelling());
            },
        }
    }

    /// The term as it is written.
    pub fn render(&self) -> (text: String)
        ensures
            text@ == self@.spelling(),
    {
        let mut text = String::new();
        self.write_to(&mut text);
        assert(text@ == self@.spelling());
        text
    }
}

} // verus!
