use lambda_calculus::eval::{Step, Term};
use lambda_calculus::ty::{Binding, Ty};

fn unit_to_unit() -> Ty {
    Ty::Arrow(Box::new(Ty::Unit), Box::new(Ty::Unit))
}

fn bind(name: char) -> Binding {
    Binding { name, ty: Ty::Unit }
}

fn var(index: u8) -> Term {
    Term::Var(index)
}

fn abs(name: char, body: Term) -> Term {
    Term::Abs(bind(name), Box::new(body))
}

fn mu(name: char, body: Term) -> Term {
    Term::Mu(Binding { name, ty: unit_to_unit() }, Box::new(body))
}

fn app(t1: Term, t2: Term) -> Term {
    Term::App(Box::new(t1), Box::new(t2))
}

fn id(name: char) -> Term {
    abs(name, var(0))
}

fn omega() -> Term {
    let half = abs('x', app(var(0), var(0)));
    app(half.clone(), half)
}

#[test]
fn shift_up_moves_free_variables_only() {
    // \x. (x 1 2): index 0 is bound, 1 and 2 are free.
    let mut term = abs('x', app(app(var(0), var(1)), var(2)));
    term.shift(true, 0);
    assert_eq!(term, abs('x', app(app(var(0), var(2)), var(3))));
}

#[test]
fn shift_respects_the_cutoff() {
    let mut term = app(app(var(0), var(1)), var(2));
    term.shift(true, 2);
    assert_eq!(term, app(app(var(0), var(1)), var(3)));
}

#[test]
fn shift_down_moves_free_variables_only() {
    let mut term = abs('x', app(var(0), var(2)));
    term.shift(false, 0);
    assert_eq!(term, abs('x', app(var(0), var(1))));
}

#[test]
fn shift_keeps_unit() {
    let mut term = Term::Unit;
    term.shift(true, 0);
    assert_eq!(term, Term::Unit);
}

#[test]
fn shift_up_then_down_gives_the_term_back() {
    let before = abs('x', app(abs('y', app(var(0), var(3))), app(var(1), var(0))));
    for cutoff in 0..4u8 {
        let mut term = before.clone();
        term.shift(true, cutoff);
        term.shift(false, cutoff);
        assert_eq!(term, before);
    }
}

#[test]
fn shift_beneath_the_deepest_cutoff_changes_nothing() {
    let before = abs('x', app(var(0), var(200)));
    let mut term = before.clone();
    term.shift(true, 255);
    assert_eq!(term, before);
}

#[test]
fn shift_beneath_a_recursion_binder() {
    let mut term = mu('f', app(var(0), var(1)));
    term.shift(true, 0);
    assert_eq!(term, mu('f', app(var(0), var(2))));
}

#[test]
fn replace_rewrites_each_occurrence() {
    let mut term = app(var(0), app(var(1), var(0)));
    let mut subs = Term::Unit;
    term.replace(0, &mut subs);
    assert_eq!(term, app(Term::Unit, app(var(1), Term::Unit)));
    assert_eq!(subs, Term::Unit);
}

#[test]
fn replace_beneath_a_binder_shifts_the_substitution() {
    // [0 -> 5] (\y. 1 0)  =  \y. 6 0
    let mut term = abs('y', app(var(1), var(0)));
    let mut subs = var(5);
    term.replace(0, &mut subs);
    assert_eq!(term, abs('y', app(var(6), var(0))));
    assert_eq!(subs, var(5));
}

#[test]
fn replace_hands_the_substitution_back_to_sibling_subterms() {
    // [0 -> 5] ((\y. 1) 0)  =  (\y. 6) 5
    let mut term = app(abs('y', var(1)), var(0));
    let mut subs = var(5);
    term.replace(0, &mut subs);
    assert_eq!(term, app(abs('y', var(6)), var(5)));
    assert_eq!(subs, var(5));
}

#[test]
fn replace_beneath_two_binders() {
    let mut term = abs('y', abs('z', app(var(2), var(1))));
    let mut subs = app(var(0), var(3));
    term.replace(0, &mut subs);
    assert_eq!(term, abs('y', abs('z', app(app(var(2), var(5)), var(1)))));
    assert_eq!(subs, app(var(0), var(3)));
}

#[test]
fn replace_leaves_other_indices() {
    let mut term = app(var(1), var(2));
    let mut subs = Term::Unit;
    term.replace(0, &mut subs);
    assert_eq!(term, app(var(1), var(2)));
}

#[test]
fn replace_at_the_last_index_beneath_a_binder_changes_nothing() {
    let before = abs('y', app(var(0), var(255)));
    let mut term = before.clone();
    let mut subs = Term::Unit;
    term.replace(255, &mut subs);
    assert_eq!(term, before);
}

#[test]
fn identity_applied_to_unit_reduces_to_unit() {
    let mut term = app(id('x'), Term::Unit);
    assert!(term.reduce());
    assert_eq!(term, Term::Unit);
    assert!(!term.reduce());
    assert_eq!(term.advance(), Step::Normal);
}

#[test]
fn beta_renumbers_the_free_variables_of_the_body() {
    // (\x. \y. x 2) 7  =  \y. 8 1 : the argument moves beneath y, the free
    // variable of the body loses the binder x.
    let mut term = app(abs('x', abs('y', app(var(1), var(2)))), var(7));
    assert!(term.reduce());
    assert_eq!(term, abs('y', app(var(8), var(1))));
}

#[test]
fn beta_copies_the_argument_to_each_occurrence() {
    let mut term = app(abs('x', app(var(0), var(0))), id('z'));
    assert!(term.reduce());
    assert_eq!(term, app(id('z'), id('z')));
}

#[test]
fn reduce_looks_in_the_function_first() {
    // ((id id) (id unit)): the function is rewritten, the argument waits.
    let mut term = app(app(id('a'), id('b')), app(id('c'), Term::Unit));
    assert!(term.reduce());
    assert_eq!(term, app(id('b'), app(id('c'), Term::Unit)));
}

#[test]
fn reduce_looks_in_the_argument_before_the_application_itself() {
    // (id (id unit)): the function is normal, so the argument is rewritten
    // before the outer redex fires.
    let mut term = app(id('b'), app(id('c'), Term::Unit));
    assert!(term.reduce());
    assert_eq!(term, app(id('b'), Term::Unit));
    assert!(term.reduce());
    assert_eq!(term, Term::Unit);
    assert!(!term.reduce());
}

#[test]
fn reduce_looks_inside_the_body_of_the_function() {
    // ((\x. id x) unit): the body of the function holds a redex.
    let mut term = app(abs('x', app(id('y'), var(0))), Term::Unit);
    assert!(term.reduce());
    assert_eq!(term, app(abs('x', var(0)), Term::Unit));
}

#[test]
fn reduce_rewrites_beneath_a_binder() {
    let mut term = abs('x', app(id('y'), var(0)));
    assert!(term.reduce());
    assert_eq!(term, abs('x', var(0)));
}

#[test]
fn reduce_makes_one_rewrite_at_a_time() {
    let mut term = app(app(id('a'), id('b')), app(id('c'), Term::Unit));
    let mut count = 0;
    while term.reduce() {
        count += 1;
    }
    assert_eq!(count, 3);
    assert_eq!(term, Term::Unit);
}

#[test]
fn variables_and_unit_are_normal() {
    for before in [Term::Unit, var(3), abs('x', var(0)), app(var(0), Term::Unit)] {
        let mut term = before.clone();
        assert!(term.is_normal());
        assert!(!term.reduce());
        assert_eq!(term, before);
    }
}

#[test]
fn is_normal_sees_a_redex_anywhere() {
    assert!(!app(id('x'), Term::Unit).is_normal());
    assert!(!abs('z', app(id('x'), Term::Unit)).is_normal());
    assert!(!app(var(0), app(id('x'), Term::Unit)).is_normal());
    assert!(!app(mu('f', var(0)), Term::Unit).is_normal());
    assert!(mu('f', var(0)).is_normal());
}

#[test]
fn evaluate_counts_its_rewrites() {
    let mut term = app(app(id('a'), id('b')), app(id('c'), Term::Unit));
    assert_eq!(term.evaluate(100), 3);
    assert_eq!(term, Term::Unit);
}

#[test]
fn evaluate_on_a_normal_form_makes_no_rewrite() {
    let before = abs('x', app(var(0), abs('y', var(1))));
    let mut term = before.clone();
    assert_eq!(term.evaluate(100), 0);
    assert_eq!(term, before);
}

#[test]
fn evaluate_twice_is_evaluate_once() {
    let mut term = app(abs('x', app(var(0), var(0))), id('z'));
    assert_eq!(term.evaluate(100), 2);
    let normal = term.clone();
    assert_eq!(term.evaluate(100), 0);
    assert_eq!(term, normal);
}

#[test]
fn evaluate_stops_at_its_limit() {
    let mut term = omega();
    assert_eq!(term.evaluate(10), 10);
    assert_eq!(term, omega());
    assert!(!term.is_normal());
}

#[test]
fn evaluate_with_no_steps_allowed_changes_nothing() {
    let before = app(id('x'), Term::Unit);
    let mut term = before.clone();
    assert_eq!(term.evaluate(0), 0);
    assert_eq!(term, before);
}

#[test]
fn recursion_unfolds_one_level_and_halts() {
    // (mu f. f unit) a: the self-application hands its argument the pending
    // one, and nothing is left to unfold.
    let mut term = app(mu('f', app(var(0), Term::Unit)), id('a'));
    assert!(term.reduce());
    assert_eq!(term, app(Term::Unit, id('a')));
    assert!(!term.reduce());
}

#[test]
fn recursion_unfolds_once_under_evaluate() {
    let mut term = app(mu('f', app(var(0), Term::Unit)), id('a'));
    assert_eq!(term.evaluate(100), 1);
    assert_eq!(term, app(Term::Unit, id('a')));
}

#[test]
fn recursion_without_self_application_gives_its_body() {
    let mut term = app(mu('f', abs('x', var(0))), Term::Unit);
    assert!(term.reduce());
    assert_eq!(term, abs('x', var(0)));
}

#[test]
fn unfold_shifts_the_argument_beneath_binders() {
    // In \y. (1 y) the variable 1 is the recursion binder seen from beneath y.
    let mut body = abs('y', app(var(1), var(0)));
    let mut arg = var(4);
    body.unfold(0, &mut arg);
    assert_eq!(body, abs('y', app(var(0), var(5))));
    assert_eq!(arg, var(4));
}

#[test]
fn unfold_rewrites_nested_self_applications() {
    let mut body = app(var(0), app(var(0), Term::Unit));
    let mut arg = var(3);
    body.unfold(0, &mut arg);
    assert_eq!(body, app(app(Term::Unit, var(3)), var(3)));
}

#[test]
fn unfold_leaves_self_references_that_are_not_applied() {
    let mut body = app(Term::Unit, var(0));
    let mut arg = var(3);
    body.unfold(0, &mut arg);
    assert_eq!(body, app(Term::Unit, var(0)));
}

#[test]
fn recursive_redex_shifts_its_argument_up() {
    let mut term = app(mu('f', app(var(0), Term::Unit)), var(2));
    assert!(term.reduce());
    assert_eq!(term, app(Term::Unit, var(3)));
}

#[test]
fn a_rewrite_that_would_leave_the_index_range_is_not_made() {
    let before = app(abs('x', var(0)), var(255));
    let mut term = before.clone();
    assert_eq!(term.advance(), Step::Stuck);
    assert_eq!(term, before);
    assert!(!term.reduce());
    assert_eq!(term, before);
    assert!(!term.is_normal());
    assert_eq!(term.evaluate(5), 0);
}

#[test]
fn the_highest_index_that_still_has_room() {
    let mut term = app(abs('x', var(0)), var(254));
    assert_eq!(term.advance(), Step::Rewritten);
    assert_eq!(term, var(254));
}

#[test]
fn room_depends_on_the_binders_of_the_body() {
    // Beneath y the argument would have to be shifted twice.
    let before = app(abs('x', abs('y', Term::Unit)), var(254));
    let mut term = before.clone();
    assert_eq!(term.advance(), Step::Stuck);
    assert_eq!(term, before);
    let mut term = app(abs('x', abs('y', Term::Unit)), var(253));
    assert_eq!(term.advance(), Step::Rewritten);
    assert_eq!(term, abs('y', Term::Unit));
}

#[test]
fn a_closed_argument_always_has_room() {
    let mut term = app(abs('x', abs('y', var(1))), abs('z', var(0)));
    assert_eq!(term.advance(), Step::Rewritten);
    assert_eq!(term, abs('y', abs('z', var(0))));
}

#[test]
fn advance_reports_each_outcome() {
    let mut term = app(id('x'), Term::Unit);
    assert_eq!(term.advance(), Step::Rewritten);
    assert_eq!(term.advance(), Step::Normal);
}

#[test]
fn clone_is_a_deep_copy() {
    let before = app(abs('x', var(0)), mu('f', var(1)));
    let mut copy = before.clone();
    copy.shift(true, 0);
    assert_eq!(before, app(abs('x', var(0)), mu('f', var(1))));
    assert_eq!(copy, app(abs('x', var(0)), mu('f', var(2))));
}

#[test]
fn nameless_terms_are_written_with_indices() {
    let term = app(abs('x', app(var(0), var(12))), app(mu('f', var(255)), Term::Unit));
    assert_eq!(term.render(), "((\u{3bb}. (0 12)) ((\u{3bc}. 255) unit))");
}

#[test]
fn indices_are_written_in_decimal() {
    for (index, text) in [(0u8, "0"), (7, "7"), (10, "10"), (99, "99"), (100, "100"), (255, "255")] {
        assert_eq!(var(index).render(), text);
    }
}

#[test]
fn can_shift_tells_whether_an_index_would_leave_its_range() {
    assert!(var(254).can_shift(true, 0));
    assert!(!var(255).can_shift(true, 0));
    assert!(!var(255).can_shift(true, 255));
    // Beneath a binder at the highest cutoff no variable is free.
    assert!(abs('x', var(255)).can_shift(true, 255));
    // Below the cutoff a variable is left alone.
    assert!(app(var(0), var(1)).can_shift(false, 2));
    assert!(var(1).can_shift(false, 0));
    assert!(!var(0).can_shift(false, 0));
    assert!(var(0).can_shift(false, 1));
    // The bound variable of an abstraction does not move, and a free one
    // beneath it is at least one.
    assert!(abs('x', var(0)).can_shift(false, 0));
    assert!(abs('x', var(1)).can_shift(false, 0));
    assert!(app(var(3), Term::Unit).can_shift(true, 0));
    assert!(!app(var(3), var(255)).can_shift(true, 0));
}

#[test]
fn can_carry_counts_the_binders_of_the_term() {
    // A closed term can be carried anywhere.
    assert!(abs('a', abs('b', Term::Unit)).can_carry(&id('z')));
    // A free variable must have room for one step per binder.
    assert!(Term::Unit.can_carry(&var(255)));
    assert!(!abs('a', Term::Unit).can_carry(&var(255)));
    assert!(abs('a', Term::Unit).can_carry(&var(254)));
    assert!(!abs('a', abs('b', Term::Unit)).can_carry(&var(254)));
    assert!(app(abs('a', Term::Unit), abs('b', abs('c', Term::Unit))).can_carry(&var(253)));
    assert!(!app(abs('a', Term::Unit), abs('b', abs('c', Term::Unit))).can_carry(&var(254)));
}

#[test]
fn replace_where_there_is_just_room() {
    let mut term = abs('y', var(1));
    let mut subs = var(254);
    assert!(term.can_carry(&subs));
    term.replace(0, &mut subs);
    assert_eq!(term, abs('y', var(255)));
    assert_eq!(subs, var(254));
}
