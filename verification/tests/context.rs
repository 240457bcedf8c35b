use lambda_calculus::ctx::{desugar, restore, Context, CtxError};
use lambda_calculus::eval::Term;
use lambda_calculus::parser::NamedTerm;
use lambda_calculus::ty::{Binding, Ty};

fn arrow(a: Ty, b: Ty) -> Ty {
    Ty::Arrow(Box::new(a), Box::new(b))
}

fn bind(name: char, ty: Ty) -> Binding {
    Binding { name, ty }
}

fn nvar(name: char) -> NamedTerm {
    NamedTerm::Var(name)
}

fn nabs(name: char, ty: Ty, body: NamedTerm) -> NamedTerm {
    NamedTerm::Abs(bind(name, ty), Box::new(body))
}

fn napp(t1: NamedTerm, t2: NamedTerm) -> NamedTerm {
    NamedTerm::App(Box::new(t1), Box::new(t2))
}

fn nlet(name: char, t1: NamedTerm, t2: NamedTerm) -> NamedTerm {
    NamedTerm::Let(name, Box::new(t1), Box::new(t2))
}

fn abs(name: char, ty: Ty, body: Term) -> Term {
    Term::Abs(bind(name, ty), Box::new(body))
}

fn app(t1: Term, t2: Term) -> Term {
    Term::App(Box::new(t1), Box::new(t2))
}

#[test]
fn unit_has_type_unit() {
    assert_eq!(desugar(NamedTerm::Unit), Ok((Term::Unit, Ty::Unit)));
}

#[test]
fn an_abstraction_has_a_function_type() {
    assert_eq!(
        desugar(nabs('x', Ty::Unit, nvar('x'))),
        Ok((abs('x', Ty::Unit, Term::Var(0)), arrow(Ty::Unit, Ty::Unit)))
    );
}

#[test]
fn an_index_counts_the_binders_in_between() {
    let term = nabs('x', Ty::Unit, nabs('y', arrow(Ty::Unit, Ty::Unit), napp(nvar('y'), nvar('x'))));
    let expected = abs(
        'x',
        Ty::Unit,
        abs('y', arrow(Ty::Unit, Ty::Unit), app(Term::Var(0), Term::Var(1))),
    );
    let ty = arrow(Ty::Unit, arrow(arrow(Ty::Unit, Ty::Unit), Ty::Unit));
    assert_eq!(desugar(term), Ok((expected, ty)));
}

#[test]
fn a_name_refers_to_its_innermost_binder() {
    let term = nabs('x', Ty::Unit, nabs('x', arrow(Ty::Unit, Ty::Unit), nvar('x')));
    let (nameless, ty) = desugar(term).unwrap();
    assert_eq!(
        nameless,
        abs('x', Ty::Unit, abs('x', arrow(Ty::Unit, Ty::Unit), Term::Var(0)))
    );
    assert_eq!(ty, arrow(Ty::Unit, arrow(arrow(Ty::Unit, Ty::Unit), arrow(Ty::Unit, Ty::Unit))));
}

#[test]
fn an_application_has_the_codomain_of_its_function() {
    let term = napp(nabs('x', Ty::Unit, nvar('x')), NamedTerm::Unit);
    assert_eq!(
        desugar(term),
        Ok((app(abs('x', Ty::Unit, Term::Var(0)), Term::Unit), Ty::Unit))
    );
}

#[test]
fn a_let_becomes_an_abstraction_applied_at_once() {
    let term = nlet('i', nabs('z', Ty::Unit, nvar('z')), napp(nvar('i'), NamedTerm::Unit));
    let id_ty = arrow(Ty::Unit, Ty::Unit);
    let expected = app(
        abs('i', id_ty, app(Term::Var(0), Term::Unit)),
        abs('z', Ty::Unit, Term::Var(0)),
    );
    assert_eq!(desugar(term), Ok((expected, Ty::Unit)));
}

#[test]
fn the_bound_term_of_a_let_does_not_see_the_new_name() {
    let term = nlet('i', nvar('i'), NamedTerm::Unit);
    assert_eq!(desugar(term), Err(CtxError::MissingBinding('i')));
}

#[test]
fn an_unbound_variable_is_missing_its_binding() {
    assert_eq!(desugar(nabs('x', Ty::Unit, nvar('y'))), Err(CtxError::MissingBinding('y')));
    assert_eq!(desugar(nvar('y')), Err(CtxError::MissingBinding('y')));
}

#[test]
fn a_binder_is_out_of_scope_after_its_body() {
    let term = napp(nabs('x', Ty::Unit, nvar('x')), nvar('x'));
    assert_eq!(desugar(term), Err(CtxError::MissingBinding('x')));
}

#[test]
fn an_argument_of_the_wrong_type_is_unexpected() {
    let term = napp(nabs('x', Ty::Unit, nvar('x')), nabs('y', Ty::Unit, nvar('y')));
    assert_eq!(
        desugar(term),
        Err(CtxError::UnexpectedType(abs('y', Ty::Unit, Term::Var(0)), arrow(Ty::Unit, Ty::Unit)))
    );
}

#[test]
fn an_argument_to_what_is_no_function_is_unexpected() {
    let term = napp(NamedTerm::Unit, NamedTerm::Unit);
    assert_eq!(desugar(term), Err(CtxError::UnexpectedType(Term::Unit, Ty::Unit)));
}

#[test]
fn the_first_fault_from_the_left_is_reported() {
    let bad = || napp(NamedTerm::Unit, NamedTerm::Unit);
    assert_eq!(desugar(napp(nvar('a'), bad())), Err(CtxError::MissingBinding('a')));
    assert_eq!(
        desugar(napp(bad(), nvar('a'))),
        Err(CtxError::UnexpectedType(Term::Unit, Ty::Unit))
    );
}

#[test]
fn types_are_compared_by_structure() {
    let f_ty = arrow(arrow(Ty::Unit, Ty::Unit), Ty::Unit);
    let good = napp(
        nabs('f', arrow(Ty::Unit, Ty::Unit), NamedTerm::Unit),
        nabs('y', Ty::Unit, nvar('y')),
    );
    assert_eq!(desugar(good).unwrap().1, Ty::Unit);
    let bad = napp(nabs('f', f_ty, NamedTerm::Unit), nabs('y', Ty::Unit, nvar('y')));
    assert!(matches!(desugar(bad), Err(CtxError::UnexpectedType(_, _))));
}

fn nest(depth: usize, innermost: NamedTerm) -> NamedTerm {
    let mut term = innermost;
    for _ in 0..depth {
        term = nabs('b', Ty::Unit, term);
    }
    nabs('a', Ty::Unit, term)
}

#[test]
fn the_deepest_binder_that_an_index_can_reach() {
    let (term, _) = desugar(nest(255, nvar('a'))).unwrap();
    let mut inner = &term;
    let mut depth = 0;
    while let Term::Abs(_, body) = inner {
        inner = body;
        depth += 1;
    }
    assert_eq!(depth, 256);
    assert_eq!(*inner, Term::Var(255));
}

#[test]
fn a_binder_further_out_than_an_index_can_count_is_too_deep() {
    assert_eq!(desugar(nest(256, nvar('a'))), Err(CtxError::TooDeep('a')));
}

#[test]
fn restore_gives_each_index_its_name() {
    let term = abs(
        'x',
        Ty::Unit,
        abs('y', arrow(Ty::Unit, Ty::Unit), app(Term::Var(0), Term::Var(1))),
    );
    let expected = nabs('x', Ty::Unit, nabs('y', arrow(Ty::Unit, Ty::Unit), napp(nvar('y'), nvar('x'))));
    assert_eq!(restore(term), Ok(expected));
}

#[test]
fn restore_keeps_unit() {
    assert_eq!(restore(Term::Unit), Ok(NamedTerm::Unit));
}

#[test]
fn restore_reports_an_index_without_a_binder() {
    assert_eq!(restore(Term::Var(0)), Err(CtxError::Dangling(0)));
    assert_eq!(restore(abs('x', Ty::Unit, Term::Var(1))), Err(CtxError::Dangling(1)));
    assert_eq!(
        restore(app(abs('x', Ty::Unit, Term::Var(0)), Term::Var(3))),
        Err(CtxError::Dangling(3))
    );
}

#[test]
fn restore_writes_a_recursion_binder_as_an_abstraction() {
    let f_ty = arrow(Ty::Unit, Ty::Unit);
    let term = Term::Mu(bind('f', f_ty.clone()), Box::new(app(Term::Var(0), Term::Unit)));
    assert_eq!(restore(term), Ok(nabs('f', f_ty, napp(nvar('f'), NamedTerm::Unit))));
}

#[test]
fn restore_undoes_desugar() {
    let terms = [
        NamedTerm::Unit,
        nabs('x', Ty::Unit, nvar('x')),
        nabs('x', Ty::Unit, nabs('x', Ty::Unit, nvar('x'))),
        nabs(
            'f',
            arrow(Ty::Unit, Ty::Unit),
            nabs('x', Ty::Unit, napp(nvar('f'), napp(nvar('f'), nvar('x')))),
        ),
        napp(nabs('x', Ty::Unit, nvar('x')), NamedTerm::Unit),
    ];
    for term in terms {
        let (nameless, _) = desugar(term.clone()).unwrap();
        assert_eq!(restore(nameless), Ok(term));
    }
}

#[test]
fn restore_writes_a_let_out() {
    let term = nlet('i', NamedTerm::Unit, nvar('i'));
    let (nameless, ty) = desugar(term).unwrap();
    let written_out = napp(nabs('i', Ty::Unit, nvar('i')), NamedTerm::Unit);
    assert_eq!(restore(nameless.clone()), Ok(written_out.clone()));
    // The written-out term resolves to the same nameless term and type.
    assert_eq!(desugar(written_out), Ok((nameless, ty)));
}

#[test]
fn a_context_is_as_it_was_after_each_call() {
    let mut ctx = Context::new();
    let open = nabs('x', Ty::Unit, nabs('y', Ty::Unit, nvar('z')));
    assert_eq!(ctx.desugar(open), Err(CtxError::MissingBinding('z')));
    // Had the binders x and y been left in scope, these would resolve.
    assert_eq!(ctx.desugar(nvar('x')), Err(CtxError::MissingBinding('x')));
    assert_eq!(ctx.restore(Term::Var(0)), Err(CtxError::Dangling(0)));
    assert_eq!(
        ctx.restore(abs('x', Ty::Unit, Term::Var(5))),
        Err(CtxError::Dangling(5))
    );
    assert_eq!(ctx.restore(Term::Var(0)), Err(CtxError::Dangling(0)));
    assert_eq!(ctx.desugar(NamedTerm::Unit), Ok((Term::Unit, Ty::Unit)));
}

#[test]
fn types_are_equal_by_structure() {
    let a = arrow(Ty::Unit, arrow(Ty::Unit, Ty::Unit));
    assert!(a.same(&a.clone()));
    assert!(!a.same(&arrow(arrow(Ty::Unit, Ty::Unit), Ty::Unit)));
    assert!(!a.same(&Ty::Unit));
    assert!(Ty::Unit.same(&Ty::Unit));
}
