use lambda_calculus::ctx::{desugar, Context, CtxError};
use lambda_calculus::eval::Term;
use lambda_calculus::naming::{remove_names, restore_names, NamingError};
use lambda_calculus::parser::{parse, NamedTerm};
use lambda_calculus::ty::{Binding, Ty};

fn read(input: &str) -> NamedTerm {
    parse(input.to_string()).unwrap()
}

fn abs(name: char, body: Term) -> Term {
    Term::Abs(Binding { name, ty: Ty::Unit }, Box::new(body))
}

fn app(t1: Term, t2: Term) -> Term {
    Term::App(Box::new(t1), Box::new(t2))
}

#[test]
fn names_are_removed_without_regard_to_types() {
    // Self-application has no type, but its names can be removed.
    let omega = read("((\\x:Unit. (x x)) (\\x:Unit. (x x)))");
    assert!(matches!(desugar(omega.clone()), Err(CtxError::UnexpectedType(_, _))));
    let half = || abs('x', app(Term::Var(0), Term::Var(0)));
    assert_eq!(remove_names(omega), Ok(app(half(), half())));
}

#[test]
fn a_term_of_no_type_can_be_evaluated() {
    let mut term = remove_names(read("((\\x:Unit. (x x)) (\\y:Unit. y))")).unwrap();
    assert_eq!(term.evaluate(100), 2);
    assert_eq!(restore_names(term), Ok(read("(\\y:Unit. y)")));
}

#[test]
fn a_term_that_loops_uses_up_its_limit() {
    let mut term = remove_names(read("((\\x:Unit. (x x)) (\\x:Unit. (x x)))")).unwrap();
    let before = term.clone();
    assert_eq!(term.evaluate(25), 25);
    assert_eq!(term, before);
}

#[test]
fn name_removal_agrees_with_resolution() {
    for input in [
        "unit",
        "(\\x:Unit. x)",
        "(\\x:Unit. (\\x:(Unit -> Unit). x))",
        "((\\f:(Unit -> Unit). (\\x:Unit. (f (f x)))) (\\y:Unit. y))",
    ] {
        let (resolved, _) = desugar(read(input)).unwrap();
        assert_eq!(remove_names(read(input)), Ok(resolved));
    }
}

#[test]
fn a_name_refers_to_its_innermost_binder_without_types_too() {
    let term = remove_names(read("(\\x:Unit. (\\y:Unit. (\\x:Unit. (x y))))")).unwrap();
    assert_eq!(term, abs('x', abs('y', abs('x', app(Term::Var(0), Term::Var(1))))));
}

#[test]
fn a_free_variable_has_no_index() {
    assert_eq!(
        remove_names(read("(\\z:Unit. ((\\x:Unit. (\\y:Unit. (x y))) (y z)))")),
        Err(NamingError::MissingIndex('y'))
    );
    assert_eq!(remove_names(read("(a b)")), Err(NamingError::MissingIndex('a')));
}

#[test]
fn a_let_is_not_resolved_without_types() {
    assert_eq!(
        remove_names(read("(let i = unit in i)")),
        Err(NamingError::UntypedLet('i'))
    );
    assert_eq!(
        remove_names(read("(\\x:Unit. (x (let j = x in j)))")),
        Err(NamingError::UntypedLet('j'))
    );
}

#[test]
fn an_index_without_a_binder_has_no_name() {
    assert_eq!(restore_names(Term::Var(2)), Err(NamingError::MissingName(2)));
    assert_eq!(restore_names(abs('x', Term::Var(1))), Err(NamingError::MissingName(1)));
    assert_eq!(
        restore_names(app(abs('x', Term::Var(0)), Term::Var(0))),
        Err(NamingError::MissingName(0))
    );
}

#[test]
fn names_are_restored_as_they_were_removed() {
    for input in [
        "unit",
        "(\\x:Unit. (x x))",
        "(\\a:Unit. (\\b:(Unit -> Unit). ((b a) (\\a:Unit. (a b)))))",
    ] {
        let term = remove_names(read(input)).unwrap();
        assert_eq!(restore_names(term), Ok(read(input)));
    }
}

#[test]
fn a_binder_too_far_out_is_too_deep_without_types_too() {
    let mut term = NamedTerm::Var('a');
    for _ in 0..256 {
        term = NamedTerm::Abs(Binding { name: 'b', ty: Ty::Unit }, Box::new(term));
    }
    term = NamedTerm::Abs(Binding { name: 'a', ty: Ty::Unit }, Box::new(term));
    assert_eq!(remove_names(term), Err(NamingError::TooDeep('a')));
}

#[test]
fn a_context_keeps_its_binders_through_name_removal() {
    let mut ctx = Context::new();
    assert_eq!(
        ctx.remove_names(read("(\\x:Unit. (\\y:Unit. z))")),
        Err(NamingError::MissingIndex('z'))
    );
    assert_eq!(ctx.remove_names(read("x")), Err(NamingError::MissingIndex('x')));
    assert_eq!(ctx.restore_names(Term::Var(0)), Err(NamingError::MissingName(0)));
    assert_eq!(ctx.remove_names(read("(\\x:Unit. x)")), Ok(abs('x', Term::Var(0))));
}
