use lambda_calculus::ctx::{desugar, restore, CtxError};
use lambda_calculus::eval::Term;
use lambda_calculus::parser::{parse, NamedTerm};
use lambda_calculus::ty::{Binding, Ty};

fn read(input: &str) -> NamedTerm {
    parse(input.to_string()).unwrap()
}

fn unit_to_unit() -> Ty {
    Ty::Arrow(Box::new(Ty::Unit), Box::new(Ty::Unit))
}

/// Runs a program through every stage and returns its type and the named
/// normal form.
fn run(input: &str) -> (Ty, NamedTerm) {
    let (mut term, ty) = desugar(read(input)).unwrap();
    term.evaluate(1000);
    assert!(term.is_normal());
    (ty, restore(term).unwrap())
}

const APPLIED: &str =
    "((\\x:((Unit -> Unit) -> (Unit -> Unit)). (x (\\y:Unit. y))) (\\z:(Unit -> Unit). z))";

const WITH_LET: &str = "(let i = (\\z:(Unit -> Unit). z) in ((\\x:((Unit -> Unit) -> (Unit -> Unit)). (x (\\y:Unit. y))) i))";

#[test]
fn an_applied_abstraction_is_evaluated() {
    let (ty, normal) = run(APPLIED);
    assert_eq!(ty, unit_to_unit());
    assert_eq!(normal, read("(\\y:Unit. y)"));
    assert_eq!(normal.render(), "(\u{3bb}y:Unit. y)");
}

#[test]
fn the_steps_of_the_applied_abstraction() {
    let (mut term, _) = desugar(read(APPLIED)).unwrap();
    assert_eq!(term.render(), "((\u{3bb}. (0 (\u{3bb}. 0))) (\u{3bb}. 0))");
    assert!(term.reduce());
    assert_eq!(term.render(), "((\u{3bb}. 0) (\u{3bb}. 0))");
    assert!(term.reduce());
    assert_eq!(term.render(), "(\u{3bb}. 0)");
    assert!(!term.reduce());
}

#[test]
fn a_let_has_the_normal_form_of_what_it_stands_for() {
    let (ty, normal) = run(WITH_LET);
    assert_eq!(ty, unit_to_unit());
    assert_eq!(normal, read("(\\y:Unit. y)"));
    assert_eq!(normal, run(APPLIED).1);
}

#[test]
fn an_ill_typed_application_is_rejected() {
    let error = desugar(read("((\\x:Unit. x) (\\y:Unit. y))")).unwrap_err();
    match error {
        CtxError::UnexpectedType(term, ty) => {
            assert_eq!(term.render(), "(\u{3bb}. 0)");
            assert_eq!(ty.render(), "(Unit -> Unit)");
        }
        other => panic!("{:?}", other),
    }
}

#[test]
fn an_unbound_variable_is_rejected() {
    assert_eq!(desugar(read("(\\x:Unit. y)")), Err(CtxError::MissingBinding('y')));
}

#[test]
fn the_type_of_the_normal_form_is_the_type_of_the_program() {
    for input in [
        APPLIED,
        WITH_LET,
        "((\\f:(Unit -> Unit). (\\x:Unit. (f (f x)))) (\\y:Unit. y))",
        "(\\a:Unit. ((\\f:(Unit -> Unit). (f a)) (\\y:Unit. y)))",
        "(let k = (\\x:Unit. (\\y:Unit. x)) in ((k unit) unit))",
    ] {
        let (ty, normal) = run(input);
        let (again, ty_again) = desugar(normal.clone()).unwrap();
        assert_eq!(ty_again, ty);
        assert!(again.is_normal());
        assert_eq!(restore(again), Ok(normal));
    }
}

#[test]
fn normal_forms_of_sample_programs() {
    for (input, normal) in [
        ("((\\f:(Unit -> Unit). (\\x:Unit. (f (f x)))) (\\y:Unit. y))", "(\\x:Unit. x)"),
        ("(\\a:Unit. ((\\f:(Unit -> Unit). (f a)) (\\y:Unit. y)))", "(\\a:Unit. a)"),
        ("(let k = (\\x:Unit. (\\y:Unit. x)) in ((k unit) unit))", "unit"),
        ("(\\x:Unit. x)", "(\\x:Unit. x)"),
        ("unit", "unit"),
    ] {
        assert_eq!(run(input).1, read(normal));
    }
}

// A substitution by names, to compare with. It is right only where no bound
// name of `term` is free in `arg` or equal to `name`, which holds of the
// terms below.
fn substitute(term: &NamedTerm, name: char, arg: &NamedTerm) -> NamedTerm {
    match term {
        NamedTerm::Unit => NamedTerm::Unit,
        NamedTerm::Var(other) => {
            if *other == name {
                arg.clone()
            } else {
                NamedTerm::Var(*other)
            }
        }
        NamedTerm::Abs(bind, body) => {
            assert!(bind.name != name);
            NamedTerm::Abs(bind.clone(), Box::new(substitute(body, name, arg)))
        }
        NamedTerm::App(t1, t2) => NamedTerm::App(
            Box::new(substitute(t1, name, arg)),
            Box::new(substitute(t2, name, arg)),
        ),
        NamedTerm::Let(other, t1, t2) => {
            assert!(*other != name);
            NamedTerm::Let(
                *other,
                Box::new(substitute(t1, name, arg)),
                Box::new(substitute(t2, name, arg)),
            )
        }
    }
}

/// Wraps `inner` in the binders a: Unit and f: Unit -> Unit.
fn beneath_a_and_f(inner: NamedTerm) -> NamedTerm {
    NamedTerm::Abs(
        Binding { name: 'a', ty: Ty::Unit },
        Box::new(NamedTerm::Abs(Binding { name: 'f', ty: unit_to_unit() }, Box::new(inner))),
    )
}

#[test]
fn a_rewrite_is_a_substitution_by_names() {
    // Each case: the type of x, the body of \x, and the argument; body and
    // argument are in normal form and may use the free names a and f.
    let cases = [
        ("Unit", "x", "a"),
        ("Unit", "(f x)", "(f a)"),
        ("Unit", "(\\y:Unit. (f x))", "(f a)"),
        ("Unit", "(\\y:Unit. (\\z:Unit. x))", "(f (f a))"),
        ("Unit", "(f (f x))", "a"),
        ("Unit", "(\\y:Unit. y)", "a"),
        ("(Unit -> Unit)", "(\\y:Unit. (x (f y)))", "f"),
        ("(Unit -> Unit)", "(\\y:Unit. (\\z:(Unit -> Unit). (z (x y))))", "f"),
        ("Unit", "(\\g:(Unit -> Unit). (g (f x)))", "(f a)"),
    ];
    for (ty, body, arg) in cases {
        let redex = format!("((\\x:{}. {}) {})", ty, body, arg);
        let (mut term, _) = desugar(beneath_a_and_f(read(&redex))).unwrap();
        assert!(term.reduce());
        let expected = beneath_a_and_f(substitute(&read(body), 'x', &read(arg)));
        assert_eq!(restore(term), Ok(expected));
    }
}

#[test]
fn evaluation_does_not_capture_a_free_variable() {
    // \a. ((\x. \b. x) a): the argument a must still refer to the outer
    // binder once it stands beneath b.
    let (mut term, _) =
        desugar(read("(\\a:Unit. ((\\x:Unit. (\\b:Unit. x)) a))")).unwrap();
    assert_eq!(term.evaluate(10), 1);
    assert_eq!(
        term,
        Term::Abs(
            Binding { name: 'a', ty: Ty::Unit },
            Box::new(Term::Abs(Binding { name: 'b', ty: Ty::Unit }, Box::new(Term::Var(1))))
        )
    );
    assert_eq!(restore(term), Ok(read("(\\a:Unit. (\\b:Unit. a))")));
}
