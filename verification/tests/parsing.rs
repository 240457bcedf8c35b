use lambda_calculus::parser::result::{ParseError, ParseErrorKind};
use lambda_calculus::parser::tokenizer::TokenKind;
use lambda_calculus::parser::{parse, NamedTerm};
use lambda_calculus::ty::{Binding, Ty};

fn arrow(a: Ty, b: Ty) -> Ty {
    Ty::Arrow(Box::new(a), Box::new(b))
}

fn var(name: char) -> NamedTerm {
    NamedTerm::Var(name)
}

fn abs(name: char, ty: Ty, body: NamedTerm) -> NamedTerm {
    NamedTerm::Abs(Binding { name, ty }, Box::new(body))
}

fn app(t1: NamedTerm, t2: NamedTerm) -> NamedTerm {
    NamedTerm::App(Box::new(t1), Box::new(t2))
}

fn let_in(name: char, t1: NamedTerm, t2: NamedTerm) -> NamedTerm {
    NamedTerm::Let(name, Box::new(t1), Box::new(t2))
}

fn read(input: &str) -> Result<NamedTerm, ParseError> {
    parse(input.to_string())
}

fn unexpected(loc: usize, kind: TokenKind) -> ParseError {
    ParseError::new(loc, ParseErrorKind::UnexpectedToken(kind))
}

#[test]
fn parses_unit() {
    assert_eq!(read("unit"), Ok(NamedTerm::Unit));
}

#[test]
fn parses_a_variable() {
    assert_eq!(read("x"), Ok(var('x')));
}

#[test]
fn parses_an_abstraction() {
    assert_eq!(read("(\\x:Unit. x)"), Ok(abs('x', Ty::Unit, var('x'))));
}

#[test]
fn parses_an_abstraction_written_with_a_greek_lambda() {
    assert_eq!(read("(\u{3bb}x:Unit. x)"), Ok(abs('x', Ty::Unit, var('x'))));
}

#[test]
fn parses_an_application() {
    assert_eq!(read("(f x)"), Ok(app(var('f'), var('x'))));
    assert_eq!(read("((f x) unit)"), Ok(app(app(var('f'), var('x')), NamedTerm::Unit)));
}

#[test]
fn parses_a_let() {
    assert_eq!(
        read("(let i = unit in (f i))"),
        Ok(let_in('i', NamedTerm::Unit, app(var('f'), var('i'))))
    );
}

#[test]
fn parses_function_types() {
    assert_eq!(
        read("(\\f:(Unit -> Unit). f)"),
        Ok(abs('f', arrow(Ty::Unit, Ty::Unit), var('f')))
    );
    assert_eq!(
        read("(\\f:((Unit -> Unit) -> (Unit -> (Unit -> Unit))). f)"),
        Ok(abs(
            'f',
            arrow(arrow(Ty::Unit, Ty::Unit), arrow(Ty::Unit, arrow(Ty::Unit, Ty::Unit))),
            var('f')
        ))
    );
}

#[test]
fn parses_the_sample_program() {
    let input = "(let i = (\\z:(Unit -> Unit). z) in ((\u{3bb}x:((Unit -> Unit) -> (Unit -> Unit)). (x (\\y:Unit. y))) i))";
    let uu = || arrow(Ty::Unit, Ty::Unit);
    let expected = let_in(
        'i',
        abs('z', uu(), var('z')),
        app(
            abs('x', arrow(uu(), uu()), app(var('x'), abs('y', Ty::Unit, var('y')))),
            var('i'),
        ),
    );
    assert_eq!(read(input), Ok(expected));
}

#[test]
fn an_empty_input_is_an_unexpected_end() {
    assert_eq!(read(""), Err(unexpected(0, TokenKind::EOF)));
}

#[test]
fn a_term_must_reach_the_end_of_the_input() {
    assert_eq!(read("x)"), Err(unexpected(1, TokenKind::RBracket)));
    assert_eq!(read("unit "), Err(unexpected(4, TokenKind::Space)));
}

#[test]
fn an_unknown_word_is_unexpected() {
    assert_eq!(read("units"), Err(unexpected(0, TokenKind::Word("units".to_string()))));
    assert_eq!(read("Unit"), Err(unexpected(0, TokenKind::Word("Unit".to_string()))));
}

#[test]
fn a_term_cannot_begin_with_punctuation() {
    assert_eq!(read(")"), Err(unexpected(0, TokenKind::RBracket)));
    assert_eq!(read(". x"), Err(unexpected(0, TokenKind::Dot)));
    assert_eq!(read("\\x:Unit. x"), Err(unexpected(0, TokenKind::Lambda)));
}

#[test]
fn a_bracket_must_be_closed() {
    assert_eq!(read("(f x"), Err(unexpected(4, TokenKind::EOF)));
    assert_eq!(read("("), Err(unexpected(1, TokenKind::EOF)));
}

#[test]
fn an_application_takes_exactly_one_space() {
    assert_eq!(read("(f  x)"), Err(unexpected(3, TokenKind::Space)));
    assert_eq!(read("(f)"), Err(unexpected(2, TokenKind::RBracket)));
    assert_eq!(read("(f x y)"), Err(unexpected(4, TokenKind::Space)));
}

#[test]
fn an_abstraction_needs_each_of_its_parts() {
    assert_eq!(read("(\\xy:Unit. x)"), Err(unexpected(2, TokenKind::Word("xy".to_string()))));
    assert_eq!(read("(\\x Unit. x)"), Err(unexpected(3, TokenKind::Space)));
    assert_eq!(read("(\\x:unit. x)"), Err(unexpected(4, TokenKind::Word("unit".to_string()))));
    assert_eq!(read("(\\x:Unit x)"), Err(unexpected(8, TokenKind::Space)));
    assert_eq!(read("(\\x:Unit.x)"), Err(unexpected(9, TokenKind::AlphaChar('x'))));
    assert_eq!(read("(\\x:Unit. )"), Err(unexpected(10, TokenKind::RBracket)));
}

#[test]
fn a_function_type_needs_each_of_its_parts() {
    assert_eq!(read("(\\x:(Unit). x)"), Err(unexpected(9, TokenKind::RBracket)));
    assert_eq!(read("(\\x:(Unit->Unit). x)"), Err(unexpected(9, TokenKind::Arrow)));
    assert_eq!(read("(\\x:(Unit = Unit). x)"), Err(unexpected(10, TokenKind::Equal)));
    assert_eq!(read("(\\x:(Unit -> x). x)"), Err(unexpected(13, TokenKind::AlphaChar('x'))));
    assert_eq!(read("(\\x:(Unit -> Unit. x)"), Err(unexpected(17, TokenKind::Dot)));
}

#[test]
fn a_let_needs_each_of_its_parts() {
    assert_eq!(read("(let = unit in x)"), Err(unexpected(5, TokenKind::Equal)));
    assert_eq!(read("(let x unit in x)"), Err(unexpected(7, TokenKind::Word("unit".to_string()))));
    assert_eq!(read("(let x = unit x)"), Err(unexpected(14, TokenKind::AlphaChar('x'))));
    assert_eq!(read("(let x = unit on x)"), Err(unexpected(14, TokenKind::Word("on".to_string()))));
    assert_eq!(read("(let x = unit in)"), Err(unexpected(16, TokenKind::RBracket)));
}

#[test]
fn a_word_other_than_let_begins_an_application() {
    // `lets` is no keyword: the bracket holds an application whose function
    // is not a term.
    assert_eq!(read("(lets x)"), Err(unexpected(1, TokenKind::Word("lets".to_string()))));
    assert_eq!(read("(unit x)"), Ok(app(NamedTerm::Unit, var('x'))));
}

#[test]
fn an_invalid_character_is_reported() {
    assert_eq!(read("$"), Err(ParseError::new(0, ParseErrorKind::InvalidChar('$'))));
    assert_eq!(read("(f 1)"), Err(ParseError::new(3, ParseErrorKind::InvalidChar('1'))));
}

#[test]
fn a_flaw_in_the_next_token_is_found_before_the_token_at_hand_is_judged() {
    // The bracket is no term, but the character after it is read first.
    assert_eq!(read(")$"), Err(ParseError::new(1, ParseErrorKind::InvalidChar('$'))));
    assert_eq!(read("x-"), Err(unexpected(1, TokenKind::EOF)));
}

#[test]
fn errors_after_a_greek_lambda_are_counted_in_bytes() {
    assert_eq!(read("(\u{3bb}x:Unit x)"), Err(unexpected(9, TokenKind::Space)));
}

#[test]
fn terms_are_written_as_they_are_read() {
    for input in [
        "unit",
        "x",
        "(f x)",
        "(\u{3bb}x:Unit. x)",
        "(\u{3bb}f:(Unit -> (Unit -> Unit)). (f unit))",
        "(let i = (\u{3bb}z:Unit. z) in (i unit))",
    ] {
        let term = read(input).unwrap();
        assert_eq!(term.render(), input);
        assert_eq!(read(&term.render()), Ok(term));
    }
}

#[test]
fn types_are_written_with_brackets_round_each_arrow() {
    assert_eq!(Ty::Unit.render(), "Unit");
    assert_eq!(
        arrow(arrow(Ty::Unit, Ty::Unit), Ty::Unit).render(),
        "((Unit -> Unit) -> Unit)"
    );
}

#[test]
fn a_written_term_is_read_back() {
    let uu = || arrow(Ty::Unit, Ty::Unit);
    let terms = [
        NamedTerm::Unit,
        var('Z'),
        app(NamedTerm::Unit, NamedTerm::Unit),
        abs('u', Ty::Unit, NamedTerm::Unit),
        abs('l', uu(), app(var('l'), var('l'))),
        let_in('l', var('e'), var('t')),
        let_in('i', let_in('n', NamedTerm::Unit, var('n')), abs('x', arrow(uu(), uu()), var('i'))),
        app(abs('a', Ty::Unit, var('a')), let_in('b', NamedTerm::Unit, app(var('b'), var('b')))),
    ];
    for term in terms {
        assert_eq!(read(&term.render()), Ok(term));
    }
}

#[test]
fn a_name_of_several_bytes_is_written_but_not_read_back() {
    let term = var('\u{e9}');
    assert_eq!(term.render(), "\u{e9}");
    assert_eq!(
        read(&term.render()),
        Err(unexpected(0, TokenKind::Word("\u{e9}".to_string())))
    );
}
