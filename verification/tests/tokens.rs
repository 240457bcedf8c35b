use lambda_calculus::parser::result::{ParseError, ParseErrorKind};
use lambda_calculus::parser::tokenizer::{TokenKind, Tokenizer};

fn kinds(input: &str) -> Vec<TokenKind> {
    let mut tokens = Tokenizer::new(input.to_string());
    let mut out = Vec::new();
    loop {
        let token = tokens.next_token().unwrap();
        let kind = token.kind().clone();
        let done = kind == TokenKind::EOF;
        out.push(kind);
        if done {
            return out;
        }
    }
}

fn locs(input: &str) -> Vec<usize> {
    let mut tokens = Tokenizer::new(input.to_string());
    let mut out = Vec::new();
    loop {
        let token = tokens.next_token().unwrap();
        out.push(token.loc());
        if *token.kind() == TokenKind::EOF {
            return out;
        }
    }
}

fn word(text: &str) -> TokenKind {
    TokenKind::Word(text.to_string())
}

#[test]
fn empty_input_is_the_end() {
    assert_eq!(kinds(""), vec![TokenKind::EOF]);
}

#[test]
fn the_end_is_handed_out_again_and_again() {
    let mut tokens = Tokenizer::new("x".to_string());
    assert_eq!(*tokens.next_token().unwrap().kind(), TokenKind::AlphaChar('x'));
    for _ in 0..3 {
        let token = tokens.next_token().unwrap();
        assert_eq!(*token.kind(), TokenKind::EOF);
        assert_eq!(token.loc(), 1);
    }
}

#[test]
fn punctuation_tokens() {
    assert_eq!(
        kinds("()\\.: =->"),
        vec![
            TokenKind::LBracket,
            TokenKind::RBracket,
            TokenKind::Lambda,
            TokenKind::Dot,
            TokenKind::Colon,
            TokenKind::Space,
            TokenKind::Equal,
            TokenKind::Arrow,
            TokenKind::EOF,
        ]
    );
}

#[test]
fn both_spellings_of_lambda() {
    assert_eq!(kinds("\\\u{3bb}"), vec![TokenKind::Lambda, TokenKind::Lambda, TokenKind::EOF]);
}

#[test]
fn a_single_letter_is_a_character_and_a_run_of_letters_a_word() {
    assert_eq!(kinds("x"), vec![TokenKind::AlphaChar('x'), TokenKind::EOF]);
    assert_eq!(kinds("xy"), vec![word("xy"), TokenKind::EOF]);
    assert_eq!(kinds("unit"), vec![word("unit"), TokenKind::EOF]);
    assert_eq!(
        kinds("x y"),
        vec![TokenKind::AlphaChar('x'), TokenKind::Space, TokenKind::AlphaChar('y'), TokenKind::EOF]
    );
}

#[test]
fn a_word_ends_at_the_first_character_that_is_no_letter() {
    assert_eq!(
        kinds("let(in)"),
        vec![word("let"), TokenKind::LBracket, word("in"), TokenKind::RBracket, TokenKind::EOF]
    );
}

#[test]
fn a_single_letter_of_several_bytes_is_a_word() {
    assert_eq!(kinds("\u{e9}"), vec![word("\u{e9}"), TokenKind::EOF]);
    assert_eq!(locs("\u{e9}"), vec![0, 2]);
}

#[test]
fn a_lambda_ends_the_word_before_it_but_not_the_word_it_stands_in() {
    // A Greek lambda is alphabetic: at the start of a token it is a lambda,
    // inside a run of letters it belongs to the word.
    assert_eq!(kinds("\u{3bb}x"), vec![TokenKind::Lambda, TokenKind::AlphaChar('x'), TokenKind::EOF]);
    assert_eq!(kinds("x\u{3bb}"), vec![word("x\u{3bb}"), TokenKind::EOF]);
}

#[test]
fn locations_are_byte_offsets() {
    assert_eq!(locs("(x y)"), vec![0, 1, 2, 3, 4, 5]);
    // The Greek lambda takes two bytes.
    assert_eq!(locs("(\u{3bb}x. x)"), vec![0, 1, 3, 4, 5, 6, 7, 8]);
    assert_eq!(locs("ab -> cd"), vec![0, 2, 3, 5, 6, 8]);
}

#[test]
fn characters_of_three_and_four_bytes_are_counted() {
    // U+4E2D takes three bytes, U+20000 four; both are alphabetic.
    assert_eq!(locs("\u{4e2d} \u{20000} x"), vec![0, 3, 4, 8, 9, 10]);
    assert_eq!(kinds("\u{4e2d}")[0], word("\u{4e2d}"));
}

#[test]
fn an_invalid_character_is_reported_where_it_stands() {
    let mut tokens = Tokenizer::new("x$".to_string());
    assert_eq!(*tokens.next_token().unwrap().kind(), TokenKind::AlphaChar('x'));
    let error = tokens.next_token().unwrap_err();
    assert_eq!(error, ParseError::new(1, ParseErrorKind::InvalidChar('$')));
}

#[test]
fn the_cursor_stays_at_an_invalid_character() {
    let mut tokens = Tokenizer::new("$".to_string());
    for _ in 0..2 {
        let error = tokens.next_token().unwrap_err();
        assert_eq!(error.loc, 0);
        assert_eq!(error.kind, ParseErrorKind::InvalidChar('$'));
    }
}

#[test]
fn digits_are_invalid() {
    let mut tokens = Tokenizer::new("7".to_string());
    assert_eq!(tokens.next_token().unwrap_err().kind, ParseErrorKind::InvalidChar('7'));
}

#[test]
fn a_dash_must_be_followed_by_an_angle() {
    let mut tokens = Tokenizer::new(" -x".to_string());
    assert_eq!(*tokens.next_token().unwrap().kind(), TokenKind::Space);
    let error = tokens.next_token().unwrap_err();
    // The error names the character after the dash and stands at the dash.
    assert_eq!(error, ParseError::new(1, ParseErrorKind::InvalidChar('x')));
}

#[test]
fn a_dash_at_the_end_is_an_unexpected_end() {
    let mut tokens = Tokenizer::new("x-".to_string());
    assert_eq!(*tokens.next_token().unwrap().kind(), TokenKind::AlphaChar('x'));
    let error = tokens.next_token().unwrap_err();
    assert_eq!(error, ParseError::new(1, ParseErrorKind::UnexpectedToken(TokenKind::EOF)));
}

#[test]
fn an_unexpected_token_keeps_its_place_and_kind() {
    let mut tokens = Tokenizer::new("  )".to_string());
    tokens.next_token().unwrap();
    tokens.next_token().unwrap();
    let token = tokens.next_token().unwrap();
    let error = token.into_unexpected();
    assert_eq!(error.loc, 2);
    assert_eq!(error.kind, ParseErrorKind::UnexpectedToken(TokenKind::RBracket));
}

#[test]
fn a_new_error_holds_what_it_was_given() {
    let error = ParseError::new(9, ParseErrorKind::InvalidChar('?'));
    assert_eq!(error.loc, 9);
    assert_eq!(error.kind, ParseErrorKind::InvalidChar('?'));
}

#[test]
fn kinds_are_the_same_when_they_hold_the_same() {
    assert!(TokenKind::Arrow.same(&TokenKind::Arrow));
    assert!(!TokenKind::Arrow.same(&TokenKind::Space));
    assert!(word("let").same(&word("let")));
    assert!(!word("let").same(&word("in")));
    assert!(TokenKind::AlphaChar('x').same(&TokenKind::AlphaChar('x')));
    assert!(!TokenKind::AlphaChar('x').same(&TokenKind::AlphaChar('y')));
    assert!(!TokenKind::AlphaChar('x').same(&word("x")));
}

#[test]
fn a_cloned_token_is_equal() {
    let mut tokens = Tokenizer::new("unit".to_string());
    let token = tokens.next_token().unwrap();
    assert_eq!(token.clone(), token);
}

#[test]
fn the_letters_of_ascii_are_the_latin_letters() {
    for c in ['a', 'z', 'A', 'Z', 'm', 'Q'] {
        assert_eq!(kinds(&c.to_string()), vec![TokenKind::AlphaChar(c), TokenKind::EOF]);
    }
    for c in ['@', '[', '`', '{', '0', '9', '_', '\t', '\n', '>', '\u{7f}'] {
        let mut tokens = Tokenizer::new(c.to_string());
        assert_eq!(tokens.next_token().unwrap_err().kind, ParseErrorKind::InvalidChar(c));
    }
}

#[test]
fn beyond_ascii_a_letter_is_what_unicode_calls_alphabetic() {
    // A Cyrillic and a Greek letter make a word; a dingbat and a digit in
    // another script are no letters.
    assert_eq!(kinds("\u{436}\u{3b1}"), vec![word("\u{436}\u{3b1}"), TokenKind::EOF]);
    for c in ['\u{2764}', '\u{663}', '\u{a0}'] {
        let mut tokens = Tokenizer::new(c.to_string());
        assert_eq!(tokens.next_token().unwrap_err().kind, ParseErrorKind::InvalidChar(c));
    }
}
