use cal_rs::error::LexError;
use cal_rs::lexer::tokenize;
use cal_rs::token::{Operator, Token};

fn number(text: &str) -> Token {
    Token::Number(text.to_string())
}

fn name(text: &str) -> Token {
    Token::Identifier(text.to_string())
}

#[test]
fn empty_text_has_no_tokens() {
    assert_eq!(tokenize(""), Ok(vec![]));
    assert_eq!(tokenize(" \t  "), Ok(vec![]));
}

#[test]
fn blanks_separate_and_are_skipped() {
    assert_eq!(
        tokenize("3 +\t4"),
        Ok(vec![number("3"), Token::Operator(Operator::Add), number("4")])
    );
    assert_eq!(tokenize("3+4"), tokenize(" 3 + 4 "));
}

#[test]
fn every_operator_is_one_token() {
    assert_eq!(
        tokenize("+-*/%^"),
        Ok(vec![
            Token::Operator(Operator::Add),
            Token::Operator(Operator::Sub),
            Token::Operator(Operator::Mul),
            Token::Operator(Operator::Div),
            Token::Operator(Operator::Rem),
            Token::Operator(Operator::Pow),
        ])
    );
}

#[test]
fn parentheses_are_tokens() {
    assert_eq!(
        tokenize("(1)"),
        Ok(vec![Token::LParen, number("1"), Token::RParen])
    );
    assert_eq!(tokenize(")("), Ok(vec![Token::RParen, Token::LParen]));
}

#[test]
fn numbers_keep_their_text() {
    assert_eq!(tokenize("23.5"), Ok(vec![number("23.5")]));
    assert_eq!(tokenize("007"), Ok(vec![number("007")]));
    assert_eq!(tokenize("5."), Ok(vec![number("5.")]));
    assert_eq!(tokenize(".5"), Ok(vec![number(".5")]));
}

#[test]
fn two_decimal_points_are_no_number() {
    assert_eq!(
        tokenize("1.2.3"),
        Err(LexError::InvalidNumber("1.2.3".to_string()))
    );
    assert_eq!(
        tokenize("4 + 1..2"),
        Err(LexError::InvalidNumber("1..2".to_string()))
    );
}

#[test]
fn a_lone_decimal_point_is_no_number() {
    assert_eq!(tokenize("."), Err(LexError::InvalidNumber(".".to_string())));
}

#[test]
fn a_number_runs_on_over_numeric_characters() {
    assert_eq!(
        tokenize("12\u{b2}"),
        Err(LexError::InvalidNumber("12\u{b2}".to_string()))
    );
}

#[test]
fn names_start_with_a_letter_or_underscore() {
    assert_eq!(tokenize("x"), Ok(vec![name("x")]));
    assert_eq!(tokenize("_tmp"), Ok(vec![name("_tmp")]));
    assert_eq!(tokenize("x_1"), Ok(vec![name("x_1")]));
    assert_eq!(tokenize("PI"), Ok(vec![name("PI")]));
    assert_eq!(tokenize("a\u{e9}1"), Ok(vec![name("a\u{e9}1")]));
}

#[test]
fn a_digit_before_a_name_is_a_number() {
    assert_eq!(tokenize("2x"), Ok(vec![number("2"), name("x")]));
}

#[test]
fn unexpected_character_is_reported_with_its_position() {
    assert_eq!(tokenize("1 $ 2"), Err(LexError::UnexpectedChar('$', 2)));
    assert_eq!(tokenize("#"), Err(LexError::UnexpectedChar('#', 0)));
    assert_eq!(tokenize("x = 1"), Err(LexError::UnexpectedChar('=', 2)));
}

#[test]
fn positions_count_characters() {
    assert_eq!(
        tokenize("a\u{e9} \u{b2}"),
        Err(LexError::UnexpectedChar('\u{b2}', 3))
    );
}

#[test]
fn a_newline_is_no_blank() {
    assert_eq!(tokenize("1\n2"), Err(LexError::UnexpectedChar('\n', 1)));
}

#[test]
fn the_first_error_is_reported() {
    assert_eq!(tokenize("1 ? 2.3.4"), Err(LexError::UnexpectedChar('?', 2)));
    assert_eq!(
        tokenize("2.3.4 ?"),
        Err(LexError::InvalidNumber("2.3.4".to_string()))
    );
}

#[test]
fn a_whole_expression() {
    assert_eq!(
        tokenize("1 + 23.5 * (x_1 - 4)"),
        Ok(vec![
            number("1"),
            Token::Operator(Operator::Add),
            number("23.5"),
            Token::Operator(Operator::Mul),
            Token::LParen,
            name("x_1"),
            Token::Operator(Operator::Sub),
            number("4"),
            Token::RParen,
        ])
    );
}

#[test]
fn operators_know_their_symbol_and_precedence() {
    let all = [
        (Operator::Add, '+', 1u8),
        (Operator::Sub, '-', 1),
        (Operator::Mul, '*', 2),
        (Operator::Div, '/', 2),
        (Operator::Rem, '%', 2),
        (Operator::Pow, '^', 3),
    ];
    for (op, symbol, precedence) in all {
        assert_eq!(op.symbol(), symbol);
        assert_eq!(op.precedence(), precedence);
        assert_eq!(Operator::from_symbol(symbol), Some(op));
    }
    assert_eq!(Operator::from_symbol('('), None);
    assert_eq!(Operator::from_symbol('x'), None);
}

#[test]
fn a_token_and_its_clone_are_equal() {
    let tokens = tokenize("(a + 1.5)").unwrap();
    for token in &tokens {
        assert_eq!(&token.clone(), token);
    }
}
