use cal_rs::convert::{join_tokens, shunting_yard_algorithm, to_rpn};
use cal_rs::error::ParseError;
use cal_rs::lexer::tokenize;
use cal_rs::token::{Operator, Token};

fn postfix_text(infix: &str) -> Result<String, ParseError> {
    shunting_yard_algorithm(tokenize(infix).unwrap()).map(|(_, text)| text)
}

#[test]
fn multiplication_binds_before_addition() {
    assert_eq!(postfix_text("3 + 4 * 2"), Ok("3 4 2 * +".to_string()));
    assert_eq!(postfix_text("3 * 4 + 2"), Ok("3 4 * 2 +".to_string()));
}

#[test]
fn equal_precedence_groups_from_left_to_right() {
    assert_eq!(postfix_text("8 - 3 - 2"), Ok("8 3 - 2 -".to_string()));
    assert_eq!(postfix_text("8 / 4 * 2"), Ok("8 4 / 2 *".to_string()));
    assert_eq!(postfix_text("7 % 4 * 2"), Ok("7 4 % 2 *".to_string()));
}

#[test]
fn power_converts_from_left_to_right() {
    assert_eq!(postfix_text("2 ^ 3 ^ 2"), Ok("2 3 ^ 2 ^".to_string()));
}

#[test]
fn power_binds_before_multiplication() {
    assert_eq!(postfix_text("2 * 3 ^ 2"), Ok("2 3 2 ^ *".to_string()));
    assert_eq!(postfix_text("2 ^ 3 * 2"), Ok("2 3 ^ 2 *".to_string()));
}

#[test]
fn parentheses_group() {
    assert_eq!(postfix_text("(3 + 4) * 2"), Ok("3 4 + 2 *".to_string()));
    assert_eq!(postfix_text("2 * (3 + 4)"), Ok("2 3 4 + *".to_string()));
    assert_eq!(postfix_text("((1))"), Ok("1".to_string()));
    assert_eq!(
        postfix_text("(1 + 2) * (3 - 4) / 5"),
        Ok("1 2 + 3 4 - * 5 /".to_string())
    );
}

#[test]
fn names_pass_through_like_numbers() {
    assert_eq!(postfix_text("x + y * 2"), Ok("x y 2 * +".to_string()));
}

#[test]
fn an_open_parenthesis_left_over_is_unmatched() {
    assert_eq!(postfix_text("(1 + 2"), Err(ParseError::UnmatchedParen));
    assert_eq!(postfix_text("("), Err(ParseError::UnmatchedParen));
    assert_eq!(postfix_text("((1)"), Err(ParseError::UnmatchedParen));
}

#[test]
fn a_closing_parenthesis_without_partner_is_unmatched() {
    assert_eq!(postfix_text("1 + 2)"), Err(ParseError::UnmatchedParen));
    assert_eq!(postfix_text(")"), Err(ParseError::UnmatchedParen));
    assert_eq!(postfix_text(") ("), Err(ParseError::UnmatchedParen));
}

#[test]
fn the_empty_sequence_converts_to_itself() {
    assert_eq!(to_rpn(vec![]), Ok(vec![]));
    assert_eq!(shunting_yard_algorithm(vec![]), Ok((vec![], String::new())));
}

#[test]
fn conversion_returns_the_tokens_and_their_text() {
    let tokens = tokenize("3 + 4 * 2").unwrap();
    let (output, text) = shunting_yard_algorithm(tokens.clone()).unwrap();
    assert_eq!(
        output,
        vec![
            Token::Number("3".to_string()),
            Token::Number("4".to_string()),
            Token::Number("2".to_string()),
            Token::Operator(Operator::Mul),
            Token::Operator(Operator::Add),
        ]
    );
    assert_eq!(text, "3 4 2 * +");
    assert_eq!(to_rpn(tokens), Ok(output));
}

#[test]
fn postfix_holds_every_token_but_the_parentheses() {
    for infix in ["1", "1 + 2", "(1 + 2) * 3", "((a)) ^ (b % 2) - 4 / c", "1 2 + +"] {
        let tokens = tokenize(infix).unwrap();
        let meaningful = tokens
            .iter()
            .filter(|t| !matches!(t, Token::LParen | Token::RParen))
            .count();
        let rpn = to_rpn(tokens).unwrap();
        assert_eq!(rpn.len(), meaningful);
        assert!(rpn.iter().all(|t| !matches!(t, Token::LParen | Token::RParen)));
    }
}

#[test]
fn conversion_does_not_check_the_operands() {
    assert_eq!(postfix_text("+"), Ok("+".to_string()));
    assert_eq!(postfix_text("1 2"), Ok("1 2".to_string()));
    assert_eq!(postfix_text("()"), Ok("".to_string()));
}

#[test]
fn join_writes_tokens_with_single_spaces() {
    assert_eq!(join_tokens(&vec![]), "");
    assert_eq!(join_tokens(&tokenize("x").unwrap()), "x");
    assert_eq!(
        join_tokens(&tokenize("(a+1.5)*2 ^b % 3 - 4/ 5").unwrap()),
        "( a + 1.5 ) * 2 ^ b % 3 - 4 / 5"
    );
}
