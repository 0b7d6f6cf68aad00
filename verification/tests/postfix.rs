use cal_rs::convert::to_rpn;
use cal_rs::error::EvalError;
use cal_rs::lexer::tokenize;
use cal_rs::rpn::{evaluate_rpn, reverse_polish_notation, Action, Step};
use cal_rs::token::{Operator, Token};

fn postfix_tokens(text: &str) -> Vec<Token> {
    tokenize(text).unwrap()
}

fn integer_value(postfix: &str) -> Result<i128, EvalError> {
    evaluate_rpn::<i128>(postfix_tokens(postfix)).map(|(value, _)| value)
}

fn converted_value(infix: &str) -> Result<i128, EvalError> {
    evaluate_rpn::<i128>(to_rpn(tokenize(infix).unwrap()).unwrap()).map(|(value, _)| value)
}

#[test]
fn convert_then_evaluate() {
    assert_eq!(converted_value("3 + 4 * 2"), Ok(11));
    assert_eq!(converted_value("(3 + 4) * 2"), Ok(14));
    assert_eq!(converted_value("8 - 3 - 2"), Ok(3));
    assert_eq!(converted_value("100 / 10 / 5"), Ok(2));
    assert_eq!(converted_value("2 * (3 + 4) - 5 / (1 + 1)"), Ok(12));
}

#[test]
fn the_later_operand_is_the_right_one() {
    assert_eq!(integer_value("7 2 -"), Ok(5));
    assert_eq!(integer_value("7 2 /"), Ok(3));
}

#[test]
fn division_rounds_towards_zero() {
    assert_eq!(integer_value("0 7 - 2 /"), Ok(-3));
    assert_eq!(integer_value("7 0 2 - /"), Ok(-3));
    assert_eq!(integer_value("0 7 - 0 2 - /"), Ok(3));
}

#[test]
fn division_by_zero_is_an_error() {
    assert_eq!(integer_value("10 0 /"), Err(EvalError::DivisionByZero));
    assert_eq!(converted_value("10 / 0"), Err(EvalError::DivisionByZero));
    assert_eq!(converted_value("10 / (5 - 5)"), Err(EvalError::DivisionByZero));
}

#[test]
fn an_operator_needs_two_operands() {
    assert_eq!(integer_value("+"), Err(EvalError::InsufficientOperands));
    assert_eq!(integer_value("1 +"), Err(EvalError::InsufficientOperands));
    assert_eq!(integer_value("1 2 + *"), Err(EvalError::InsufficientOperands));
    assert_eq!(integer_value("1 %"), Err(EvalError::InsufficientOperands));
}

#[test]
fn exactly_one_value_must_remain() {
    assert_eq!(integer_value(""), Err(EvalError::MalformedExpression));
    assert_eq!(integer_value("1 2"), Err(EvalError::MalformedExpression));
    assert_eq!(integer_value("1 2 3 +"), Err(EvalError::MalformedExpression));
}

#[test]
fn a_fraction_is_no_integer_literal() {
    assert_eq!(integer_value("1.5"), Err(EvalError::InvalidLiteral));
    assert_eq!(integer_value("1 2.0 +"), Err(EvalError::InvalidLiteral));
    assert_eq!(integer_value("5."), Err(EvalError::InvalidLiteral));
}

#[test]
fn a_name_or_a_parenthesis_is_no_integer_literal() {
    assert_eq!(integer_value("x"), Err(EvalError::InvalidLiteral));
    assert_eq!(integer_value("1 ( +"), Err(EvalError::InvalidLiteral));
    assert_eq!(integer_value(")"), Err(EvalError::InvalidLiteral));
}

#[test]
fn remainder_and_power_are_unknown_to_the_integers() {
    assert_eq!(integer_value("7 2 %"), Err(EvalError::UnknownOperator));
    assert_eq!(integer_value("7 2 ^"), Err(EvalError::UnknownOperator));
}

#[test]
fn the_first_failing_step_decides() {
    assert_eq!(integer_value("1 0 / x"), Err(EvalError::DivisionByZero));
    assert_eq!(integer_value("x 1 0 /"), Err(EvalError::InvalidLiteral));
    assert_eq!(integer_value("+ 1 0 /"), Err(EvalError::InsufficientOperands));
}

#[test]
fn signed_literals_are_read() {
    let signed = |text: &str| evaluate_rpn::<i128>(vec![Token::Number(text.to_string())]).map(|r| r.0);
    assert_eq!(signed("-5"), Ok(-5));
    assert_eq!(signed("+5"), Ok(5));
    assert_eq!(signed("-"), Err(EvalError::InvalidLiteral));
    assert_eq!(signed("+"), Err(EvalError::InvalidLiteral));
    assert_eq!(signed(""), Err(EvalError::InvalidLiteral));
    assert_eq!(signed("--5"), Err(EvalError::InvalidLiteral));
    assert_eq!(signed(" 5"), Err(EvalError::InvalidLiteral));
    assert_eq!(signed("5a"), Err(EvalError::InvalidLiteral));
    assert_eq!(signed("\u{663}"), Err(EvalError::InvalidLiteral));
}

#[test]
fn literals_fit_in_128_bits_or_are_refused() {
    let signed = |text: &str| evaluate_rpn::<i128>(vec![Token::Number(text.to_string())]).map(|r| r.0);
    assert_eq!(signed("170141183460469231731687303715884105727"), Ok(i128::MAX));
    assert_eq!(signed("-170141183460469231731687303715884105728"), Ok(i128::MIN));
    assert_eq!(
        signed("170141183460469231731687303715884105728"),
        Err(EvalError::InvalidLiteral)
    );
    assert_eq!(
        signed("-170141183460469231731687303715884105729"),
        Err(EvalError::InvalidLiteral)
    );
    assert_eq!(
        signed("99999999999999999999999999999999999999999999"),
        Err(EvalError::InvalidLiteral)
    );
    assert_eq!(signed("000000000000000000000000000000000000000000012"), Ok(12));
}

#[test]
fn integer_arithmetic_wraps_around() {
    assert_eq!(
        integer_value("170141183460469231731687303715884105727 1 +"),
        Ok(i128::MIN)
    );
    assert_eq!(
        integer_value("0 170141183460469231731687303715884105727 - 2 -"),
        Ok(i128::MAX)
    );
    assert_eq!(
        integer_value("170141183460469231731687303715884105727 2 *"),
        Ok(-2)
    );
    let min_by_minus_one = vec![
        Token::Number("-170141183460469231731687303715884105728".to_string()),
        Token::Number("-1".to_string()),
        Token::Operator(Operator::Div),
    ];
    assert_eq!(evaluate_rpn::<i128>(min_by_minus_one).map(|r| r.0), Ok(i128::MIN));
}

#[test]
fn every_step_is_recorded() {
    let (value, trace) = evaluate_rpn::<i128>(postfix_tokens("3 4 2 * +")).unwrap();
    assert_eq!(value, 11);
    assert_eq!(
        trace,
        vec![
            Step { action: Action::Push(3), stack: vec![3] },
            Step { action: Action::Push(4), stack: vec![3, 4] },
            Step { action: Action::Push(2), stack: vec![3, 4, 2] },
            Step {
                action: Action::Apply { op: Operator::Mul, left: 4, right: 2, result: 8 },
                stack: vec![3, 8],
            },
            Step {
                action: Action::Apply { op: Operator::Add, left: 3, right: 8, result: 11 },
                stack: vec![11],
            },
        ]
    );
}

#[test]
fn the_trace_has_one_step_for_each_token() {
    for postfix in ["1", "1 2 +", "1 2 3 4 + - *", "9 3 / 2 2 * -"] {
        let tokens = postfix_tokens(postfix);
        let count = tokens.len();
        let (_, trace) = evaluate_rpn::<i128>(tokens).unwrap();
        assert_eq!(trace.len(), count);
    }
}

#[test]
fn the_steps_before_a_failure_are_kept() {
    let (trace, outcome) = reverse_polish_notation::<i128>(postfix_tokens("10 0 / 5"));
    assert_eq!(outcome, Err(EvalError::DivisionByZero));
    assert_eq!(
        trace,
        vec![
            Step { action: Action::Push(10), stack: vec![10] },
            Step { action: Action::Push(0), stack: vec![10, 0] },
        ]
    );
}

#[test]
fn a_malformed_end_keeps_all_steps() {
    let (trace, outcome) = reverse_polish_notation::<i128>(postfix_tokens("1 2"));
    assert_eq!(outcome, Err(EvalError::MalformedExpression));
    assert_eq!(trace.len(), 2);
    let (trace, outcome) = reverse_polish_notation::<i128>(vec![]);
    assert_eq!(outcome, Err(EvalError::MalformedExpression));
    assert!(trace.is_empty());
}

#[test]
fn the_trace_does_not_change_the_result() {
    let (trace, outcome) = reverse_polish_notation::<i128>(postfix_tokens("6 3 - 2 *"));
    assert_eq!(outcome, Ok(6));
    assert_eq!(trace.last().unwrap().stack, vec![6]);
    assert_eq!(integer_value("6 3 - 2 *"), Ok(6));
}

#[test]
fn an_action_can_be_copied() {
    let action = Action::Apply { op: Operator::Add, left: 1i128, right: 2, result: 3 };
    let copy = action;
    assert_eq!(action.clone(), copy);
}
