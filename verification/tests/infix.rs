use cal_rs::domain::{apply_op, Domain};
use cal_rs::env::VariableEnvironment;
use cal_rs::error::{CalcError, EvalError, ParseError};
use cal_rs::infix::{evaluate_infix, process_operator};
use cal_rs::lexer::tokenize;
use cal_rs::session::evaluate_expression;
use cal_rs::token::Operator;

/// The 64-bit floating-point numbers as a numeric domain.
#[derive(Clone, Copy, Debug, PartialEq)]
struct Real(f64);

impl Domain for Real {
    fn literal(text: &String) -> Option<Real> {
        text.parse::<f64>().ok().map(Real)
    }

    fn zero(self) -> bool {
        self.0 == 0.0
    }

    fn combine(op: Operator, left: Real, right: Real) -> Option<Real> {
        let value = match op {
            Operator::Add => left.0 + right.0,
            Operator::Sub => left.0 - right.0,
            Operator::Mul => left.0 * right.0,
            Operator::Div => left.0 / right.0,
            Operator::Rem => left.0 % right.0,
            Operator::Pow => left.0.powf(right.0),
        };
        Some(Real(value))
    }

    fn parse_literal(text: &String) -> Option<Real> {
        Self::literal(text)
    }

    fn is_zero(&self) -> bool {
        self.zero()
    }

    fn compute(op: Operator, left: Real, right: Real) -> Option<Real> {
        Self::combine(op, left, right)
    }
}

fn real_value(text: &str, env: &VariableEnvironment<Real>) -> Result<Real, CalcError> {
    evaluate_infix(tokenize(text).unwrap(), env)
}

#[test]
fn undefined_variable_is_reported_by_name() {
    let env: VariableEnvironment<Real> = VariableEnvironment::new();
    assert_eq!(
        real_value("x + 1", &env),
        Err(CalcError::Eval(EvalError::UndefinedVariable("x".to_string())))
    );
}

#[test]
fn assignment_then_use() {
    let mut env: VariableEnvironment<Real> = VariableEnvironment::new();
    assert_eq!(env.assign("x", Real(5.0)), Ok(()));
    assert_eq!(real_value("x * 2", &env), Ok(Real(10.0)));
}

#[test]
fn division_by_zero_changes_nothing() {
    let mut env: VariableEnvironment<Real> = VariableEnvironment::new();
    env.assign("PI", Real(std::f64::consts::PI)).unwrap();
    let before = env.lookup_all();
    assert_eq!(real_value("10 / 0", &env), Err(CalcError::Eval(EvalError::DivisionByZero)));
    assert_eq!(env.lookup_all(), before);
    assert_eq!(evaluate_expression::<i128>("10 / 0", &VariableEnvironment::new()),
        Err(CalcError::Eval(EvalError::DivisionByZero)));
}

#[test]
fn mismatched_parentheses_in_infix() {
    let env: VariableEnvironment<Real> = VariableEnvironment::new();
    assert_eq!(real_value("(1 + 2", &env), Err(CalcError::Parse(ParseError::UnmatchedParen)));
    assert_eq!(real_value("1 + 2)", &env), Err(CalcError::Parse(ParseError::UnmatchedParen)));
}

#[test]
fn power_groups_from_left_to_right() {
    let env: VariableEnvironment<Real> = VariableEnvironment::new();
    assert_eq!(real_value("2 ^ 3 ^ 2", &env), Ok(Real(64.0)));
}

fn integer_infix(text: &str) -> Result<i128, CalcError> {
    evaluate_infix::<i128>(tokenize(text).unwrap(), &VariableEnvironment::new())
}

fn integer_pipeline(text: &str) -> Option<i128> {
    let rpn = cal_rs::convert::to_rpn(tokenize(text).unwrap()).ok()?;
    cal_rs::rpn::evaluate_rpn::<i128>(rpn).ok().map(|(value, _)| value)
}

fn real_pipeline(text: &str) -> Option<Real> {
    let rpn = cal_rs::convert::to_rpn(tokenize(text).unwrap()).ok()?;
    cal_rs::rpn::evaluate_rpn::<Real>(rpn).ok().map(|(value, _)| value)
}

const VARIABLE_FREE: [&str; 24] = [
    "3 + 4 * 2",
    "(3 + 4) * 2",
    "8 - 3 - 2",
    "100 / 10 / 5",
    "2 * (3 + 4) - 5 / (1 + 1)",
    "7",
    "((7))",
    "1 + 2 * 3 - 4 / 2",
    "2 * 3 * 4",
    "10 / 0",
    "10 / (5 - 5)",
    "(1 + 2",
    "1 + 2)",
    "1 / 0 )",
    "",
    "1 2",
    "+",
    "1 +",
    "()",
    "( ) 1",
    "1 + * 2",
    "9 - (4 - (3 - (2 - 1)))",
    "6 / 4",
    "0 - 7 / 2",
];

#[test]
fn infix_and_postfix_agree_over_the_integers() {
    for text in VARIABLE_FREE {
        assert_eq!(integer_infix(text).ok(), integer_pipeline(text), "{:?}", text);
    }
}

#[test]
fn infix_and_postfix_agree_over_the_reals() {
    let env: VariableEnvironment<Real> = VariableEnvironment::new();
    let more = ["2 ^ 3 ^ 2", "7 % 4", "1.5 * 4", "2 ^ 0.5", "5.5 % 2", ".5 + 5.", "1 / 3"];
    for text in VARIABLE_FREE.iter().chain(more.iter()) {
        assert_eq!(real_value(text, &env).ok(), real_pipeline(text), "{:?}", text);
    }
}

#[test]
fn the_two_domains_agree_where_both_are_exact() {
    let env: VariableEnvironment<Real> = VariableEnvironment::new();
    for text in ["3 + 4 * 2", "(3 + 4) * 2", "8 - 3 - 2", "100 / 10 / 5", "2 * 3 * 4", "12 / 4 + 1"] {
        let integer = integer_infix(text).unwrap();
        assert_eq!(real_value(text, &env), Ok(Real(integer as f64)), "{}", text);
        assert_eq!(integer_pipeline(text), Some(integer), "{}", text);
    }
}

#[test]
fn infix_values_over_the_integers() {
    assert_eq!(integer_infix("3 + 4 * 2"), Ok(11));
    assert_eq!(integer_infix("(3 + 4) * 2"), Ok(14));
    assert_eq!(integer_infix("8 - 3 - 2"), Ok(3));
    assert_eq!(integer_infix("2 * (3 + 4) - 5 / (1 + 1)"), Ok(12));
    assert_eq!(integer_infix("0 - 7 / 2"), Ok(-3));
}

#[test]
fn infix_values_over_the_reals() {
    let env: VariableEnvironment<Real> = VariableEnvironment::new();
    assert_eq!(real_value("1.5 * 4", &env), Ok(Real(6.0)));
    assert_eq!(real_value("7 / 2", &env), Ok(Real(3.5)));
    assert_eq!(real_value("7 % 4", &env), Ok(Real(3.0)));
    assert_eq!(real_value("5.5 % 2", &env), Ok(Real(1.5)));
    assert_eq!(real_value("2 ^ 10", &env), Ok(Real(1024.0)));
    assert_eq!(real_value("2 * 3 ^ 2", &env), Ok(Real(18.0)));
    assert_eq!(real_value(".5 + 5.", &env), Ok(Real(5.5)));
}

#[test]
fn remainder_by_zero_is_no_error_over_the_reals() {
    let env: VariableEnvironment<Real> = VariableEnvironment::new();
    match real_value("5 % 0", &env) {
        Ok(Real(value)) => assert!(value.is_nan()),
        other => panic!("{:?}", other),
    }
}

#[test]
fn division_by_negative_zero_is_division_by_zero() {
    let mut env: VariableEnvironment<Real> = VariableEnvironment::new();
    env.assign("z", Real(-0.0)).unwrap();
    assert_eq!(real_value("1 / z", &env), Err(CalcError::Eval(EvalError::DivisionByZero)));
}

#[test]
fn variables_are_looked_up() {
    let mut env: VariableEnvironment<Real> = VariableEnvironment::new();
    env.assign("PI", Real(std::f64::consts::PI)).unwrap();
    env.assign("r", Real(2.0)).unwrap();
    assert_eq!(real_value("PI", &env), Ok(Real(3.141592653589793)));
    assert_eq!(real_value("PI * r ^ 2", &env), Ok(Real(std::f64::consts::PI * 4.0)));
    assert_eq!(
        real_value("pi", &env),
        Err(CalcError::Eval(EvalError::UndefinedVariable("pi".to_string())))
    );
}

#[test]
fn evaluation_does_not_change_the_environment() {
    let mut env: VariableEnvironment<Real> = VariableEnvironment::new();
    env.assign("x", Real(5.0)).unwrap();
    let before = env.lookup_all();
    for text in ["x * 2", "x / 0", "y", "(x", "x +", "x x"] {
        let _ = real_value(text, &env);
        assert_eq!(env.lookup_all(), before);
    }
}

#[test]
fn evaluating_twice_gives_the_same() {
    let mut env: VariableEnvironment<Real> = VariableEnvironment::new();
    env.assign("x", Real(0.1)).unwrap();
    for text in ["x * 3", "x / 0", "y + 1", "(x", "1 / 3 + x ^ 2"] {
        assert_eq!(real_value(text, &env), real_value(text, &env), "{}", text);
    }
}

#[test]
fn the_first_failure_from_the_left_decides() {
    let env: VariableEnvironment<Real> = VariableEnvironment::new();
    assert_eq!(
        real_value("1 / 0 + x", &env),
        Err(CalcError::Eval(EvalError::DivisionByZero))
    );
    assert_eq!(
        real_value("x + 1 / 0", &env),
        Err(CalcError::Eval(EvalError::UndefinedVariable("x".to_string())))
    );
    assert_eq!(
        real_value("1 / 0 )", &env),
        Err(CalcError::Eval(EvalError::DivisionByZero))
    );
    assert_eq!(
        real_value("(1 / 0", &env),
        Err(CalcError::Eval(EvalError::DivisionByZero))
    );
    assert_eq!(
        real_value("1 + 2 ) / 0", &env),
        Err(CalcError::Parse(ParseError::UnmatchedParen))
    );
}

#[test]
fn operands_and_operators_must_reduce_to_one_value() {
    let env: VariableEnvironment<Real> = VariableEnvironment::new();
    let malformed = Err(CalcError::Eval(EvalError::MalformedExpression));
    assert_eq!(real_value("", &env), malformed);
    assert_eq!(real_value("1 2", &env), malformed);
    assert_eq!(real_value("+", &env), malformed);
    assert_eq!(real_value("1 +", &env), malformed);
    assert_eq!(real_value("1 + * 2", &env), malformed);
    assert_eq!(real_value("()", &env), malformed);
}

#[test]
fn the_integers_know_no_remainder_and_no_power() {
    assert_eq!(integer_infix("7 % 2"), Err(CalcError::Eval(EvalError::UnknownOperator)));
    assert_eq!(integer_infix("2 ^ 3"), Err(CalcError::Eval(EvalError::UnknownOperator)));
    assert_eq!(integer_infix("1.5 + 1"), Err(CalcError::Eval(EvalError::InvalidLiteral)));
}

#[test]
fn an_operator_on_two_operands() {
    assert_eq!(apply_op(7i128, 2, Operator::Sub), Ok(5));
    assert_eq!(apply_op(7i128, 2, Operator::Div), Ok(3));
    assert_eq!(apply_op(7i128, 0, Operator::Div), Err(EvalError::DivisionByZero));
    assert_eq!(apply_op(7i128, 0, Operator::Rem), Err(EvalError::UnknownOperator));
    assert_eq!(apply_op(Real(7.0), Real(2.0), Operator::Pow), Ok(Real(49.0)));
    assert_eq!(apply_op(Real(7.0), Real(0.0), Operator::Div), Err(EvalError::DivisionByZero));
}

#[test]
fn an_operator_on_the_operand_stack() {
    let mut operands: Vec<i128> = vec![1, 7, 2];
    assert_eq!(process_operator(&mut operands, Operator::Sub), Ok(()));
    assert_eq!(operands, vec![1, 5]);
    assert_eq!(process_operator(&mut operands, Operator::Mul), Ok(()));
    assert_eq!(operands, vec![5]);
    assert_eq!(process_operator(&mut operands, Operator::Add), Err(EvalError::MalformedExpression));
    assert_eq!(operands, vec![5]);
    let mut operands: Vec<i128> = vec![3, 10, 0];
    assert_eq!(process_operator(&mut operands, Operator::Div), Err(EvalError::DivisionByZero));
    assert_eq!(operands, vec![3, 10, 0]);
}
