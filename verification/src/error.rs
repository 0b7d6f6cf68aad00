use vstd::prelude::*;

verus! {

/// Why a text is no token sequence.
#[derive(Debug, PartialEq, Eq)]
pub enum LexError {
    /// A character that starts no token, with its position counted in characters from 0.
    UnexpectedChar(char, usize),
    /// A run of digits and decimal points that is no decimal numeral, as written.
    InvalidNumber(String),
}

/// Why a text is no token sequence, with the text of a bad number as a sequence of
/// characters.
pub enum LexFailure {
    UnexpectedChar(char, usize),
    InvalidNumber(Seq<char>),
}

impl View for LexError {
    type V = LexFailure;

    open spec fn view(&self) -> LexFailure {
        match *self {
            LexError::UnexpectedChar(c, position) => LexFailure::UnexpectedChar(c, position),
            LexError::InvalidNumber(raw) => LexFailure::InvalidNumber(raw@),
        }
    }
}

/// Why a token sequence is no infix expression.
#[derive(Clone, Copy, Debug, PartialEq, Eq, Structural)]
pub enum ParseError {
    /// A `(` without its `)`, or a `)` without its `(`.
    UnmatchedParen,
}

/// Why an evaluation or an assignment has no result.
#[derive(Debug, PartialEq, Eq)]
pub enum EvalError {
    /// A postfix operator found fewer than two operands on the stack.
    InsufficientOperands,
    /// The divisor of `/` is zero.
    DivisionByZero,
    /// The environment holds no variable of this name.
    UndefinedVariable(String),
    /// The name is empty or holds a character that is neither alphanumeric nor `_`.
    InvalidIdentifier,
    /// The token is no literal of the numeric domain.
    InvalidLiteral,
    /// The operands and operators do not reduce to exactly one value.
    MalformedExpression,
    /// The numeric domain does not define the operator.
    UnknownOperator,
}

/// Why an evaluation or an assignment has no result, with the name of a variable as a
/// sequence of characters.
pub enum EvalFailure {
    InsufficientOperands,
    DivisionByZero,
    UndefinedVariable(Seq<char>),
    InvalidIdentifier,
    InvalidLiteral,
    MalformedExpression,
    UnknownOperator,
}

impl View for EvalError {
    type V = EvalFailure;

    open spec fn view(&self) -> EvalFailure {
        match *self {
            EvalError::InsufficientOperands => EvalFailure::InsufficientOperands,
            EvalError::DivisionByZero => EvalFailure::DivisionByZero,
            EvalError::UndefinedVariable(name) => EvalFailure::UndefinedVariable(name@),
            EvalError::InvalidIdentifier => EvalFailure::InvalidIdentifier,
            EvalError::InvalidLiteral => EvalFailure::InvalidLiteral,
            EvalError::MalformedExpression => EvalFailure::MalformedExpression,
            EvalError::UnknownOperator => EvalFailure::UnknownOperator,
        }
    }
}

/// Any failure on the way from a text to a value.
#[derive(Debug, PartialEq, Eq)]
pub enum CalcError {
    Lex(LexError),
    Parse(ParseError),
    Eval(EvalError),
}

/// Any failure on the way from a text to a value, with its texts as sequences of
/// characters.
pub enum Failure {
    Lex(LexFailure),
    Parse(ParseError),
    Eval(EvalFailure),
}

impl View for CalcError {
    type V = Failure;

    open spec fn view(&self) -> Failure {
        match *self {
            CalcError::Lex(e) => Failure::Lex(e@),
            CalcError::Parse(e) => Failure::Parse(e),
            CalcError::Eval(e) => Failure::Eval(e@),
        }
    }
}

} // verus!
