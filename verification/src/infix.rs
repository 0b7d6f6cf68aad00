use crate::convert::{balanced, paren_depth, parens_held, Held};
use crate::domain::{applied, apply_op, denoted, Domain};
use crate::env::VariableEnvironment;
use crate::error::{CalcError, EvalError, EvalFailure, Failure, ParseError};
use crate::token::{lexemes, Lexeme, Operator, Token};
use vstd::prelude::*;

verus! {

/// The evaluator's state: the operands so far and the operator stack, the top of each
/// being last.
pub struct Fused<D> {
    pub operands: Seq<D>,
    pub held: Seq<Held>,
}

/// The operands after `op` took the two on top, the top as its right one, and put its
/// result in their place.
pub open spec fn reduced<D: Domain>(operands: Seq<D>, op: Operator) -> Result<Seq<D>, EvalFailure> {
    if operands.len() < 2 {
        Err(EvalFailure::MalformedExpression)
    } else {
        match applied(op, operands[operands.len() - 2], operands[operands.len() - 1]) {
            Ok(result) => Ok(operands.take(operands.len() - 2).push(result)),
            Err(e) => Err(e),
        }
    }
}

/// Applies operators from the top of the stack for as long as the top is an operator
/// of precedence `p` or more.
pub open spec fn reduce_to<D: Domain>(state: Fused<D>, p: u8) -> Result<Fused<D>, EvalFailure>
    decreases state.held.len(),
{
    if state.held.len() == 0 {
        Ok(state)
    } else {
        match state.held.last() {
            Held::Op(op) => if op.precedence() >= p {
                match reduced(state.operands, op) {
                    Ok(operands) => reduce_to(Fused { operands, held: state.held.drop_last() }, p),
                    Err(e) => Err(e),
                }
            } else {
                Ok(state)
            },
            Held::Paren => Ok(state),
        }
    }
}

/// Applies operators from the stack down to the nearest open parenthesis, and drops
/// that. Where the stack holds no parenthesis, the `)` has no partner.
pub open spec fn reduce_group<D: Domain>(state: Fused<D>) -> Result<Fused<D>, Failure>
    decreases state.held.len(),
{
    if state.held.len() == 0 {
        Err(Failure::Parse(ParseError::UnmatchedParen))
    } else {
        match state.held.last() {
            Held::Op(op) => match reduced(state.operands, op) {
                Ok(operands) => reduce_group(Fused { operands, held: state.held.drop_last() }),
                Err(e) => Err(Failure::Eval(e)),
            },
            Held::Paren => Ok(Fused { operands: state.operands, held: state.held.drop_last() }),
        }
    }
}

/// What one token does to the evaluator. A literal and a variable push their value; an
/// operator first lets every waiting operator of its precedence or more be applied.
pub open spec fn fused_step<D: Domain>(
    state: Fused<D>,
    token: Lexeme,
    env: Map<Seq<char>, D>,
) -> Result<Fused<D>, Failure> {
    match token {
        Lexeme::Number(text) => match denoted::<D>(text) {
            Some(value) => Ok(Fused { operands: state.operands.push(value), held: state.held }),
            None => Err(Failure::Eval(EvalFailure::InvalidLiteral)),
        },
        Lexeme::Identifier(name) => if env.contains_key(name) {
            Ok(Fused { operands: state.operands.push(env[name]), held: state.held })
        } else {
            Err(Failure::Eval(EvalFailure::UndefinedVariable(name)))
        },
        Lexeme::Operator(op) => match reduce_to(state, op.precedence()) {
            Ok(ready) => Ok(Fused { operands: ready.operands, held: ready.held.push(Held::Op(op)) }),
            Err(e) => Err(Failure::Eval(e)),
        },
        Lexeme::LParen => Ok(Fused { operands: state.operands, held: state.held.push(Held::Paren) }),
        Lexeme::RParen => reduce_group(state),
    }
}

/// The evaluator after all of `tokens`, taken from left to right, or the error of the
/// first token that failed.
pub open spec fn fused_after<D: Domain>(tokens: Seq<Lexeme>, env: Map<Seq<char>, D>) -> Result<
    Fused<D>,
    Failure,
>
    decreases tokens.len(),
{
    if tokens.len() == 0 {
        Ok(Fused { operands: Seq::empty(), held: Seq::empty() })
    } else {
        match fused_after(tokens.drop_last(), env) {
            Ok(state) => fused_step(state, tokens.last(), env),
            Err(e) => Err(e),
        }
    }
}

/// The operands once the input has ended and what is left on the stack was applied,
/// from the top down. A parenthesis left there was never closed.
pub open spec fn reduce_rest<D: Domain>(state: Fused<D>) -> Result<Seq<D>, Failure>
    decreases state.held.len(),
{
    if state.held.len() == 0 {
        Ok(state.operands)
    } else {
        match state.held.last() {
            Held::Op(op) => match reduced(state.operands, op) {
                Ok(operands) => reduce_rest(Fused { operands, held: state.held.drop_last() }),
                Err(e) => Err(Failure::Eval(e)),
            },
            Held::Paren => Err(Failure::Parse(ParseError::UnmatchedParen)),
        }
    }
}

/// The value of an infix sequence in an environment: the one operand that is left at
/// the end.
pub open spec fn infix_value<D: Domain>(tokens: Seq<Lexeme>, env: Map<Seq<char>, D>) -> Result<
    D,
    Failure,
> {
    match fused_after(tokens, env) {
        Ok(state) => match reduce_rest(state) {
            Ok(operands) => if operands.len() == 1 {
                Ok(operands[0])
            } else {
                Err(Failure::Eval(EvalFailure::MalformedExpression))
            },
            Err(e) => Err(e),
        },
        Err(e) => Err(e),
    }
}

/// Once a token has failed, its error is the outcome.
pub proof fn lemma_fused_failure<D: Domain>(tokens: Seq<Lexeme>, env: Map<Seq<char>, D>, k: int)
    requires
        0 <= k < tokens.len(),
        fused_after(tokens.take(k + 1), env) is Err,
    ensures
        fused_after(tokens, env) == fused_after(tokens.take(k + 1), env),
    decreases tokens.len(),
{
    if tokens.len() == k + 1 {
        assert(tokens.take(k + 1) =~= tokens);
    } else {
        assert(tokens.drop_last().take(k + 1) =~= tokens.take(k + 1));
        lemma_fused_failure(tokens.drop_last(), env, k);
    }
}

/// The result of an evaluation is a function of the tokens and of the environment:
/// whatever two evaluations of the same tokens in the same environment return, they
/// return the same.
pub proof fn lemma_evaluation_repeats<D: Domain>(
    tokens: Seq<Lexeme>,
    env: Map<Seq<char>, D>,
    first: Result<D, Failure>,
    second: Result<D, Failure>,
)
    requires
        first == infix_value(tokens, env),
        second == infix_value(tokens, env),
    ensures
        first == second,
{
}

/// A variable that was given a value evaluates to that value.
pub proof fn lemma_assigned_is_found<D: Domain>(env: Map<Seq<char>, D>, name: Seq<char>, value: D)
    ensures
        infix_value(seq![Lexeme::Identifier(name)], env.insert(name, value)) == Ok::<D, Failure>(
            value,
        ),
{
    let tokens = seq![Lexeme::Identifier(name)];
    let after = env.insert(name, value);
    assert(tokens.drop_last() =~= Seq::<Lexeme>::empty());
    assert(tokens.last() == Lexeme::Identifier(name));
    let start = Fused::<D> { operands: Seq::empty(), held: Seq::empty() };
    assert(fused_after(tokens.drop_last(), after) == Ok::<Fused<D>, Failure>(start));
    let end = Fused { operands: start.operands.push(value), held: start.held };
    assert(fused_step(start, tokens.last(), after) == Ok::<Fused<D>, Failure>(end));
    assert(fused_after(tokens, after) == Ok::<Fused<D>, Failure>(end));
    assert(reduce_rest(end) == Ok::<Seq<D>, Failure>(end.operands));
}

/// Applying the operators that yield leaves the parentheses where they are.
pub proof fn lemma_reduce_to_parens<D: Domain>(state: Fused<D>, p: u8)
    ensures
        reduce_to(state, p) matches Ok(ready) ==> parens_held(ready.held) == parens_held(
            state.held,
        ),
    decreases state.held.len(),
{
    if state.held.len() > 0 {
        if let Held::Op(op) = state.held.last() {
            if op.precedence() >= p {
                if let Ok(operands) = reduced(state.operands, op) {
                    lemma_reduce_to_parens(Fused { operands, held: state.held.drop_last() }, p);
                }
            }
        }
    }
}

/// A closing parenthesis that finds its partner takes one open parenthesis away.
pub proof fn lemma_reduce_group_parens<D: Domain>(state: Fused<D>)
    ensures
        reduce_group(state) matches Ok(ready) ==> parens_held(ready.held) + 1 == parens_held(
            state.held,
        ),
    decreases state.held.len(),
{
    if state.held.len() > 0 {
        if let Held::Op(op) = state.held.last() {
            if let Ok(operands) = reduced(state.operands, op) {
                lemma_reduce_group_parens(Fused { operands, held: state.held.drop_last() });
            }
        }
    }
}

/// The end of the input succeeds only where no parenthesis is open.
pub proof fn lemma_reduce_rest_parens<D: Domain>(state: Fused<D>)
    ensures
        reduce_rest(state) is Ok ==> parens_held(state.held) == 0,
    decreases state.held.len(),
{
    if state.held.len() > 0 {
        if let Held::Op(op) = state.held.last() {
            if let Ok(operands) = reduced(state.operands, op) {
                lemma_reduce_rest_parens(Fused { operands, held: state.held.drop_last() });
            }
        }
    }
}

/// As long as the evaluator goes on, no `)` came before its `(`, and it holds as many
/// parentheses as are open.
pub proof fn lemma_fused_parens<D: Domain>(tokens: Seq<Lexeme>, env: Map<Seq<char>, D>)
    ensures
        fused_after(tokens, env) matches Ok(state) ==> parens_held(state.held) == paren_depth(
            tokens,
        ) && forall|k: int| 0 <= k <= tokens.len() ==> paren_depth(#[trigger] tokens.take(k)) >= 0,
    decreases tokens.len(),
{
    if tokens.len() == 0 {
        assert forall|k: int| 0 <= k <= tokens.len() implies paren_depth(
            #[trigger] tokens.take(k),
        ) >= 0 by {
            assert(tokens.take(k) =~= tokens);
        }
    } else {
        let earlier = tokens.drop_last();
        lemma_fused_parens(earlier, env);
        if let Ok(state) = fused_after(earlier, env) {
            match tokens.last() {
                Lexeme::Operator(op) => {
                    lemma_reduce_to_parens(state, op.precedence());
                    if let Ok(ready) = reduce_to(state, op.precedence()) {
                        assert(ready.held.push(Held::Op(op)).drop_last() =~= ready.held);
                    }
                },
                Lexeme::LParen => {
                    assert(state.held.push(Held::Paren).drop_last() =~= state.held);
                },
                Lexeme::RParen => {
                    lemma_reduce_group_parens(state);
                },
                _ => {},
            }
            if fused_after(tokens, env) is Ok {
                assert forall|k: int| 0 <= k <= tokens.len() implies paren_depth(
                    #[trigger] tokens.take(k),
                ) >= 0 by {
                    if k == tokens.len() {
                        assert(tokens.take(k) =~= tokens);
                    } else {
                        assert(tokens.take(k) =~= earlier.take(k));
                    }
                }
            }
        }
    }
}

/// Only a sequence whose parentheses are balanced has a value.
pub proof fn lemma_value_needs_balance<D: Domain>(tokens: Seq<Lexeme>, env: Map<Seq<char>, D>)
    ensures
        infix_value(tokens, env) is Ok ==> balanced(tokens),
{
    lemma_fused_parens(tokens, env);
    if let Ok(state) = fused_after(tokens, env) {
        lemma_reduce_rest_parens(state);
    }
}

/// Lets `op` take the two operands on top and put its result in their place.
pub fn process_operator<D: Domain>(output: &mut Vec<D>, op: Operator) -> (done: Result<(), EvalError>)
    ensures
        match done {
            Ok(_) => reduced(old(output)@, op) == Ok::<Seq<D>, EvalFailure>(final(output)@),
            Err(e) => reduced(old(output)@, op) == Err::<Seq<D>, EvalFailure>(e@) && final(output)@
                == old(output)@,
        },
{
    if output.len() < 2 {
        return Err(EvalError::MalformedExpression);
    }
    let right = output[output.len() - 1];
    let left = output[output.len() - 2];
    match apply_op(left, right, op) {
        Ok(result) => {
            output.pop();
            output.pop();
            output.push(result);
            assert(output@ =~= old(output)@.take(old(output)@.len() - 2).push(result));
            Ok(())
        },
        Err(e) => Err(e),
    }
}

/// Evaluates an infix sequence over the domain `D`, with the variables of `env`.
pub fn evaluate_infix<D: Domain>(tokens: Vec<Token>, env: &VariableEnvironment<D>) -> (result:
    Result<D, CalcError>)
    ensures
        match result {
            Ok(value) => infix_value(lexemes(tokens@), env@) == Ok::<D, Failure>(value),
            Err(e) => infix_value(lexemes(tokens@), env@) == Err::<D, Failure>(e@),
        },
{
    let ghost all = lexemes(tokens@);
    let mut output: Vec<D> = Vec::new();
    let mut operators: Vec<Held> = Vec::new();
    let mut i: usize = 0;
    assert(all.take(0) =~= Seq::<Lexeme>::empty());
    while i < tokens.len()
        invariant
            i <= tokens.len(),
            all == lexemes(tokens@),
            fused_after(all.take(i as int), env@) == Ok::<Fused<D>, Failure>(
                Fused { operands: output@, held: operators@ },
            ),
        decreases tokens.len() - i,
    {
        proof {
            assert(all.take(i + 1).drop_last() =~= all.take(i as int));
            assert(all.take(i + 1).last() == tokens@[i as int]@);
        }
        let ghost start = Fused { operands: output@, held: operators@ };
        let ghost target = fused_step(start, all[i as int], env@);
        let mut failure: Option<CalcError> = None;
        match &tokens[i] {
            Token::Number(text) => match D::parse_literal(text) {
                Some(value) => {
                    output.push(value);
                },
                None => {
                    failure = Some(CalcError::Eval(EvalError::InvalidLiteral));
                },
            },
            Token::Identifier(name) => match env.get(name.as_str()) {
                Some(value) => {
                    output.push(value);
                },
                None => {
                    failure = Some(CalcError::Eval(EvalError::UndefinedVariable(name.clone())));
                },
            },
            Token::Operator(op) => {
                let p = op.precedence();
                while failure.is_none() && operators.len() > 0 && waits_with(&operators, p)
                    invariant
                        failure is None ==> reduce_to(
                            Fused { operands: output@, held: operators@ },
                            p,
                        ) == reduce_to(start, p),
                        failure matches Some(e) ==> e matches CalcError::Eval(cause) && reduce_to(
                            start,
                            p,
                        ) == Err::<Fused<D>, EvalFailure>(cause@),
                    decreases operators.len() + if failure is None { 1int } else { 0int },
                {
                    match operators[operators.len() - 1] {
                        Held::Op(top) => match process_operator(&mut output, top) {
                            Ok(_) => {
                                operators.pop();
                            },
                            Err(e) => {
                                failure = Some(CalcError::Eval(e));
                            },
                        },
                        Held::Paren => {},
                    }
                }
                if failure.is_none() {
                    operators.push(Held::Op(*op));
                }
            },
            Token::LParen => {
                operators.push(Held::Paren);
            },
            Token::RParen => {
                let mut closed = false;
                while failure.is_none() && !closed
                    invariant
                        failure is None && !closed ==> reduce_group(
                            Fused { operands: output@, held: operators@ },
                        ) == reduce_group(start),
                        failure is None && closed ==> reduce_group(start) == Ok::<
                            Fused<D>,
                            Failure,
                        >(Fused { operands: output@, held: operators@ }),
                        failure matches Some(e) ==> reduce_group(start) == Err::<Fused<D>, Failure>(
                            e@,
                        ),
                    decreases
                            operators.len() + if failure is None && !closed {
                                1int
                            } else {
                                0int
                            },
                {
                    if operators.len() == 0 {
                        failure = Some(CalcError::Parse(ParseError::UnmatchedParen));
                    } else {
                        match operators[operators.len() - 1] {
                            Held::Op(top) => match process_operator(&mut output, top) {
                                Ok(_) => {
                                    operators.pop();
                                },
                                Err(e) => {
                                    failure = Some(CalcError::Eval(e));
                                },
                            },
                            Held::Paren => {
                                operators.pop();
                                closed = true;
                            },
                        }
                    }
                }
            },
        }
        match failure {
            Some(e) => {
                proof {
                    assert(target == Err::<Fused<D>, Failure>(e@));
                    lemma_fused_failure(all, env@, i as int);
                }
                return Err(e);
            },
            None => {},
        }
        assert(target == Ok::<Fused<D>, Failure>(Fused { operands: output@, held: operators@ }));
        i += 1;
    }
    assert(all.take(i as int) =~= all);
    let ghost start = Fused { operands: output@, held: operators@ };
    while operators.len() > 0
        invariant
            all == lexemes(tokens@),
            fused_after(all, env@) == Ok::<Fused<D>, Failure>(start),
            reduce_rest(Fused { operands: output@, held: operators@ }) == reduce_rest(start),
        decreases operators.len(),
    {
        match operators[operators.len() - 1] {
            Held::Op(top) => match process_operator(&mut output, top) {
                Ok(_) => {
                    operators.pop();
                },
                Err(e) => {
                    return Err(CalcError::Eval(e));
                },
            },
            Held::Paren => {
                return Err(CalcError::Parse(ParseError::UnmatchedParen));
            },
        }
    }
    if output.len() != 1 {
        return Err(CalcError::Eval(EvalError::MalformedExpression));
    }
    Ok(output[0])
}

/// Whether the top of the stack is an operator of precedence `p` or more.
fn waits_with(operators: &Vec<Held>, p: u8) -> (yes: bool)
    requires
        operators.len() > 0,
    ensures
        yes == match operators@.last() {
            Held::Op(op) => op.precedence() >= p,
            Held::Paren => false,
        },
{
    match operators[operators.len() - 1] {
        Held::Op(op) => op.precedence() >= p,
        Held::Paren => false,
    }
}

} // verus!
