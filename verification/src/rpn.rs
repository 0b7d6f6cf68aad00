use crate::domain::{applied, apply_op, denoted, Domain};
use crate::error::{EvalError, EvalFailure};
use crate::token::{lexemes, Lexeme, Operator, Token};
use vstd::prelude::*;

verus! {

/// What one step of a postfix evaluation did.
#[derive(Debug, PartialEq)]
pub enum Action<D> {
    /// A literal's value went onto the stack.
    Push(D),
    /// An operator took `right` and then `left` from the stack and put `result` there.
    Apply { op: Operator, left: D, right: D, result: D },
}

impl<D: Copy> Clone for Action<D> {
    fn clone(&self) -> (copy: Self)
        ensures
            copy == *self,
    {
        *self
    }
}

impl<D: Copy> Copy for Action<D> {

}

/// One step of a postfix evaluation: what was done, and the stack after it, the top
/// being last.
#[derive(Debug, PartialEq)]
pub struct Step<D> {
    pub action: Action<D>,
    pub stack: Vec<D>,
}

/// A step, with the stack as a sequence.
pub struct Record<D> {
    pub action: Action<D>,
    pub stack: Seq<D>,
}

impl<D> View for Step<D> {
    type V = Record<D>;

    open spec fn view(&self) -> Record<D> {
        Record { action: self.action, stack: self.stack@ }
    }
}

/// The records of a sequence of steps, in order.
pub open spec fn records<D>(steps: Seq<Step<D>>) -> Seq<Record<D>> {
    steps.map_values(|s: Step<D>| s@)
}

/// The step that a token makes on a stack of operands. A literal pushes its value. An
/// operator needs two operands: it takes the top as its right one and the next as its
/// left one, and pushes the result. Any other token is no literal.
pub open spec fn rpn_step<D: Domain>(stack: Seq<D>, token: Lexeme) -> Result<
    Record<D>,
    EvalFailure,
> {
    match token {
        Lexeme::Number(text) => match denoted::<D>(text) {
            Some(value) => Ok(Record { action: Action::Push(value), stack: stack.push(value) }),
            None => Err(EvalFailure::InvalidLiteral),
        },
        Lexeme::Operator(op) => if stack.len() < 2 {
            Err(EvalFailure::InsufficientOperands)
        } else {
            let left = stack[stack.len() - 2];
            let right = stack[stack.len() - 1];
            match applied(op, left, right) {
                Ok(result) => Ok(
                    Record {
                        action: Action::Apply { op, left, right, result },
                        stack: stack.take(stack.len() - 2).push(result),
                    },
                ),
                Err(e) => Err(e),
            }
        },
        _ => Err(EvalFailure::InvalidLiteral),
    }
}

/// The stack of operands after all of `tokens` made their steps, from left to right,
/// or the error of the first step that failed.
pub open spec fn rpn_stack<D: Domain>(tokens: Seq<Lexeme>) -> Result<Seq<D>, EvalFailure>
    decreases tokens.len(),
{
    if tokens.len() == 0 {
        Ok(Seq::empty())
    } else {
        match rpn_stack::<D>(tokens.drop_last()) {
            Ok(stack) => match rpn_step(stack, tokens.last()) {
                Ok(record) => Ok(record.stack),
                Err(e) => Err(e),
            },
            Err(e) => Err(e),
        }
    }
}

/// The records of the steps that `tokens` made, up to the first that failed.
pub open spec fn rpn_trace<D: Domain>(tokens: Seq<Lexeme>) -> Seq<Record<D>>
    decreases tokens.len(),
{
    if tokens.len() == 0 {
        Seq::empty()
    } else {
        let earlier = rpn_trace::<D>(tokens.drop_last());
        match rpn_stack::<D>(tokens.drop_last()) {
            Ok(stack) => match rpn_step(stack, tokens.last()) {
                Ok(record) => earlier.push(record),
                Err(_) => earlier,
            },
            Err(_) => earlier,
        }
    }
}

/// The value of a postfix sequence: the one operand that its steps leave on the stack.
pub open spec fn rpn_value<D: Domain>(tokens: Seq<Lexeme>) -> Result<D, EvalFailure> {
    match rpn_stack::<D>(tokens) {
        Ok(stack) => if stack.len() == 1 {
            Ok(stack[0])
        } else {
            Err(EvalFailure::MalformedExpression)
        },
        Err(e) => Err(e),
    }
}

/// Once a step has failed, its error is the outcome and the trace grows no more.
pub proof fn lemma_rpn_failure<D: Domain>(tokens: Seq<Lexeme>, k: int)
    requires
        0 <= k < tokens.len(),
        rpn_stack::<D>(tokens.take(k + 1)) is Err,
    ensures
        rpn_stack::<D>(tokens) == rpn_stack::<D>(tokens.take(k + 1)),
        rpn_trace::<D>(tokens) == rpn_trace::<D>(tokens.take(k + 1)),
    decreases tokens.len(),
{
    if tokens.len() == k + 1 {
        assert(tokens.take(k + 1) =~= tokens);
    } else {
        assert(tokens.drop_last().take(k + 1) =~= tokens.take(k + 1));
        lemma_rpn_failure::<D>(tokens.drop_last(), k);
    }
}

/// Where every step succeeds, there is one record for each token, and the record of a
/// step holds the stack after the tokens up to it.
pub proof fn lemma_rpn_trace_complete<D: Domain>(tokens: Seq<Lexeme>)
    requires
        rpn_stack::<D>(tokens) is Ok,
    ensures
        rpn_trace::<D>(tokens).len() == tokens.len(),
        forall|i: int|
            0 <= i < tokens.len() ==> rpn_stack::<D>(tokens.take(i + 1)) == Ok::<
                Seq<D>,
                EvalFailure,
            >((#[trigger] rpn_trace::<D>(tokens)[i]).stack),
    decreases tokens.len(),
{
    if tokens.len() > 0 {
        let earlier = tokens.drop_last();
        lemma_rpn_trace_complete::<D>(earlier);
        assert forall|i: int| 0 <= i < tokens.len() implies rpn_stack::<D>(tokens.take(i + 1))
            == Ok::<Seq<D>, EvalFailure>((#[trigger] rpn_trace::<D>(tokens)[i]).stack) by {
            if i < tokens.len() - 1 {
                assert(tokens.take(i + 1) =~= earlier.take(i + 1));
            } else {
                assert(tokens.take(i + 1) =~= tokens);
            }
        }
    }
}

/// A copy of the stack.
fn snapshot<D: Copy>(stack: &Vec<D>) -> (copy: Vec<D>)
    ensures
        copy@ == stack@,
{
    let mut copy: Vec<D> = Vec::new();
    let mut i: usize = 0;
    while i < stack.len()
        invariant
            i <= stack.len(),
            copy@ == stack@.take(i as int),
        decreases stack.len() - i,
    {
        copy.push(stack[i]);
        i += 1;
    }
    copy
}

/// Evaluates a postfix sequence over the domain `D` and records every step. Returns the
/// steps that were made, also when one failed after them, and the outcome: the value
/// where every step succeeded and exactly one operand is left, else the error.
pub fn reverse_polish_notation<D: Domain>(rpn_tokens: Vec<Token>) -> (run: (
    Vec<Step<D>>,
    Result<D, EvalError>,
))
    ensures
        records(run.0@) == rpn_trace::<D>(lexemes(rpn_tokens@)),
        match run.1 {
            Ok(value) => rpn_value::<D>(lexemes(rpn_tokens@)) == Ok::<D, EvalFailure>(value),
            Err(e) => rpn_value::<D>(lexemes(rpn_tokens@)) == Err::<D, EvalFailure>(e@),
        },
{
    let mut stack: Vec<D> = Vec::new();
    let mut trace: Vec<Step<D>> = Vec::new();
    let mut i: usize = 0;
    let ghost all = lexemes(rpn_tokens@);
    assert(all.take(0) =~= Seq::<Lexeme>::empty());
    while i < rpn_tokens.len()
        invariant
            i <= rpn_tokens.len(),
            all == lexemes(rpn_tokens@),
            rpn_stack::<D>(all.take(i as int)) == Ok::<Seq<D>, EvalFailure>(stack@),
            records(trace@) =~= rpn_trace::<D>(all.take(i as int)),
        decreases rpn_tokens.len() - i,
    {
        let ghost before = stack@;
        proof {
            assert(all.take(i + 1).drop_last() =~= all.take(i as int));
            assert(all.take(i + 1).last() == rpn_tokens@[i as int]@);
        }
        let step: Result<Action<D>, EvalError> = match &rpn_tokens[i] {
            Token::Number(text) => match D::parse_literal(text) {
                Some(value) => {
                    stack.push(value);
                    Ok(Action::Push(value))
                },
                None => Err(EvalError::InvalidLiteral),
            },
            Token::Operator(op) => if stack.len() < 2 {
                Err(EvalError::InsufficientOperands)
            } else {
                let right = stack[stack.len() - 1];
                let left = stack[stack.len() - 2];
                match apply_op(left, right, *op) {
                    Ok(result) => {
                        stack.pop();
                        stack.pop();
                        stack.push(result);
                        assert(stack@ =~= before.take(before.len() - 2).push(result));
                        Ok(Action::Apply { op: *op, left, right, result })
                    },
                    Err(e) => Err(e),
                }
            },
            _ => Err(EvalError::InvalidLiteral),
        };
        match step {
            Ok(action) => {
                assert(rpn_step(before, all[i as int]) == Ok::<Record<D>, EvalFailure>(
                    Record { action, stack: stack@ },
                ));
                let ghost earlier = trace@;
                trace.push(Step { action, stack: snapshot(&stack) });
                assert(records(trace@) =~= records(earlier).push(Record { action, stack: stack@ }));
            },
            Err(e) => {
                proof {
                    assert(rpn_step(before, all[i as int]) == Err::<Record<D>, EvalFailure>(e@));
                    lemma_rpn_failure::<D>(all, i as int);
                }
                return (trace, Err(e));
            },
        }
        i += 1;
    }
    assert(all.take(i as int) =~= all);
    if stack.len() == 1 {
        (trace, Ok(stack[0]))
    } else {
        (trace, Err(EvalError::MalformedExpression))
    }
}

/// Evaluates a postfix sequence over the domain `D`: the value and the record of every
/// step, or the error of the first step that failed.
pub fn evaluate_rpn<D: Domain>(tokens: Vec<Token>) -> (result: Result<(D, Vec<Step<D>>), EvalError>)
    ensures
        match result {
            Ok((value, trace)) => rpn_value::<D>(lexemes(tokens@)) == Ok::<D, EvalFailure>(value)
                && records(trace@) == rpn_trace::<D>(lexemes(tokens@)) && trace@.len()
                == tokens@.len(),
            Err(e) => rpn_value::<D>(lexemes(tokens@)) == Err::<D, EvalFailure>(e@),
        },
{
    proof {
        if rpn_stack::<D>(lexemes(tokens@)) is Ok {
            lemma_rpn_trace_complete::<D>(lexemes(tokens@));
        }
    }
    let (trace, outcome) = reverse_polish_notation::<D>(tokens);
    match outcome {
        Ok(value) => Ok((value, trace)),
        Err(e) => Err(e),
    }
}

} // verus!
