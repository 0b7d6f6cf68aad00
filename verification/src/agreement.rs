use crate::convert::{close_paren, flush, postfix_of, yard_after, yard_step, yield_to, Held, Yard};
use crate::domain::Domain;
use crate::error::{EvalFailure, Failure, ParseError};
use crate::infix::{fused_after, infix_value, reduce_group, reduce_rest, reduce_to, reduced, Fused};
use crate::rpn::{lemma_rpn_failure, rpn_stack, rpn_value};
use crate::token::Lexeme;
use vstd::prelude::*;

verus! {

/// Whether the converter and the evaluator are at the same point of the same work: as
/// long as both go on, they hold the same operators, and the output of the one,
/// evaluated as postfix, gives the operands of the other. Once the evaluator has
/// failed, the converter has failed too or its output no longer evaluates.
pub open spec fn in_step<D: Domain>(
    yard: Result<Yard, ParseError>,
    fused: Result<Fused<D>, Failure>,
) -> bool {
    match (yard, fused) {
        (Ok(y), Ok(f)) => f.held == y.held && rpn_stack::<D>(y.output) == Ok::<
            Seq<D>,
            EvalFailure,
        >(f.operands),
        (Ok(y), Err(_)) => rpn_stack::<D>(y.output) is Err,
        (Err(_), Ok(_)) => false,
        (Err(_), Err(_)) => true,
    }
}

/// A postfix sequence whose beginning fails to evaluate fails to evaluate.
pub proof fn lemma_rpn_prefix_failure<D: Domain>(beginning: Seq<Lexeme>, whole: Seq<Lexeme>)
    requires
        beginning.is_prefix_of(whole),
        rpn_stack::<D>(beginning) is Err,
    ensures
        rpn_stack::<D>(whole) is Err,
{
    assert(whole.take(beginning.len() as int) =~= beginning);
    lemma_rpn_failure::<D>(whole, beginning.len() - 1);
}

/// Letting operators yield only adds to the output.
pub proof fn lemma_yield_extends(yard: Yard, p: u8)
    ensures
        yard.output.is_prefix_of(yield_to(yard, p).output),
    decreases yard.held.len(),
{
    if yard.held.len() > 0 {
        if let Held::Op(op) = yard.held.last() {
            if op.precedence() >= p {
                let next = Yard {
                    output: yard.output.push(Lexeme::Operator(op)),
                    held: yard.held.drop_last(),
                };
                lemma_yield_extends(next, p);
            }
        }
    }
}

/// Closing a parenthesis only adds to the output.
pub proof fn lemma_close_extends(yard: Yard)
    ensures
        close_paren(yard) matches Some(closed) ==> yard.output.is_prefix_of(closed.output),
    decreases yard.held.len(),
{
    if yard.held.len() > 0 {
        if let Held::Op(op) = yard.held.last() {
            let next = Yard {
                output: yard.output.push(Lexeme::Operator(op)),
                held: yard.held.drop_last(),
            };
            lemma_close_extends(next);
        }
    }
}

/// The end of the input only adds to the output.
pub proof fn lemma_flush_extends(yard: Yard)
    ensures
        flush(yard) matches Ok(output) ==> yard.output.is_prefix_of(output),
    decreases yard.held.len(),
{
    if yard.held.len() > 0 {
        if let Held::Op(op) = yard.held.last() {
            let next = Yard {
                output: yard.output.push(Lexeme::Operator(op)),
                held: yard.held.drop_last(),
            };
            lemma_flush_extends(next);
        }
    }
}

/// A token only adds to the output.
pub proof fn lemma_step_extends(yard: Yard, token: Lexeme)
    ensures
        yard_step(yard, token) matches Ok(next) ==> yard.output.is_prefix_of(next.output),
{
    match token {
        Lexeme::Operator(op) => {
            lemma_yield_extends(yard, op.precedence());
        },
        Lexeme::RParen => {
            lemma_close_extends(yard);
        },
        _ => {},
    }
}

/// An operator that the converter moves to its output is the operator that the
/// evaluator applies.
pub proof fn lemma_moved_is_applied<D: Domain>(yard: Yard, fused: Fused<D>)
    requires
        in_step(Ok::<Yard, ParseError>(yard), Ok::<Fused<D>, Failure>(fused)),
        yard.held.len() > 0,
        yard.held.last() is Op,
    ensures
        ({
            let op = yard.held.last()->Op_0;
            let moved = Yard {
                output: yard.output.push(Lexeme::Operator(op)),
                held: yard.held.drop_last(),
            };
            match reduced(fused.operands, op) {
                Ok(operands) => in_step(
                    Ok::<Yard, ParseError>(moved),
                    Ok::<Fused<D>, Failure>(Fused { operands, held: fused.held.drop_last() }),
                ),
                Err(_) => rpn_stack::<D>(moved.output) is Err,
            }
        }),
{
    let op = yard.held.last()->Op_0;
    let output = yard.output.push(Lexeme::Operator(op));
    assert(output.drop_last() =~= yard.output);
    assert(output.last() == Lexeme::Operator(op));
}

/// Yielding keeps the converter and the evaluator in step.
pub proof fn lemma_yield_in_step<D: Domain>(yard: Yard, fused: Fused<D>, p: u8)
    requires
        in_step(Ok::<Yard, ParseError>(yard), Ok::<Fused<D>, Failure>(fused)),
    ensures
        match reduce_to(fused, p) {
            Ok(ready) => in_step(
                Ok::<Yard, ParseError>(yield_to(yard, p)),
                Ok::<Fused<D>, Failure>(ready),
            ),
            Err(_) => rpn_stack::<D>(yield_to(yard, p).output) is Err,
        },
    decreases yard.held.len(),
{
    if yard.held.len() > 0 {
        if let Held::Op(op) = yard.held.last() {
            if op.precedence() >= p {
                let moved = Yard {
                    output: yard.output.push(Lexeme::Operator(op)),
                    held: yard.held.drop_last(),
                };
                lemma_moved_is_applied(yard, fused);
                match reduced(fused.operands, op) {
                    Ok(operands) => {
                        lemma_yield_in_step(
                            moved,
                            Fused { operands, held: fused.held.drop_last() },
                            p,
                        );
                    },
                    Err(_) => {
                        lemma_yield_extends(moved, p);
                        lemma_rpn_prefix_failure::<D>(moved.output, yield_to(moved, p).output);
                    },
                }
            }
        }
    }
}

/// Closing a parenthesis keeps the converter and the evaluator in step.
pub proof fn lemma_close_in_step<D: Domain>(yard: Yard, fused: Fused<D>)
    requires
        in_step(Ok::<Yard, ParseError>(yard), Ok::<Fused<D>, Failure>(fused)),
    ensures
        match (close_paren(yard), reduce_group(fused)) {
            (Some(closed), Ok(ready)) => in_step(
                Ok::<Yard, ParseError>(closed),
                Ok::<Fused<D>, Failure>(ready),
            ),
            (Some(closed), Err(_)) => rpn_stack::<D>(closed.output) is Err,
            (None, Ok(_)) => false,
            (None, Err(_)) => true,
        },
    decreases yard.held.len(),
{
    if yard.held.len() > 0 {
        if let Held::Op(op) = yard.held.last() {
            let moved = Yard {
                output: yard.output.push(Lexeme::Operator(op)),
                held: yard.held.drop_last(),
            };
            lemma_moved_is_applied(yard, fused);
            match reduced(fused.operands, op) {
                Ok(operands) => {
                    lemma_close_in_step(moved, Fused { operands, held: fused.held.drop_last() });
                },
                Err(_) => {
                    lemma_close_extends(moved);
                    if close_paren(moved) is Some {
                        lemma_rpn_prefix_failure::<D>(moved.output, close_paren(moved)->Some_0.output);
                    }
                },
            }
        }
    }
}

/// At the end of the input, the converter's output evaluates to the operands that the
/// evaluator is left with.
pub proof fn lemma_end_in_step<D: Domain>(yard: Yard, fused: Fused<D>)
    requires
        in_step(Ok::<Yard, ParseError>(yard), Ok::<Fused<D>, Failure>(fused)),
    ensures
        match (flush(yard), reduce_rest(fused)) {
            (Ok(output), Ok(operands)) => rpn_stack::<D>(output) == Ok::<Seq<D>, EvalFailure>(
                operands,
            ),
            (Ok(output), Err(_)) => rpn_stack::<D>(output) is Err,
            (Err(_), Ok(_)) => false,
            (Err(_), Err(_)) => true,
        },
    decreases yard.held.len(),
{
    if yard.held.len() > 0 {
        if let Held::Op(op) = yard.held.last() {
            let moved = Yard {
                output: yard.output.push(Lexeme::Operator(op)),
                held: yard.held.drop_last(),
            };
            lemma_moved_is_applied(yard, fused);
            match reduced(fused.operands, op) {
                Ok(operands) => {
                    lemma_end_in_step(moved, Fused { operands, held: fused.held.drop_last() });
                },
                Err(_) => {
                    lemma_flush_extends(moved);
                    if flush(moved) is Ok {
                        lemma_rpn_prefix_failure::<D>(moved.output, flush(moved)->Ok_0);
                    }
                },
            }
        }
    }
}

/// Whether no token is a variable.
pub open spec fn variable_free(tokens: Seq<Lexeme>) -> bool {
    forall|i: int| 0 <= i < tokens.len() ==> !(#[trigger] tokens[i] is Identifier)
}

/// Over a sequence without variables, the converter and the evaluator stay in step.
pub proof fn lemma_in_step<D: Domain>(tokens: Seq<Lexeme>, env: Map<Seq<char>, D>)
    requires
        variable_free(tokens),
    ensures
        in_step(yard_after(tokens), fused_after(tokens, env)),
    decreases tokens.len(),
{
    if tokens.len() == 0 {
        assert(rpn_stack::<D>(Seq::<Lexeme>::empty()) == Ok::<Seq<D>, EvalFailure>(Seq::empty()));
    } else {
        let earlier = tokens.drop_last();
        let token = tokens.last();
        assert forall|i: int| 0 <= i < earlier.len() implies !(#[trigger] earlier[i] is Identifier) by {
            assert(earlier[i] == tokens[i]);
        }
        assert(!(tokens[tokens.len() - 1] is Identifier));
        lemma_in_step(earlier, env);
        match (yard_after(earlier), fused_after(earlier, env)) {
            (Ok(yard), Ok(fused)) => {
                match token {
                    Lexeme::Number(text) => {
                        let output = yard.output.push(token);
                        assert(output.drop_last() =~= yard.output);
                        assert(output.last() == token);
                    },
                    Lexeme::Operator(op) => {
                        lemma_yield_in_step(yard, fused, op.precedence());
                    },
                    Lexeme::RParen => {
                        lemma_close_in_step(yard, fused);
                    },
                    _ => {},
                }
            },
            (Ok(yard), Err(_)) => {
                lemma_step_extends(yard, token);
                if yard_step(yard, token) is Ok {
                    lemma_rpn_prefix_failure::<D>(yard.output, yard_step(yard, token)->Ok_0.output);
                }
            },
            _ => {},
        }
    }
}

/// An infix sequence without variables has a value exactly when its postfix form has
/// one over the same domain, and then it is the same value: to evaluate directly, and
/// to convert and then evaluate, come to the same.
pub proof fn lemma_infix_agrees_with_postfix<D: Domain>(tokens: Seq<Lexeme>, env: Map<Seq<char>, D>)
    requires
        variable_free(tokens),
    ensures
        infix_value(tokens, env) is Ok <==> postfix_of(tokens) is Ok && rpn_value::<D>(
            postfix_of(tokens)->Ok_0,
        ) is Ok,
        infix_value(tokens, env) matches Ok(value) ==> rpn_value::<D>(postfix_of(tokens)->Ok_0)
            == Ok::<D, EvalFailure>(value),
{
    lemma_in_step(tokens, env);
    match (yard_after(tokens), fused_after(tokens, env)) {
        (Ok(yard), Ok(fused)) => {
            lemma_end_in_step(yard, fused);
        },
        (Ok(yard), Err(_)) => {
            lemma_flush_extends(yard);
            if flush(yard) is Ok {
                lemma_rpn_prefix_failure::<D>(yard.output, flush(yard)->Ok_0);
            }
        },
        _ => {},
    }
}

} // verus!
