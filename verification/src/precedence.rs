use crate::agreement::{lemma_infix_agrees_with_postfix, variable_free};
use crate::convert::{close_paren, flush, postfix_of, yard_after, yield_to, Held, Yard};
use crate::domain::{applied, denoted, Domain};
use crate::error::{EvalFailure, Failure, ParseError};
use crate::infix::infix_value;
use crate::rpn::{rpn_stack, rpn_value};
use crate::token::{Lexeme, Operator};
use vstd::prelude::*;

verus! {

/// An expression as a tree: what an infix sequence means once precedence and
/// parentheses have grouped it.
pub enum Expr {
    /// A numeric literal, as written.
    Literal(Seq<char>),
    /// An expression in parentheses.
    Group(Box<Expr>),
    /// An operator between its left and its right operand.
    Binary(Operator, Box<Expr>, Box<Expr>),
}

/// Whether the tree is the standard reading of what it writes, standing where only
/// operators of precedence `p` or more may stand bare. Its own operator then has
/// precedence `p` or more; its left operand may hold operators of the same precedence
/// bare, its right operand only stronger ones: operators of one precedence group from
/// left to right. Inside parentheses any operator may stand.
pub open spec fn binds(e: Expr, p: u8) -> bool
    decreases e,
{
    match e {
        Expr::Literal(_) => true,
        Expr::Group(inner) => binds(*inner, 1),
        Expr::Binary(op, left, right) => op.precedence() >= p && binds(*left, op.precedence())
            && binds(*right, (op.precedence() + 1) as u8),
    }
}

/// The infix sequence that writes the tree.
pub open spec fn written(e: Expr) -> Seq<Lexeme>
    decreases e,
{
    match e {
        Expr::Literal(text) => seq![Lexeme::Number(text)],
        Expr::Group(inner) => seq![Lexeme::LParen] + written(*inner) + seq![Lexeme::RParen],
        Expr::Binary(op, left, right) => written(*left) + seq![Lexeme::Operator(op)] + written(
            *right,
        ),
    }
}

/// The postfix sequence of the tree: each operator after its operands.
pub open spec fn postfix(e: Expr) -> Seq<Lexeme>
    decreases e,
{
    match e {
        Expr::Literal(text) => seq![Lexeme::Number(text)],
        Expr::Group(inner) => postfix(*inner),
        Expr::Binary(op, left, right) => postfix(*left) + postfix(*right) + seq![
            Lexeme::Operator(op),
        ],
    }
}

/// The value of the tree over the domain `D`: the operands' values, the left one
/// first, and then the operator on them.
pub open spec fn meaning<D: Domain>(e: Expr) -> Result<D, EvalFailure>
    decreases e,
{
    match e {
        Expr::Literal(text) => match denoted::<D>(text) {
            Some(value) => Ok(value),
            None => Err(EvalFailure::InvalidLiteral),
        },
        Expr::Group(inner) => meaning::<D>(*inner),
        Expr::Binary(op, left, right) => match meaning::<D>(*left) {
            Ok(a) => match meaning::<D>(*right) {
                Ok(b) => applied(op, a, b),
                Err(e) => Err(e),
            },
            Err(e) => Err(e),
        },
    }
}

/// Whether all that is held are operators of precedence `p` or more.
pub open spec fn at_least(held: Seq<Held>, p: u8) -> bool {
    forall|i: int|
        0 <= i < held.len() ==> (#[trigger] held[i]) is Op && held[i]->Op_0.precedence() >= p
}

/// Whether nothing that is held yields to an operator of precedence `p`: the top is a
/// parenthesis or a weaker operator, or nothing is held.
pub open spec fn sealed(held: Seq<Held>, p: u8) -> bool {
    held.len() == 0 || match held.last() {
        Held::Paren => true,
        Held::Op(op) => op.precedence() < p,
    }
}

/// The output after all the held operators moved to it, from the top down.
pub open spec fn poured(output: Seq<Lexeme>, held: Seq<Held>) -> Seq<Lexeme>
    decreases held.len(),
{
    if held.len() == 0 {
        output
    } else {
        match held.last() {
            Held::Op(op) => poured(output.push(Lexeme::Operator(op)), held.drop_last()),
            Held::Paren => poured(output, held.drop_last()),
        }
    }
}

/// To pour two stacks, one on top of the other, is to pour the upper one and then the
/// lower one.
pub proof fn lemma_poured_concat(output: Seq<Lexeme>, lower: Seq<Held>, upper: Seq<Held>)
    ensures
        poured(output, lower + upper) == poured(poured(output, upper), lower),
    decreases upper.len(),
{
    if upper.len() == 0 {
        assert(lower + upper =~= lower);
    } else {
        assert((lower + upper).drop_last() =~= lower + upper.drop_last());
        assert((lower + upper).last() == upper.last());
        match upper.last() {
            Held::Op(op) => {
                lemma_poured_concat(output.push(Lexeme::Operator(op)), lower, upper.drop_last());
            },
            Held::Paren => {
                lemma_poured_concat(output, lower, upper.drop_last());
            },
        }
    }
}

/// An operator of precedence `p` makes all stronger and equal operators above a sealed
/// stack yield, and no more.
pub proof fn lemma_yield_pours(output: Seq<Lexeme>, below: Seq<Held>, above: Seq<Held>, p: u8)
    requires
        sealed(below, p),
        at_least(above, p),
    ensures
        yield_to(Yard { output, held: below + above }, p) == (Yard {
            output: poured(output, above),
            held: below,
        }),
    decreases above.len(),
{
    if above.len() == 0 {
        assert(below + above =~= below);
    } else {
        assert((below + above).drop_last() =~= below + above.drop_last());
        assert((below + above).last() == above.last());
        assert(above[above.len() - 1] is Op);
        let op = above.last()->Op_0;
        assert forall|i: int| 0 <= i < above.drop_last().len() implies (
        #[trigger] above.drop_last()[i]) is Op && above.drop_last()[i]->Op_0.precedence() >= p by {
            assert(above.drop_last()[i] == above[i]);
        }
        lemma_yield_pours(output.push(Lexeme::Operator(op)), below, above.drop_last(), p);
    }
}

/// A closing parenthesis pours the operators above the nearest open one, and drops it.
pub proof fn lemma_close_pours(output: Seq<Lexeme>, below: Seq<Held>, above: Seq<Held>)
    requires
        at_least(above, 0),
    ensures
        close_paren(Yard { output, held: below.push(Held::Paren) + above }) == Some(
            Yard { output: poured(output, above), held: below },
        ),
    decreases above.len(),
{
    let held = below.push(Held::Paren) + above;
    if above.len() == 0 {
        assert(held =~= below.push(Held::Paren));
        assert(held.drop_last() =~= below);
    } else {
        assert(held.drop_last() =~= below.push(Held::Paren) + above.drop_last());
        assert(held.last() == above.last());
        assert(above[above.len() - 1] is Op);
        let op = above.last()->Op_0;
        assert forall|i: int| 0 <= i < above.drop_last().len() implies (
        #[trigger] above.drop_last()[i]) is Op by {
            assert(above.drop_last()[i] == above[i]);
        }
        lemma_close_pours(output.push(Lexeme::Operator(op)), below, above.drop_last());
    }
}

/// The end of the input pours a stack of operators.
pub proof fn lemma_flush_pours(output: Seq<Lexeme>, held: Seq<Held>)
    requires
        at_least(held, 0),
    ensures
        flush(Yard { output, held }) == Ok::<Seq<Lexeme>, ParseError>(poured(output, held)),
    decreases held.len(),
{
    if held.len() > 0 {
        assert(held[held.len() - 1] is Op);
        let op = held.last()->Op_0;
        assert forall|i: int| 0 <= i < held.drop_last().len() implies (
        #[trigger] held.drop_last()[i]) is Op by {
            assert(held.drop_last()[i] == held[i]);
        }
        lemma_flush_pours(output.push(Lexeme::Operator(op)), held.drop_last());
    }
}

/// The converter, having read `before` and then what writes `e`, holds what it held
/// after `before`, and above that only operators of `e`; its output, with those poured
/// onto it, is the output after `before`, followed by the postfix sequence of `e`.
pub proof fn lemma_conversion_of_tree(e: Expr, p: u8, before: Seq<Lexeme>)
    requires
        1 <= p <= 4,
        binds(e, p),
        yard_after(before) is Ok,
        sealed(yard_after(before)->Ok_0.held, p),
    ensures
        ({
            let start = yard_after(before)->Ok_0;
            let below = start.held.len() as int;
            &&& yard_after(before + written(e)) matches Ok(end)
            &&& end.held.len() >= below
            &&& end.held.take(below) == start.held
            &&& at_least(end.held.skip(below), p)
            &&& poured(end.output, end.held.skip(below)) == start.output + postfix(e)
        }),
    decreases e,
{
    let start = yard_after(before)->Ok_0;
    let below = start.held.len() as int;
    match e {
        Expr::Literal(text) => {
            let token = Lexeme::Number(text);
            let all = before + written(e);
            assert(all.drop_last() =~= before);
            assert(all.last() == token);
            let end = yard_after(all)->Ok_0;
            assert(end.held.take(below) =~= start.held);
            assert(end.held.skip(below) =~= Seq::<Held>::empty());
            assert(start.output.push(token) =~= start.output + postfix(e));
        },
        Expr::Group(inner) => {
            let opened = before + seq![Lexeme::LParen];
            assert(opened.drop_last() =~= before);
            assert(opened.last() == Lexeme::LParen);
            let open = yard_after(opened)->Ok_0;
            assert(open.held == start.held.push(Held::Paren));
            lemma_conversion_of_tree(*inner, 1, opened);
            let inside = opened + written(*inner);
            let mid = yard_after(inside)->Ok_0;
            let above = mid.held.skip(below + 1);
            assert(mid.held =~= start.held.push(Held::Paren) + above) by {
                assert(mid.held.take(below + 1) == open.held);
                assert(mid.held =~= mid.held.take(below + 1) + mid.held.skip(below + 1));
            }
            let all = before + written(e);
            assert(all.drop_last() =~= inside);
            assert(all.last() == Lexeme::RParen);
            lemma_close_pours(mid.output, start.held, above);
            let end = yard_after(all)->Ok_0;
            assert(end.held.take(below) =~= start.held);
            assert(end.held.skip(below) =~= Seq::<Held>::empty());
        },
        Expr::Binary(op, left, right) => {
            let k = op.precedence();
            lemma_conversion_of_tree(*left, k, before);
            let first = before + written(*left);
            let after_left = yard_after(first)->Ok_0;
            let pending = after_left.held.skip(below);
            assert(after_left.held =~= start.held + pending) by {
                assert(after_left.held =~= after_left.held.take(below) + after_left.held.skip(
                    below,
                ));
            }
            lemma_yield_pours(after_left.output, start.held, pending, k);
            let second = first + seq![Lexeme::Operator(op)];
            assert(second.drop_last() =~= first);
            assert(second.last() == Lexeme::Operator(op));
            let after_op = yard_after(second)->Ok_0;
            assert(after_op.output == start.output + postfix(*left));
            assert(after_op.held == start.held.push(Held::Op(op)));
            lemma_conversion_of_tree(*right, (k + 1) as u8, second);
            let all = before + written(e);
            assert(all =~= second + written(*right));
            let end = yard_after(all)->Ok_0;
            let upper = end.held.skip(below + 1);
            assert(end.held =~= after_op.held + upper) by {
                assert(end.held =~= end.held.take(below + 1) + end.held.skip(below + 1));
            }
            assert(end.held.take(below) =~= start.held);
            assert(end.held.skip(below) =~= seq![Held::Op(op)] + upper);
            lemma_poured_concat(end.output, seq![Held::Op(op)], upper);
            assert(seq![Held::Op(op)].drop_last() =~= Seq::<Held>::empty());
            assert(poured(end.output, seq![Held::Op(op)] + upper) =~= start.output + postfix(e)) by {
                let inner = poured(end.output, upper);
                assert(inner == after_op.output + postfix(*right));
                assert(poured(inner, seq![Held::Op(op)]) == inner.push(Lexeme::Operator(op))) by {
                    reveal_with_fuel(poured, 2);
                }
                assert(inner.push(Lexeme::Operator(op)) =~= start.output + postfix(e));
            }
        },
    }
}

/// The converter turns what writes a tree into the tree's postfix sequence.
pub proof fn lemma_conversion(e: Expr)
    requires
        binds(e, 1),
    ensures
        postfix_of(written(e)) == Ok::<Seq<Lexeme>, ParseError>(postfix(e)),
{
    let before = Seq::<Lexeme>::empty();
    lemma_conversion_of_tree(e, 1, before);
    assert(before + written(e) =~= written(e));
    let end = yard_after(written(e))->Ok_0;
    assert(end.held.skip(0) =~= end.held);
    assert(at_least(end.held, 0));
    lemma_flush_pours(end.output, end.held);
    assert(Seq::<Lexeme>::empty() + postfix(e) =~= postfix(e));
}

/// The postfix sequence of a tree, evaluated after `before`, puts the tree's value on
/// the stack that `before` left, or fails as the tree's value does.
pub proof fn lemma_postfix_of_tree<D: Domain>(e: Expr, before: Seq<Lexeme>)
    ensures
        rpn_stack::<D>(before + postfix(e)) == match rpn_stack::<D>(before) {
            Ok(stack) => match meaning::<D>(e) {
                Ok(value) => Ok(stack.push(value)),
                Err(x) => Err(x),
            },
            Err(x) => Err(x),
        },
    decreases e,
{
    match e {
        Expr::Literal(text) => {
            let all = before + postfix(e);
            assert(all.drop_last() =~= before);
            assert(all.last() == Lexeme::Number(text));
        },
        Expr::Group(inner) => {
            lemma_postfix_of_tree::<D>(*inner, before);
        },
        Expr::Binary(op, left, right) => {
            let first = before + postfix(*left);
            let second = first + postfix(*right);
            let all = before + postfix(e);
            lemma_postfix_of_tree::<D>(*left, before);
            lemma_postfix_of_tree::<D>(*right, first);
            assert(all.drop_last() =~= second);
            assert(all.last() == Lexeme::Operator(op));
            if rpn_stack::<D>(second) is Ok {
                let stack = rpn_stack::<D>(before)->Ok_0;
                let a = meaning::<D>(*left)->Ok_0;
                let b = meaning::<D>(*right)->Ok_0;
                let full = stack.push(a).push(b);
                assert(full.take(full.len() - 2) =~= stack);
            }
        },
    }
}

/// The postfix sequence of a tree evaluates to the tree's value.
pub proof fn lemma_postfix_meaning<D: Domain>(e: Expr)
    ensures
        rpn_value::<D>(postfix(e)) == meaning::<D>(e),
{
    let before = Seq::<Lexeme>::empty();
    lemma_postfix_of_tree::<D>(e, before);
    assert(before + postfix(e) =~= postfix(e));
}

/// To convert an infix expression to postfix form and to evaluate that gives the value
/// that the expression has by precedence, operators of one precedence taken from left
/// to right; and where that value is an error, the same error.
pub proof fn lemma_conversion_keeps_meaning<D: Domain>(e: Expr)
    requires
        binds(e, 1),
    ensures
        postfix_of(written(e)) matches Ok(rpn) && rpn_value::<D>(rpn) == meaning::<D>(e),
{
    lemma_conversion(e);
    lemma_postfix_meaning::<D>(e);
}

/// What writes a tree holds no variable.
pub proof fn lemma_written_variable_free(e: Expr)
    ensures
        variable_free(written(e)),
    decreases e,
{
    match e {
        Expr::Literal(_) => {},
        Expr::Group(inner) => {
            lemma_written_variable_free(*inner);
        },
        Expr::Binary(_, left, right) => {
            lemma_written_variable_free(*left);
            lemma_written_variable_free(*right);
        },
    }
}

/// Where an infix expression has a value by precedence, the infix evaluator finds that
/// value, in any environment.
pub proof fn lemma_infix_finds_meaning<D: Domain>(e: Expr, env: Map<Seq<char>, D>)
    requires
        binds(e, 1),
    ensures
        meaning::<D>(e) is Ok <==> infix_value(written(e), env) is Ok,
        meaning::<D>(e) matches Ok(value) ==> infix_value(written(e), env) == Ok::<D, Failure>(
            value,
        ),
{
    lemma_conversion_keeps_meaning::<D>(e);
    lemma_written_variable_free(e);
    lemma_infix_agrees_with_postfix(written(e), env);
}

} // verus!
