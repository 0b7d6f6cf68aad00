use crate::error::ParseError;
use crate::token::{lemma_lexemes_push, lexemes, Lexeme, Operator, Token};
use vstd::prelude::*;
use vstd::string::StringExecFns;

verus! {

/// What waits on the operator stack: an open parenthesis, or an operator.
#[derive(Clone, Copy, Debug, PartialEq, Eq, Structural)]
pub enum Held {
    Paren,
    Op(Operator),
}

/// The converter's state: the postfix output so far, and the operator stack, its top
/// being last.
pub struct Yard {
    pub output: Seq<Lexeme>,
    pub held: Seq<Held>,
}

/// Moves operators from the top of the stack to the output for as long as the top is an
/// operator of precedence `p` or more. That an operator of the same precedence leaves
/// makes every operator group from left to right.
pub open spec fn yield_to(yard: Yard, p: u8) -> Yard
    decreases yard.held.len(),
{
    if yard.held.len() == 0 {
        yard
    } else {
        match yard.held.last() {
            Held::Op(op) => if op.precedence() >= p {
                yield_to(
                    Yard {
                        output: yard.output.push(Lexeme::Operator(op)),
                        held: yard.held.drop_last(),
                    },
                    p,
                )
            } else {
                yard
            },
            Held::Paren => yard,
        }
    }
}

/// Moves operators from the stack to the output down to the nearest open parenthesis,
/// and drops that; there is none where the stack holds no parenthesis.
pub open spec fn close_paren(yard: Yard) -> Option<Yard>
    decreases yard.held.len(),
{
    if yard.held.len() == 0 {
        None
    } else {
        match yard.held.last() {
            Held::Op(op) => close_paren(
                Yard { output: yard.output.push(Lexeme::Operator(op)), held: yard.held.drop_last() },
            ),
            Held::Paren => Some(Yard { output: yard.output, held: yard.held.drop_last() }),
        }
    }
}

/// What one token does to the converter.
pub open spec fn yard_step(yard: Yard, token: Lexeme) -> Result<Yard, ParseError> {
    match token {
        Lexeme::Number(_) | Lexeme::Identifier(_) => Ok(
            Yard { output: yard.output.push(token), held: yard.held },
        ),
        Lexeme::Operator(op) => {
            let yielded = yield_to(yard, op.precedence());
            Ok(Yard { output: yielded.output, held: yielded.held.push(Held::Op(op)) })
        },
        Lexeme::LParen => Ok(Yard { output: yard.output, held: yard.held.push(Held::Paren) }),
        Lexeme::RParen => match close_paren(yard) {
            Some(closed) => Ok(closed),
            None => Err(ParseError::UnmatchedParen),
        },
    }
}

/// The converter after all of `tokens`, taken from left to right.
pub open spec fn yard_after(tokens: Seq<Lexeme>) -> Result<Yard, ParseError>
    decreases tokens.len(),
{
    if tokens.len() == 0 {
        Ok(Yard { output: Seq::empty(), held: Seq::empty() })
    } else {
        match yard_after(tokens.drop_last()) {
            Ok(yard) => yard_step(yard, tokens.last()),
            Err(e) => Err(e),
        }
    }
}

/// The output once the input has ended: what is left on the stack follows, from the
/// top down. A parenthesis left there was never closed.
pub open spec fn flush(yard: Yard) -> Result<Seq<Lexeme>, ParseError>
    decreases yard.held.len(),
{
    if yard.held.len() == 0 {
        Ok(yard.output)
    } else {
        match yard.held.last() {
            Held::Op(op) => flush(
                Yard { output: yard.output.push(Lexeme::Operator(op)), held: yard.held.drop_last() },
            ),
            Held::Paren => Err(ParseError::UnmatchedParen),
        }
    }
}

/// The postfix form of an infix sequence.
pub open spec fn postfix_of(tokens: Seq<Lexeme>) -> Result<Seq<Lexeme>, ParseError> {
    match yard_after(tokens) {
        Ok(yard) => flush(yard),
        Err(e) => Err(e),
    }
}

/// How many parentheses are open after the tokens: each `(` counts 1, each `)` counts -1.
pub open spec fn paren_depth(tokens: Seq<Lexeme>) -> int
    decreases tokens.len(),
{
    if tokens.len() == 0 {
        0
    } else {
        paren_depth(tokens.drop_last()) + match tokens.last() {
            Lexeme::LParen => 1int,
            Lexeme::RParen => -1int,
            _ => 0int,
        }
    }
}

/// Whether every parenthesis has its partner: no `)` comes before its `(`, and none is
/// left open at the end.
pub open spec fn balanced(tokens: Seq<Lexeme>) -> bool {
    &&& forall|k: int| 0 <= k <= tokens.len() ==> paren_depth(#[trigger] tokens.take(k)) >= 0
    &&& paren_depth(tokens) == 0
}

/// How many of the tokens are no parentheses.
pub open spec fn meaningful(tokens: Seq<Lexeme>) -> nat
    decreases tokens.len(),
{
    if tokens.len() == 0 {
        0
    } else {
        meaningful(tokens.drop_last()) + match tokens.last() {
            Lexeme::LParen | Lexeme::RParen => 0nat,
            _ => 1nat,
        }
    }
}

/// Whether none of the tokens is a parenthesis.
pub open spec fn paren_free(tokens: Seq<Lexeme>) -> bool {
    forall|i: int| 0 <= i < tokens.len() ==> !(#[trigger] tokens[i] is LParen) && !(tokens[i] is RParen)
}

/// How many open parentheses are held.
pub open spec fn parens_held(held: Seq<Held>) -> nat
    decreases held.len(),
{
    if held.len() == 0 {
        0
    } else {
        parens_held(held.drop_last()) + match held.last() {
            Held::Paren => 1nat,
            Held::Op(_) => 0nat,
        }
    }
}

/// How many operators are held.
pub open spec fn operators_held(held: Seq<Held>) -> nat
    decreases held.len(),
{
    if held.len() == 0 {
        0
    } else {
        operators_held(held.drop_last()) + match held.last() {
            Held::Paren => 0nat,
            Held::Op(_) => 1nat,
        }
    }
}

/// Yielding moves operators from the stack to the output: it loses none, and leaves
/// the parentheses where they are.
pub proof fn lemma_yield_counts(yard: Yard, p: u8)
    requires
        paren_free(yard.output),
    ensures
        parens_held(yield_to(yard, p).held) == parens_held(yard.held),
        yield_to(yard, p).output.len() + operators_held(yield_to(yard, p).held)
            == yard.output.len() + operators_held(yard.held),
        paren_free(yield_to(yard, p).output),
    decreases yard.held.len(),
{
    if yard.held.len() > 0 {
        if let Held::Op(op) = yard.held.last() {
            if op.precedence() >= p {
                lemma_yield_counts(
                    Yard {
                        output: yard.output.push(Lexeme::Operator(op)),
                        held: yard.held.drop_last(),
                    },
                    p,
                );
            }
        }
    }
}

/// A closing parenthesis finds its partner exactly where one is held; it then takes
/// that one away, and loses no operator.
pub proof fn lemma_close_counts(yard: Yard)
    requires
        paren_free(yard.output),
    ensures
        close_paren(yard) is Some <==> parens_held(yard.held) > 0,
        close_paren(yard) matches Some(closed) ==> parens_held(closed.held) + 1 == parens_held(
            yard.held,
        ) && closed.output.len() + operators_held(closed.held) == yard.output.len()
            + operators_held(yard.held) && paren_free(closed.output),
    decreases yard.held.len(),
{
    if yard.held.len() > 0 {
        if let Held::Op(op) = yard.held.last() {
            lemma_close_counts(
                Yard { output: yard.output.push(Lexeme::Operator(op)), held: yard.held.drop_last() },
            );
        }
    }
}

/// The end of the input succeeds exactly where no parenthesis is held; the output then
/// gains the held operators.
pub proof fn lemma_flush_counts(yard: Yard)
    requires
        paren_free(yard.output),
    ensures
        flush(yard) is Ok <==> parens_held(yard.held) == 0,
        flush(yard) matches Ok(output) ==> output.len() == yard.output.len() + operators_held(
            yard.held,
        ) && paren_free(output),
    decreases yard.held.len(),
{
    if yard.held.len() > 0 {
        if let Held::Op(op) = yard.held.last() {
            lemma_flush_counts(
                Yard { output: yard.output.push(Lexeme::Operator(op)), held: yard.held.drop_last() },
            );
        }
    }
}

/// The converter goes on for as long as no `)` comes before its `(`. It holds as many
/// parentheses as are open, and its output and its stack together hold every token
/// that is no parenthesis.
pub proof fn lemma_yard_counts(tokens: Seq<Lexeme>)
    ensures
        yard_after(tokens) is Ok <==> forall|k: int|
            0 <= k <= tokens.len() ==> paren_depth(#[trigger] tokens.take(k)) >= 0,
        yard_after(tokens) matches Ok(yard) ==> parens_held(yard.held) == paren_depth(tokens)
            && yard.output.len() + operators_held(yard.held) == meaningful(tokens) && paren_free(
            yard.output,
        ),
    decreases tokens.len(),
{
    if tokens.len() == 0 {
        assert forall|k: int| 0 <= k <= tokens.len() implies paren_depth(
            #[trigger] tokens.take(k),
        ) >= 0 by {
            assert(tokens.take(k) =~= tokens);
        }
    } else {
        let earlier = tokens.drop_last();
        lemma_yard_counts(earlier);
        assert(tokens.take(tokens.len() as int) =~= tokens);
        assert forall|k: int| 0 <= k <= earlier.len() implies earlier.take(k) == tokens.take(k) by {
            assert(earlier.take(k) =~= tokens.take(k));
        }
        if let Ok(yard) = yard_after(earlier) {
            match tokens.last() {
                Lexeme::Operator(op) => {
                    lemma_yield_counts(yard, op.precedence());
                    let yielded = yield_to(yard, op.precedence());
                    assert(yielded.held.push(Held::Op(op)).drop_last() =~= yielded.held);
                },
                Lexeme::RParen => {
                    lemma_close_counts(yard);
                },
                Lexeme::LParen => {
                    assert(yard.held.push(Held::Paren).drop_last() =~= yard.held);
                },
                _ => {},
            }
        } else {
            let k = choose|k: int|
                0 <= k <= earlier.len() && !(paren_depth(#[trigger] earlier.take(k)) >= 0);
            assert(earlier.take(k) == tokens.take(k));
        }
    }
}

/// An infix sequence has a postfix form exactly where its parentheses are balanced.
/// The postfix form holds no parenthesis, and as many tokens as the infix sequence
/// holds besides parentheses.
pub proof fn lemma_postfix_shape(tokens: Seq<Lexeme>)
    ensures
        postfix_of(tokens) is Ok <==> balanced(tokens),
        postfix_of(tokens) matches Ok(rpn) ==> rpn.len() == meaningful(tokens) && paren_free(rpn),
{
    lemma_yard_counts(tokens);
    if let Ok(yard) = yard_after(tokens) {
        lemma_flush_counts(yard);
    }
}

/// Once a token has failed, the conversion has failed.
pub proof fn lemma_yard_failure(tokens: Seq<Lexeme>, k: int)
    requires
        0 <= k < tokens.len(),
        yard_after(tokens.take(k + 1)) is Err,
    ensures
        yard_after(tokens) is Err,
    decreases tokens.len(),
{
    if tokens.len() == k + 1 {
        assert(tokens.take(k + 1) =~= tokens);
    } else {
        assert(tokens.drop_last().take(k + 1) =~= tokens.take(k + 1));
        lemma_yard_failure(tokens.drop_last(), k);
    }
}

/// Converts an infix sequence to postfix form. The only failure is a parenthesis
/// without its partner.
pub fn to_rpn(tokens: Vec<Token>) -> (result: Result<Vec<Token>, ParseError>)
    ensures
        result is Ok <==> balanced(lexemes(tokens@)),
        match result {
            Ok(rpn) => postfix_of(lexemes(tokens@)) == Ok::<Seq<Lexeme>, ParseError>(
                lexemes(rpn@),
            ) && rpn@.len() == meaningful(lexemes(tokens@)) && paren_free(lexemes(rpn@)),
            Err(e) => e == ParseError::UnmatchedParen,
        },
{
    let ghost all = lexemes(tokens@);
    proof {
        lemma_postfix_shape(all);
    }
    let mut output: Vec<Token> = Vec::new();
    let mut stack: Vec<Held> = Vec::new();
    let mut i: usize = 0;
    assert(all.take(0) =~= Seq::<Lexeme>::empty());
    assert(lexemes(output@) =~= Seq::<Lexeme>::empty());
    while i < tokens.len()
        invariant
            i <= tokens.len(),
            all == lexemes(tokens@),
            postfix_of(all) is Ok <==> balanced(all),
            yard_after(all.take(i as int)) == Ok::<Yard, ParseError>(
                Yard { output: lexemes(output@), held: stack@ },
            ),
        decreases tokens.len() - i,
    {
        proof {
            assert(all.take(i + 1).drop_last() =~= all.take(i as int));
            assert(all.take(i + 1).last() == tokens@[i as int]@);
        }
        let ghost target = yard_step(Yard { output: lexemes(output@), held: stack@ }, all[i as int]);
        match &tokens[i] {
            Token::Operator(op) => {
                let p = op.precedence();
                let ghost start = Yard { output: lexemes(output@), held: stack@ };
                while stack.len() > 0 && holds_operator_of(&stack, p)
                    invariant
                        yield_to(Yard { output: lexemes(output@), held: stack@ }, p) == yield_to(
                            start,
                            p,
                        ),
                    decreases stack.len(),
                {
                    match stack.pop() {
                        Some(Held::Op(top)) => {
                            proof {
                                lemma_lexemes_push(output@, Token::Operator(top));
                            }
                            output.push(Token::Operator(top));
                        },
                        _ => {},
                    }
                }
                stack.push(Held::Op(*op));
            },
            Token::LParen => {
                stack.push(Held::Paren);
            },
            Token::RParen => {
                let ghost start = Yard { output: lexemes(output@), held: stack@ };
                let mut closed = false;
                while !closed && stack.len() > 0
                    invariant
                        !closed ==> close_paren(Yard { output: lexemes(output@), held: stack@ })
                            == close_paren(start),
                        closed ==> close_paren(start) == Some(
                            Yard { output: lexemes(output@), held: stack@ },
                        ),
                    decreases stack.len() + if closed { 0int } else { 1int },
                {
                    match stack.pop() {
                        Some(Held::Op(top)) => {
                            proof {
                                lemma_lexemes_push(output@, Token::Operator(top));
                            }
                            output.push(Token::Operator(top));
                        },
                        _ => {
                            closed = true;
                        },
                    }
                }
                if !closed {
                    proof {
                        lemma_yard_failure(all, i as int);
                    }
                    return Err(ParseError::UnmatchedParen);
                }
            },
            _ => {
                let token = tokens[i].clone();
                proof {
                    lemma_lexemes_push(output@, token);
                }
                output.push(token);
            },
        }
        assert(target == Ok::<Yard, ParseError>(Yard { output: lexemes(output@), held: stack@ }));
        i += 1;
    }
    assert(all.take(i as int) =~= all);
    let ghost start = Yard { output: lexemes(output@), held: stack@ };
    while stack.len() > 0
        invariant
            all == lexemes(tokens@),
            postfix_of(all) is Ok <==> balanced(all),
            postfix_of(all) matches Ok(rpn) ==> rpn.len() == meaningful(all) && paren_free(rpn),
            postfix_of(all) == flush(start),
            flush(Yard { output: lexemes(output@), held: stack@ }) == flush(start),
        decreases stack.len(),
    {
        match stack.pop() {
            Some(Held::Op(top)) => {
                proof {
                    lemma_lexemes_push(output@, Token::Operator(top));
                }
                output.push(Token::Operator(top));
            },
            _ => {
                return Err(ParseError::UnmatchedParen);
            },
        }
    }
    Ok(output)
}

/// Whether the top of the stack is an operator of precedence `p` or more.
fn holds_operator_of(stack: &Vec<Held>, p: u8) -> (yes: bool)
    requires
        stack.len() > 0,
    ensures
        yes == match stack@.last() {
            Held::Op(op) => op.precedence() >= p,
            Held::Paren => false,
        },
{
    match stack[stack.len() - 1] {
        Held::Op(op) => op.precedence() >= p,
        Held::Paren => false,
    }
}

/// How a token is written.
pub open spec fn spelling(lexeme: Lexeme) -> Seq<char> {
    match lexeme {
        Lexeme::Number(text) => text,
        Lexeme::Operator(op) => seq![op.symbol()],
        Lexeme::LParen => seq!['('],
        Lexeme::RParen => seq![')'],
        Lexeme::Identifier(name) => name,
    }
}

/// The tokens as they are written, with one space between neighbours.
pub open spec fn spaced(tokens: Seq<Lexeme>) -> Seq<char>
    decreases tokens.len(),
{
    if tokens.len() == 0 {
        Seq::empty()
    } else if tokens.len() == 1 {
        spelling(tokens[0])
    } else {
        spaced(tokens.drop_last()) + seq![' '] + spelling(tokens.last())
    }
}

/// Writes the tokens with one space between neighbours.
pub fn join_tokens(tokens: &Vec<Token>) -> (text: String)
    ensures
        text@ == spaced(lexemes(tokens@)),
{
    let ghost all = lexemes(tokens@);
    let mut text = String::new();
    let mut i: usize = 0;
    assert(all.take(0) =~= Seq::<Lexeme>::empty());
    while i < tokens.len()
        invariant
            i <= tokens.len(),
            all == lexemes(tokens@),
            text@ == spaced(all.take(i as int)),
        decreases tokens.len() - i,
    {
        proof {
            assert(all.take(i + 1).drop_last() =~= all.take(i as int));
            assert(all.take(i + 1).last() == tokens@[i as int]@);
            if i == 1 {
                assert(all.take(1)[0] == all[0]);
            }
        }
        if i > 0 {
            text.push(' ');
        }
        match &tokens[i] {
            Token::Number(literal) => {
                text.append(literal.as_str());
            },
            Token::Operator(op) => {
                text.push(op.symbol());
            },
            Token::LParen => {
                text.push('(');
            },
            Token::RParen => {
                text.push(')');
            },
            Token::Identifier(name) => {
                text.append(name.as_str());
            },
        }
        assert(text@ =~= spaced(all.take(i + 1)));
        i += 1;
    }
    assert(all.take(i as int) =~= all);
    text
}

/// Converts an infix sequence to postfix form, and writes the postfix form out with
/// one space between its tokens.
pub fn shunting_yard_algorithm(tokens: Vec<Token>) -> (result: Result<(Vec<Token>, String), ParseError>)
    ensures
        result is Ok <==> balanced(lexemes(tokens@)),
        match result {
            Ok((output, rpn_string)) => postfix_of(lexemes(tokens@)) == Ok::<
                Seq<Lexeme>,
                ParseError,
            >(lexemes(output@)) && rpn_string@ == spaced(lexemes(output@)),
            Err(e) => e == ParseError::UnmatchedParen,
        },
{
    match to_rpn(tokens) {
        Ok(output) => {
            let rpn_string = join_tokens(&output);
            Ok((output, rpn_string))
        },
        Err(e) => Err(e),
    }
}

} // verus!
