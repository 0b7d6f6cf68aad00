use crate::domain::is_digit;
use crate::env::name_char;
use crate::error::{LexError, LexFailure};
use crate::text::{chars_of, numeric, string_of};
use crate::token::{lexemes, operator_of, Lexeme, Operator, Token};
use vstd::prelude::*;

verus! {

/// Whether the character separates tokens without being one: a space or a tab.
pub open spec fn is_blank(c: char) -> bool {
    c == ' ' || c == '\t'
}

/// Whether a number may start with the character: a digit or a decimal point.
pub open spec fn starts_number(c: char) -> bool {
    is_digit(c) || c == '.'
}

/// Whether the character continues a number: a numeric character or a decimal point.
pub open spec fn continues_number(c: char) -> bool {
    numeric(c) || c == '.'
}

/// Whether a name may start with the character: a letter of `a` to `z` in either case,
/// or `_`.
pub open spec fn starts_name(c: char) -> bool {
    ('a' <= c <= 'z') || ('A' <= c <= 'Z') || c == '_'
}

/// Where the run of characters that continue a number ends, looking from `from` on.
pub open spec fn number_end(s: Seq<char>, from: int) -> int
    decreases s.len() - from,
{
    if 0 <= from < s.len() && continues_number(s[from]) {
        number_end(s, from + 1)
    } else {
        from
    }
}

/// Where the run of characters that may stand in a name ends, looking from `from` on.
pub open spec fn name_end(s: Seq<char>, from: int) -> int
    decreases s.len() - from,
{
    if 0 <= from < s.len() && name_char(s[from]) {
        name_end(s, from + 1)
    } else {
        from
    }
}

/// How many of the characters are decimal points.
pub open spec fn points(s: Seq<char>) -> nat
    decreases s.len(),
{
    if s.len() == 0 {
        0
    } else {
        points(s.drop_last()) + if s.last() == '.' { 1nat } else { 0nat }
    }
}

/// How many of the characters are digits.
pub open spec fn digits(s: Seq<char>) -> nat
    decreases s.len(),
{
    if s.len() == 0 {
        0
    } else {
        digits(s.drop_last()) + if is_digit(s.last()) { 1nat } else { 0nat }
    }
}

/// Whether the text is a decimal numeral: digits with at most one decimal point among,
/// before or after them, and nothing else.
pub open spec fn valid_numeral(s: Seq<char>) -> bool {
    digits(s) >= 1 && points(s) <= 1 && digits(s) + points(s) == s.len()
}

/// A run ends at or after the place where it was looked for, within the text.
pub proof fn lemma_run_ends(s: Seq<char>, from: int)
    requires
        0 <= from <= s.len(),
    ensures
        from <= number_end(s, from) <= s.len(),
        from <= name_end(s, from) <= s.len(),
    decreases s.len() - from,
{
    if from < s.len() {
        lemma_run_ends(s, from + 1);
    }
}

/// `first`, then what follows if anything does.
pub open spec fn followed_by(first: Lexeme, rest: Result<Seq<Lexeme>, LexFailure>) -> Result<
    Seq<Lexeme>,
    LexFailure,
> {
    match rest {
        Ok(more) => Ok(seq![first] + more),
        Err(e) => Err(e),
    }
}

/// The tokens of the text from position `from` on. Blanks are skipped. A digit or a
/// decimal point starts a number, which runs on over numeric characters and decimal
/// points and must be a decimal numeral. An operator character or a parenthesis is a
/// token by itself. A letter or `_` starts a name, which runs on over alphanumeric
/// characters and `_`. Any other character is an error, reported with its position.
pub open spec fn lexed_from(s: Seq<char>, from: int) -> Result<Seq<Lexeme>, LexFailure>
    decreases s.len() - from,
    via lexed_from_decreases
{
    if !(0 <= from < s.len()) {
        Ok(Seq::empty())
    } else {
        let c = s[from];
        if is_blank(c) {
            lexed_from(s, from + 1)
        } else if starts_number(c) {
            let end = number_end(s, from + 1);
            let raw = s.subrange(from, end);
            if valid_numeral(raw) {
                followed_by(Lexeme::Number(raw), lexed_from(s, end))
            } else {
                Err(LexFailure::InvalidNumber(raw))
            }
        } else if operator_of(c) is Some {
            followed_by(Lexeme::Operator(operator_of(c)->Some_0), lexed_from(s, from + 1))
        } else if c == '(' {
            followed_by(Lexeme::LParen, lexed_from(s, from + 1))
        } else if c == ')' {
            followed_by(Lexeme::RParen, lexed_from(s, from + 1))
        } else if starts_name(c) {
            let end = name_end(s, from + 1);
            followed_by(Lexeme::Identifier(s.subrange(from, end)), lexed_from(s, end))
        } else {
            Err(LexFailure::UnexpectedChar(c, from as usize))
        }
    }
}

#[via_fn]
proof fn lexed_from_decreases(s: Seq<char>, from: int) {
    if 0 <= from < s.len() {
        lemma_run_ends(s, from + 1);
    }
}

/// The tokens of a text.
pub open spec fn lexed(s: Seq<char>) -> Result<Seq<Lexeme>, LexFailure> {
    lexed_from(s, 0)
}

/// `done`, then what follows if anything does.
pub open spec fn continued(done: Seq<Lexeme>, rest: Result<Seq<Lexeme>, LexFailure>) -> Result<
    Seq<Lexeme>,
    LexFailure,
> {
    match rest {
        Ok(more) => Ok(done + more),
        Err(e) => Err(e),
    }
}

/// Whether the text is a decimal numeral.
fn is_valid_numeral(chars: &Vec<char>, from: usize, to: usize) -> (valid: bool)
    requires
        from <= to <= chars.len(),
    ensures
        valid == valid_numeral(chars@.subrange(from as int, to as int)),
{
    let ghost raw = chars@.subrange(from as int, to as int);
    let mut seen_digits: usize = 0;
    let mut seen_points: usize = 0;
    let mut i: usize = from;
    assert(raw.take(0) =~= Seq::<char>::empty());
    while i < to
        invariant
            from <= i <= to <= chars.len(),
            raw == chars@.subrange(from as int, to as int),
            seen_digits == digits(raw.take(i - from)),
            seen_points == points(raw.take(i - from)),
            seen_digits + seen_points <= i - from,
        decreases to - i,
    {
        proof {
            assert(raw.take(i - from + 1).drop_last() =~= raw.take(i - from));
            assert(raw.take(i - from + 1).last() == chars@[i as int]);
        }
        let c = chars[i];
        if '0' <= c && c <= '9' {
            seen_digits += 1;
        } else if c == '.' {
            seen_points += 1;
        }
        i += 1;
    }
    assert(raw.take(to - from) =~= raw);
    seen_digits >= 1 && seen_points <= 1 && seen_digits + seen_points == to - from
}

/// Splits a text into tokens.
pub fn tokenize(expr: &str) -> (result: Result<Vec<Token>, LexError>)
    ensures
        match result {
            Ok(tokens) => lexed(expr@) == Ok::<Seq<Lexeme>, LexFailure>(lexemes(tokens@)),
            Err(e) => lexed(expr@) == Err::<Seq<Lexeme>, LexFailure>(e@),
        },
{
    let chars = chars_of(expr);
    let n = chars.len();
    let mut tokens: Vec<Token> = Vec::new();
    let mut i: usize = 0;
    assert(lexemes(tokens@) =~= Seq::<Lexeme>::empty());
    assert(Seq::<Lexeme>::empty() + lexed(expr@)->Ok_0 =~= lexed(expr@)->Ok_0);
    while i < n
        invariant
            i <= n == chars.len(),
            chars@ == expr@,
            lexed(expr@) == continued(lexemes(tokens@), lexed_from(chars@, i as int)),
        decreases n - i,
    {
        let c = chars[i];
        let ghost done = lexemes(tokens@);
        let ghost here = lexed_from(chars@, i as int);
        if c == ' ' || c == '\t' {
            i += 1;
        } else if ('0' <= c && c <= '9') || c == '.' {
            let mut end: usize = i + 1;
            while end < n && (chars[end].is_numeric() || chars[end] == '.')
                invariant
                    i < end <= n == chars.len(),
                    number_end(chars@, end as int) == number_end(chars@, i + 1),
                decreases n - end,
            {
                end += 1;
            }
            if !is_valid_numeral(&chars, i, end) {
                return Err(LexError::InvalidNumber(string_of(&chars, i, end)));
            }
            tokens.push(Token::Number(string_of(&chars, i, end)));
            proof {
                let first = Lexeme::Number(chars@.subrange(i as int, end as int));
                let rest = lexed_from(chars@, end as int);
                assert(here == followed_by(first, rest));
                assert(lexemes(tokens@) =~= done.push(first));
                if rest is Ok {
                    assert(done + (seq![first] + rest->Ok_0) =~= done.push(first) + rest->Ok_0);
                }
            }
            i = end;
        } else if c == '(' || c == ')' {
            let token = if c == '(' { Token::LParen } else { Token::RParen };
            let ghost first = token@;
            tokens.push(token);
            proof {
                let rest = lexed_from(chars@, i + 1);
                assert(here == followed_by(first, rest));
                assert(lexemes(tokens@) =~= done.push(first));
                if rest is Ok {
                    assert(done + (seq![first] + rest->Ok_0) =~= done.push(first) + rest->Ok_0);
                }
            }
            i += 1;
        } else if ('a' <= c && c <= 'z') || ('A' <= c && c <= 'Z') || c == '_' {
            let mut end: usize = i + 1;
            while end < n && (chars[end].is_alphanumeric() || chars[end] == '_')
                invariant
                    i < end <= n == chars.len(),
                    name_end(chars@, end as int) == name_end(chars@, i + 1),
                decreases n - end,
            {
                end += 1;
            }
            tokens.push(Token::Identifier(string_of(&chars, i, end)));
            proof {
                let first = Lexeme::Identifier(chars@.subrange(i as int, end as int));
                let rest = lexed_from(chars@, end as int);
                assert(here == followed_by(first, rest));
                assert(lexemes(tokens@) =~= done.push(first));
                if rest is Ok {
                    assert(done + (seq![first] + rest->Ok_0) =~= done.push(first) + rest->Ok_0);
                }
            }
            i = end;
        } else {
            match Operator::from_symbol(c) {
                Some(op) => {
                    tokens.push(Token::Operator(op));
                    proof {
                        let first = Lexeme::Operator(op);
                        let rest = lexed_from(chars@, i + 1);
                        assert(here == followed_by(first, rest));
                        assert(lexemes(tokens@) =~= done.push(first));
                        if rest is Ok {
                            assert(done + (seq![first] + rest->Ok_0) =~= done.push(first)
                                + rest->Ok_0);
                        }
                    }
                    i += 1;
                },
                None => {
                    return Err(LexError::UnexpectedChar(c, i));
                },
            }
        }
    }
    assert(lexemes(tokens@) + Seq::<Lexeme>::empty() =~= lexemes(tokens@));
    Ok(tokens)
}

} // verus!
