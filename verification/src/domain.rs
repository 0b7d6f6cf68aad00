use crate::error::{EvalError, EvalFailure};
use crate::text::chars_of;
use crate::token::Operator;
use vstd::prelude::*;

verus! {

/// Some string of the given characters. What a domain says of a literal is asked of
/// this string, so that it depends on the characters alone.
pub open spec fn spelled(text: Seq<char>) -> String {
    choose|s: String| s@ == text
}

/// The value that a literal of the given characters denotes in the domain `D`, where
/// they spell a literal of the domain.
pub open spec fn denoted<D: Domain>(text: Seq<char>) -> Option<D> {
    D::literal(&spelled(text))
}

/// A numeric domain: the values that expressions denote, and the arithmetic on them.
///
/// The evaluators are written once, over any domain. The three spec functions say what
/// the domain means; the three executable functions compute it. What is proved of the
/// evaluators holds of a domain whose executable functions keep these contracts.
pub trait Domain: Sized + Copy {
    /// The value that a literal denotes, where the text is a literal of the domain.
    /// It is asked only of `spelled(..)`: see `denoted`.
    spec fn literal(text: &String) -> Option<Self>;

    /// Whether the value is a zero, which `/` rejects as divisor.
    spec fn zero(self) -> bool;

    /// `left op right`, where the domain defines it.
    spec fn combine(op: Operator, left: Self, right: Self) -> Option<Self>;

    /// Reads a literal. The value is a function of the characters of the text.
    fn parse_literal(text: &String) -> (value: Option<Self>)
        ensures
            value == Self::literal(&spelled(text@)),
    ;

    /// Tests a value for zero.
    fn is_zero(&self) -> (zero: bool)
        ensures
            zero == self.zero(),
    ;

    /// Computes `left op right`.
    fn compute(op: Operator, left: Self, right: Self) -> (value: Option<Self>)
        ensures
            value == Self::combine(op, left, right),
    ;
}

/// `left op right` in the domain `D`: `/` by a zero is an error, and so is an operator
/// that the domain does not define.
pub open spec fn applied<D: Domain>(op: Operator, left: D, right: D) -> Result<D, EvalFailure> {
    if op == Operator::Div && right.zero() {
        Err(EvalFailure::DivisionByZero)
    } else {
        match D::combine(op, left, right) {
            Some(value) => Ok(value),
            None => Err(EvalFailure::UnknownOperator),
        }
    }
}

/// Computes `left op right` in the domain `D`.
pub fn apply_op<D: Domain>(left: D, right: D, op: Operator) -> (value: Result<D, EvalError>)
    ensures
        match value {
            Ok(v) => applied(op, left, right) == Ok::<D, EvalFailure>(v),
            Err(e) => applied(op, left, right) == Err::<D, EvalFailure>(e@),
        },
{
    if op == Operator::Div && right.is_zero() {
        return Err(EvalError::DivisionByZero);
    }
    match D::compute(op, left, right) {
        Some(value) => Ok(value),
        None => Err(EvalError::UnknownOperator),
    }
}

/// Whether the character is one of `0` to `9`.
pub open spec fn is_digit(c: char) -> bool {
    '0' <= c <= '9'
}

/// The number that a digit stands for.
pub open spec fn digit_value(c: char) -> int {
    c as int - '0' as int
}

/// Whether every character is a digit.
pub open spec fn all_digits(s: Seq<char>) -> bool {
    forall|i: int| 0 <= i < s.len() ==> is_digit(#[trigger] s[i])
}

/// The number that a sequence of digits spells in base ten; 0 for the empty sequence.
pub open spec fn decimal_value(digits: Seq<char>) -> int
    decreases digits.len(),
{
    if digits.len() == 0 {
        0
    } else {
        10 * decimal_value(digits.drop_last()) + digit_value(digits.last())
    }
}

/// The integer that a text spells: an optional `+` or `-`, then one digit or more.
pub open spec fn signed_decimal(s: Seq<char>) -> Option<int> {
    if s.len() == 0 {
        None
    } else {
        let signed = s[0] == '-' || s[0] == '+';
        let digits = if signed { s.drop_first() } else { s };
        if digits.len() == 0 || !all_digits(digits) {
            None
        } else if s[0] == '-' {
            Some(-decimal_value(digits))
        } else {
            Some(decimal_value(digits))
        }
    }
}

/// The 128-bit integer that a text spells, if it spells one and the integer fits.
pub open spec fn integer_literal(s: Seq<char>) -> Option<i128> {
    match signed_decimal(s) {
        Some(v) => if i128::MIN <= v <= i128::MAX { Some(v as i128) } else { None },
        None => None,
    }
}

/// 2^128, the number of 128-bit integers.
pub open spec fn modulus() -> int {
    0x1_0000_0000_0000_0000_0000_0000_0000_0000int
}

/// The 128-bit two's complement integer that is congruent to `v` modulo 2^128.
pub open spec fn wrap(v: int) -> i128 {
    let m = v % modulus();
    if m > i128::MAX {
        (m - modulus()) as i128
    } else {
        m as i128
    }
}

/// The quotient of `x` by `d`, rounded towards zero; `d` is not 0.
pub open spec fn truncated_quotient(x: int, d: int) -> int {
    if x >= 0 && d > 0 {
        x / d
    } else if x < 0 && d < 0 {
        (-x) / (-d)
    } else if x < 0 {
        -((-x) / d)
    } else {
        -(x / (-d))
    }
}

/// A prefix of a digit sequence spells no more than the sequence.
pub proof fn lemma_decimal_prefix(digits: Seq<char>, k: int)
    requires
        all_digits(digits),
        0 <= k <= digits.len(),
    ensures
        0 <= decimal_value(digits.take(k)) <= decimal_value(digits),
    decreases digits.len() - k,
{
    if k == digits.len() {
        assert(digits.take(k) =~= digits);
        lemma_decimal_nonnegative(digits);
    } else {
        lemma_decimal_prefix(digits.drop_last(), k);
        assert(digits.drop_last().take(k) =~= digits.take(k));
        assert(is_digit(digits[digits.len() - 1]));
    }
}

/// A digit sequence spells no negative number.
pub proof fn lemma_decimal_nonnegative(digits: Seq<char>)
    requires
        all_digits(digits),
    ensures
        0 <= decimal_value(digits),
    decreases digits.len(),
{
    if digits.len() > 0 {
        lemma_decimal_nonnegative(digits.drop_last());
        assert(is_digit(digits[digits.len() - 1]));
    }
}

/// The integers of 128 bits. `+`, `-` and `*` wrap around modulo 2^128; `/` rounds
/// towards zero, and wraps in its one case of overflow; `%` and `^` are not defined.
impl Domain for i128 {
    open spec fn literal(text: &String) -> Option<i128> {
        integer_literal(text@)
    }

    open spec fn zero(self) -> bool {
        self == 0
    }

    open spec fn combine(op: Operator, left: i128, right: i128) -> Option<i128> {
        match op {
            Operator::Add => Some(wrap(left + right)),
            Operator::Sub => Some(wrap(left - right)),
            Operator::Mul => Some(wrap(left * right)),
            Operator::Div => if right == 0 {
                None
            } else {
                Some(wrap(truncated_quotient(left as int, right as int)))
            },
            Operator::Rem | Operator::Pow => None,
        }
    }

    fn parse_literal(text: &String) -> (value: Option<i128>) {
        assert(spelled(text@)@ == text@) by {
            let witness = *text;
            assert(witness@ == text@);
        }
        let chars = chars_of(text.as_str());
        let n = chars.len();
        if n == 0 {
            return None;
        }
        let negative = chars[0] == '-';
        let start: usize = if negative || chars[0] == '+' { 1 } else { 0 };
        if start == n {
            return None;
        }
        let ghost digits = chars@.subrange(start as int, n as int);
        assert(digits =~= if start == 1 { chars@.drop_first() } else { chars@ });
        let mut acc: i128 = 0;
        let mut i: usize = start;
        while i < n
            invariant
                start <= i <= n == chars.len(),
                chars@ == text@,
                negative == (chars@[0] == '-'),
                start == if chars@[0] == '-' || chars@[0] == '+' { 1usize } else { 0usize },
                digits == if start == 1 { chars@.drop_first() } else { chars@ },
                digits == chars@.subrange(start as int, n as int),
                all_digits(digits.take(i - start)),
                negative ==> acc == -decimal_value(digits.take(i - start)),
                !negative ==> acc == decimal_value(digits.take(i - start)),
            decreases n - i,
        {
            let c = chars[i];
            if !('0' <= c && c <= '9') {
                assert(!is_digit(digits[i - start]));
                return None;
            }
            let ghost before = digits.take(i - start);
            let ghost after = digits.take(i - start + 1);
            proof {
                assert(after.drop_last() =~= before);
                assert(after.last() == c);
                assert forall|j: int| 0 <= j < after.len() implies is_digit(#[trigger] after[j]) by {
                    if j < before.len() {
                        assert(after[j] == before[j]);
                    }
                }
                lemma_decimal_nonnegative(before);
                if all_digits(digits) {
                    lemma_decimal_prefix(digits, i - start + 1);
                }
            }
            let d: i128 = (c as u32 - '0' as u32) as i128;
            let next = match acc.checked_mul(10) {
                Some(m) => if negative { m.checked_sub(d) } else { m.checked_add(d) },
                None => None,
            };
            match next {
                Some(v) => {
                    acc = v;
                },
                None => {
                    return None;
                },
            }
            i += 1;
        }
        assert(digits.take(n - start) =~= digits);
        Some(acc)
    }

    fn is_zero(&self) -> (zero: bool) {
        *self == 0
    }

    fn compute(op: Operator, left: i128, right: i128) -> (value: Option<i128>) {
        match op {
            Operator::Add => {
                Some(left.wrapping_add(right))
            },
            Operator::Sub => {
                Some(left.wrapping_sub(right))
            },
            Operator::Mul => {
                Some(left.wrapping_mul(right))
            },
            Operator::Div => {
                if right == 0 {
                    None
                } else {
                    match left.checked_div(right) {
                        Some(q) => Some(q),
                        None => Some(i128::MIN),
                    }
                }
            },
            Operator::Rem | Operator::Pow => None,
        }
    }
}

} // verus!
