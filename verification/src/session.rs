use crate::domain::Domain;
use crate::env::{entries_with, is_valid_name, valid_name, VariableEnvironment};
use crate::error::{CalcError, EvalError, Failure};
use crate::infix::{evaluate_infix, infix_value};
use crate::lexer::{lexed, tokenize};
use crate::text::{chars_of, string_of, whitespace};
use vstd::prelude::*;

verus! {

/// The text without the whitespace at its beginning.
pub open spec fn trim_start(s: Seq<char>) -> Seq<char>
    decreases s.len(),
{
    if s.len() > 0 && whitespace(s.first()) {
        trim_start(s.drop_first())
    } else {
        s
    }
}

/// The text without the whitespace at its end.
pub open spec fn trim_end(s: Seq<char>) -> Seq<char>
    decreases s.len(),
{
    if s.len() > 0 && whitespace(s.last()) {
        trim_end(s.drop_last())
    } else {
        s
    }
}

/// The text without the whitespace at its beginning and at its end.
pub open spec fn trimmed(s: Seq<char>) -> Seq<char> {
    trim_end(trim_start(s))
}

/// The lower-case letter of an upper-case letter of `A` to `Z`; any other character
/// itself.
pub open spec fn lowered(c: char) -> char {
    if 'A' <= c <= 'Z' {
        ((c as u8) + 32) as char
    } else {
        c
    }
}

/// Whether the two texts are the same but for the case of the letters `a` to `z`.
pub open spec fn same_ignoring_case(a: Seq<char>, b: Seq<char>) -> bool {
    a.len() == b.len() && forall|i: int| 0 <= i < a.len() ==> lowered(#[trigger] a[i]) == lowered(b[i])
}

/// The position of the first `=` in the text, if there is one.
pub open spec fn first_equals(s: Seq<char>) -> Option<int>
    decreases s.len(),
{
    if s.len() == 0 {
        None
    } else if s.first() == '=' {
        Some(0)
    } else {
        match first_equals(s.drop_first()) {
            Some(i) => Some(i + 1),
            None => None,
        }
    }
}

/// What a line of a session asks for.
#[derive(Debug, PartialEq, Eq)]
pub enum Command {
    /// To end the session.
    Exit,
    /// Nothing: the line holds whitespace only.
    Nothing,
    /// To list the variables.
    ListVariables,
    /// To give the variable `name` the value of `expression`.
    Assign { name: String, expression: String },
    /// To evaluate an expression.
    Evaluate(String),
}

/// What a line asks for, with its texts as sequences of characters.
pub enum Request {
    Exit,
    Nothing,
    ListVariables,
    Assign { name: Seq<char>, expression: Seq<char> },
    Evaluate(Seq<char>),
}

impl View for Command {
    type V = Request;

    open spec fn view(&self) -> Request {
        match *self {
            Command::Exit => Request::Exit,
            Command::Nothing => Request::Nothing,
            Command::ListVariables => Request::ListVariables,
            Command::Assign { name, expression } => Request::Assign {
                name: name@,
                expression: expression@,
            },
            Command::Evaluate(expression) => Request::Evaluate(expression@),
        }
    }
}

/// What a line asks for. Whitespace around the line does not count. `exit` and `vars`,
/// in any case of their letters, are the two commands. A line with `=` assigns: the
/// name stands before the first `=`, the expression after it, each without the
/// whitespace around it. Any other line is an expression.
pub open spec fn request_of(line: Seq<char>) -> Request {
    let command = trimmed(line);
    if same_ignoring_case(command, seq!['e', 'x', 'i', 't']) {
        Request::Exit
    } else if command.len() == 0 {
        Request::Nothing
    } else if same_ignoring_case(command, seq!['v', 'a', 'r', 's']) {
        Request::ListVariables
    } else {
        match first_equals(command) {
            Some(at) => Request::Assign {
                name: trimmed(command.take(at)),
                expression: trimmed(command.skip(at + 1)),
            },
            None => Request::Evaluate(command),
        }
    }
}

/// `first_equals` finds the first `=`.
pub proof fn lemma_first_equals(s: Seq<char>)
    ensures
        match first_equals(s) {
            Some(at) => 0 <= at < s.len() && s[at] == '=' && forall|i: int|
                0 <= i < at ==> s[i] != '=',
            None => forall|i: int| 0 <= i < s.len() ==> s[i] != '=',
        },
    decreases s.len(),
{
    if s.len() > 0 && s.first() != '=' {
        let rest = s.drop_first();
        lemma_first_equals(rest);
        assert forall|i: int| 1 <= i < s.len() implies s[i] == rest[i - 1] by {}
        match first_equals(rest) {
            Some(at) => {
                assert forall|i: int| 0 <= i < at + 1 implies s[i] != '=' by {
                    if i >= 1 {
                        assert(s[i] == rest[i - 1]);
                    }
                }
            },
            None => {
                assert forall|i: int| 0 <= i < s.len() implies s[i] != '=' by {
                    if i >= 1 {
                        assert(s[i] == rest[i - 1]);
                    }
                }
            },
        }
    }
}

/// The first `=` is the one before which there is none.
pub proof fn lemma_first_equals_at(s: Seq<char>, at: int)
    requires
        0 <= at <= s.len(),
        forall|i: int| 0 <= i < at ==> s[i] != '=',
        at < s.len() ==> s[at] == '=',
    ensures
        first_equals(s) == if at < s.len() {
            Some(at)
        } else {
            None
        },
{
    lemma_first_equals(s);
}

/// Where `chars[from..to]` begins and ends once the whitespace around it is gone.
fn trim_bounds(chars: &Vec<char>, from: usize, to: usize) -> (bounds: (usize, usize))
    requires
        from <= to <= chars.len(),
    ensures
        from <= bounds.0 <= bounds.1 <= to,
        chars@.subrange(bounds.0 as int, bounds.1 as int) == trimmed(
            chars@.subrange(from as int, to as int),
        ),
{
    let ghost whole = chars@.subrange(from as int, to as int);
    let mut lo: usize = from;
    while lo < to && chars[lo].is_whitespace()
        invariant
            from <= lo <= to <= chars.len(),
            trim_start(whole) == trim_start(chars@.subrange(lo as int, to as int)),
        decreases to - lo,
    {
        proof {
            let here = chars@.subrange(lo as int, to as int);
            assert(here.first() == chars@[lo as int]);
            assert(here.drop_first() =~= chars@.subrange(lo + 1, to as int));
        }
        lo += 1;
    }
    let ghost left = chars@.subrange(lo as int, to as int);
    assert(trim_start(whole) == left) by {
        if lo < to {
            assert(left.first() == chars@[lo as int]);
        }
    }
    let mut hi: usize = to;
    while lo < hi && chars[hi - 1].is_whitespace()
        invariant
            lo <= hi <= to <= chars.len(),
            trim_end(left) == trim_end(chars@.subrange(lo as int, hi as int)),
        decreases hi - lo,
    {
        proof {
            let here = chars@.subrange(lo as int, hi as int);
            assert(here.last() == chars@[hi - 1]);
            assert(here.drop_last() =~= chars@.subrange(lo as int, hi - 1));
        }
        hi -= 1;
    }
    proof {
        let here = chars@.subrange(lo as int, hi as int);
        if lo < hi {
            assert(here.last() == chars@[hi - 1]);
        }
        assert(trim_end(left) == here);
    }
    (lo, hi)
}

/// The lower-case letter of an upper-case letter of `A` to `Z`; any other character
/// itself.
fn lower(c: char) -> (l: char)
    ensures
        l == lowered(c),
{
    if 'A' <= c && c <= 'Z' {
        ((c as u8) + 32) as char
    } else {
        c
    }
}

/// Whether `chars[from..to]` is `word` but for the case of the letters `a` to `z`.
fn spells(chars: &Vec<char>, from: usize, to: usize, word: &Vec<char>) -> (yes: bool)
    requires
        from <= to <= chars.len(),
    ensures
        yes == same_ignoring_case(chars@.subrange(from as int, to as int), word@),
{
    if to - from != word.len() {
        return false;
    }
    let ghost text = chars@.subrange(from as int, to as int);
    let mut i: usize = 0;
    while i < word.len()
        invariant
            from <= to <= chars.len(),
            to - from == word.len(),
            i <= word.len(),
            text == chars@.subrange(from as int, to as int),
            forall|j: int| 0 <= j < i ==> lowered(#[trigger] text[j]) == lowered(word@[j]),
        decreases word.len() - i,
    {
        if lower(chars[from + i]) != lower(word[i]) {
            assert(lowered(text[i as int]) != lowered(word@[i as int]));
            return false;
        }
        i += 1;
    }
    true
}

/// Reads what a line of a session asks for.
pub fn parse_command(line: &str) -> (command: Command)
    ensures
        command@ == request_of(line@),
{
    let chars = chars_of(line);
    let (lo, hi) = trim_bounds(&chars, 0, chars.len());
    assert(chars@.subrange(0, chars.len() as int) =~= chars@);
    let ghost text = chars@.subrange(lo as int, hi as int);
    proof {
        reveal_strlit("exit");
        reveal_strlit("vars");
    }
    let exit = chars_of("exit");
    let vars = chars_of("vars");
    assert(exit@ =~= seq!['e', 'x', 'i', 't']);
    assert(vars@ =~= seq!['v', 'a', 'r', 's']);
    if spells(&chars, lo, hi, &exit) {
        return Command::Exit;
    }
    if lo == hi {
        return Command::Nothing;
    }
    if spells(&chars, lo, hi, &vars) {
        return Command::ListVariables;
    }
    let mut at: usize = lo;
    while at < hi && chars[at] != '='
        invariant
            lo <= at <= hi <= chars.len(),
            text == chars@.subrange(lo as int, hi as int),
            forall|i: int| 0 <= i < at - lo ==> text[i] != '=',
        decreases hi - at,
    {
        at += 1;
    }
    proof {
        lemma_first_equals_at(text, at - lo);
    }
    if at == hi {
        return Command::Evaluate(string_of(&chars, lo, hi));
    }
    let (name_lo, name_hi) = trim_bounds(&chars, lo, at);
    let (expr_lo, expr_hi) = trim_bounds(&chars, at + 1, hi);
    assert(text.take(at - lo) =~= chars@.subrange(lo as int, at as int));
    assert(text.skip(at - lo + 1) =~= chars@.subrange(at + 1, hi as int));
    Command::Assign {
        name: string_of(&chars, name_lo, name_hi),
        expression: string_of(&chars, expr_lo, expr_hi),
    }
}

/// What the expression that `text` spells comes to in `env`: where the text is no
/// token sequence, the tokenizer's error; else the value, or the error, of its tokens.
pub open spec fn expression_value<D: Domain>(text: Seq<char>, env: Map<Seq<char>, D>) -> Result<
    D,
    Failure,
> {
    match lexed(text) {
        Ok(tokens) => infix_value(tokens, env),
        Err(failure) => Err(Failure::Lex(failure)),
    }
}

/// Evaluates the expression that a text spells, over the domain `D` and with the
/// variables of `env`.
pub fn evaluate_expression<D: Domain>(expr: &str, env: &VariableEnvironment<D>) -> (result: Result<
    D,
    CalcError,
>)
    ensures
        match result {
            Ok(value) => expression_value(expr@, env@) == Ok::<D, Failure>(value),
            Err(e) => expression_value(expr@, env@) == Err::<D, Failure>(e@),
        },
{
    match tokenize(expr) {
        Ok(tokens) => evaluate_infix(tokens, env),
        Err(e) => Err(CalcError::Lex(e)),
    }
}

/// What a command came to.
#[derive(Debug, PartialEq)]
pub enum Reply<D> {
    /// The session is to end.
    Exit,
    /// There was nothing to do.
    Nothing,
    /// The variables and their values, in the order of their first assignment.
    Variables(Vec<(String, D)>),
    /// The variable has this value now.
    Assigned(String, D),
    /// The value of the expression.
    Value(D),
    /// The command failed, and changed nothing.
    Failed(CalcError),
}

/// Carries out a command of a session. Only an assignment that succeeds changes the
/// environment. An assignment first checks the name, then evaluates the expression,
/// then assigns.
pub fn run_command<D: Domain>(env: &mut VariableEnvironment<D>, command: &Command) -> (reply: Reply<
    D,
>)
    ensures
        !(reply is Assigned) ==> *final(env) == *old(env),
        match *command {
            Command::Exit => reply is Exit,
            Command::Nothing => reply is Nothing,
            Command::ListVariables => reply matches Reply::Variables(listing) && listing@.len()
                == old(env).entries().len() && forall|i: int|
                0 <= i < listing@.len() ==> (#[trigger] listing@[i]).0@ == old(env).entries()[i].0
                    && listing@[i].1 == old(env).entries()[i].1,
            Command::Evaluate(expression) => match reply {
                Reply::Value(value) => expression_value(expression@, old(env)@) == Ok::<D, Failure>(
                    value,
                ),
                Reply::Failed(e) => expression_value(expression@, old(env)@) == Err::<D, Failure>(
                    e@,
                ),
                _ => false,
            },
            Command::Assign { name, expression } => if !valid_name(name@) {
                reply == Reply::<D>::Failed(CalcError::Eval(EvalError::InvalidIdentifier))
            } else {
                match reply {
                    Reply::Assigned(assigned, value) => assigned@ == name@ && expression_value(
                        expression@,
                        old(env)@,
                    ) == Ok::<D, Failure>(value) && final(env)@ == old(env)@.insert(name@, value)
                        && final(env).entries() == entries_with(old(env).entries(), name@, value),
                    Reply::Failed(e) => expression_value(expression@, old(env)@) == Err::<
                        D,
                        Failure,
                    >(e@),
                    _ => false,
                }
            },
        },
{
    match command {
        Command::Exit => Reply::Exit,
        Command::Nothing => Reply::Nothing,
        Command::ListVariables => Reply::Variables(env.lookup_all()),
        Command::Evaluate(expression) => match evaluate_expression(expression.as_str(), env) {
            Ok(value) => Reply::Value(value),
            Err(e) => Reply::Failed(e),
        },
        Command::Assign { name, expression } => {
            if !is_valid_name(name.as_str()) {
                return Reply::Failed(CalcError::Eval(EvalError::InvalidIdentifier));
            }
            match evaluate_expression(expression.as_str(), env) {
                Ok(value) => {
                    match env.assign(name.as_str(), value) {
                        Ok(_) => Reply::Assigned(name.clone(), value),
                        Err(e) => Reply::Failed(CalcError::Eval(e)),
                    }
                },
                Err(e) => Reply::Failed(e),
            }
        },
    }
}

} // verus!
