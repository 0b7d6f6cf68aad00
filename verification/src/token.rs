use vstd::prelude::*;

verus! {

/// A binary operator of the expression language.
#[derive(Clone, Copy, Debug, PartialEq, Eq, Structural)]
pub enum Operator {
    /// `+`
    Add,
    /// `-`
    Sub,
    /// `*`
    Mul,
    /// `/`
    Div,
    /// `%`
    Rem,
    /// `^`
    Pow,
}

/// The operator that a character spells, if it spells one.
pub open spec fn operator_of(c: char) -> Option<Operator> {
    if c == '+' {
        Some(Operator::Add)
    } else if c == '-' {
        Some(Operator::Sub)
    } else if c == '*' {
        Some(Operator::Mul)
    } else if c == '/' {
        Some(Operator::Div)
    } else if c == '%' {
        Some(Operator::Rem)
    } else if c == '^' {
        Some(Operator::Pow)
    } else {
        None
    }
}

impl Operator {
    /// The character that spells the operator.
    pub open spec fn spec_symbol(self) -> char {
        match self {
            Operator::Add => '+',
            Operator::Sub => '-',
            Operator::Mul => '*',
            Operator::Div => '/',
            Operator::Rem => '%',
            Operator::Pow => '^',
        }
    }

    /// Binding strength: 1 for `+ -`, 2 for `* / %`, 3 for `^`.
    pub open spec fn spec_precedence(self) -> u8 {
        match self {
            Operator::Add | Operator::Sub => 1,
            Operator::Mul | Operator::Div | Operator::Rem => 2,
            Operator::Pow => 3,
        }
    }

    /// The character that spells the operator.
    #[verifier::when_used_as_spec(spec_symbol)]
    pub fn symbol(self) -> (c: char)
        ensures
            c == self.spec_symbol(),
            operator_of(c) == Some(self),
    {
        match self {
            Operator::Add => '+',
            Operator::Sub => '-',
            Operator::Mul => '*',
            Operator::Div => '/',
            Operator::Rem => '%',
            Operator::Pow => '^',
        }
    }

    /// Binding strength: 1 for `+ -`, 2 for `* / %`, 3 for `^`.
    #[verifier::when_used_as_spec(spec_precedence)]
    pub fn precedence(self) -> (p: u8)
        ensures
            p == self.spec_precedence(),
    {
        match self {
            Operator::Add | Operator::Sub => 1,
            Operator::Mul | Operator::Div | Operator::Rem => 2,
            Operator::Pow => 3,
        }
    }

    /// Reads an operator from the character that spells it.
    pub fn from_symbol(c: char) -> (op: Option<Operator>)
        ensures
            op == operator_of(c),
    {
        if c == '+' {
            Some(Operator::Add)
        } else if c == '-' {
            Some(Operator::Sub)
        } else if c == '*' {
            Some(Operator::Mul)
        } else if c == '/' {
            Some(Operator::Div)
        } else if c == '%' {
            Some(Operator::Rem)
        } else if c == '^' {
            Some(Operator::Pow)
        } else {
            None
        }
    }
}

/// One lexical unit of an expression. Parenthesis structure is not nested in the
/// token: a sequence of tokens is flat, and whoever consumes it matches the parentheses.
#[derive(Debug, PartialEq, Eq)]
pub enum Token {
    /// A numeric literal, as the text that spells it.
    Number(String),
    /// A binary operator.
    Operator(Operator),
    /// `(`
    LParen,
    /// `)`
    RParen,
    /// A variable, by name.
    Identifier(String),
}

/// What a token is, with its text as a sequence of characters.
pub enum Lexeme {
    Number(Seq<char>),
    Operator(Operator),
    LParen,
    RParen,
    Identifier(Seq<char>),
}

impl View for Token {
    type V = Lexeme;

    open spec fn view(&self) -> Lexeme {
        match *self {
            Token::Number(text) => Lexeme::Number(text@),
            Token::Operator(op) => Lexeme::Operator(op),
            Token::LParen => Lexeme::LParen,
            Token::RParen => Lexeme::RParen,
            Token::Identifier(name) => Lexeme::Identifier(name@),
        }
    }
}

impl Clone for Token {
    fn clone(&self) -> (copy: Token)
        ensures
            copy == *self,
    {
        match self {
            Token::Number(text) => Token::Number(text.clone()),
            Token::Operator(op) => Token::Operator(*op),
            Token::LParen => Token::LParen,
            Token::RParen => Token::RParen,
            Token::Identifier(name) => Token::Identifier(name.clone()),
        }
    }
}

/// The lexemes of a token sequence, in order.
pub open spec fn lexemes(tokens: Seq<Token>) -> Seq<Lexeme> {
    tokens.map_values(|t: Token| t@)
}

/// The lexemes of a sequence with one more token are the lexemes of the sequence with
/// one more lexeme.
pub proof fn lemma_lexemes_push(tokens: Seq<Token>, token: Token)
    ensures
        lexemes(tokens.push(token)) == lexemes(tokens).push(token@),
{
    assert(lexemes(tokens.push(token)) =~= lexemes(tokens).push(token@));
}

} // verus!
