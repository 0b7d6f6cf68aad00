//! An expression-evaluation engine.
//!
//! A text becomes a flat sequence of tokens (`lexer`). An infix sequence is converted
//! to postfix form by the shunting-yard algorithm (`convert`) and evaluated on a stack
//! with a record of every step (`rpn`), or evaluated directly, with variables taken
//! from an environment (`infix`, `env`). Both evaluators run over any numeric domain
//! (`domain`); the 128-bit integers are one. `session` reads and carries out the
//! commands of an interactive session.
//!
//! `agreement` proves that the two ways of evaluation come to the same value, and
//! `precedence` that this is the value that the expression has by the precedence of
//! its operators.

pub mod agreement;
pub mod color;
pub mod convert;
pub mod domain;
pub mod env;
pub mod error;
pub mod infix;
pub mod lexer;
pub mod precedence;
pub mod rpn;
pub mod session;
pub mod text;
pub mod token;
