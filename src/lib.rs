//! Parsing, printing and inspection of single-variable algebraic expressions.
//!
//! Text is read into tokens (`token`), checked and built into an expression tree by a
//! minimum-precedence split (`parser`), and printed back as canonical text (`node`). Each step
//! is stated over a mathematical model (`lex`, `build`, `node_text`), and `round_trip` proves
//! that printing a parsed tree and parsing the text again gives the same tree.

pub mod lex_lemmas;
pub mod node;
pub mod number;
pub mod operator;
pub mod parser;
pub mod round_trip;
pub mod text;
pub mod token;
pub mod trigonometric;

pub use node::{
    EvalError, EvalErrorKind, ExpressionNode, ExpressionNodeType, NodeView, OperandView,
};
pub use number::Number;
pub use operator::Operator;
pub use parser::{find_operator, parse};
pub use token::{
    tokenize, trim_parantheses, validate, ErrorKind, Parenthesis, ParseError, Token, TokenView,
};
pub use trigonometric::TrigonometricFunction;
