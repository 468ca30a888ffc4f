//! Arithmetic expressions as text: a shunting-yard tokenizer that reorders an
//! infix expression into postfix order, and a stack evaluator for the result.
//!
//! - [`operator`]: the nine operator symbols and their precedence ranks.
//! - [`token`]: the tokens of a postfix sequence.
//! - [`tokenizer`]: [`tokenize`], and the scan that defines what it returns.
//! - [`evaluator`]: [`evaluate`], for any type of number, and what it
//!   returns for the sequences that do not evaluate.
//! - [`infix`]: expression trees, and the proof that a well formed
//!   expression is tokenized into the postfix order of its tree and
//!   evaluated to the tree's value.

pub mod evaluator;
pub mod infix;
pub mod operator;
pub mod token;
pub mod tokenizer;

pub use evaluator::{evaluate, PostfixEvalError};
pub use operator::{Operator, OperatorConversionError};
pub use token::Token;
pub use tokenizer::tokenize;
