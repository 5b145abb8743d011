//! A small stack machine for postfix expressions with nested blocks and a
//! conditional.
//!
//! A line of text is split into tokens, the tokens are parsed into a tree of
//! [`value::Value`]s, and the values are applied to an operand stack. Blocks
//! are pushed unevaluated; `if` evaluates a condition block and then one of
//! two branch blocks.
//!
//! Every executable function carries a contract over the mathematical model
//! of the data ([`value::Term`], sequences of characters and of terms).

pub mod arith;
pub mod calculator;
pub mod eval;
pub mod interpreter;
pub mod laws;
pub mod lexer;
pub mod number;
pub mod parser;
pub mod render;
pub mod value;
