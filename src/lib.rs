//! Arithmetic expressions over `+ - * /`, unary signs, parentheses and
//! decimal literals: a scanner from text to tokens, a recursive-descent parser
//! from tokens to an expression tree, and the two chained on a whole text.
pub mod lexer;
pub mod parser;
pub mod pipeline;
pub mod unparse;
