//! A small S-expression language for picture-generating expression
//! trees: a lexer, a fixed-arity parser, constant folding, and
//! randomized tree synthesis for genetic programming.

pub mod apt;
pub mod parser;
pub mod rng;
pub mod scalar;
