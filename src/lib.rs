//! A tiny S-expression language: a lexer from characters to tokens, a
//! parser from tokens to a tree of nested lists, and an evaluator that
//! understands one special form, `(+ a b)`.
pub mod interp;
pub mod lexer;
pub mod node;
pub mod parser;
pub mod render;
pub mod theorems;
