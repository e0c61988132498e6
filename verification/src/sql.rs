//! The beginnings of a query language: a scanner that cuts a statement into
//! tokens.
pub mod scanner;
pub mod tokens;
