//! A small arithmetic expression library: a precedence-climbing parser
//! that turns one line of text into an expression tree, and a planner
//! that linearizes the tree into the exact sequence of arithmetic steps
//! its evaluation performs.

pub mod lexical;
pub mod parser;
pub mod repr;
