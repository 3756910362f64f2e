//! A parser for the Nix language that builds lossless syntax trees.

pub mod ast;
pub mod grammar;
pub mod green;
pub mod kinds;
pub mod laws;
pub mod parser;
pub mod token;

pub use ast::{ParseError, AST};
pub use kinds::{NodeType, Types};
pub use parser::{parse, Parser};
pub use token::Token;
