//! An Earley chart parser for context-free grammars over tokenized input.
//!
//! [`parse`] builds the chart of a grammar over a sequence of tokens and
//! reads one derivation tree off it; [`build_chart`] gives the chart alone.
//! The chart is proved to hold exactly the valid items, and `parse` to yield
//! a tree if and only if the grammar derives the tokens.

pub mod correctness;
pub mod earley;
pub mod engine;
pub mod forest;
pub mod grammar;
pub mod machine;
pub mod parser;
pub mod progress;
pub mod term;

pub use crate::earley::{Chart, Position, State, StateSet};
pub use crate::engine::build_chart;
pub use crate::forest::ParseNode;
pub use crate::grammar::{Expression, Grammar, Production};
pub use crate::parser::{parse, ParseError};
pub use crate::term::{Error, Symbol, Term};
