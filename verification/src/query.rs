//! The query language: expressions over Chinese characters, their languages,
//! and a matcher by derivatives.
pub mod algebra;
pub mod bound;
pub mod class;
pub mod composed;
pub mod context;
pub mod derive;
pub mod expr;
pub mod grammar;
pub mod groups;
pub mod language;
pub mod laws;
pub mod meaning;
pub mod normal;
pub mod parser;
pub mod phrases;
pub mod program;

pub use crate::query::class::{CharRange, CharacterClass};
pub use crate::query::expr::{Expr, Re};
pub use crate::query::parser::ParseError;
pub use crate::query::program::Program;
