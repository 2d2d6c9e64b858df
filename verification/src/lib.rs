//! Grammar-driven generation of test inputs.
//!
//! A grammar given as a tree of expressions is compiled into productions over
//! numbered symbols, normalized, and then used to derive strings whose every
//! choice is driven by a finite buffer of entropy bytes: the same bytes always
//! give the same string.

pub mod compile_laws;
pub mod cursor;
pub mod derivable;
pub mod derivation;
pub mod engine;
pub mod engine_laws;
pub mod error;
pub mod expr;
pub mod generator;
pub mod grammar;
pub mod harness;
pub mod language;
pub mod names;
pub mod normalize;
pub mod normalize_laws;
pub mod parser;
pub mod rules;
pub mod source;
pub mod symbol;
pub mod text;

pub use crate::harness::fuzz;
pub use crate::parser::NoirParser;
pub use crate::source::generate_cfg_generator;
