//! A verified parser for the Clausewitz configuration language used by
//! Paradox game data and save files.
//!
//! The library turns a text document into a JSON-shaped [`value::Value`]
//! tree, guided by a [`value::Filter`] tree that selects which keys are
//! kept and disambiguates structural edge cases (empty blocks, repeated
//! keys as arrays).  Duplicate keys are recorded in a `"$multiKeys"`
//! side-channel object: the first value of a repeated key stays in place,
//! later values are collected under the key's name.

pub mod filter;
pub mod laws;
pub mod lexer;
pub mod parser;
pub mod scalar;
pub mod text;
pub mod value;

pub use lexer::{LexError, LexErrorKind, Lexer, Token};
pub use parser::{parse, ParseError};
pub use scalar::parse_scalar;
pub use value::{Filter, Value};
