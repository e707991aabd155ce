//! From the syntax tree to code.
//!
//! A construct the compiler does not know is refused, and the refusal names
//! it: nothing compiles to something approximate.

pub mod ask;
pub mod assign;
pub mod begin;
pub mod body;
pub mod choice;
pub mod code;
pub mod counts;
pub mod depth;
pub mod expr;
pub mod extent;
pub mod flow;
pub mod lower;
pub mod names;
pub mod pattern;
pub mod rescue;
pub mod send;
pub mod sense;
pub mod store;
pub mod unit;

pub use code::Unsupported;
pub use names::declared_locals;
pub use unit::{body, expression, flattened_expression, program};
