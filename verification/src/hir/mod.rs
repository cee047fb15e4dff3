//! The high-level representation: items, function bodies and what the type checker knows of them.

pub mod body;
pub mod ids;
pub mod item;
pub mod typed;
