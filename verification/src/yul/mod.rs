//! Contracts as Yul objects.

pub mod abi;
pub mod ast;
pub mod calls;
pub mod contracts;
pub mod errors;
pub mod laws;
pub mod pieces;
pub mod scopes;
pub mod types;
