//! Parts of a compiler for smart contracts: the lowering of typed function bodies to basic
//! blocks, the items of the high-level representation, and the dispatcher of a contract in Yul.

pub mod hir;
pub mod mir;
pub mod text;
pub mod yul;
