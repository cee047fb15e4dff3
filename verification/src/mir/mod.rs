//! The mid-level representation and the lowering of bodies into it.

pub mod builder;
pub mod effects;
pub mod expr;
pub mod flow;
pub mod frame;
pub mod growth;
pub mod input;
pub mod ir;
pub mod laws;
pub mod loops;
pub mod meaning;
pub mod paths;
pub mod rounds;
pub mod rules;
pub mod sound;
pub mod state;
pub mod total;
pub mod value;
