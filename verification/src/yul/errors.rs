//! Why a contract cannot be compiled.

use vstd::prelude::*;

verus! {

/// An error, in words.
#[derive(Debug, Clone, PartialEq, Eq, Hash)]
pub struct CompileError {
    pub message: String,
}

impl View for CompileError {
    type V = Seq<char>;

    open spec fn view(&self) -> Seq<char> {
        self.message@
    }
}

impl CompileError {
    /// Makes an error of a fixed text.
    pub fn static_str(message: &'static str) -> (error: CompileError)
        ensures
            error@ == message@,
    {
        CompileError { message: String::from_str(message) }
    }
}

} // verus!
