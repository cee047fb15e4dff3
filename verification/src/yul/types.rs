//! The types of a contract's values, and the room they take.

use vstd::prelude::*;

verus! {

/// The number of bytes in a word of the machine.
pub const WORD_BYTES: usize = 32;

/// Types of single values.
#[derive(Debug, Clone, Copy, PartialEq, Eq, Hash, Structural)]
pub enum Base {
    U256,
    Address,
    Byte,
}

/// `dimension` values of the same type.
#[derive(Debug, Clone, Copy, PartialEq, Eq, Hash, Structural)]
pub struct Array {
    pub dimension: usize,
    pub inner: Base,
}

/// Types whose values all have the same size.
#[derive(Debug, Clone, Copy, PartialEq, Eq, Hash, Structural)]
pub enum FixedSize {
    Base(Base),
    Array(Array),
}

/// A mapping in storage.
#[derive(Debug, Clone, Copy, PartialEq, Eq, Hash, Structural)]
pub struct Mapping {
    pub key: Base,
    pub value: FixedSize,
}

/// Types.
#[derive(Debug, Clone, Copy, PartialEq, Eq, Hash, Structural)]
pub enum Type {
    Base(Base),
    Array(Array),
    Mapping(Mapping),
}

/// What has to be added to `n` bytes to fill up the last word.
pub open spec fn fill(n: nat) -> nat {
    ((32 - n % 32) % 32) as nat
}

impl Base {
    /// The number of bytes of a value.
    pub open spec fn bytes(self) -> nat {
        match self {
            Base::U256 => 32,
            Base::Address => 32,
            Base::Byte => 1,
        }
    }

    /// Returns the number of bytes of a value.
    pub fn size(self) -> (size: usize)
        ensures
            size == self.bytes(),
    {
        match self {
            Base::U256 => 32,
            Base::Address => 32,
            Base::Byte => 1,
        }
    }
}

impl FixedSize {
    /// The number of bytes of a value.
    pub open spec fn bytes(self) -> nat {
        match self {
            FixedSize::Base(base) => base.bytes(),
            FixedSize::Array(array) => array.dimension as nat * array.inner.bytes(),
        }
    }

    /// The number of bytes of the words that hold a value.
    pub open spec fn padded(self) -> nat {
        self.bytes() + fill(self.bytes())
    }

    /// Returns the number of bytes of a value.
    pub fn size(&self) -> (size: usize)
        requires
            self.bytes() <= usize::MAX,
        ensures
            size == self.bytes(),
    {
        match self {
            FixedSize::Base(base) => base.size(),
            FixedSize::Array(array) => array.dimension * array.inner.size(),
        }
    }

    /// Returns the number of bytes that fill up a value's last word.
    pub fn padding(&self) -> (padding: usize)
        requires
            self.bytes() <= usize::MAX,
        ensures
            padding == fill(self.bytes()),
    {
        (WORD_BYTES - self.size() % WORD_BYTES) % WORD_BYTES
    }
}

/// The words that hold a value are the fewest that it fits into.
pub proof fn lemma_padded(typ: FixedSize)
    ensures
        typ.padded() % 32 == 0,
        typ.bytes() <= typ.padded() < typ.bytes() + 32,
{
}

} // verus!
