//! Identifiers by which the parts of the high-level representation refer to each other.

use vstd::prelude::*;

verus! {

/// An interned identifier.
#[derive(Debug, Clone, Copy, PartialEq, Eq, Hash, Structural)]
pub struct IdentId(pub u32);

/// An interned path.
#[derive(Debug, Clone, Copy, PartialEq, Eq, Hash, Structural)]
pub struct PathId(pub u32);

/// A type as it is written in the source.
#[derive(Debug, Clone, Copy, PartialEq, Eq, Hash, Structural)]
pub struct TypeId(pub u32);

/// An interned list of generic parameters.
#[derive(Debug, Clone, Copy, PartialEq, Eq, Hash, Structural)]
pub struct GenericParamListId(pub u32);

/// An interned `where` clause.
#[derive(Debug, Clone, Copy, PartialEq, Eq, Hash, Structural)]
pub struct WherePredicateId(pub u32);

/// An interned list of function parameters.
#[derive(Debug, Clone, Copy, PartialEq, Eq, Hash, Structural)]
pub struct FnParamListId(pub u32);

/// An interned list of attributes.
#[derive(Debug, Clone, Copy, PartialEq, Eq, Hash, Structural)]
pub struct AttrListId(pub u32);

/// An interned `use` tree.
#[derive(Debug, Clone, Copy, PartialEq, Eq, Hash, Structural)]
pub struct UseTreeId(pub u32);

/// The body of a function or a constant.
#[derive(Debug, Clone, Copy, PartialEq, Eq, Hash, Structural)]
pub struct BodyId(pub u32);

/// The position of an expression in its body.
#[derive(Debug, Clone, Copy, PartialEq, Eq, Hash, Structural)]
pub struct ExprId(pub usize);

/// The position of a statement in its body.
#[derive(Debug, Clone, Copy, PartialEq, Eq, Hash, Structural)]
pub struct StmtId(pub usize);

/// The position of a pattern in its body.
#[derive(Debug, Clone, Copy, PartialEq, Eq, Hash, Structural)]
pub struct PatId(pub usize);

} // verus!
