//! Numeric identifiers of the intermediate representation.

use vstd::prelude::*;

verus! {

/// A function.
#[derive(Debug, Clone, Copy, PartialEq, Eq, Hash, Structural)]
pub struct FnId(pub u32);

/// A variable (global, static, parameter, local or temporary).
#[derive(Debug, Clone, Copy, PartialEq, Eq, Hash, Structural)]
pub struct VarId(pub u32);

/// A source file.
#[derive(Debug, Clone, Copy, PartialEq, Eq, Hash, Structural)]
pub struct FileId(pub u32);

/// An interned type.
#[derive(Debug, Clone, Copy, PartialEq, Eq, Hash, Structural)]
pub struct TypeId(pub u32);

/// A field of a struct or union (its position among the fields).
#[derive(Debug, Clone, Copy, PartialEq, Eq, Hash, Structural)]
pub struct FieldId(pub u32);

/// A call site.
#[derive(Debug, Clone, Copy, PartialEq, Eq, Hash, Structural)]
pub struct CallSiteId(pub u32);

/// An abstract memory location of the pointer analysis.
#[derive(Debug, Clone, Copy, PartialEq, Eq, Hash, Structural)]
pub struct LocId(pub u32);

/// A node of the pointer assignment graph.
#[derive(Debug, Clone, Copy, PartialEq, Eq, Hash, Structural)]
pub struct PagNodeId(pub u32);

} // verus!
