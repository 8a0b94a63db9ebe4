//! Abstract locations, solver constraints and call-graph facts.

use vstd::prelude::*;
use crate::ids::{CallSiteId, FieldId, FnId, LocId, PagNodeId, TypeId, VarId};

verus! {

/// What an abstract location stands for.
#[derive(Debug, Clone, Copy, PartialEq, Eq, Hash, Structural)]
pub enum LocKind {
    /// An external or global variable.
    Global,
    /// A file-scope `static`.
    FileStatic,
    /// A function-local `static`.
    FnStatic,
    /// Storage of a parameter or stack local.
    Local,
    /// Reserved for allocator summaries.
    Heap,
    /// A field of a known parent object location.
    Field,
    /// All instances of one field of one struct type.
    FieldSummary,
    /// Any element of an array.
    ArraySummary,
    /// The entry address of a function.
    Function,
}

/// An abstract memory object.
#[derive(Debug, Clone)]
pub struct AbstractLocation {
    pub id: LocId,
    pub kind: LocKind,
    pub var: Option<VarId>,
    pub fn_id: Option<FnId>,
    pub field: Option<FieldId>,
    pub type_id: TypeId,
    pub desc: String,
}

#[derive(Debug, Clone, Copy, PartialEq, Eq, Hash, Structural)]
pub enum ConstraintKind {
    /// `pts(dst) ⊇ pts(src)`
    Copy,
    /// `pts(dst) ⊇ {loc of src}`
    AddrOf,
    /// `pts(dst) ⊇ memory(o)` for each `o ∈ pts(src)`
    Load,
    /// `memory(o) ⊇ pts(src)` for each `o ∈ pts(dst)`
    Store,
    /// field projection of the objects `src` points to
    Gep,
}

/// An edge of the pointer assignment graph.
#[derive(Debug, Clone, Copy, PartialEq, Eq, Structural)]
pub struct Constraint {
    pub kind: ConstraintKind,
    pub dst: PagNodeId,
    pub src: PagNodeId,
    pub field: Option<FieldId>,
}

/// How a call edge was found.
#[derive(Debug, Clone, Copy, PartialEq, Eq, Hash, Structural)]
pub enum ResolutionKind {
    Direct,
    Indirect,
    Ambiguous,
    External,
}

/// `caller` may call `callee` at `call_site`.
#[derive(Debug, Clone, Copy, PartialEq, Eq, Structural)]
pub struct CallGraphEdge {
    pub call_site: CallSiteId,
    pub caller: FnId,
    pub callee: FnId,
    pub resolution: ResolutionKind,
}

/// Argument `arg_index` of `call_site` (a variable or a function) flows
/// into the callee's parameter `formal`.
#[derive(Debug, Clone, Copy, PartialEq, Eq, Structural)]
pub struct ArgFlowEdge {
    pub call_site: CallSiteId,
    pub arg_index: u32,
    pub actual_var: Option<VarId>,
    pub actual_fn: Option<FnId>,
    pub formal: VarId,
}

} // verus!
