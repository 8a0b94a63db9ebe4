//! Pointer-flow facts produced by lowering.

use vstd::prelude::*;
use crate::ids::{FieldId, FnId, VarId};

verus! {

/// Abstract value returned from a function body (every return site
/// contributes one).
#[derive(Debug, Clone, PartialEq, Eq)]
pub enum ReturnFlow {
    AddrOfVar { src: VarId },
    AddrOfFn { callee: FnId },
    Copy { src: VarId },
    /// Whatever `callee_name` returns, once all units are merged.
    Call { callee_name: String },
}

/// Statement-level pointer flow.
#[derive(Debug, Clone, PartialEq, Eq)]
pub enum FlowConstraint {
    /// `dst = src`
    Copy { dst: VarId, src: VarId },
    /// `dst = &src`
    AddrOfVar { dst: VarId, src: VarId },
    /// `dst = &callee`
    AddrOfFn { dst: VarId, callee: FnId },
    /// `dst = *src`
    Load { dst: VarId, src: VarId },
    /// `*dst = src`
    Store { dst: VarId, src: VarId },
    /// `dst = &base->field`
    GepField { dst: VarId, base: VarId, field: FieldId },
    /// A function-pointer table entry: any element of `array` may be `callee`.
    ArrayFnMember { array: VarId, callee: FnId },
    /// `dst = callee_name()`, resolved by name once all units are merged.
    CallReturn { dst: VarId, callee_name: String },
}

} // verus!
