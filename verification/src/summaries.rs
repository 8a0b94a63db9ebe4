//! Models of library functions at call edges.

use vstd::prelude::*;
use crate::ids::FnId;
use crate::program::Program;
use crate::symbol::{CallSite, fn_index};
use crate::text::string_is;

verus! {

/// Applies the model of a known library callee at a call edge. The
/// allocators (`malloc`, `calloc`, `realloc`), `free`, `memcpy` and
/// `memmove` are recognized; none of them adds pointer flow yet, so the
/// analysis is left as it is.
pub fn apply_call_summary(cs: &CallSite, callee: FnId, program: &Program)
    requires
        fn_index(program.symbols.functions@, callee) >= 0,
{
    let name = &program.symbols.function(callee).name;
    let _modeled = string_is(name, "malloc") || string_is(name, "calloc") || string_is(name, "realloc")
        || string_is(name, "free") || string_is(name, "memcpy") || string_is(name, "memmove");
}

} // verus!
