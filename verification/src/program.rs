//! The whole analyzed program: types, symbols, pointer flow and diagnostics.

use vstd::prelude::*;
use indexmap::IndexMap;
use crate::flow::{FlowConstraint, ReturnFlow};
use crate::ids::{CallSiteId, FileId, FnId};
use crate::options::{defines_new, define_entries};
use crate::symbol::{SymbolTable, fn_index};
use crate::types::{TypeDesc, TypeTable, table_wf};

verus! {

#[derive(Debug, Clone, Copy, PartialEq, Eq, Structural)]
pub enum DiagnosticSeverity {
    Error,
    Warning,
    Info,
}

/// A message of some pipeline stage about a file and line.
#[derive(Debug, Clone)]
pub struct Diagnostic {
    pub severity: DiagnosticSeverity,
    pub file: Option<FileId>,
    pub line: u32,
    pub message: String,
    pub stage: String,
}

/// Cross-unit deduplication state of the merge stage: entities whose
/// origin (header file and position) was already merged, with the first
/// copy's id.
#[derive(Debug, Clone)]
pub struct MergeDedup {
    pub fn_keys: Vec<((FileId, String, u32), FnId)>,
    pub site_keys: Vec<((FileId, u32, u32, String), CallSiteId)>,
}

/// Everything known about the analyzed program.
#[derive(Debug)]
pub struct Program {
    pub root: String,
    pub types: TypeTable,
    pub symbols: SymbolTable,
    pub flow: Vec<FlowConstraint>,
    /// Per-function return-value summaries collected during lowering.
    pub fn_returns: Vec<(FnId, Vec<ReturnFlow>)>,
    pub diagnostics: Vec<Diagnostic>,
    pub include_paths: Vec<String>,
    /// `#include` dependency edges (dependent, included), project-local only.
    pub include_deps: Vec<(String, String)>,
    pub defines: IndexMap<String, String>,
    pub anon_type_counter: u32,
    pub dedup: MergeDedup,
}

/// The return summaries recorded for `f`: those of the first entry for it.
pub open spec fn returns_of(entries: Seq<(FnId, Vec<ReturnFlow>)>, f: FnId) -> Option<Seq<ReturnFlow>>
    decreases entries.len(),
{
    if entries.len() == 0 {
        None
    } else if entries[0].0 == f {
        Some(entries[0].1@)
    } else {
        returns_of(entries.drop_first(), f)
    }
}

/// What the analysis relies on: variables and call sites are stored at the
/// position of their id, named functions and parameters exist, every type
/// id is interned, and each `CallReturn` assigns a known variable whose
/// function (if any) is known.
pub open spec fn program_wf(p: Program) -> bool {
    let s = p.symbols;
    let nt = p.types.types@.len();
    &&& table_wf(p.types)
    &&& s.variables@.len() <= u32::MAX
    &&& forall|i: int| 0 <= i < s.variables@.len() ==> {
        let v = #[trigger] s.variables@[i];
        &&& v.id.0 == i
        &&& (v.type_id.0 as int) < nt
        &&& (v.fn_id matches Some(f) ==> fn_index(s.functions@, f) >= 0)
    }
    &&& forall|i: int| 0 <= i < s.functions@.len() ==> {
        let f = #[trigger] s.functions@[i];
        &&& (f.return_type.0 as int) < nt
        &&& forall|j: int| 0 <= j < f.params@.len() ==> (#[trigger] f.params@[j].0 as int) < s.variables@.len()
    }
    &&& forall|i: int| 0 <= i < s.call_sites@.len() ==> {
        let c = #[trigger] s.call_sites@[i];
        &&& c.id.0 == i
        &&& forall|j: int| 0 <= j < c.var_args@.len() ==> (#[trigger] c.var_args@[j].1.0 as int) < s.variables@.len()
    }
    &&& forall|i: int| 0 <= i < s.fn_by_name@.len() ==> fn_index(s.functions@, (#[trigger] s.fn_by_name@[i]).1) >= 0
    &&& forall|i: int| 0 <= i < p.flow@.len() ==> match #[trigger] p.flow@[i] {
        FlowConstraint::CallReturn { dst, .. } => (dst.0 as int) < s.variables@.len(),
        _ => true,
    }
}

impl Program {
    /// An empty program rooted at `root`.
    pub fn new(root: &str) -> (p: Program)
        ensures
            p.root@ == root@,
            table_wf(p.types),
            p.types.types@.len() == 6,
            p.symbols.functions@.len() == 0,
            p.symbols.variables@.len() == 0,
            p.symbols.call_sites@.len() == 0,
            p.symbols.files@.len() == 0,
            p.symbols.fn_by_name@.len() == 0,
            p.symbols.global_by_name@.len() == 0,
            p.symbols.next_fn == 0 && p.symbols.next_var == 0 && p.symbols.next_call == 0,
            p.flow@.len() == 0,
            p.fn_returns@.len() == 0,
            p.diagnostics@.len() == 0,
            p.include_paths@.len() == 0,
            p.include_deps@.len() == 0,
            define_entries(p.defines).len() == 0,
            p.anon_type_counter == 0,
            p.dedup.fn_keys@.len() == 0,
            p.dedup.site_keys@.len() == 0,
    {
        Program {
            root: root.to_owned(),
            types: TypeTable::new(),
            symbols: SymbolTable::new(),
            flow: Vec::new(),
            fn_returns: Vec::new(),
            diagnostics: Vec::new(),
            include_paths: Vec::new(),
            include_deps: Vec::new(),
            defines: defines_new(),
            anon_type_counter: 0,
            dedup: MergeDedup { fn_keys: Vec::new(), site_keys: Vec::new() },
        }
    }

    /// Records a diagnostic after the others.
    pub fn add_diagnostic(&mut self, diag: Diagnostic)
        ensures
            final(self).diagnostics@ == old(self).diagnostics@.push(diag),
            final(self).types == old(self).types,
            final(self).symbols == old(self).symbols,
            final(self).flow == old(self).flow,
            final(self).fn_returns == old(self).fn_returns,
            final(self).root == old(self).root,
            final(self).include_paths == old(self).include_paths,
            final(self).defines == old(self).defines,
    {
        self.diagnostics.push(diag);
    }
}


/// Whether the type table is well formed (`table_wf`).
pub fn table_is_wf(t: &TypeTable) -> (r: bool)
    ensures
        r == table_wf(*t),
{
    let n = t.types.len();
    if n < 6 || n > 0xffff_ffff {
        return false;
    }
    let mut k: usize = 0;
    while k < n
        invariant
            n == t.types@.len(),
            k <= n,
            forall|j: int| 0 <= j < k ==> (#[trigger] t.types@[j]).id.0 == j,
        decreases n - k,
    {
        if t.types[k].id.0 as usize != k {
            return false;
        }
        k = k + 1;
    }
    let scalars = match (&t.types[0].desc, &t.types[1].desc, &t.types[2].desc, &t.types[3].desc, &t.types[4].desc, &t.types[5].desc) {
        (TypeDesc::Void, TypeDesc::Char, TypeDesc::Int, TypeDesc::Long, TypeDesc::SizeT, TypeDesc::Unknown) => true,
        _ => false,
    };
    if !scalars {
        return false;
    }
    k = 0;
    while k < n
        invariant
            n == t.types@.len(),
            k <= n,
            forall|a: int, f: int| 0 <= a < k && 0 <= f < t.types@[a].layout.fields@.len()
                ==> (#[trigger] t.types@[a].layout.fields@[f]).type_id.0 < n,
        decreases n - k,
    {
        let fs = &t.types[k].layout.fields;
        let mut f: usize = 0;
        while f < fs.len()
            invariant
                n == t.types@.len(),
                k < n,
                *fs == t.types@[k as int].layout.fields,
                f <= fs@.len(),
                forall|a: int, g: int| 0 <= a < k && 0 <= g < t.types@[a].layout.fields@.len()
                    ==> (#[trigger] t.types@[a].layout.fields@[g]).type_id.0 < n,
                forall|g: int| 0 <= g < f ==> (#[trigger] fs@[g]).type_id.0 < n,
            decreases fs@.len() - f,
        {
            if fs[f].type_id.0 as usize >= n {
                return false;
            }
            f = f + 1;
        }
        k = k + 1;
    }
    true
}

/// Whether `p` is well formed (`program_wf`): what the analysis needs.
pub fn program_is_wf(p: &Program) -> (r: bool)
    ensures
        r == program_wf(*p),
{
    if !table_is_wf(&p.types) {
        return false;
    }
    let s = &p.symbols;
    let nt = p.types.types.len();
    let nv = s.variables.len();
    if nv > 0xffff_ffff {
        return false;
    }
    let mut i: usize = 0;
    while i < nv
        invariant
            nv == s.variables@.len(),
            nt == p.types.types@.len(),
            *s == p.symbols,
            i <= nv,
            forall|j: int| 0 <= j < i ==> {
                let v = #[trigger] s.variables@[j];
                &&& v.id.0 == j
                &&& (v.type_id.0 as int) < nt
                &&& (v.fn_id matches Some(f) ==> fn_index(s.functions@, f) >= 0)
            },
        decreases nv - i,
    {
        let v = &s.variables[i];
        if v.id.0 as usize != i || v.type_id.0 as usize >= nt {
            return false;
        }
        if let Some(f) = v.fn_id {
            if s.function_by_id(f).is_none() {
                return false;
            }
        }
        i = i + 1;
    }
    i = 0;
    while i < s.functions.len()
        invariant
            nv == s.variables@.len(),
            nt == p.types.types@.len(),
            *s == p.symbols,
            i <= s.functions@.len(),
            forall|j: int| 0 <= j < i ==> {
                let f = #[trigger] s.functions@[j];
                &&& (f.return_type.0 as int) < nt
                &&& forall|k: int| 0 <= k < f.params@.len() ==> (#[trigger] f.params@[k].0 as int) < nv
            },
        decreases s.functions@.len() - i,
    {
        let f = &s.functions[i];
        if f.return_type.0 as usize >= nt {
            return false;
        }
        let mut k: usize = 0;
        while k < f.params.len()
            invariant
                nv == s.variables@.len(),
                i < s.functions@.len(),
                *s == p.symbols,
                *f == s.functions@[i as int],
                k <= f.params@.len(),
                forall|m: int| 0 <= m < k ==> (#[trigger] f.params@[m].0 as int) < nv,
            decreases f.params@.len() - k,
        {
            if f.params[k].0 as usize >= nv {
                return false;
            }
            k = k + 1;
        }
        i = i + 1;
    }
    i = 0;
    while i < s.call_sites.len()
        invariant
            nv == s.variables@.len(),
            *s == p.symbols,
            i <= s.call_sites@.len(),
            forall|j: int| 0 <= j < i ==> {
                let c = #[trigger] s.call_sites@[j];
                &&& c.id.0 == j
                &&& forall|k: int| 0 <= k < c.var_args@.len() ==> (#[trigger] c.var_args@[k].1.0 as int) < nv
            },
        decreases s.call_sites@.len() - i,
    {
        let c = &s.call_sites[i];
        if c.id.0 as usize != i {
            return false;
        }
        let mut k: usize = 0;
        while k < c.var_args.len()
            invariant
                nv == s.variables@.len(),
                i < s.call_sites@.len(),
                *s == p.symbols,
                *c == s.call_sites@[i as int],
                k <= c.var_args@.len(),
                forall|m: int| 0 <= m < k ==> (#[trigger] c.var_args@[m].1.0 as int) < nv,
            decreases c.var_args@.len() - k,
        {
            if c.var_args[k].1.0 as usize >= nv {
                return false;
            }
            k = k + 1;
        }
        i = i + 1;
    }
    i = 0;
    while i < s.fn_by_name.len()
        invariant
            *s == p.symbols,
            i <= s.fn_by_name@.len(),
            forall|j: int| 0 <= j < i ==> fn_index(s.functions@, (#[trigger] s.fn_by_name@[j]).1) >= 0,
        decreases s.fn_by_name@.len() - i,
    {
        if s.function_by_id(s.fn_by_name[i].1).is_none() {
            return false;
        }
        i = i + 1;
    }
    i = 0;
    while i < p.flow.len()
        invariant
            nv == s.variables@.len(),
            *s == p.symbols,
            i <= p.flow@.len(),
            forall|j: int| 0 <= j < i ==> match #[trigger] p.flow@[j] {
                FlowConstraint::CallReturn { dst, .. } => (dst.0 as int) < nv,
                _ => true,
            },
        decreases p.flow@.len() - i,
    {
        match &p.flow[i] {
            FlowConstraint::CallReturn { dst, .. } => {
                if dst.0 as usize >= nv {
                    return false;
                }
            },
            _ => {},
        }
        i = i + 1;
    }
    true
}

} // verus!
