//! Functions, variables, call sites and files of the analyzed program.

use vstd::prelude::*;
use crate::ids::{CallSiteId, FileId, FnId, TypeId, VarId};
use crate::span::Span;
use crate::text::{string_is, strings_eq};

verus! {

#[derive(Debug, Clone, Copy, PartialEq, Eq, Hash, Structural)]
pub enum Linkage {
    External,
    Internal,
    /// No linkage (block-scope names).
    NoLinkage,
}

#[derive(Debug, Clone, Copy, PartialEq, Eq, Hash, Structural)]
pub enum StorageClass {
    Global,
    FileStatic,
    FnStatic,
    Param,
    Local,
}

#[derive(Debug, Clone)]
pub struct Variable {
    pub id: VarId,
    pub name: String,
    pub type_id: TypeId,
    pub storage: StorageClass,
    pub fn_id: Option<FnId>,
    pub param_index: Option<u32>,
    pub span: Span,
    pub is_pointer: bool,
}

#[derive(Debug, Clone)]
pub struct Function {
    pub id: FnId,
    pub name: String,
    pub linkage: Linkage,
    pub return_type: TypeId,
    pub params: Vec<VarId>,
    pub locals: Vec<VarId>,
    pub span: Span,
    pub file: FileId,
    pub is_defined: bool,
}

#[derive(Debug, Clone)]
pub struct CallSite {
    pub id: CallSiteId,
    pub caller: FnId,
    pub callee_name: String,
    pub callee_var: Option<VarId>,
    pub var_args: Vec<(u32, VarId)>,
    pub fn_args: Vec<(u32, FnId)>,
    pub span: Span,
    pub is_direct: bool,
}

#[derive(Debug, Clone)]
pub struct FileInfo {
    pub id: FileId,
    pub path: String,
}

/// The program's symbols, with name tables for external functions and
/// globals (each name at most once, in insertion order).
#[derive(Debug, Clone)]
pub struct SymbolTable {
    pub files: Vec<FileInfo>,
    pub functions: Vec<Function>,
    pub variables: Vec<Variable>,
    pub call_sites: Vec<CallSite>,
    pub fn_by_name: Vec<(String, FnId)>,
    pub global_by_name: Vec<(String, VarId)>,
    pub next_fn: u32,
    pub next_var: u32,
    pub next_call: u32,
}

/// Position of the entry named `name`, or -1.
pub open spec fn name_pos<T>(entries: Seq<(String, T)>, name: Seq<char>) -> int
    decreases entries.len(),
{
    if entries.len() == 0 {
        -1
    } else if entries.last().0@ == name {
        entries.len() - 1
    } else {
        name_pos(entries.drop_last(), name)
    }
}

pub proof fn lemma_name_pos<T>(entries: Seq<(String, T)>, name: Seq<char>)
    ensures
        -1 <= name_pos(entries, name) < entries.len(),
        name_pos(entries, name) >= 0 ==> entries[name_pos(entries, name)].0@ == name,
        name_pos(entries, name) == -1 ==> forall|k: int| 0 <= k < entries.len() ==> (#[trigger] entries[k]).0@ != name,
    decreases entries.len(),
{
    if entries.len() > 0 {
        lemma_name_pos(entries.drop_last(), name);
        if entries.last().0@ != name && name_pos(entries, name) == -1 {
            assert forall|k: int| 0 <= k < entries.len() implies (#[trigger] entries[k]).0@ != name by {
                if k < entries.len() - 1 {
                    assert(entries[k] == entries.drop_last()[k]);
                }
            }
        }
    }
}

/// `f` is named `name` and belongs to `file`.
pub open spec fn named_in(f: Function, name: Seq<char>, file: FileId) -> bool {
    f.name@ == name && f.file == file
}

/// The first of the first `n` functions named `name` in `file`.
pub open spec fn first_in_file_upto(fs: Seq<Function>, name: Seq<char>, file: FileId, n: int) -> Option<int>
    decreases n,
{
    if n <= 0 {
        None
    } else {
        match first_in_file_upto(fs, name, file, n - 1) {
            Some(k) => Some(k),
            None => if named_in(fs[n - 1], name, file) { Some(n - 1) } else { None },
        }
    }
}

/// The first function named `name` in `file`.
pub open spec fn first_in_file(fs: Seq<Function>, name: Seq<char>, file: FileId) -> Option<int> {
    first_in_file_upto(fs, name, file, fs.len() as int)
}

/// The function a name denotes from `file`: the first one so named in
/// the file, else the external one known by that name.
pub open spec fn scope_pick(fs: Seq<Function>, by_name: Seq<(String, FnId)>, name: Seq<char>, file: Option<FileId>) -> Option<FnId> {
    match file {
        Some(f) => match first_in_file(fs, name, f) {
            Some(k) => Some(fs[k].id),
            None => name_lookup(by_name, name),
        },
        None => name_lookup(by_name, name),
    }
}

/// The search for the first function so named stops at the first index
/// that matches.
pub proof fn lemma_first_in_file(fs: Seq<Function>, name: Seq<char>, file: FileId, k: int)
    requires
        0 <= k <= fs.len(),
        forall|j: int| 0 <= j < k ==> !named_in(#[trigger] fs[j], name, file),
    ensures
        k < fs.len() && named_in(fs[k], name, file) ==> first_in_file(fs, name, file) == Some(k),
        k == fs.len() ==> first_in_file(fs, name, file) is None,
{
    lemma_first_upto_none(fs, name, file, k);
    if k < fs.len() && named_in(fs[k], name, file) {
        lemma_first_upto_kept(fs, name, file, k, fs.len() as int);
    }
}

/// The first function so named in a file is one of the functions, so
/// named and in that file.
pub proof fn lemma_first_in_file_found(fs: Seq<Function>, name: Seq<char>, file: FileId)
    ensures
        first_in_file(fs, name, file) matches Some(k) ==> 0 <= k < fs.len() && named_in(fs[k], name, file),
{
    lemma_first_upto_found(fs, name, file, fs.len() as int);
}

proof fn lemma_first_upto_found(fs: Seq<Function>, name: Seq<char>, file: FileId, m: int)
    requires
        m <= fs.len(),
    ensures
        first_in_file_upto(fs, name, file, m) matches Some(k) ==> 0 <= k < m && named_in(fs[k], name, file),
    decreases m,
{
    if m > 0 {
        lemma_first_upto_found(fs, name, file, m - 1);
    }
}

proof fn lemma_first_upto_none(fs: Seq<Function>, name: Seq<char>, file: FileId, m: int)
    requires
        0 <= m <= fs.len(),
        forall|j: int| 0 <= j < m ==> !named_in(#[trigger] fs[j], name, file),
    ensures
        first_in_file_upto(fs, name, file, m) is None,
    decreases m,
{
    if m > 0 {
        lemma_first_upto_none(fs, name, file, m - 1);
    }
}

proof fn lemma_first_upto_kept(fs: Seq<Function>, name: Seq<char>, file: FileId, k: int, m: int)
    requires
        0 <= k < m <= fs.len(),
        first_in_file_upto(fs, name, file, k) is None,
        named_in(fs[k], name, file),
    ensures
        first_in_file_upto(fs, name, file, m) == Some(k),
    decreases m,
{
    if m > k + 1 {
        lemma_first_upto_kept(fs, name, file, k, m - 1);
    }
}

/// The value stored under `name`.
pub open spec fn name_lookup<T>(entries: Seq<(String, T)>, name: Seq<char>) -> Option<T> {
    if name_pos(entries, name) >= 0 {
        Some(entries[name_pos(entries, name)].1)
    } else {
        None
    }
}

/// The value stored under `name`.
pub fn lookup_name<T: Copy>(entries: &Vec<(String, T)>, name: &str) -> (r: Option<T>)
    ensures
        r == name_lookup(entries@, name@),
{
    let mut k = entries.len();
    assert(entries@.subrange(0, k as int) =~= entries@);
    while k > 0
        invariant
            k <= entries@.len(),
            name_pos(entries@, name@) == name_pos(entries@.subrange(0, k as int), name@),
        decreases k,
    {
        assert(entries@.subrange(0, k as int).drop_last() =~= entries@.subrange(0, k - 1));
        if string_is(&entries[k - 1].0, name) {
            return Some(entries[k - 1].1);
        }
        k = k - 1;
    }
    proof {
        assert(entries@.subrange(0, 0).len() == 0);
    }
    None
}

/// Stores `value` under `name` (in place when present, else last).
pub fn store_name<T: Copy>(entries: &mut Vec<(String, T)>, name: String, value: T)
    ensures
        name_pos(old(entries)@, name@) >= 0 ==> final(entries)@.len() == old(entries)@.len(),
        name_pos(old(entries)@, name@) == -1 ==> final(entries)@.len() == old(entries)@.len() + 1,
        name_lookup(final(entries)@, name@) == Some(value),
        forall|i: int| 0 <= i < final(entries)@.len() ==> (#[trigger] final(entries)@[i]).1 == value
            || (i < old(entries)@.len() && final(entries)@[i] == old(entries)@[i]),
{
    proof { lemma_name_pos(entries@, name@); }
    let mut k = entries.len();
    assert(entries@.subrange(0, k as int) =~= entries@);
    while k > 0
        invariant
            k <= entries@.len(),
            entries@ == old(entries)@,
            name_pos(entries@, name@) == name_pos(entries@.subrange(0, k as int), name@),
        decreases k,
    {
        assert(entries@.subrange(0, k as int).drop_last() =~= entries@.subrange(0, k - 1));
        if strings_eq(&entries[k - 1].0, &name) {
            let ghost before = entries@;
            let ghost n = name@;
            entries.set(k - 1, (name, value));
            proof {
                assert(entries@ =~= before.update(k - 1, entries@[k - 1]));
                lemma_name_pos_update(before, n, k - 1, entries@[k - 1]);
            }
            return;
        }
        k = k - 1;
    }
    let ghost before = entries@;
    let ghost n = name@;
    entries.push((name, value));
    proof {
        assert(entries@.drop_last() =~= before);
    }
}

/// Rewriting the entry found for `name` with the same name keeps it found there.
proof fn lemma_name_pos_update<T>(entries: Seq<(String, T)>, name: Seq<char>, k: int, e: (String, T))
    requires
        0 <= k < entries.len(),
        name_pos(entries, name) == k,
        e.0@ == name,
    ensures
        name_pos(entries.update(k, e), name) == k,
    decreases entries.len(),
{
    let u = entries.update(k, e);
    if k < entries.len() - 1 {
        assert(u.drop_last() =~= entries.drop_last().update(k, e));
        lemma_name_pos_update(entries.drop_last(), name, k, e);
    }
}

/// Index of the function with id `id`, if any.
pub open spec fn fn_index(fs: Seq<Function>, id: FnId) -> int
    decreases fs.len(),
{
    if fs.len() == 0 {
        -1
    } else if fn_index(fs.drop_last(), id) >= 0 {
        fn_index(fs.drop_last(), id)
    } else if fs.last().id == id {
        fs.len() - 1
    } else {
        -1
    }
}

pub proof fn lemma_fn_index(fs: Seq<Function>, id: FnId)
    ensures
        -1 <= fn_index(fs, id) < fs.len(),
        fn_index(fs, id) >= 0 ==> fs[fn_index(fs, id)].id == id,
        fn_index(fs, id) >= 0 ==> forall|k: int| 0 <= k < fn_index(fs, id) ==> (#[trigger] fs[k]).id != id,
        fn_index(fs, id) == -1 ==> forall|k: int| 0 <= k < fs.len() ==> (#[trigger] fs[k]).id != id,
    decreases fs.len(),
{
    if fs.len() > 0 {
        lemma_fn_index(fs.drop_last(), id);
        assert forall|k: int| 0 <= k < fs.len() - 1 implies #[trigger] fs[k] == fs.drop_last()[k] by {}
    }
}

/// Index of the first function with id `id`.
fn find_fn(fs: &Vec<Function>, id: FnId) -> (r: Option<usize>)
    ensures
        match r {
            Some(k) => k as int == fn_index(fs@, id) && (k as int) < fs@.len(),
            None => fn_index(fs@, id) == -1,
        },
{
    proof { lemma_fn_index(fs@, id); }
    let mut k: usize = 0;
    while k < fs.len()
        invariant
            k <= fs@.len(),
            forall|j: int| 0 <= j < k ==> (#[trigger] fs@[j]).id != id,
        decreases fs@.len() - k,
    {
        if fs[k].id == id {
            proof {
                lemma_fn_index(fs@, id);
                let fi = fn_index(fs@, id);
                if fi == -1 {
                    assert(fs@[k as int].id == id);
                } else if fi < k {
                    assert(fs@[fi].id == id);
                }
            }
            return Some(k);
        }
        k = k + 1;
    }
    None
}

/// The function merged with an existing entry `old_f` when `new_f` with
/// the same external name is added: a definition takes over file, span
/// and (when it has any) parameters; a declaration only fills missing
/// parameters.
pub open spec fn merged_function(old_f: Function, new_f: Function) -> Function {
    if new_f.is_defined {
        Function {
            is_defined: true,
            file: new_f.file,
            span: new_f.span,
            params: if new_f.params@.len() > 0 { new_f.params } else { old_f.params },
            ..old_f
        }
    } else if old_f.params@.len() == 0 && new_f.params@.len() > 0 {
        Function { params: new_f.params, ..old_f }
    } else {
        old_f
    }
}

impl SymbolTable {
    pub fn new() -> (t: SymbolTable)
        ensures
            t.files@.len() == 0,
            t.functions@.len() == 0,
            t.variables@.len() == 0,
            t.call_sites@.len() == 0,
            t.fn_by_name@.len() == 0,
            t.global_by_name@.len() == 0,
            t.next_fn == 0 && t.next_var == 0 && t.next_call == 0,
    {
        SymbolTable {
            files: Vec::new(),
            functions: Vec::new(),
            variables: Vec::new(),
            call_sites: Vec::new(),
            fn_by_name: Vec::new(),
            global_by_name: Vec::new(),
            next_fn: 0,
            next_var: 0,
            next_call: 0,
        }
    }

    /// Registers a file; its id is its position.
    pub fn add_file(&mut self, path: String) -> (id: FileId)
        requires
            old(self).files@.len() < u32::MAX,
        ensures
            id.0 == old(self).files@.len(),
            final(self).files@ == old(self).files@.push(FileInfo { id, path }),
            final(self).functions == old(self).functions,
            final(self).variables == old(self).variables,
            final(self).call_sites == old(self).call_sites,
            final(self).fn_by_name == old(self).fn_by_name,
            final(self).global_by_name == old(self).global_by_name,
            final(self).next_fn == old(self).next_fn,
            final(self).next_var == old(self).next_var,
            final(self).next_call == old(self).next_call,
    {
        let id = FileId(self.files.len() as u32);
        self.files.push(FileInfo { id, path });
        id
    }

    /// Adds a function. An external function whose name is already known
    /// merges into the known one (see `merged_function`) and its id is
    /// returned; otherwise the function is appended and, if external,
    /// becomes the one known by its name.
    pub fn add_function(&mut self, func: Function) -> (id: FnId)
        ensures
            ({
                let known = name_lookup(old(self).fn_by_name@, func.name@);
                let merges = func.linkage == Linkage::External && known is Some
                    && fn_index(old(self).functions@, known->0) >= 0;
                &&& merges ==> id == known->0
                    && final(self).functions@ == old(self).functions@.update(
                        fn_index(old(self).functions@, known->0),
                        merged_function(old(self).functions@[fn_index(old(self).functions@, known->0)], func),
                    )
                    && final(self).fn_by_name == old(self).fn_by_name
                &&& !merges ==> id == func.id && final(self).functions@ == old(self).functions@.push(func)
                &&& !merges && func.linkage == Linkage::External ==> name_lookup(final(self).fn_by_name@, func.name@) == Some(func.id)
                &&& !merges && func.linkage != Linkage::External ==> final(self).fn_by_name == old(self).fn_by_name
            }),
            final(self).variables == old(self).variables,
            final(self).files == old(self).files,
            final(self).call_sites == old(self).call_sites,
            final(self).global_by_name == old(self).global_by_name,
            old(self).functions@.len() <= final(self).functions@.len(),
            final(self).next_fn == old(self).next_fn,
            final(self).next_var == old(self).next_var,
            final(self).next_call == old(self).next_call,
            forall|i: int| 0 <= i < old(self).functions@.len() ==> #[trigger] final(self).functions@[i].id == old(self).functions@[i].id,
            forall|i: int| 0 <= i < final(self).fn_by_name@.len() ==> (#[trigger] final(self).fn_by_name@[i]).1 == id
                || (i < old(self).fn_by_name@.len() && final(self).fn_by_name@[i] == old(self).fn_by_name@[i]),
    {
        if func.linkage == Linkage::External {
            let known = lookup_name(&self.fn_by_name, func.name.as_str());
            if let Some(existing_id) = known {
                if let Some(k) = find_fn(&self.functions, existing_id) {
                    let mut existing = self.functions.remove(k);
                    let ghost ex0 = existing;
                    let ghost merged = merged_function(ex0, func);
                    if func.is_defined {
                        existing.is_defined = true;
                        existing.file = func.file;
                        existing.span = func.span;
                        if func.params.len() > 0 {
                            existing.params = func.params;
                        }
                    } else if existing.params.len() == 0 && func.params.len() > 0 {
                        existing.params = func.params;
                    }
                    assert(existing == merged);
                    self.functions.insert(k, existing);
                    proof {
                        assert(self.functions@ =~= old(self).functions@.update(k as int, merged));
                    }
                    return existing_id;
                }
            }
            store_name(&mut self.fn_by_name, func.name.clone(), func.id);
        }
        let id = func.id;
        self.functions.push(func);
        id
    }

    /// Adds a variable; a global becomes the one known by its name.
    pub fn add_variable(&mut self, var: Variable) -> (id: VarId)
        ensures
            id == var.id,
            final(self).variables@ == old(self).variables@.push(var),
            var.storage == StorageClass::Global ==> name_lookup(final(self).global_by_name@, var.name@) == Some(var.id),
            var.storage != StorageClass::Global ==> final(self).global_by_name == old(self).global_by_name,
            forall|i: int| 0 <= i < final(self).global_by_name@.len() ==> (#[trigger] final(self).global_by_name@[i]).1 == var.id
                || (i < old(self).global_by_name@.len() && final(self).global_by_name@[i] == old(self).global_by_name@[i]),
            final(self).functions == old(self).functions,
            final(self).fn_by_name == old(self).fn_by_name,
            final(self).files == old(self).files,
            final(self).call_sites == old(self).call_sites,
            final(self).next_fn == old(self).next_fn,
            final(self).next_var == old(self).next_var,
            final(self).next_call == old(self).next_call,
    {
        let id = var.id;
        if var.storage == StorageClass::Global {
            store_name(&mut self.global_by_name, var.name.clone(), id);
        }
        self.variables.push(var);
        id
    }

    /// A fresh function id: the counter's value, which then advances.
    pub fn alloc_fn_id(&mut self) -> (id: FnId)
        requires
            old(self).next_fn < u32::MAX,
        ensures
            id.0 == old(self).next_fn,
            final(self).next_fn == old(self).next_fn + 1,
            final(self).next_var == old(self).next_var,
            final(self).next_call == old(self).next_call,
            final(self).functions == old(self).functions,
            final(self).variables == old(self).variables,
            final(self).files == old(self).files,
            final(self).call_sites == old(self).call_sites,
            final(self).fn_by_name == old(self).fn_by_name,
            final(self).global_by_name == old(self).global_by_name,
    {
        let id = FnId(self.next_fn);
        self.next_fn = self.next_fn + 1;
        id
    }

    /// A fresh variable id: the counter's value, which then advances.
    pub fn alloc_var_id(&mut self) -> (id: VarId)
        requires
            old(self).next_var < u32::MAX,
        ensures
            id.0 == old(self).next_var,
            final(self).next_var == old(self).next_var + 1,
            final(self).next_fn == old(self).next_fn,
            final(self).next_call == old(self).next_call,
            final(self).functions == old(self).functions,
            final(self).variables == old(self).variables,
            final(self).files == old(self).files,
            final(self).call_sites == old(self).call_sites,
            final(self).fn_by_name == old(self).fn_by_name,
            final(self).global_by_name == old(self).global_by_name,
    {
        let id = VarId(self.next_var);
        self.next_var = self.next_var + 1;
        id
    }

    /// A fresh call-site id: the counter's value, which then advances.
    pub fn alloc_call_id(&mut self) -> (id: CallSiteId)
        requires
            old(self).next_call < u32::MAX,
        ensures
            id.0 == old(self).next_call,
            final(self).next_call == old(self).next_call + 1,
            final(self).next_fn == old(self).next_fn,
            final(self).next_var == old(self).next_var,
            final(self).functions == old(self).functions,
            final(self).variables == old(self).variables,
            final(self).files == old(self).files,
            final(self).call_sites == old(self).call_sites,
            final(self).fn_by_name == old(self).fn_by_name,
            final(self).global_by_name == old(self).global_by_name,
    {
        let id = CallSiteId(self.next_call);
        self.next_call = self.next_call + 1;
        id
    }

    /// The external function known by `name`.
    pub fn resolve_function(&self, name: &str) -> (r: Option<FnId>)
        ensures
            r == name_lookup(self.fn_by_name@, name@),
    {
        lookup_name(&self.fn_by_name, name)
    }

    /// The first function named `name` defined or declared in `file` (a
    /// file-static definition shadows an external function of the same
    /// name there), else the external function known by `name`.
    pub fn resolve_function_in_scope(&self, name: &str, file: Option<FileId>) -> (r: Option<FnId>)
        ensures
            r == scope_pick(self.functions@, self.fn_by_name@, name@, file),
    {
        if let Some(f) = file {
            let mut k: usize = 0;
            while k < self.functions.len()
                invariant
                    k <= self.functions@.len(),
                    file == Some(f),
                    forall|j: int| 0 <= j < k ==> !named_in(#[trigger] self.functions@[j], name@, f),
                decreases self.functions@.len() - k,
            {
                if self.functions[k].file == f && string_is(&self.functions[k].name, name) {
                    proof { lemma_first_in_file(self.functions@, name@, f, k as int); }
                    return Some(self.functions[k].id);
                }
                k = k + 1;
            }
            proof { lemma_first_in_file(self.functions@, name@, f, k as int); }
        }
        lookup_name(&self.fn_by_name, name)
    }

    /// Every function a name may denote from `file`: the external one and
    /// the functions so named in `file`.
    pub fn resolve_function_candidates(&self, name: &str, file: Option<FileId>) -> (r: Vec<FnId>)
        ensures
            name_lookup(self.fn_by_name@, name@) is Some ==> r@.contains(name_lookup(self.fn_by_name@, name@)->0),
            forall|k: int| 0 <= k < self.functions@.len() && file is Some
                && (#[trigger] self.functions@[k]).name@ == name@ && self.functions@[k].file == file->0
                ==> r@.contains(self.functions@[k].id),
            forall|id: FnId| #[trigger] r@.contains(id) ==> name_lookup(self.fn_by_name@, name@) == Some(id)
                || exists|k: int| 0 <= k < self.functions@.len() && file is Some
                    && (#[trigger] self.functions@[k]).name@ == name@ && self.functions@[k].file == file->0
                    && self.functions@[k].id == id,
            forall|a: int, b: int| 0 <= a < b < r@.len() ==> r@[a] != r@[b],
    {
        let mut r: Vec<FnId> = Vec::new();
        let ext = lookup_name(&self.fn_by_name, name);
        if let Some(id) = ext {
            r.push(id);
            assert(r@[0] == id);
        }
        if let Some(f) = file {
            let mut k: usize = 0;
            while k < self.functions.len()
                invariant
                    k <= self.functions@.len(),
                    file == Some(f),
                    ext == name_lookup(self.fn_by_name@, name@),
                    ext is Some ==> r@.contains(ext->0),
                    forall|j: int| 0 <= j < k && (#[trigger] self.functions@[j]).name@ == name@ && self.functions@[j].file == f
                        ==> r@.contains(self.functions@[j].id),
                    forall|id: FnId| #[trigger] r@.contains(id) ==> ext == Some(id)
                        || exists|j: int| 0 <= j < self.functions@.len()
                            && (#[trigger] self.functions@[j]).name@ == name@ && self.functions@[j].file == f
                            && self.functions@[j].id == id,
                    forall|a: int, b: int| 0 <= a < b < r@.len() ==> r@[a] != r@[b],
                decreases self.functions@.len() - k,
            {
                if self.functions[k].file == f && string_is(&self.functions[k].name, name) {
                    let id = self.functions[k].id;
                    if !fn_ids_contain(&r, id) {
                        let ghost before = r@;
                        r.push(id);
                        proof {
                            assert forall|x: FnId| #[trigger] r@.contains(x) implies ext == Some(x)
                                || exists|j: int| 0 <= j < self.functions@.len()
                                    && (#[trigger] self.functions@[j]).name@ == name@ && self.functions@[j].file == f
                                    && self.functions@[j].id == x by {
                                if x != id {
                                    let q = choose|q: int| 0 <= q < r@.len() && r@[q] == x;
                                    assert(before[q] == x);
                                    assert(before.contains(x));
                                } else {
                                    assert(self.functions@[k as int].id == x);
                                }
                            }
                            assert forall|q: FnId| before.contains(q) implies r@.contains(q) by {
                                let w = choose|w: int| 0 <= w < before.len() && before[w] == q;
                                assert(r@[w] == q);
                            }
                            assert(r@[r@.len() - 1] == id);
                        }
                    }
                }
                k = k + 1;
            }
        }
        r
    }

    /// The first function with id `id`.
    pub fn function_by_id(&self, id: FnId) -> (r: Option<&Function>)
        ensures
            match r {
                Some(f) => fn_index(self.functions@, id) >= 0 && *f == self.functions@[fn_index(self.functions@, id)],
                None => fn_index(self.functions@, id) == -1,
            },
    {
        match find_fn(&self.functions, id) {
            Some(k) => Some(&self.functions[k]),
            None => None,
        }
    }

    /// The function with id `id` (which must exist).
    pub fn function(&self, id: FnId) -> (r: &Function)
        requires
            fn_index(self.functions@, id) >= 0,
        ensures
            *r == self.functions@[fn_index(self.functions@, id)],
    {
        match self.function_by_id(id) {
            Some(f) => f,
            None => {
                proof { assert(false); }
                &self.functions[0]
            },
        }
    }

    /// The variable stored at position `id`, when its id matches.
    pub fn variable_by_id(&self, id: VarId) -> (r: Option<&Variable>)
        ensures
            match r {
                Some(v) => (id.0 as int) < self.variables@.len() && *v == self.variables@[id.0 as int] && v.id == id,
                None => !((id.0 as int) < self.variables@.len() && self.variables@[id.0 as int].id == id),
            },
    {
        let k = id.0 as usize;
        if k < self.variables.len() && self.variables[k].id == id {
            Some(&self.variables[k])
        } else {
            None
        }
    }

    /// The variable with id `id` (stored at that position).
    pub fn variable(&self, id: VarId) -> (r: &Variable)
        requires
            (id.0 as int) < self.variables@.len(),
            self.variables@[id.0 as int].id == id,
        ensures
            *r == self.variables@[id.0 as int],
    {
        &self.variables[id.0 as usize]
    }

    /// The first call site with id `id`.
    pub fn call_site_by_id(&self, id: CallSiteId) -> (r: Option<&CallSite>)
        ensures
            match r {
                Some(c) => c.id == id && exists|k: int| 0 <= k < self.call_sites@.len() && self.call_sites@[k] == *c,
                None => forall|k: int| 0 <= k < self.call_sites@.len() ==> (#[trigger] self.call_sites@[k]).id != id,
            },
    {
        let mut k: usize = 0;
        while k < self.call_sites.len()
            invariant
                k <= self.call_sites@.len(),
                forall|j: int| 0 <= j < k ==> (#[trigger] self.call_sites@[j]).id != id,
            decreases self.call_sites@.len() - k,
        {
            if self.call_sites[k].id == id {
                return Some(&self.call_sites[k]);
            }
            k = k + 1;
        }
        None
    }

    /// Whether no two functions share an id.
    pub fn function_ids_unique(&self) -> (r: bool)
        ensures
            r == forall|a: int, b: int| 0 <= a < b < self.functions@.len()
                ==> (#[trigger] self.functions@[a]).id != (#[trigger] self.functions@[b]).id,
    {
        let n = self.functions.len();
        let mut a: usize = 0;
        while a < n
            invariant
                n == self.functions@.len(),
                a <= n,
                forall|x: int, y: int| 0 <= x < a && x < y < n
                    ==> (#[trigger] self.functions@[x]).id != (#[trigger] self.functions@[y]).id,
            decreases n - a,
        {
            let mut b = a + 1;
            while b < n
                invariant
                    n == self.functions@.len(),
                    a < n,
                    a < b <= n,
                    forall|x: int, y: int| 0 <= x < a && x < y < n
                        ==> (#[trigger] self.functions@[x]).id != (#[trigger] self.functions@[y]).id,
                    forall|y: int| a < y < b ==> self.functions@[a as int].id != (#[trigger] self.functions@[y]).id,
                decreases n - b,
            {
                if self.functions[a].id == self.functions[b].id {
                    return false;
                }
                b = b + 1;
            }
            a = a + 1;
        }
        true
    }
}

/// Whether `v` holds `id`.
pub fn fn_ids_contain(v: &Vec<FnId>, id: FnId) -> (r: bool)
    ensures
        r == v@.contains(id),
{
    let mut k: usize = 0;
    while k < v.len()
        invariant
            k <= v@.len(),
            forall|j: int| 0 <= j < k ==> v@[j] != id,
        decreases v@.len() - k,
    {
        if v[k] == id {
            assert(v@[k as int] == id);
            return true;
        }
        k = k + 1;
    }
    false
}

} // verus!
