//! Lowering of C syntax trees to the intermediate representation: symbols,
//! types, call sites, pointer flow and return summaries.

use vstd::prelude::*;
use crate::flow::{FlowConstraint, ReturnFlow};
use crate::ids::{FieldId, FileId, FnId, TypeId, VarId};
use crate::program::{Diagnostic, DiagnosticSeverity, Program, program_wf, returns_of};
use crate::span::Span;
use crate::symbol::{CallSite, Function, Linkage, SymbolTable, StorageClass, Variable, fn_index, lemma_name_pos, lookup_name, name_lookup, name_pos, store_name, scope_pick};
use crate::index_cache::{IncludeGraph, IndexSourceCache, cached_text, needs_preprocessing, raw_text};
use crate::options::{PreprocessOptions, define_entries, defines_clone};
use crate::preprocessor::{read_failed_prefix, no_such_source_suffix};
use crate::syntax::{SyntaxTree, child_at, field_child, named_child_at, parse_c_source, tree_wf, tree_too_large_message};
use crate::text::{white, char_is_whitespace, strings_eq, chars_to_string, contains_char, contains_chars, contains_seq, decimal, occurs_at, push_all, str_chars, string_is, u32_decimal};
use crate::types::{TypeDesc, TypeInfo, desc_same, interned_as, resolve_spec, table_grows, table_wf};

verus! {

/// Where lowering stands: the function being lowered (if any), the file,
/// and the function's locals by name.
pub struct LowerContext {
    pub current_fn: Option<FnId>,
    pub current_file: FileId,
    pub locals: Vec<(String, VarId)>,
}

/// What lowering keeps of a program: its type table is well formed.
pub open spec fn lower_ok(p: Program) -> bool {
    table_wf(p.types)
}

/// Node `n` of a well-formed tree.
pub open spec fn node_in(t: SyntaxTree, n: usize) -> bool {
    tree_wf(t) && (n as int) < t.nodes@.len()
}

/// The grammar kind of node `n`.
pub open spec fn kind(t: SyntaxTree, n: int) -> Seq<char> {
    t.nodes@[n].kind@
}

/// The source text of node `n`.
pub open spec fn text(t: SyntaxTree, n: int) -> Seq<char> {
    t.nodes@[n].text@
}

/// Node `n` without enclosing parentheses.
pub open spec fn peeled(t: SyntaxTree, n: int) -> int
    decreases t.nodes@.len() - n,
{
    if 0 <= n < t.nodes@.len() && kind(t, n) == "parenthesized_expression"@ {
        match named_child_at(t, n, 0) {
            Some(c) => peeled(t, c as int),
            None => n,
        }
    } else {
        n
    }
}

/// The operator text of a pointer expression: its `operator` child, else
/// its first child.
pub open spec fn ptr_op(t: SyntaxTree, n: int) -> Option<Seq<char>> {
    if kind(t, n) != "pointer_expression"@ {
        None
    } else {
        match field_child(t, n, "operator"@) {
            Some(o) => Some(text(t, o as int)),
            None => match child_at(t, n, 0) {
                Some(o) => Some(text(t, o as int)),
                None => None,
            },
        }
    }
}

/// The operand of a pointer expression: its `argument` child, else its
/// first named child.
pub open spec fn ptr_arg(t: SyntaxTree, n: int) -> Option<usize> {
    if kind(t, n) != "pointer_expression"@ {
        None
    } else {
        match field_child(t, n, "argument"@) {
            Some(a) => Some(a),
            None => named_child_at(t, n, 0),
        }
    }
}

/// The operand of a cast: its `expression` child, else its second named
/// child.
pub open spec fn cast_arg(t: SyntaxTree, n: int) -> Option<usize> {
    match field_child(t, n, "expression"@) {
        Some(e) => Some(e),
        None => named_child_at(t, n, 1),
    }
}

/// Whether a static variable is visible from where lowering stands: a
/// file-static of the current file or a function-static of the current
/// function.
pub open spec fn static_visible(v: Variable, ctx: LowerContext) -> bool {
    match v.storage {
        StorageClass::FileStatic => v.span.file == ctx.current_file,
        StorageClass::FnStatic => v.fn_id == ctx.current_fn,
        _ => false,
    }
}

/// The first visible static variable named `name`.
pub open spec fn static_pick(vars: Seq<Variable>, name: Seq<char>, ctx: LowerContext) -> Option<VarId>
    decreases vars.len(),
{
    if vars.len() == 0 {
        None
    } else if vars[0].name@ == name && static_visible(vars[0], ctx) {
        Some(vars[0].id)
    } else {
        static_pick(vars.drop_first(), name, ctx)
    }
}

/// The variable `name` denotes: a local of the current function, else the
/// global, else the first visible static.
pub open spec fn var_named(ctx: LowerContext, s: SymbolTable, name: Seq<char>) -> Option<VarId> {
    if ctx.current_fn is Some && name_lookup(ctx.locals@, name) is Some {
        name_lookup(ctx.locals@, name)
    } else if name_lookup(s.global_by_name@, name) is Some {
        name_lookup(s.global_by_name@, name)
    } else {
        static_pick(s.variables@, name, ctx)
    }
}

/// The function `name` denotes from the current file.
pub open spec fn fn_named(ctx: LowerContext, s: SymbolTable, name: Seq<char>) -> Option<FnId> {
    scope_pick(s.functions@, s.fn_by_name@, name, Some(ctx.current_file))
}

/// The function an identifier node names.
pub open spec fn fn_ref(ctx: LowerContext, s: SymbolTable, t: SyntaxTree, n: int) -> Option<FnId> {
    if kind(t, n) == "identifier"@ {
        fn_named(ctx, s, text(t, n))
    } else {
        None
    }
}

/// The function an argument passes: a function name, possibly behind `&`
/// or `*`.
pub open spec fn call_fn_arg(ctx: LowerContext, s: SymbolTable, t: SyntaxTree, n: int) -> Option<FnId>
    decreases t.nodes@.len() - n,
{
    if fn_ref(ctx, s, t, n) is Some {
        fn_ref(ctx, s, t, n)
    } else if 0 <= n && kind(t, n) == "pointer_expression"@ {
        match ptr_arg(t, n) {
            Some(a) => if n < a < t.nodes@.len() { call_fn_arg(ctx, s, t, a as int) } else { None },
            None => None,
        }
    } else {
        None
    }
}

/// The variable an lvalue is rooted at: through dereferences, address-of,
/// field and subscript accesses, parentheses and casts.
pub open spec fn lvalue_var(ctx: LowerContext, s: SymbolTable, t: SyntaxTree, n: int) -> Option<VarId>
    decreases t.nodes@.len() - n,
{
    if !(0 <= n < t.nodes@.len()) {
        None
    } else if kind(t, n) == "identifier"@ {
        var_named(ctx, s, text(t, n))
    } else {
        let next = if kind(t, n) == "pointer_expression"@ {
            ptr_arg(t, n)
        } else if kind(t, n) == "field_expression"@ || kind(t, n) == "subscript_expression"@ {
            field_child(t, n, "argument"@)
        } else if kind(t, n) == "parenthesized_expression"@ {
            named_child_at(t, n, 0)
        } else if kind(t, n) == "cast_expression"@ {
            cast_arg(t, n)
        } else {
            None
        };
        match next {
            Some(a) => if n < a < t.nodes@.len() { lvalue_var(ctx, s, t, a as int) } else { None },
            None => None,
        }
    }
}

/// The variable an argument expression carries: a variable name, the
/// lvalue behind `&`, the operand of another pointer expression, the base
/// of a field or subscript access, or a parenthesized one.
pub open spec fn expr_var(ctx: LowerContext, s: SymbolTable, t: SyntaxTree, n: int) -> Option<VarId>
    decreases t.nodes@.len() - n,
{
    if !(0 <= n < t.nodes@.len()) {
        None
    } else if kind(t, n) == "identifier"@ {
        var_named(ctx, s, text(t, n))
    } else if kind(t, n) == "pointer_expression"@ {
        match ptr_arg(t, n) {
            Some(a) => if ptr_op(t, n) == Some("&"@) {
                lvalue_var(ctx, s, t, a as int)
            } else if n < a < t.nodes@.len() {
                expr_var(ctx, s, t, a as int)
            } else {
                None
            },
            None => None,
        }
    } else {
        let next = if kind(t, n) == "field_expression"@ || kind(t, n) == "subscript_expression"@ {
            field_child(t, n, "argument"@)
        } else if kind(t, n) == "parenthesized_expression"@ {
            named_child_at(t, n, 0)
        } else {
            None
        };
        match next {
            Some(a) => if n < a < t.nodes@.len() { expr_var(ctx, s, t, a as int) } else { None },
            None => None,
        }
    }
}

/// The variable whose address a store writes: `&x` gives `x`, a name its
/// variable, anything else what `expr_var` finds.
pub open spec fn store_src(ctx: LowerContext, s: SymbolTable, t: SyntaxTree, n: int) -> Option<VarId> {
    if kind(t, n) == "pointer_expression"@ {
        match ptr_arg(t, n) {
            Some(a) => if ptr_op(t, n) == Some("&"@) { lvalue_var(ctx, s, t, a as int) } else { None },
            None => None,
        }
    } else if kind(t, n) == "identifier"@ {
        lvalue_var(ctx, s, t, n)
    } else {
        expr_var(ctx, s, t, n)
    }
}

/// The name a direct call calls: an identifier callee, possibly behind
/// parentheses or `*`.
pub open spec fn callee_name_at(t: SyntaxTree, f: int) -> Option<Seq<char>>
    decreases t.nodes@.len() - f,
{
    if !(0 <= f < t.nodes@.len()) {
        None
    } else {
        let g = peeled(t, f);
        if kind(t, g) == "identifier"@ {
            Some(text(t, g))
        } else if kind(t, g) == "pointer_expression"@ || kind(t, g) == "parenthesized_expression"@ {
            match named_child_at(t, g, 0) {
                Some(i) => if f <= g < i < t.nodes@.len() {
                    match field_child(t, i as int, "function"@) {
                        Some(h) => if i < h < t.nodes@.len() { callee_name_at(t, h as int) } else { None },
                        None => None,
                    }
                } else {
                    None
                },
                None => None,
            }
        } else {
            None
        }
    }
}

/// The name a call expression calls directly.
pub open spec fn direct_call_name(t: SyntaxTree, n: int) -> Option<Seq<char>> {
    match field_child(t, n, "function"@) {
        Some(f) => callee_name_at(t, f as int),
        None => None,
    }
}

/// Records a local of the current function.
fn register_local(ctx: &mut LowerContext, name: String, id: VarId)
    ensures
        final(ctx).current_fn == old(ctx).current_fn,
        final(ctx).current_file == old(ctx).current_file,
        old(ctx).current_fn is Some ==> name_lookup(final(ctx).locals@, name@) == Some(id),
        old(ctx).current_fn is None ==> final(ctx).locals == old(ctx).locals,
        forall|i: int| 0 <= i < final(ctx).locals@.len() ==> (#[trigger] final(ctx).locals@[i]).1 == id
            || (i < old(ctx).locals@.len() && final(ctx).locals@[i] == old(ctx).locals@[i]),
{
    if ctx.current_fn.is_some() {
        store_name(&mut ctx.locals, name, id);
    }
}

/// Source position of node `n` (one-based line and column).
fn node_span(ctx: &LowerContext, t: &SyntaxTree, n: usize) -> (r: Span)
    requires
        node_in(*t, n),
    ensures
        r.file == ctx.current_file,
        r.line == if t.nodes@[n as int].row == u32::MAX { u32::MAX as int } else { t.nodes@[n as int].row + 1 },
        r.col == if t.nodes@[n as int].col == u32::MAX { u32::MAX as int } else { t.nodes@[n as int].col + 1 },
{
    Span::new(ctx.current_file, t.nodes[n].row.saturating_add(1), t.nodes[n].col.saturating_add(1))
}

/// Storage class of a declared variable.
fn storage_for(ctx: &LowerContext, is_static: bool) -> (r: StorageClass)
    ensures
        r == if ctx.current_fn is Some {
            if is_static { StorageClass::FnStatic } else { StorageClass::Local }
        } else if is_static {
            StorageClass::FileStatic
        } else {
            StorageClass::Global
        },
{
    if ctx.current_fn.is_some() {
        if is_static { StorageClass::FnStatic } else { StorageClass::Local }
    } else if is_static {
        StorageClass::FileStatic
    } else {
        StorageClass::Global
    }
}

/// The text of node `n` contains `w`.
fn text_contains(t: &SyntaxTree, n: usize, w: &str) -> (r: bool)
    requires
        node_in(*t, n),
    ensures
        r == contains_seq(text(*t, n as int), w@),
{
    let hay = str_chars(t.nodes[n].text.as_str());
    let needle = str_chars(w);
    contains_chars(&hay, &needle)
}

/// The variable a name denotes: a local of the current function, a global,
/// a file-static of the current file, or a function-static of the current
/// function.
fn lookup_var(ctx: &LowerContext, program: &Program, name: &str) -> (r: Option<VarId>)
    ensures
        r == var_named(*ctx, program.symbols, name@),
{
    if ctx.current_fn.is_some() {
        if let Some(id) = lookup_name(&ctx.locals, name) {
            return Some(id);
        }
    }
    if let Some(id) = lookup_name(&program.symbols.global_by_name, name) {
        return Some(id);
    }
    let vars = &program.symbols.variables;
    let mut k: usize = 0;
    proof { assert(vars@.subrange(0, vars@.len() as int) =~= vars@); }
    while k < vars.len()
        invariant
            k <= vars@.len(),
            vars@ == program.symbols.variables@,
            var_named(*ctx, program.symbols, name@) == static_pick(vars@, name@, *ctx),
            static_pick(vars@, name@, *ctx) == static_pick(vars@.subrange(k as int, vars@.len() as int), name@, *ctx),
        decreases vars@.len() - k,
    {
        proof {
            assert(vars@.subrange(k as int, vars@.len() as int).drop_first()
                =~= vars@.subrange(k + 1, vars@.len() as int));
            assert(vars@.subrange(k as int, vars@.len() as int)[0] == vars@[k as int]);
        }
        let v = &vars[k];
        if string_is(&v.name, name) {
            let hit = match v.storage {
                StorageClass::FileStatic => v.span.file == ctx.current_file,
                StorageClass::FnStatic => match (v.fn_id, ctx.current_fn) {
                    (Some(a), Some(b)) => a == b,
                    (None, None) => true,
                    _ => false,
                },
                _ => false,
            };
            if hit {
                proof {
                    assert(static_visible(vars@[k as int], *ctx));
                    let rest = vars@.subrange(k as int, vars@.len() as int);
                    assert(rest.len() > 0 && rest[0].name@ == name@);
                }
                return Some(v.id);
            }
        }
        k = k + 1;
    }
    proof { assert(vars@.subrange(k as int, vars@.len() as int).len() == 0); }
    None
}

/// The function `name` denotes from the current file.
fn resolve_function_named(program: &Program, ctx: &LowerContext, name: &str) -> (r: Option<FnId>)
    ensures
        r == fn_named(*ctx, program.symbols, name@),
{
    match program.symbols.resolve_function_in_scope(name, Some(ctx.current_file)) {
        Some(id) => Some(id),
        None => program.symbols.resolve_function(name),
    }
}

/// The function an identifier node names.
fn resolve_fn_ref(program: &Program, ctx: &LowerContext, t: &SyntaxTree, n: usize) -> (r: Option<FnId>)
    requires
        node_in(*t, n),
    ensures
        r == fn_ref(*ctx, program.symbols, *t, n as int),
{
    if t.kind_is(n, "identifier") {
        return resolve_function_named(program, ctx, t.nodes[n].text.as_str());
    }
    None
}

/// An upper-case name (letters, digits, `_`, longer than two characters,
/// no `->`, `.` or `(`): most likely a macro, not a function.
fn is_likely_macro_callee(name: &str) -> (r: bool)
    ensures
        r == (!contains_seq(name@, seq!['-', '>']) && !name@.contains('.') && !name@.contains('(')
            && name@.len() > 2
            && forall|k: int| 0 <= k < name@.len() ==> {
                let x = #[trigger] name@[k];
                ('A' <= x && x <= 'Z') || ('0' <= x && x <= '9') || x == '_'
            }),
{
    let c = str_chars(name);
    let arrow: Vec<char> = vec!['-', '>'];
    proof { assert(arrow@ =~= seq!['-', '>']); }
    if contains_chars(&c, &arrow) || contains_char(&c, '.') || contains_char(&c, '(') {
        return false;
    }
    if c.len() <= 2 {
        return false;
    }
    let mut k: usize = 0;
    while k < c.len()
        invariant
            c@ == name@,
            k <= c@.len(),
            forall|j: int| 0 <= j < k ==> {
                let x = #[trigger] c@[j];
                ('A' <= x && x <= 'Z') || ('0' <= x && x <= '9') || x == '_'
            },
        decreases c@.len() - k,
    {
        let x = c[k];
        if !(('A' <= x && x <= 'Z') || ('0' <= x && x <= '9') || x == '_') {
            return false;
        }
        k = k + 1;
    }
    true
}

/// Node `n` without enclosing parentheses.
fn peel_expression(t: &SyntaxTree, n: usize) -> (r: usize)
    requires
        node_in(*t, n),
    ensures
        node_in(*t, r),
        n <= r,
        r as int == peeled(*t, n as int),
    decreases t.nodes@.len() - n,
{
    if t.kind_is(n, "parenthesized_expression") {
        match t.named_child(n, 0) {
            Some(c) => peel_expression(t, c),
            None => n,
        }
    } else {
        n
    }
}

/// The operator of a pointer expression (`*` or `&`).
fn pointer_op(t: &SyntaxTree, n: usize) -> (r: Option<String>)
    requires
        node_in(*t, n),
    ensures
        match r {
            Some(s) => ptr_op(*t, n as int) == Some(s@),
            None => ptr_op(*t, n as int) is None,
        },
{
    if !t.kind_is(n, "pointer_expression") {
        return None;
    }
    match t.child_by_field(n, "operator") {
        Some(o) => Some(t.nodes[o].text.clone()),
        None => match t.child(n, 0) {
            Some(o) => Some(t.nodes[o].text.clone()),
            None => None,
        },
    }
}

/// Whether the operator of pointer expression `n` is `op`.
fn pointer_op_is(t: &SyntaxTree, n: usize, op: &str) -> (r: bool)
    requires
        node_in(*t, n),
    ensures
        r == (ptr_op(*t, n as int) == Some(op@)),
{
    match pointer_op(t, n) {
        Some(s) => string_is(&s, op),
        None => false,
    }
}

/// The operand of a pointer expression.
fn pointer_arg(t: &SyntaxTree, n: usize) -> (r: Option<usize>)
    requires
        node_in(*t, n),
    ensures
        r == ptr_arg(*t, n as int),
        r matches Some(a) ==> node_in(*t, a) && n < a,
{
    if !t.kind_is(n, "pointer_expression") {
        return None;
    }
    match t.child_by_field(n, "argument") {
        Some(a) => Some(a),
        None => t.named_child(n, 0),
    }
}

/// The `expression` child of a cast, else its second named child.
fn cast_operand(t: &SyntaxTree, n: usize) -> (r: Option<usize>)
    requires
        node_in(*t, n),
    ensures
        r == cast_arg(*t, n as int),
        r matches Some(a) ==> node_in(*t, a) && n < a,
{
    match t.child_by_field(n, "expression") {
        Some(e) => Some(e),
        None => t.named_child(n, 1),
    }
}

/// The function an argument passes, possibly behind `&` or `*`.
fn resolve_call_fn_arg(program: &Program, ctx: &LowerContext, t: &SyntaxTree, n: usize) -> (r: Option<FnId>)
    requires
        node_in(*t, n),
    ensures
        r == call_fn_arg(*ctx, program.symbols, *t, n as int),
    decreases t.nodes@.len() - n,
{
    if let Some(f) = resolve_fn_ref(program, ctx, t, n) {
        return Some(f);
    }
    if t.kind_is(n, "pointer_expression") {
        if let Some(inner) = pointer_arg(t, n) {
            return resolve_call_fn_arg(program, ctx, t, inner);
        }
    }
    None
}

/// The variable an lvalue is rooted at.
fn resolve_lvalue_var(program: &Program, ctx: &LowerContext, t: &SyntaxTree, n: usize) -> (r: Option<VarId>)
    requires
        node_in(*t, n),
    ensures
        r == lvalue_var(*ctx, program.symbols, *t, n as int),
    decreases t.nodes@.len() - n,
{
    if t.kind_is(n, "identifier") {
        return lookup_var(ctx, program, t.nodes[n].text.as_str());
    }
    let next = if t.kind_is(n, "pointer_expression") {
        pointer_arg(t, n)
    } else if t.kind_is(n, "field_expression") || t.kind_is(n, "subscript_expression") {
        t.child_by_field(n, "argument")
    } else if t.kind_is(n, "parenthesized_expression") {
        t.named_child(n, 0)
    } else if t.kind_is(n, "cast_expression") {
        cast_operand(t, n)
    } else {
        None
    };
    match next {
        Some(a) => resolve_lvalue_var(program, ctx, t, a),
        None => None,
    }
}

/// The variable an argument expression carries.
fn resolve_expr_var(program: &Program, ctx: &LowerContext, t: &SyntaxTree, n: usize) -> (r: Option<VarId>)
    requires
        node_in(*t, n),
    ensures
        r == expr_var(*ctx, program.symbols, *t, n as int),
    decreases t.nodes@.len() - n,
{
    if t.kind_is(n, "identifier") {
        return lookup_var(ctx, program, t.nodes[n].text.as_str());
    }
    if t.kind_is(n, "pointer_expression") {
        let arg = match pointer_arg(t, n) {
            Some(a) => a,
            None => {
                return None;
            },
        };
        if pointer_op_is(t, n, "&") {
            return resolve_lvalue_var(program, ctx, t, arg);
        }
        return resolve_expr_var(program, ctx, t, arg);
    }
    let next = if t.kind_is(n, "field_expression") || t.kind_is(n, "subscript_expression") {
        t.child_by_field(n, "argument")
    } else if t.kind_is(n, "parenthesized_expression") {
        t.named_child(n, 0)
    } else {
        None
    };
    match next {
        Some(a) => resolve_expr_var(program, ctx, t, a),
        None => None,
    }
}

/// The variable whose address a store writes.
fn expr_to_store_src(program: &Program, ctx: &LowerContext, t: &SyntaxTree, n: usize) -> (r: Option<VarId>)
    requires
        node_in(*t, n),
    ensures
        r == store_src(*ctx, program.symbols, *t, n as int),
{
    if t.kind_is(n, "pointer_expression") {
        let arg = match pointer_arg(t, n) {
            Some(a) => a,
            None => {
                return None;
            },
        };
        if pointer_op_is(t, n, "&") {
            return resolve_lvalue_var(program, ctx, t, arg);
        }
        None
    } else if t.kind_is(n, "identifier") {
        resolve_lvalue_var(program, ctx, t, n)
    } else {
        resolve_expr_var(program, ctx, t, n)
    }
}

/// The name a direct call calls, from its callee node `f`.
fn callee_name_from(t: &SyntaxTree, f: usize) -> (r: Option<String>)
    requires
        node_in(*t, f),
    ensures
        match r {
            Some(s) => callee_name_at(*t, f as int) == Some(s@),
            None => callee_name_at(*t, f as int) is None,
        },
    decreases t.nodes@.len() - f,
{
    let g = peel_expression(t, f);
    if t.kind_is(g, "identifier") {
        Some(t.nodes[g].text.clone())
    } else if t.kind_is(g, "pointer_expression") || t.kind_is(g, "parenthesized_expression") {
        match t.named_child(g, 0) {
            Some(i) => match t.child_by_field(i, "function") {
                Some(h) => callee_name_from(t, h),
                None => None,
            },
            None => None,
        }
    } else {
        None
    }
}

/// The name a call expression calls directly: its callee, when that is a
/// name (possibly behind parentheses or `*`).
fn resolve_direct_call_name(t: &SyntaxTree, n: usize) -> (r: Option<String>)
    requires
        node_in(*t, n),
    ensures
        match r {
            Some(s) => direct_call_name(*t, n as int) == Some(s@),
            None => direct_call_name(*t, n as int) is None,
        },
{
    match t.child_by_field(n, "function") {
        Some(f) => callee_name_from(t, f),
        None => None,
    }
}


/// How lowering may change a program: the type table stays well formed and
/// only grows, flow facts are only appended, and the root, files and
/// diagnostics stay as they were.
pub open spec fn lowered(a: Program, b: Program) -> bool {
    &&& table_wf(b.types)
    &&& table_grows(a.types, b.types)
    &&& a.flow@.len() <= b.flow@.len()
    &&& forall|i: int| 0 <= i < a.flow@.len() ==> #[trigger] b.flow@[i] == a.flow@[i]
    &&& b.root == a.root
    &&& b.symbols.files == a.symbols.files
    &&& b.diagnostics == a.diagnostics
    &&& a.symbols.variables@.len() <= b.symbols.variables@.len()
    &&& a.symbols.functions@.len() <= b.symbols.functions@.len()
    &&& forall|i: int| #![trigger b.symbols.functions@[i]] 0 <= i < a.symbols.functions@.len() ==> b.symbols.functions@[i].id == a.symbols.functions@[i].id
        && b.symbols.functions@[i].name == a.symbols.functions@[i].name
        && b.symbols.functions@[i].linkage == a.symbols.functions@[i].linkage
}

/// A temporary's name: `prefix` followed by its id in decimal.
pub open spec fn temp_name(prefix: Seq<char>, id: VarId) -> Seq<char> {
    prefix + decimal(id.0 as nat)
}

/// The temporary a helper adds: a local pointer of the current function,
/// named after its id, at the position of `span_node`.
pub open spec fn is_temp(v: Variable, id: VarId, prefix: Seq<char>, type_id: TypeId, ctx: LowerContext, t: SyntaxTree, span_node: int) -> bool {
    &&& v.id == id
    &&& v.name@ == temp_name(prefix, id)
    &&& v.type_id == type_id
    &&& v.storage == StorageClass::Local
    &&& v.fn_id == ctx.current_fn
    &&& v.param_index is None
    &&& v.span.file == ctx.current_file
    &&& v.span.line == (if t.nodes@[span_node].row == u32::MAX { u32::MAX as int } else { t.nodes@[span_node].row + 1 })
    &&& v.is_pointer
}

/// Adds a temporary variable `prefix` + id of type `type_id`; `None` when
/// the variable ids are used up.
fn new_temp(program: &mut Program, ctx: &LowerContext, t: &SyntaxTree, span_node: usize, prefix: &str, type_id: TypeId) -> (r: Option<VarId>)
    requires
        node_in(*t, span_node),
        lower_ok(*old(program)),
        (type_id.0 as int) < old(program).types.types@.len(),
    ensures
        wf_kept(*old(program), *final(program), *ctx),
        lowered(*old(program), *final(program)),
        final(program).flow == old(program).flow,
        final(program).types == old(program).types,
        final(program).symbols.functions == old(program).symbols.functions,
        final(program).symbols.call_sites == old(program).symbols.call_sites,
        final(program).symbols.next_call == old(program).symbols.next_call,
        final(program).symbols.fn_by_name == old(program).symbols.fn_by_name,
        final(program).fn_returns == old(program).fn_returns,
        match r {
            Some(id) => {
                &&& final(program).symbols.next_var == old(program).symbols.next_var + 1
                &&& id.0 == old(program).symbols.next_var
                &&& final(program).symbols.variables@.len() == old(program).symbols.variables@.len() + 1
                &&& final(program).symbols.variables@.drop_last() == old(program).symbols.variables@
                &&& is_temp(final(program).symbols.variables@.last(), id, prefix@, type_id, *ctx, *t, span_node as int)
            },
            None => old(program).symbols.next_var == u32::MAX && *final(program) == *old(program),
        },
{
    if program.symbols.next_var == u32::MAX {
        return None;
    }
    let id = program.symbols.alloc_var_id();
    let mut name_chars = str_chars(prefix);
    let digits = u32_decimal(id.0);
    push_all(&mut name_chars, digits.as_slice());
    let name = chars_to_string(name_chars.as_slice());
    let span = node_span(ctx, t, span_node);
    let ghost before = program.symbols.variables@;
    program.symbols.add_variable(Variable {
        id,
        name,
        type_id,
        storage: StorageClass::Local,
        fn_id: ctx.current_fn,
        param_index: None,
        span,
        is_pointer: true,
    });
    proof { assert(program.symbols.variables@.drop_last() =~= before); }
    Some(id)
}

/// Adds `dst = &base->field` through a fresh `_gep` temporary.
fn alloc_gep_temp(program: &mut Program, ctx: &LowerContext, t: &SyntaxTree, span_node: usize, base: VarId, field: FieldId) -> (r: Option<VarId>)
    requires
        node_in(*t, span_node),
        lower_ok(*old(program)),
    ensures
        r is Some ==> final(program).symbols.next_var == old(program).symbols.next_var + 1,
        r is None ==> old(program).symbols.next_var == u32::MAX,
        r matches Some(id) ==> id.0 == old(program).symbols.next_var
            && final(program).symbols.variables@.len() == old(program).symbols.variables@.len() + 1,
        wf_kept(*old(program), *final(program), *ctx),
        lowered(*old(program), *final(program)),
        final(program).types == old(program).types,
        final(program).symbols.functions == old(program).symbols.functions,
        final(program).symbols.call_sites == old(program).symbols.call_sites,
        final(program).symbols.next_call == old(program).symbols.next_call,
        final(program).fn_returns == old(program).fn_returns,
        match r {
            Some(id) => {
                &&& final(program).flow@ == old(program).flow@.push(FlowConstraint::GepField { dst: id, base, field })
                &&& is_temp(final(program).symbols.variables@.last(), id, seq!['_', 'g', 'e', 'p'], TypeId(2), *ctx, *t, span_node as int)
            },
            None => *final(program) == *old(program),
        },
{
    let prefix = "_gep";
    proof {
        reveal_strlit("_gep");
        assert(prefix@ =~= seq!['_', 'g', 'e', 'p']);
    }
    let id = match new_temp(program, ctx, t, span_node, prefix, program.types.int_type()) {
        Some(id) => id,
        None => {
            return None;
        },
    };
    program.flow.push(FlowConstraint::GepField { dst: id, base, field });
    Some(id)
}

/// Adds a fresh `_ret` temporary.
fn alloc_ret_temp(program: &mut Program, ctx: &LowerContext, t: &SyntaxTree, span_node: usize) -> (r: Option<VarId>)
    requires
        node_in(*t, span_node),
        lower_ok(*old(program)),
    ensures
        r is None ==> old(program).symbols.next_var == u32::MAX,
        r matches Some(id) ==> id.0 == old(program).symbols.next_var
            && final(program).symbols.variables@.len() == old(program).symbols.variables@.len() + 1,
        wf_kept(*old(program), *final(program), *ctx),
        lowered(*old(program), *final(program)),
        final(program).flow == old(program).flow,
        final(program).types == old(program).types,
        final(program).symbols.functions == old(program).symbols.functions,
        final(program).symbols.call_sites == old(program).symbols.call_sites,
        final(program).fn_returns == old(program).fn_returns,
        match r {
            Some(id) => is_temp(final(program).symbols.variables@.last(), id, seq!['_', 'r', 'e', 't'], TypeId(2), *ctx, *t, span_node as int)
                && final(program).symbols.variables@.drop_last() == old(program).symbols.variables@,
            None => *final(program) == *old(program),
        },
{
    let prefix = "_ret";
    proof {
        reveal_strlit("_ret");
        assert(prefix@ =~= seq!['_', 'r', 'e', 't']);
    }
    new_temp(program, ctx, t, span_node, prefix, program.types.int_type())
}

/// The text of the `field` child of a field expression.
fn field_name_from_node(t: &SyntaxTree, n: usize) -> (r: Option<String>)
    requires
        node_in(*t, n),
    ensures
        match r {
            Some(s) => field_child(*t, n as int, "field"@) matches Some(f) && s@ == text(*t, f as int),
            None => field_child(*t, n as int, "field"@) is None,
        },
{
    match t.child_by_field(n, "field") {
        Some(f) => Some(t.nodes[f].text.clone()),
        None => None,
    }
}

/// The type id of variable `var`.
fn variable_type_id(program: &Program, var: VarId) -> (r: Option<TypeId>)
    ensures
        match r {
            Some(ty) => (var.0 as int) < program.symbols.variables@.len()
                && program.symbols.variables@[var.0 as int].id == var
                && ty == program.symbols.variables@[var.0 as int].type_id,
            None => !((var.0 as int) < program.symbols.variables@.len()
                && program.symbols.variables@[var.0 as int].id == var),
        },
{
    match program.symbols.variable_by_id(var) {
        Some(v) => Some(v.type_id),
        None => None,
    }
}

/// The struct type behind variable `var`: its type with up to four
/// pointer levels resolved away.
fn struct_type_for_var(program: &Program, var: VarId) -> (r: Option<TypeId>)
    requires
        lower_ok(*program),
    ensures
        r matches Some(ty) ==> (ty.0 as int) < program.types.types@.len(),
        r == var_struct_type(program.symbols.variables@, program.types.types@, var),
{
    let mut type_id = match variable_type_id(program, var) {
        Some(ty) => ty,
        None => {
            return None;
        },
    };
    if type_id.0 as usize >= program.types.types.len() {
        return None;
    }
    let ghost t0 = type_id;
    let mut k: usize = 0;
    while k < 4
        invariant
            lower_ok(*program),
            k <= 4,
            (type_id.0 as int) < program.types.types@.len(),
            strip_ptrs(program.types.types@, t0, 4) == strip_ptrs(program.types.types@, type_id, (4 - k) as nat),
            var_struct_type(program.symbols.variables@, program.types.types@, var) == Some(strip_ptrs(program.types.types@, t0, 4)),
        decreases 4 - k,
    {
        match &program.types.get(type_id).desc {
            TypeDesc::Ptr(inner) => {
                type_id = program.types.resolve_type_id(inner);
            },
            _ => {
                proof {
                    assert(!(program.types.types@[type_id.0 as int].desc is Ptr));
                    assert(strip_ptrs(program.types.types@, type_id, (4 - k) as nat) == type_id);
                }
                return Some(type_id);
            },
        }
        k = k + 1;
    }
    Some(type_id)
}

/// `ty` with up to `k` pointer levels resolved away (each pointee taken
/// as the table resolves it).
pub open spec fn strip_ptrs(types: Seq<TypeInfo>, ty: TypeId, k: nat) -> TypeId
    decreases k,
{
    if k == 0 {
        ty
    } else {
        match types[ty.0 as int].desc {
            TypeDesc::Ptr(inner) => strip_ptrs(types, TypeId(resolve_spec(types, *inner) as u32), (k - 1) as nat),
            _ => ty,
        }
    }
}

/// The struct type behind variable `var`: when `var` is recorded at its
/// position with a type of the table, that type with up to four pointer
/// levels resolved away.
pub open spec fn var_struct_type(vars: Seq<Variable>, types: Seq<TypeInfo>, var: VarId) -> Option<TypeId> {
    if (var.0 as int) < vars.len() && vars[var.0 as int].id == var && (vars[var.0 as int].type_id.0 as int) < types.len() {
        Some(strip_ptrs(types, vars[var.0 as int].type_id, 4))
    } else {
        None
    }
}

/// A pointer type's pointee, interned; any other type itself.
fn peel_ptr_to_struct(program: &mut Program, type_id: TypeId) -> (r: TypeId)
    requires
        lower_ok(*old(program)),
        (type_id.0 as int) < old(program).types.types@.len(),
    ensures
        lowered(*old(program), *final(program)),
        (r.0 as int) < final(program).types.types@.len(),
        final(program).symbols == old(program).symbols,
        final(program).fn_returns == old(program).fn_returns,
        final(program).flow == old(program).flow,
        match old(program).types.types@[type_id.0 as int].desc {
            TypeDesc::Ptr(inner) => exists|d: TypeDesc| desc_same(d, *inner) && interned_as(final(program).types.types@, r, d),
            _ => r == type_id && *final(program) == *old(program),
        },
{
    let inner = match &program.types.get(type_id).desc {
        TypeDesc::Ptr(inner) => Some(inner.duplicate()),
        _ => None,
    };
    match inner {
        Some(d) => program.types.intern(d),
        None => type_id,
    }
}

/// A one-level field access `base.f` (or `base->f`) at `n` whose base
/// denotes a variable whose struct type has a field named `f`: that
/// variable.
pub open spec fn one_field_path(ctx: LowerContext, s: SymbolTable, types: Seq<TypeInfo>, t: SyntaxTree, n: int) -> Option<VarId> {
    match (field_chain(t, n), field_child(t, n, "field"@)) {
        (Some(x), Some(fc)) => if x.1 == 1 {
            match lvalue_var(ctx, s, t, x.0) {
                Some(b) => match var_struct_type(s.variables@, types, b) {
                    Some(ty) => if exists|j: int| 0 <= j < types[ty.0 as int].layout.fields@.len() && j <= u32::MAX
                        && (#[trigger] types[ty.0 as int].layout.fields@[j]).name@ == text(t, fc as int) { Some(b) } else { None },
                    None => None,
                },
                None => None,
            }
        } else {
            None
        },
        _ => None,
    }
}

/// A field access chain at `n`: its base node and how many field levels
/// lead to it (`None` when a level lacks its field or its operand).
pub open spec fn field_chain(t: SyntaxTree, n: int) -> Option<(int, int)>
    decreases t.nodes@.len() - n,
{
    if 0 <= n < t.nodes@.len() && kind(t, n) == "field_expression"@ {
        if field_child(t, n, "field"@) is None {
            None
        } else {
            match field_child(t, n, "argument"@) {
                Some(a) => match field_chain(t, a as int) {
                    Some(x) => Some((x.0, x.1 + 1)),
                    None => None,
                },
                None => None,
            }
        }
    } else {
        Some((n, 0int))
    }
}

/// The chain at `n` has `len` levels and its base denotes variable `b`.
pub open spec fn path_found(ctx: LowerContext, s: SymbolTable, t: SyntaxTree, n: int, b: VarId, len: int) -> bool {
    match field_chain(t, n) {
        Some(x) => x.1 == len && lvalue_var(ctx, s, t, x.0) == Some(b),
        None => false,
    }
}

/// A field access path `base.f1.f2...` (or with `->`): the base variable
/// and the field ids along the way, each looked up in the struct type
/// reached so far.
fn decompose_field_path(program: &mut Program, ctx: &LowerContext, t: &SyntaxTree, n: usize) -> (r: Option<(VarId, Vec<FieldId>)>)
    requires
        node_in(*t, n),
        lower_ok(*old(program)),
    ensures
        match one_field_path(*ctx, old(program).symbols, old(program).types.types@, *t, peeled(*t, n as int)) {
            Some(b) => r matches Some(x) && x.0 == b && x.1@.len() == 1,
            None => true,
        },
        wf_kept(*old(program), *final(program), *ctx),
        lowered(*old(program), *final(program)),
        final(program).symbols == old(program).symbols,
        final(program).fn_returns == old(program).fn_returns,
        final(program).flow == old(program).flow,
        r matches Some(x) ==> path_found(*ctx, old(program).symbols, *t, peeled(*t, n as int), x.0, x.1@.len() as int),
        field_chain(*t, peeled(*t, n as int)) == Some((peeled(*t, n as int), 0int)) ==> match lvalue_var(*ctx, old(program).symbols, *t, peeled(*t, n as int)) {
            Some(b) => var_struct_type(old(program).symbols.variables@, old(program).types.types@, b) is Some
                ==> (r matches Some(x) && x.0 == b && x.1@.len() == 0),
            None => r is None,
        },
{
    let mut names: Vec<String> = Vec::new();
    let mut cur = peel_expression(t, n);
    let ghost m = cur;
    while t.kind_is(cur, "field_expression")
        invariant
            node_in(*t, cur),
            *program == *old(program),
            lower_ok(*program),
            m as int == peeled(*t, n as int),
            names@.len() == 0 ==> cur == m,
            names@.len() >= 1 ==> (field_child(*t, m as int, "field"@) matches Some(fc) && names@[0]@ == text(*t, fc as int)),
            field_chain(*t, m as int) == match field_chain(*t, cur as int) {
                Some(x) => Some((x.0, x.1 + names@.len())),
                None => None,
            },
        decreases t.nodes@.len() - cur,
    {
        match field_name_from_node(t, cur) {
            Some(f) => names.push(f),
            None => {
                return None;
            },
        }
        match t.child_by_field(cur, "argument") {
            Some(a) => {
                cur = a;
            },
            None => {
                return None;
            },
        }
    }
    proof { assert(field_chain(*t, cur as int) == Some((cur as int, 0int))); }
    let base = match resolve_lvalue_var(program, ctx, t, cur) {
        Some(b) => b,
        None => {
            return None;
        },
    };
    let mut type_id = match struct_type_for_var(program, base) {
        Some(ty) => ty,
        None => {
            return None;
        },
    };
    proof { assert(field_chain(*t, cur as int) == Some((cur as int, 0int))); }
    let mut field_ids: Vec<FieldId> = Vec::new();
    let mut k: usize = names.len();
    while k > 0
        invariant
            k <= names@.len(),
            lowered(*old(program), *program),
            wf_kept(*old(program), *program, *ctx),
            program.symbols == old(program).symbols,
            program.fn_returns == old(program).fn_returns,
            program.flow == old(program).flow,
            (type_id.0 as int) < program.types.types@.len(),
            field_ids@.len() + k == names@.len(),
            m as int == peeled(*t, n as int),
            field_chain(*t, m as int) == Some((cur as int, names@.len() as int)),
            names@.len() >= 1 ==> (field_child(*t, m as int, "field"@) matches Some(fc) && names@[0]@ == text(*t, fc as int)),
            k == names@.len() ==> program.types == old(program).types && Some(type_id) == var_struct_type(old(program).symbols.variables@, old(program).types.types@, base),
            one_field_path(*ctx, old(program).symbols, old(program).types.types@, *t, m as int) matches Some(b)
                ==> (b == base && names@.len() == 1),
        decreases k,
    {
        k = k - 1;
        let fid = match program.types.field_id_by_name(type_id, names[k].as_str()) {
            Some(f) => f,
            None => {
                return None;
            },
        };
        field_ids.push(fid);
        let next = program.types.get(type_id).layout.fields[fid.0 as usize].type_id;
        type_id = peel_ptr_to_struct(program, next);
    }
    proof {
        assert(field_chain(*t, cur as int) == Some((cur as int, 0int)));
    }
    Some((base, field_ids))
}

/// What a return statement's value contributes to the function's return
/// summary (`r` is the summary, if any).
pub open spec fn ret_flow_is(ctx: LowerContext, s: SymbolTable, t: SyntaxTree, n: int, r: Option<ReturnFlow>) -> bool
    decreases t.nodes@.len() - n,
{
    let m = peeled(t, n);
    if !(0 <= n <= m < t.nodes@.len()) {
        r is None
    } else if kind(t, m) == "pointer_expression"@ {
        match ptr_arg(t, m) {
            Some(a) => if ptr_op(t, m) == Some("&"@) {
                match fn_ref(ctx, s, t, a as int) {
                    Some(f) => r == Some(ReturnFlow::AddrOfFn { callee: f }),
                    None => match lvalue_var(ctx, s, t, a as int) {
                        Some(v) => r == Some(ReturnFlow::AddrOfVar { src: v }),
                        None => r is None,
                    },
                }
            } else {
                r is None
            },
            None => r is None,
        }
    } else if kind(t, m) == "identifier"@ {
        if fn_named(ctx, s, text(t, m)) is Some {
            r is None
        } else {
            match var_named(ctx, s, text(t, m)) {
                Some(v) => r == Some(ReturnFlow::Copy { src: v }),
                None => r is None,
            }
        }
    } else if kind(t, m) == "call_expression"@ {
        match direct_call_name(t, m) {
            Some(s) => r matches Some(ReturnFlow::Call { callee_name }) && callee_name@ == s,
            None => r is None,
        }
    } else {
        let next = if kind(t, m) == "cast_expression"@ {
            cast_arg(t, m)
        } else if kind(t, m) == "parenthesized_expression"@ {
            named_child_at(t, m, 0)
        } else {
            None
        };
        match next {
            Some(c) => if m < c < t.nodes@.len() { ret_flow_is(ctx, s, t, c as int, r) } else { r is None },
            None => r is None,
        }
    }
}

/// What a returned expression contributes to the return summary.
fn return_flow_from_expr(program: &Program, ctx: &LowerContext, t: &SyntaxTree, n: usize) -> (r: Option<ReturnFlow>)
    requires
        node_in(*t, n),
    ensures
        ret_flow_is(*ctx, program.symbols, *t, n as int, r),
    decreases t.nodes@.len() - n,
{
    let m = peel_expression(t, n);
    if t.kind_is(m, "pointer_expression") {
        let arg = match pointer_arg(t, m) {
            Some(a) => a,
            None => {
                return None;
            },
        };
        if pointer_op_is(t, m, "&") {
            if let Some(f) = resolve_fn_ref(program, ctx, t, arg) {
                return Some(ReturnFlow::AddrOfFn { callee: f });
            }
            return match resolve_lvalue_var(program, ctx, t, arg) {
                Some(v) => Some(ReturnFlow::AddrOfVar { src: v }),
                None => None,
            };
        }
        None
    } else if t.kind_is(m, "identifier") {
        if resolve_function_named(program, ctx, t.nodes[m].text.as_str()).is_some() {
            None
        } else {
            match lookup_var(ctx, program, t.nodes[m].text.as_str()) {
                Some(v) => Some(ReturnFlow::Copy { src: v }),
                None => None,
            }
        }
    } else if t.kind_is(m, "call_expression") {
        match resolve_direct_call_name(t, m) {
            Some(s) => Some(ReturnFlow::Call { callee_name: s }),
            None => None,
        }
    } else {
        let next = if t.kind_is(m, "cast_expression") {
            cast_operand(t, m)
        } else if t.kind_is(m, "parenthesized_expression") {
            t.named_child(m, 0)
        } else {
            None
        };
        match next {
            Some(c) => return_flow_from_expr(program, ctx, t, c),
            None => None,
        }
    }
}

/// Appends `flow` to the return summary of `fn_id` (the first entry for
/// it, or a new last entry).
fn add_return_flow(program: &mut Program, fn_id: FnId, flow: ReturnFlow)
    ensures
        returns_of(final(program).fn_returns@, fn_id) == Some(match returns_of(old(program).fn_returns@, fn_id) {
            Some(s) => s.push(flow),
            None => seq![flow],
        }),
        forall|g: FnId| g != fn_id ==> returns_of(final(program).fn_returns@, g) == returns_of(old(program).fn_returns@, g),
        final(program).types == old(program).types,
        final(program).symbols == old(program).symbols,
        final(program).flow == old(program).flow,
        final(program).root == old(program).root,
        final(program).diagnostics == old(program).diagnostics,
{
    let ghost entries = program.fn_returns@;
    let mut k: usize = 0;
    while k < program.fn_returns.len()
        invariant
            k <= entries.len(),
            program.fn_returns@ == entries,
            program.fn_returns@ == old(program).fn_returns@,
            program.types == old(program).types,
            program.symbols == old(program).symbols,
            program.flow == old(program).flow,
            program.root == old(program).root,
            program.diagnostics == old(program).diagnostics,
            forall|j: int| 0 <= j < k ==> (#[trigger] entries[j]).0 != fn_id,
        decreases entries.len() - k,
    {
        if program.fn_returns[k].0 == fn_id {
            let (id, mut list) = program.fn_returns.remove(k);
            list.push(flow);
            program.fn_returns.insert(k, (id, list));
            proof {
                assert(program.fn_returns@ =~= entries.update(k as int, program.fn_returns@[k as int]));
                lemma_returns_update(entries, fn_id, k as int, program.fn_returns@[k as int]);
            }
            return;
        }
        k = k + 1;
    }
    let v: Vec<ReturnFlow> = vec![flow];
    program.fn_returns.push((fn_id, v));
    proof { lemma_returns_push(entries, fn_id, program.fn_returns@.last()); }
}

/// Changing the first entry for `f` changes what `returns_of` gives for `f`
/// alone.
proof fn lemma_returns_update(entries: Seq<(FnId, Vec<ReturnFlow>)>, f: FnId, k: int, e: (FnId, Vec<ReturnFlow>))
    requires
        0 <= k < entries.len(),
        entries[k].0 == f,
        e.0 == f,
        forall|j: int| 0 <= j < k ==> (#[trigger] entries[j]).0 != f,
    ensures
        returns_of(entries.update(k, e), f) == Some(e.1@),
        returns_of(entries, f) == Some(entries[k].1@),
        forall|g: FnId| g != f ==> returns_of(entries.update(k, e), g) == returns_of(entries, g),
    decreases k,
{
    let u = entries.update(k, e);
    if k > 0 {
        assert(u.drop_first() =~= entries.drop_first().update(k - 1, e));
        assert forall|j: int| 0 <= j < k - 1 implies (#[trigger] entries.drop_first()[j]).0 != f by {
            assert(entries.drop_first()[j] == entries[j + 1]);
        }
        lemma_returns_update(entries.drop_first(), f, k - 1, e);
        assert forall|g: FnId| g != f implies returns_of(u, g) == returns_of(entries, g) by {
            assert(u[0] == entries[0]);
            assert(returns_of(entries.drop_first().update(k - 1, e), g) == returns_of(entries.drop_first(), g));
            assert(returns_of(u.drop_first(), g) == returns_of(entries.drop_first(), g));
        }
    } else {
        assert(u.drop_first() =~= entries.drop_first());
        assert forall|g: FnId| g != f implies returns_of(u, g) == returns_of(entries, g) by {
            assert(u[0].0 == f);
            assert(entries[0].0 == f);
            assert(returns_of(u, g) == returns_of(u.drop_first(), g));
            assert(returns_of(entries, g) == returns_of(entries.drop_first(), g));
        }
    }
}

/// A new last entry for a function without one gives it that entry's list.
proof fn lemma_returns_push(entries: Seq<(FnId, Vec<ReturnFlow>)>, f: FnId, e: (FnId, Vec<ReturnFlow>))
    requires
        e.0 == f,
        forall|j: int| 0 <= j < entries.len() ==> (#[trigger] entries[j]).0 != f,
    ensures
        returns_of(entries.push(e), f) == Some(e.1@),
        returns_of(entries, f) is None,
        forall|g: FnId| g != f ==> returns_of(entries.push(e), g) == returns_of(entries, g),
    decreases entries.len(),
{
    if entries.len() > 0 {
        assert(entries.push(e).drop_first() =~= entries.drop_first().push(e));
        assert forall|j: int| 0 <= j < entries.len() - 1 implies (#[trigger] entries.drop_first()[j]).0 != f by {
            assert(entries.drop_first()[j] == entries[j + 1]);
        }
        lemma_returns_push(entries.drop_first(), f, e);
        assert forall|g: FnId| g != f implies returns_of(entries.push(e), g) == returns_of(entries, g) by {
            assert(entries.push(e)[0] == entries[0]);
            assert(returns_of(entries.drop_first().push(e), g) == returns_of(entries.drop_first(), g));
            assert(returns_of(entries.push(e).drop_first(), g) == returns_of(entries.drop_first(), g));
        }
    } else {
        assert(entries.push(e).drop_first() =~= entries);
        assert forall|g: FnId| g != f implies returns_of(entries.push(e), g) == returns_of(entries, g) by {
            assert(entries.push(e)[0] == e);
            assert(returns_of(entries.push(e), g) == returns_of(entries.push(e).drop_first(), g));
            assert(returns_of(entries.push(e).drop_first(), g) is None);
        }
    }
}

/// Adds what a returned expression contributes to `fn_id`'s summary.
fn collect_return_flow(program: &mut Program, ctx: &LowerContext, t: &SyntaxTree, n: usize, fn_id: FnId)
    requires
        node_in(*t, n),
    ensures
        final(program).types == old(program).types,
        final(program).symbols == old(program).symbols,
        final(program).flow == old(program).flow,
        final(program).root == old(program).root,
        final(program).diagnostics == old(program).diagnostics,
        exists|r: Option<ReturnFlow>| ret_flow_is(*ctx, old(program).symbols, *t, n as int, r) && match r {
            Some(flow) => returns_of(final(program).fn_returns@, fn_id) == Some(match returns_of(old(program).fn_returns@, fn_id) {
                Some(s) => s.push(flow),
                None => seq![flow],
            }),
            None => final(program).fn_returns == old(program).fn_returns,
        },
        forall|g: FnId| g != fn_id ==> returns_of(final(program).fn_returns@, g) == returns_of(old(program).fn_returns@, g),
{
    let r = return_flow_from_expr(program, ctx, t, n);
    match r {
        Some(flow) => {
            add_return_flow(program, fn_id, flow);
        },
        None => {},
    }
}

/// The value of a return statement: its `value` child, else its first
/// named child.
pub open spec fn return_value(t: SyntaxTree, n: int) -> Option<usize> {
    match field_child(t, n, "value"@) {
        Some(v) => Some(v),
        None => named_child_at(t, n, 0),
    }
}

/// A `return` statement: its value (the `value` child, else the first
/// named child), unless there is none or it is `;`.
fn collect_return_statement(program: &mut Program, ctx: &LowerContext, t: &SyntaxTree, n: usize, fn_id: FnId)
    requires
        node_in(*t, n),
    ensures
        match return_value(*t, n as int) {
            Some(v) => if kind(*t, v as int) == ";"@ {
                final(program).fn_returns == old(program).fn_returns
            } else {
                exists|r: Option<ReturnFlow>| ret_flow_is(*ctx, old(program).symbols, *t, v as int, r) && match r {
                    Some(flow) => returns_of(final(program).fn_returns@, fn_id) == Some(match returns_of(old(program).fn_returns@, fn_id) {
                        Some(s) => s.push(flow),
                        None => seq![flow],
                    }),
                    None => final(program).fn_returns == old(program).fn_returns,
                }
            },
            None => final(program).fn_returns == old(program).fn_returns,
        },
        final(program).types == old(program).types,
        final(program).symbols == old(program).symbols,
        final(program).flow == old(program).flow,
        final(program).root == old(program).root,
        final(program).diagnostics == old(program).diagnostics,
        forall|g: FnId| g != fn_id ==> returns_of(final(program).fn_returns@, g) == returns_of(old(program).fn_returns@, g),
{
    let value = match t.child_by_field(n, "value") {
        Some(v) => Some(v),
        None => t.named_child(n, 0),
    };
    let v = match value {
        Some(v) => v,
        None => {
            return;
        },
    };
    if t.kind_is(v, ";") {
        return;
    }
    collect_return_flow(program, ctx, t, v, fn_id);
}


/// `lowered` chains.
proof fn lemma_lowered_trans(a: Program, b: Program, c: Program)
    requires
        lowered(a, b),
        lowered(b, c),
    ensures
        lowered(a, c),
{
    assert forall|i: int| 0 <= i < a.flow@.len() implies #[trigger] c.flow@[i] == a.flow@[i] by {
        assert(c.flow@[i] == b.flow@[i]);
    }
    assert forall|k: int| 0 <= k < a.types.types@.len() implies #[trigger] c.types.types@[k] == a.types.types@[k] by {
        assert(c.types.types@[k] == b.types.types@[k]);
    }
    assert forall|i: int| #![trigger c.symbols.functions@[i]] 0 <= i < a.symbols.functions@.len() implies c.symbols.functions@[i].id == a.symbols.functions@[i].id
        && c.symbols.functions@[i].name == a.symbols.functions@[i].name
        && c.symbols.functions@[i].linkage == a.symbols.functions@[i].linkage by {
        let _ = b.symbols.functions@[i];
        assert(c.symbols.functions@[i].id == b.symbols.functions@[i].id);
        assert(b.symbols.functions@[i].id == a.symbols.functions@[i].id);
        assert(c.symbols.functions@[i].name == b.symbols.functions@[i].name);
        assert(c.symbols.functions@[i].linkage == b.symbols.functions@[i].linkage);
    }
    assert(a.symbols.functions@.len() <= c.symbols.functions@.len());
    assert(a.symbols.variables@.len() <= c.symbols.variables@.len());
    assert(table_grows(a.types, c.types));
    assert(b.symbols.files == a.symbols.files && c.symbols.files == a.symbols.files);
}

/// A well-formed program is `lowered` from itself.
proof fn lemma_lowered_refl(a: Program)
    requires
        lower_ok(a),
    ensures
        lowered(a, a),
{
}

/// The node an assigned expression stands for once casts and parentheses
/// are looked through (-1 when a cast or parenthesis has no operand).
pub open spec fn rhs_core(t: SyntaxTree, n: int) -> int
    decreases t.nodes@.len() - n,
{
    if !(0 <= n < t.nodes@.len()) {
        -1
    } else if kind(t, n) == "identifier"@ || kind(t, n) == "pointer_expression"@ {
        n
    } else {
        let next = if kind(t, n) == "cast_expression"@ {
            Some(cast_arg(t, n))
        } else if kind(t, n) == "parenthesized_expression"@ {
            Some(named_child_at(t, n, 0))
        } else {
            None
        };
        match next {
            Some(Some(c)) => if n < c < t.nodes@.len() { rhs_core(t, c as int) } else { -1 },
            Some(None) => -1,
            None => n,
        }
    }
}

/// The fact an assignment `dst = <node c>` gives, for a node that is a
/// name, a pointer expression, or anything but a call or a field access.
pub open spec fn rhs_flow_is(ctx: LowerContext, s: SymbolTable, t: SyntaxTree, c: int, dst: VarId, r: Option<FlowConstraint>) -> bool {
    if kind(t, c) == "identifier"@ {
        match fn_named(ctx, s, text(t, c)) {
            Some(f) => r == Some(FlowConstraint::AddrOfFn { dst, callee: f }),
            None => match var_named(ctx, s, text(t, c)) {
                Some(v) => r == Some(FlowConstraint::Copy { dst, src: v }),
                None => r is None,
            },
        }
    } else if kind(t, c) == "pointer_expression"@ {
        match ptr_arg(t, c) {
            Some(a) => if ptr_op(t, c) == Some("&"@) {
                match fn_ref(ctx, s, t, a as int) {
                    Some(f) => r == Some(FlowConstraint::AddrOfFn { dst, callee: f }),
                    None => match lvalue_var(ctx, s, t, a as int) {
                        Some(v) => r == Some(FlowConstraint::AddrOfVar { dst, src: v }),
                        None => r is None,
                    },
                }
            } else if ptr_op(t, c) == Some("*"@) {
                match lvalue_var(ctx, s, t, a as int) {
                    Some(v) => r == Some(FlowConstraint::Load { dst, src: v }),
                    None => r is None,
                }
            } else {
                r is None
            },
            None => r is None,
        }
    } else {
        match expr_var(ctx, s, t, c) {
            Some(v) => r == Some(FlowConstraint::Copy { dst, src: v }),
            None => r is None,
        }
    }
}

/// Whether the core node is a call (1), a field access (2), or neither (0).
pub open spec fn rhs_kind(t: SyntaxTree, c: int) -> int {
    if kind(t, c) == "identifier"@ || kind(t, c) == "pointer_expression"@ {
        0
    } else if kind(t, c) == "call_expression"@ {
        1
    } else if kind(t, c) == "field_expression"@ {
        2
    } else {
        0
    }
}

/// The flow fact for `dst = <node n>`. A call records `dst = callee()` by
/// itself and gives nothing; a field access reads through `_gep`
/// temporaries and gives the final load.
fn expr_to_rhs_flow(program: &mut Program, ctx: &LowerContext, t: &SyntaxTree, n: usize, dst: VarId) -> (r: Option<FlowConstraint>)
    requires
        node_in(*t, n),
        lower_ok(*old(program)),
    ensures
        r matches Some(f) ==> !(f is CallReturn),
        lower_wf(*old(program)) && ctx_ok(*ctx, *old(program)) && (dst.0 as int) < old(program).symbols.variables@.len()
            ==> lower_wf(*final(program)),
        lowered(*old(program), *final(program)),
        final(program).symbols.functions == old(program).symbols.functions,
        final(program).symbols.call_sites == old(program).symbols.call_sites,
        final(program).fn_returns == old(program).fn_returns,
        rhs_core(*t, n as int) == -1 ==> r is None && *final(program) == *old(program),
        rhs_core(*t, n as int) >= 0 && rhs_kind(*t, rhs_core(*t, n as int)) == 0 ==>
            *final(program) == *old(program) && rhs_flow_is(*ctx, old(program).symbols, *t, rhs_core(*t, n as int), dst, r),
        rhs_core(*t, n as int) >= 0 && rhs_kind(*t, rhs_core(*t, n as int)) == 1 ==> r is None
            && match direct_call_name(*t, rhs_core(*t, n as int)) {
                Some(name) => {
                    &&& final(program).flow@.len() == old(program).flow@.len() + 1
                    &&& final(program).flow@.last() matches FlowConstraint::CallReturn { dst: d, callee_name }
                        && d == dst && callee_name@ == name
                    &&& final(program).symbols == old(program).symbols
                },
                None => *final(program) == *old(program),
            },
    decreases t.nodes@.len() - n,
{
    if t.kind_is(n, "identifier") {
        let name = t.nodes[n].text.as_str();
        if let Some(f) = resolve_function_named(program, ctx, name) {
            return Some(FlowConstraint::AddrOfFn { dst, callee: f });
        }
        return match lookup_var(ctx, program, name) {
            Some(v) => Some(FlowConstraint::Copy { dst, src: v }),
            None => None,
        };
    }
    if t.kind_is(n, "pointer_expression") {
        let arg = match pointer_arg(t, n) {
            Some(a) => a,
            None => {
                return None;
            },
        };
        if pointer_op_is(t, n, "&") {
            if let Some(f) = resolve_fn_ref(program, ctx, t, arg) {
                return Some(FlowConstraint::AddrOfFn { dst, callee: f });
            }
            return match resolve_lvalue_var(program, ctx, t, arg) {
                Some(v) => Some(FlowConstraint::AddrOfVar { dst, src: v }),
                None => None,
            };
        } else if pointer_op_is(t, n, "*") {
            return match resolve_lvalue_var(program, ctx, t, arg) {
                Some(v) => Some(FlowConstraint::Load { dst, src: v }),
                None => None,
            };
        }
        return None;
    }
    if t.kind_is(n, "cast_expression") {
        return match cast_operand(t, n) {
            Some(c) => expr_to_rhs_flow(program, ctx, t, c, dst),
            None => None,
        };
    }
    if t.kind_is(n, "parenthesized_expression") {
        return match t.named_child(n, 0) {
            Some(c) => expr_to_rhs_flow(program, ctx, t, c, dst),
            None => None,
        };
    }
    if t.kind_is(n, "call_expression") {
        if let Some(callee_name) = resolve_direct_call_name(t, n) {
            program.flow.push(FlowConstraint::CallReturn { dst, callee_name });
        }
        return None;
    }
    if t.kind_is(n, "field_expression") {
        let ghost before = *program;
        let (base, field_ids) = match decompose_field_path(program, ctx, t, n) {
            Some(x) => x,
            None => {
                return None;
            },
        };
        let mut current = base;
        let mut i: usize = 0;
        while i < field_ids.len()
            invariant
                node_in(*t, n),
                lowered(before, *program),
                lowered(*old(program), *program),
                wf_kept(*old(program), *program, *ctx),
            wf_kept(*old(program), *program, *ctx),
                rhs_core(*t, n as int) == n as int,
                rhs_kind(*t, n as int) == 2,
                program.symbols.functions == old(program).symbols.functions,
                program.symbols.call_sites == old(program).symbols.call_sites,
                program.fn_returns == old(program).fn_returns,
            decreases field_ids@.len() - i,
        {
            let fid = field_ids[i];
            let ghost mid = *program;
            let next = match alloc_gep_temp(program, ctx, t, n, current, fid) {
                Some(g) => g,
                None => {
                    return None;
                },
            };
            proof { lemma_kept_trans(*old(program), mid, *program, *ctx); }
            if i + 1 == field_ids.len() {
                return Some(FlowConstraint::Load { dst, src: next });
            }
            current = next;
            i = i + 1;
        }
        return None;
    }
    match resolve_expr_var(program, ctx, t, n) {
        Some(v) => Some(FlowConstraint::Copy { dst, src: v }),
        None => None,
    }
}


/// The first fact `b` adds to `a` is the field projection
/// `_gep = &base->field` into the next variable.
pub open spec fn first_gep(a: Program, b: Program, base: VarId, field: FieldId) -> bool {
    a.flow@.len() < b.flow@.len()
        && b.flow@[a.flow@.len() as int] == FlowConstraint::GepField { dst: VarId(a.symbols.next_var), base, field }
}

/// Further lowering keeps the first fact.
proof fn lemma_first_gep_kept(a: Program, m: Program, b: Program, base: VarId, field: FieldId)
    requires
        first_gep(a, m, base, field),
        lowered(m, b),
    ensures
        first_gep(a, b, base, field),
{
    assert(b.flow@[a.flow@.len() as int] == m.flow@[a.flow@.len() as int]);
}

/// Stores `value` into `base.f1...fk` (the last field of `field_ids`):
/// through `_gep` temporaries, with a `_ret` temporary for a function name,
/// a direct call's result or any other assigned expression.
fn emit_field_value_store(program: &mut Program, ctx: &LowerContext, t: &SyntaxTree, span_node: usize, base: VarId, field_ids: &[FieldId], value_node: usize)
    requires
        node_in(*t, span_node),
        node_in(*t, value_node),
        lower_ok(*old(program)),
    ensures
        wf_kept(*old(program), *final(program), *ctx),
        lowered(*old(program), *final(program)),
        final(program).symbols.functions == old(program).symbols.functions,
        final(program).symbols.call_sites == old(program).symbols.call_sites,
        final(program).fn_returns == old(program).fn_returns,
        field_ids@.len() > 0 && old(program).symbols.next_var < u32::MAX
            ==> first_gep(*old(program), *final(program), base, field_ids@[0]),
{
    let mut current = base;
    let mut i: usize = 0;
    while i < field_ids.len()
        invariant
            node_in(*t, span_node),
            node_in(*t, value_node),
            lowered(*old(program), *program),
            wf_kept(*old(program), *program, *ctx),
            program.symbols.functions == old(program).symbols.functions,
            program.symbols.call_sites == old(program).symbols.call_sites,
            program.fn_returns == old(program).fn_returns,
            i == 0 ==> *program == *old(program) && current == base,
            i > 0 ==> first_gep(*old(program), *program, base, field_ids@[0]),
        decreases field_ids@.len() - i,
    {
        let fid = field_ids[i];
        let ghost p0 = *program;
        let gep = match alloc_gep_temp(program, ctx, t, span_node, current, fid) {
            Some(g) => g,
            None => {
                return;
            },
        };
        proof {
            lemma_kept_trans(*old(program), p0, *program, *ctx);
            if i > 0 {
                lemma_first_gep_kept(*old(program), p0, *program, base, field_ids@[0]);
            }
        }
        if i + 1 == field_ids.len() {
            let ghost p1 = *program;
            if let Some(src) = expr_to_store_src(program, ctx, t, value_node) {
                program.flow.push(FlowConstraint::Store { dst: gep, src });
            } else if t.kind_is(value_node, "identifier") {
                if let Some(callee) = resolve_function_named(program, ctx, t.nodes[value_node].text.as_str()) {
                    let tmp = match alloc_ret_temp(program, ctx, t, span_node) {
                        Some(v) => v,
                        None => {
                            return;
                        },
                    };
                    program.flow.push(FlowConstraint::AddrOfFn { dst: tmp, callee });
                    program.flow.push(FlowConstraint::Store { dst: gep, src: tmp });
                }
            } else {
                let ret = match alloc_ret_temp(program, ctx, t, span_node) {
                    Some(v) => v,
                    None => {
                        return;
                    },
                };
                let ghost p2 = *program;
                let emitted = if t.kind_is(value_node, "call_expression") {
                    match resolve_direct_call_name(t, value_node) {
                        Some(callee_name) => {
                            program.flow.push(FlowConstraint::CallReturn { dst: ret, callee_name });
                            true
                        },
                        None => false,
                    }
                } else {
                    match expr_to_rhs_flow(program, ctx, t, value_node, ret) {
                        Some(f) => {
                            program.flow.push(f);
                            true
                        },
                        None => false,
                    }
                };
                if emitted {
                    program.flow.push(FlowConstraint::Store { dst: gep, src: ret });
                }
                proof {
                    if lower_wf(p1) && ctx_ok(*ctx, p1) {
                        lemma_ctx_kept(*ctx, p1, p2);
                        assert((ret.0 as int) < p2.symbols.variables@.len());
                    }
                    lemma_lowered_trans(p1, p2, *program);
                }
            }
            proof {
                lemma_kept_trans(*old(program), p1, *program, *ctx);
                lemma_first_gep_kept(*old(program), p1, *program, base, field_ids@[0]);
            }
            return;
        }
        current = gep;
        i = i + 1;
    }
}

/// An assignment to a field path: the store into the last field.
fn emit_field_store(program: &mut Program, ctx: &LowerContext, t: &SyntaxTree, lhs: usize, rhs: usize)
    requires
        node_in(*t, lhs),
        node_in(*t, rhs),
        lower_ok(*old(program)),
    ensures
        match one_field_path(*ctx, old(program).symbols, old(program).types.types@, *t, peeled(*t, lhs as int)) {
            Some(b) => old(program).symbols.next_var < u32::MAX ==> exists|f: FieldId| first_gep(*old(program), *final(program), b, f),
            None => true,
        },
        wf_kept(*old(program), *final(program), *ctx),
        lowered(*old(program), *final(program)),
        final(program).symbols.functions == old(program).symbols.functions,
        final(program).symbols.call_sites == old(program).symbols.call_sites,
        final(program).fn_returns == old(program).fn_returns,
{
    let ghost p0 = *program;
    let (base, field_ids) = match decompose_field_path(program, ctx, t, lhs) {
        Some(x) => x,
        None => {
            return;
        },
    };
    if field_ids.len() == 0 {
        return;
    }
    let ghost p1 = *program;
    emit_field_value_store(program, ctx, t, lhs, base, field_ids.as_slice(), rhs);
    proof {
        lemma_kept_trans(p0, p1, *program, *ctx);
        if p0.symbols.next_var < u32::MAX {
            assert(first_gep(p0, *program, base, field_ids@[0]));
        }
    }
}

/// The field names that the first `j` children of designator `c` spell.
pub open spec fn designator_ids(t: SyntaxTree, c: int, j: int) -> Seq<Seq<char>>
    decreases j,
{
    if j <= 0 {
        seq![]
    } else {
        let d = t.children@[c]@[j - 1] as int;
        designator_ids(t, c, j - 1) + if kind(t, d) == "field_identifier"@ { seq![text(t, d)] } else { seq![] }
    }
}

/// The field names of the designators among the first `k` children of `n`.
pub open spec fn designator_names(t: SyntaxTree, n: int, k: int) -> Seq<Seq<char>>
    decreases k,
{
    if k <= 0 {
        seq![]
    } else {
        let c = t.children@[n]@[k - 1] as int;
        designator_names(t, n, k - 1) + if kind(t, c) == "field_designator"@ {
            designator_ids(t, c, t.children@[c]@.len() as int)
        } else {
            seq![]
        }
    }
}

/// The value node of a designated initializer among the first `k` children
/// of `n`: the first named child that is neither a designator nor `=`.
pub open spec fn designator_value(t: SyntaxTree, n: int, k: int) -> Option<int>
    decreases k,
{
    if k <= 0 {
        None
    } else {
        match designator_value(t, n, k - 1) {
            Some(v) => Some(v),
            None => {
                let c = t.children@[n]@[k - 1] as int;
                if kind(t, c) != "field_designator"@ && kind(t, c) != "="@ && t.nodes@[c].named { Some(c) } else { None }
            },
        }
    }
}

/// The first designated field name of the initializer `n`, when it has
/// a value.
pub open spec fn designated_first(t: SyntaxTree, n: int) -> Option<Seq<char>> {
    let k = t.children@[n]@.len() as int;
    let names = designator_names(t, n, k);
    if designator_value(t, n, k) is Some && names.len() > 0 { Some(names[0]) } else { None }
}

/// The struct type `ty` has a field named `name`, at an index a field id
/// can hold.
pub open spec fn has_field_named(types: Seq<TypeInfo>, ty: TypeId, name: Seq<char>) -> bool {
    exists|j: int| 0 <= j < types[ty.0 as int].layout.fields@.len() && j <= u32::MAX
        && (#[trigger] types[ty.0 as int].layout.fields@[j]).name@ == name
}

/// The first fact `b` adds to `a` projects `base` onto a field of `ty`
/// named `name`.
pub open spec fn first_field_gep(a: Program, b: Program, base: VarId, ty: TypeId, name: Seq<char>) -> bool {
    exists|g: FieldId| (g.0 as int) < a.types.types@[ty.0 as int].layout.fields@.len()
        && a.types.types@[ty.0 as int].layout.fields@[g.0 as int].name@ == name
        && #[trigger] first_gep(a, b, base, g)
}

/// Further lowering keeps that first fact.
proof fn lemma_first_field_gep_kept(a: Program, m: Program, b: Program, base: VarId, ty: TypeId, name: Seq<char>)
    requires
        first_field_gep(a, m, base, ty, name),
        lowered(m, b),
    ensures
        first_field_gep(a, b, base, ty, name),
{
    let g = choose|g: FieldId| (g.0 as int) < a.types.types@[ty.0 as int].layout.fields@.len()
        && a.types.types@[ty.0 as int].layout.fields@[g.0 as int].name@ == name
        && #[trigger] first_gep(a, m, base, g);
    lemma_first_gep_kept(a, m, b, base, g);
}

/// One designated initializer `.a.b = value` of an initializer for `base`.
fn lower_designated_initializer(program: &mut Program, ctx: &LowerContext, t: &SyntaxTree, n: usize, base: VarId)
    requires
        node_in(*t, n),
        lower_ok(*old(program)),
    ensures
        match (designated_first(*t, n as int), var_struct_type(old(program).symbols.variables@, old(program).types.types@, base)) {
            (Some(f), Some(ty)) => has_field_named(old(program).types.types@, ty, f) && old(program).symbols.next_var < u32::MAX
                ==> first_field_gep(*old(program), *final(program), base, ty, f),
            _ => *final(program) == *old(program),
        },
        wf_kept(*old(program), *final(program), *ctx),
        lowered(*old(program), *final(program)),
        final(program).symbols.functions == old(program).symbols.functions,
        final(program).symbols.call_sites == old(program).symbols.call_sites,
        final(program).fn_returns == old(program).fn_returns,
{
    let mut field_names: Vec<String> = Vec::new();
    let mut value: Option<usize> = None;
    let kids = &t.children[n];
    let mut k: usize = 0;
    while k < kids.len()
        invariant
            node_in(*t, n),
            *kids == t.children@[n as int],
            value matches Some(v) ==> node_in(*t, v),
            k <= kids@.len(),
            match value {
                Some(v) => designator_value(*t, n as int, k as int) == Some(v as int),
                None => designator_value(*t, n as int, k as int) is None,
            },
            field_names@.len() == designator_names(*t, n as int, k as int).len(),
            forall|i: int| 0 <= i < field_names@.len() ==> #[trigger] field_names@[i]@ == designator_names(*t, n as int, k as int)[i],
        decreases kids@.len() - k,
    {
        let c = kids[k];
        proof { assert(n < t.children@[n as int]@[k as int] < t.nodes@.len()); }
        let ghost before = field_names@;
        if t.kind_is(c, "field_designator") {
            let inner = &t.children[c];
            let mut j: usize = 0;
            while j < inner.len()
                invariant
                    node_in(*t, c),
                    *inner == t.children@[c as int],
                    j <= inner@.len(),
                    field_names@.len() == before.len() + designator_ids(*t, c as int, j as int).len(),
                    forall|i: int| 0 <= i < before.len() ==> #[trigger] field_names@[i] == before[i],
                    forall|i: int| 0 <= i < designator_ids(*t, c as int, j as int).len()
                        ==> #[trigger] field_names@[before.len() + i]@ == designator_ids(*t, c as int, j as int)[i],
                decreases inner@.len() - j,
            {
                let d = inner[j];
                proof { assert(c < t.children@[c as int]@[j as int] < t.nodes@.len()); }
                if t.kind_is(d, "field_identifier") {
                    field_names.push(t.nodes[d].text.clone());
                }
                j = j + 1;
            }
            proof {
                let ids = designator_ids(*t, c as int, j as int);
                let prev = designator_names(*t, n as int, k as int);
                let names = designator_names(*t, n as int, k + 1);
                assert(names == prev + ids);
                assert forall|i: int| 0 <= i < field_names@.len() implies #[trigger] field_names@[i]@ == names[i] by {
                    if i < before.len() {
                        assert(field_names@[i] == before[i]);
                    } else {
                        let q = i - before.len();
                        assert(field_names@[before.len() + q]@ == ids[q]);
                    }
                }
            }
        } else if t.kind_is(c, "=") {
        } else if value.is_none() && t.nodes[c].named && !t.kind_is(c, "field_designator") {
            value = Some(c);
        }
        proof {
            if kind(*t, c as int) != "field_designator"@ {
                assert(designator_names(*t, n as int, k + 1) == designator_names(*t, n as int, k as int));
            }
        }
        k = k + 1;
    }
    let value_node = match value {
        Some(v) => v,
        None => {
            return;
        },
    };
    let mut type_id = match struct_type_for_var(program, base) {
        Some(ty) => ty,
        None => {
            return;
        },
    };
    let mut current = base;
    let mut i: usize = 0;
    let ghost ty0 = type_id;
    proof {
        if field_names@.len() > 0 {
            assert(designated_first(*t, n as int) == Some(field_names@[0]@));
        }
    }
    while i < field_names.len()
        invariant
            node_in(*t, n),
            node_in(*t, value_node),
            lowered(*old(program), *program),
            wf_kept(*old(program), *program, *ctx),
            program.symbols.functions == old(program).symbols.functions,
            program.symbols.call_sites == old(program).symbols.call_sites,
            program.fn_returns == old(program).fn_returns,
            (type_id.0 as int) < program.types.types@.len(),
            i <= field_names@.len(),
            Some(ty0) == var_struct_type(old(program).symbols.variables@, old(program).types.types@, base),
            field_names@.len() > 0 ==> designated_first(*t, n as int) == Some(field_names@[0]@),
            i == 0 ==> *program == *old(program) && current == base && type_id == ty0,
            i >= 1 && old(program).symbols.next_var < u32::MAX
                ==> first_field_gep(*old(program), *program, base, ty0, field_names@[0]@),
        decreases field_names@.len() - i,
    {
        let fid = match program.types.field_id_by_name(type_id, field_names[i].as_str()) {
            Some(f) => f,
            None => {
                return;
            },
        };
        let ghost p0 = *program;
        if i + 1 == field_names.len() {
            let ids: Vec<FieldId> = vec![fid];
            emit_field_value_store(program, ctx, t, n, current, ids.as_slice(), value_node);
            proof {
                lemma_kept_trans(*old(program), p0, *program, *ctx);
                if i == 0 && old(program).symbols.next_var < u32::MAX {
                    assert(first_gep(*old(program), *program, base, ids@[0]));
                }
            }
        } else {
            let next_type = program.types.get(type_id).layout.fields[fid.0 as usize].type_id;
            current = match alloc_gep_temp(program, ctx, t, n, current, fid) {
                Some(g) => g,
                None => {
                    return;
                },
            };
            proof {
                lemma_kept_trans(*old(program), p0, *program, *ctx);
                if i == 0 {
                    assert(first_gep(*old(program), *program, base, fid));
                }
            }
            type_id = next_type;
        }
        proof {
            if i >= 1 && old(program).symbols.next_var < u32::MAX {
                lemma_first_field_gep_kept(*old(program), p0, *program, base, ty0, field_names@[0]@);
            }
        }
        i = i + 1;
    }
}

/// The first designated initializer among the first `k` children of `n`.
pub open spec fn first_designated(t: SyntaxTree, n: int, k: int) -> Option<int>
    decreases k,
{
    if k <= 0 {
        None
    } else {
        match first_designated(t, n, k - 1) {
            Some(c) => Some(c),
            None => {
                let c = t.children@[n]@[k - 1] as int;
                if kind(t, c) == "designated_initializer"@ || kind(t, c) == "initializer_pair"@ { Some(c) } else { None }
            },
        }
    }
}

/// What lowering the designated initializer `c` for `base` owes: its
/// first field projection, when the field exists and a variable is left.
pub open spec fn designated_gep(a: Program, b: Program, t: SyntaxTree, c: int, base: VarId) -> bool {
    match (designated_first(t, c), var_struct_type(a.symbols.variables@, a.types.types@, base)) {
        (Some(f), Some(ty)) => has_field_named(a.types.types@, ty, f) && a.symbols.next_var < u32::MAX
            ==> first_field_gep(a, b, base, ty, f),
        _ => true,
    }
}

/// The designated initializers of an initializer list for `base`.
fn lower_initializer_list(program: &mut Program, ctx: &LowerContext, t: &SyntaxTree, n: usize, base: VarId)
    requires
        node_in(*t, n),
        lower_ok(*old(program)),
    ensures
        match first_designated(*t, n as int, t.children@[n as int]@.len() as int) {
            Some(c) => designated_gep(*old(program), *final(program), *t, c, base),
            None => *final(program) == *old(program),
        },
        wf_kept(*old(program), *final(program), *ctx),
        lowered(*old(program), *final(program)),
        final(program).symbols.functions == old(program).symbols.functions,
        final(program).symbols.call_sites == old(program).symbols.call_sites,
        final(program).fn_returns == old(program).fn_returns,
{
    let kids = &t.children[n];
    let mut k: usize = 0;
    while k < kids.len()
        invariant
            node_in(*t, n),
            *kids == t.children@[n as int],
            lowered(*old(program), *program),
            wf_kept(*old(program), *program, *ctx),
            program.symbols.functions == old(program).symbols.functions,
            program.symbols.call_sites == old(program).symbols.call_sites,
            program.fn_returns == old(program).fn_returns,
            k <= kids@.len(),
            match first_designated(*t, n as int, k as int) {
                Some(c) => designated_gep(*old(program), *program, *t, c, base),
                None => *program == *old(program),
            },
        decreases kids@.len() - k,
    {
        let c = kids[k];
        proof { assert(n < t.children@[n as int]@[k as int] < t.nodes@.len()); }
        let ghost p0 = *program;
        if t.kind_is(c, "designated_initializer") || t.kind_is(c, "initializer_pair") {
            lower_designated_initializer(program, ctx, t, c, base);
            proof { lemma_kept_trans(*old(program), p0, *program, *ctx); }
        }
        proof {
            if let Some(c0) = first_designated(*t, n as int, k as int) {
                if let (Some(f), Some(ty)) = (designated_first(*t, c0), var_struct_type(old(program).symbols.variables@, old(program).types.types@, base)) {
                    if has_field_named(old(program).types.types@, ty, f) && old(program).symbols.next_var < u32::MAX {
                        lemma_first_field_gep_kept(*old(program), p0, *program, base, ty, f);
                    }
                }
            }
        }
        k = k + 1;
    }
}

/// The left side (parentheses looked through) and the right side of an
/// assignment expression.
pub open spec fn assign_sides(t: SyntaxTree, n: int) -> Option<(int, int)> {
    let left = match field_child(t, n, "left"@) {
        Some(l) => Some(l),
        None => named_child_at(t, n, 0),
    };
    let right = match field_child(t, n, "right"@) {
        Some(r) => Some(r),
        None => named_child_at(t, n, 1),
    };
    match (left, right) {
        (Some(l), Some(r)) => Some((peeled(t, l as int), r as int)),
        _ => None,
    }
}

/// `*p = <r>` with `p` a variable and `<r>` naming what is stored: the
/// pointer and the stored variable.
pub open spec fn store_case(ctx: LowerContext, s: SymbolTable, t: SyntaxTree, l: int, r: int) -> Option<(VarId, VarId)> {
    if ptr_op(t, l) == Some("*"@) {
        match ptr_arg(t, l) {
            Some(a) => match (lvalue_var(ctx, s, t, a as int), store_src(ctx, s, t, r)) {
                (Some(p), Some(v)) => Some((p, v)),
                _ => None,
            },
            None => None,
        }
    } else {
        None
    }
}

/// `x = <r>` with `x` an lvalue rooted at a variable (no dereference, no
/// field access) and `<r>` neither a call nor a field access: the variable.
pub open spec fn copy_case(ctx: LowerContext, s: SymbolTable, t: SyntaxTree, l: int, r: int) -> Option<VarId> {
    if ptr_op(t, l) != Some("*"@) && kind(t, l) != "field_expression"@ && rhs_core(t, r) >= 0
        && rhs_kind(t, rhs_core(t, r)) == 0 {
        lvalue_var(ctx, s, t, l)
    } else {
        None
    }
}

/// The facts an optional fact adds.
pub open spec fn flow_of(f: Option<FlowConstraint>) -> Seq<FlowConstraint> {
    match f {
        Some(x) => seq![x],
        None => seq![],
    }
}

/// The pointer flow of an expression: an assignment gives a store, a field
/// store or an assignment fact; an initializer list for `assign_target`
/// gives its designated initializers; any other expression assigned to
/// `assign_target` gives its assignment fact; anything else is searched
/// for assignments.
fn extract_flow_from_expr(program: &mut Program, ctx: &LowerContext, t: &SyntaxTree, n: usize, assign_target: Option<VarId>)
    requires
        node_in(*t, n),
        lower_ok(*old(program)),
    ensures
        lower_wf(*old(program)) && ctx_ok(*ctx, *old(program))
            && (assign_target matches Some(d) ==> (d.0 as int) < old(program).symbols.variables@.len())
            ==> lower_wf(*final(program)),
        lowered(*old(program), *final(program)),
        final(program).symbols.functions == old(program).symbols.functions,
        final(program).symbols.call_sites == old(program).symbols.call_sites,
        final(program).fn_returns == old(program).fn_returns,
        kind(*t, n as int) == "assignment_expression"@ ==> match assign_sides(*t, n as int) {
            Some((l, r)) => {
                &&& (store_case(*ctx, old(program).symbols, *t, l, r) matches Some((ptr, src)) ==>
                    final(program).flow@ == old(program).flow@.push(FlowConstraint::Store { dst: ptr, src })
                        && final(program).symbols == old(program).symbols)
                &&& (copy_case(*ctx, old(program).symbols, *t, l, r) matches Some(dst) ==>
                    final(program).symbols == old(program).symbols && exists|f: Option<FlowConstraint>|
                        rhs_flow_is(*ctx, old(program).symbols, *t, rhs_core(*t, r), dst, f)
                        && final(program).flow@ == old(program).flow@ + flow_of(f))
            },
            None => *final(program) == *old(program),
        },
    decreases t.nodes@.len() - n,
{
    if t.kind_is(n, "assignment_expression") {
        let left = match t.child_by_field(n, "left") {
            Some(l) => l,
            None => match t.named_child(n, 0) {
                Some(l) => l,
                None => {
                    return;
                },
            },
        };
        let lhs = peel_expression(t, left);
        let rhs = match t.child_by_field(n, "right") {
            Some(r) => r,
            None => match t.named_child(n, 1) {
                Some(r) => r,
                None => {
                    return;
                },
            },
        };
        if pointer_op_is(t, lhs, "*") {
            if let Some(arg) = pointer_arg(t, lhs) {
                if let Some(ptr) = resolve_lvalue_var(program, ctx, t, arg) {
                    if let Some(src) = expr_to_store_src(program, ctx, t, rhs) {
                        program.flow.push(FlowConstraint::Store { dst: ptr, src });
                    } else if t.kind_is(rhs, "call_expression") {
                        if let Some(callee_name) = resolve_direct_call_name(t, rhs) {
                            let ret = match alloc_ret_temp(program, ctx, t, n) {
                                Some(v) => v,
                                None => {
                                    return;
                                },
                            };
                            program.flow.push(FlowConstraint::CallReturn { dst: ret, callee_name });
                            program.flow.push(FlowConstraint::Store { dst: ptr, src: ret });
                        }
                    }
                }
            }
        } else if t.kind_is(lhs, "field_expression") {
            emit_field_store(program, ctx, t, lhs, rhs);
        } else if let Some(dst) = resolve_lvalue_var(program, ctx, t, lhs) {
            let ghost p0 = *program;
            let fr = expr_to_rhs_flow(program, ctx, t, rhs, dst);
            let ghost p1 = *program;
            match fr {
                Some(f) => {
                    program.flow.push(f);
                },
                None => {},
            }
            proof {
                if lower_wf(p0) && ctx_ok(*ctx, p0) {
                    lemma_names_ok(*ctx, p0, None);
                    lemma_lvalue_ok(*ctx, p0.symbols, *t, lhs as int);
                }
                lemma_lowered_trans(*old(program), p0, *program);
                if rhs_core(*t, rhs as int) >= 0 && rhs_kind(*t, rhs_core(*t, rhs as int)) == 0 {
                    assert(program.flow@ =~= p1.flow@ + flow_of(fr));
                    assert(rhs_flow_is(*ctx, old(program).symbols, *t, rhs_core(*t, rhs as int), dst, fr));
                }
            }
        }
        return;
    }
    if t.kind_is(n, "initializer_list") {
        if let Some(base) = assign_target {
            lower_initializer_list(program, ctx, t, n, base);
            return;
        }
    }
    if let Some(dst) = assign_target {
        if let Some(f) = expr_to_rhs_flow(program, ctx, t, n, dst) {
            program.flow.push(f);
        }
        return;
    }
    let kids = &t.children[n];
    let mut k: usize = 0;
    while k < kids.len()
        invariant
            node_in(*t, n),
            *kids == t.children@[n as int],
            lowered(*old(program), *program),
            wf_kept(*old(program), *program, *ctx),
            program.symbols.functions == old(program).symbols.functions,
            program.symbols.call_sites == old(program).symbols.call_sites,
            program.fn_returns == old(program).fn_returns,
        decreases kids@.len() - k,
    {
        let c = kids[k];
        proof { assert(n < t.children@[n as int]@[k as int] < t.nodes@.len()); }
        let ghost p0 = *program;
        extract_flow_from_expr(program, ctx, t, c, None);
        proof { lemma_kept_trans(*old(program), p0, *program, *ctx); }
        k = k + 1;
    }
}

/// A function-pointer table fact for `array` whose callee some child of
/// node `init` names.
pub open spec fn table_member_fact(f: FlowConstraint, array: VarId, ctx: LowerContext, s: SymbolTable, t: SyntaxTree, init: int) -> bool {
    match f {
        FlowConstraint::ArrayFnMember { array: a, callee } => a == array && exists|c: int|
            0 <= c < t.children@[init]@.len() && call_fn_arg(ctx, s, t, #[trigger] t.children@[init]@[c] as int) == Some(callee),
        _ => false,
    }
}

/// The function-pointer table facts an initializer's children give, in
/// order: one for each child (no parenthesis or comma) that passes a
/// function.
pub open spec fn table_facts(ctx: LowerContext, s: SymbolTable, t: SyntaxTree, kids: Seq<usize>, array: VarId) -> Seq<FlowConstraint>
    decreases kids.len(),
{
    if kids.len() == 0 {
        seq![]
    } else {
        let c = kids.last() as int;
        table_facts(ctx, s, t, kids.drop_last(), array) + if !(kind(t, c) == "("@ || kind(t, c) == ")"@ || kind(t, c) == ","@)
            && call_fn_arg(ctx, s, t, c) is Some {
            seq![FlowConstraint::ArrayFnMember { array, callee: call_fn_arg(ctx, s, t, c)->0 }]
        } else {
            seq![]
        }
    }
}

/// Every function named in an initializer list for the function-pointer
/// table `array` becomes a member of it.
fn lower_fn_ptr_array_init(program: &mut Program, ctx: &LowerContext, t: &SyntaxTree, array: VarId, init: usize)
    requires
        node_in(*t, init),
    ensures
        final(program).flow@ == old(program).flow@ + table_facts(*ctx, old(program).symbols, *t, t.children@[init as int]@, array),
        wf_kept(*old(program), *final(program), *ctx),
        final(program).types == old(program).types,
        final(program).symbols == old(program).symbols,
        final(program).fn_returns == old(program).fn_returns,
        final(program).root == old(program).root,
        final(program).diagnostics == old(program).diagnostics,
        old(program).flow@.is_prefix_of(final(program).flow@),
        forall|i: int| old(program).flow@.len() <= i < final(program).flow@.len() ==>
            table_member_fact(#[trigger] final(program).flow@[i], array, *ctx, old(program).symbols, *t, init as int),
{
    let kids = &t.children[init];
    let mut k: usize = 0;
    while k < kids.len()
        invariant
            node_in(*t, init),
            *kids == t.children@[init as int],
            program.types == old(program).types,
            program.symbols == old(program).symbols,
            program.fn_returns == old(program).fn_returns,
            program.root == old(program).root,
            program.diagnostics == old(program).diagnostics,
            wf_kept(*old(program), *program, *ctx),
            old(program).flow@.is_prefix_of(program.flow@),
            forall|i: int| old(program).flow@.len() <= i < program.flow@.len() ==>
                table_member_fact(#[trigger] program.flow@[i], array, *ctx, old(program).symbols, *t, init as int),
            k <= kids@.len(),
            program.flow@ == old(program).flow@ + table_facts(*ctx, old(program).symbols, *t, kids@.subrange(0, k as int), array),
        decreases kids@.len() - k,
    {
        let c = kids[k];
        proof {
            assert(init < t.children@[init as int]@[k as int] < t.nodes@.len());
            assert(kids@.subrange(0, k + 1).drop_last() =~= kids@.subrange(0, k as int));
        }
        let ghost f0 = program.flow@;
        if !(t.kind_is(c, "(") || t.kind_is(c, ")") || t.kind_is(c, ",")) {
            if let Some(callee) = resolve_call_fn_arg(program, ctx, t, c) {
                program.flow.push(FlowConstraint::ArrayFnMember { array, callee });
                proof {
                    assert(call_fn_arg(*ctx, old(program).symbols, *t, t.children@[init as int]@[k as int] as int) == Some(callee));
                }
            }
        }
        proof {
            assert(program.flow@ =~= old(program).flow@ + table_facts(*ctx, old(program).symbols, *t, kids@.subrange(0, k + 1), array));
        }
        k = k + 1;
    }
    proof { assert(kids@.subrange(0, k as int) =~= kids@); }
}


/// `->`.
pub open spec fn arrow() -> Seq<char> {
    seq!['-', '>']
}

/// The name recorded for a callee that is no name.
pub open spec fn indirect_name() -> Seq<char> {
    seq!['<', 'i', 'n', 'd', 'i', 'r', 'e', 'c', 't', '>']
}

/// A string of `chars`.
fn string_of(chars: Vec<char>) -> (r: String)
    ensures
        r@ == chars@,
{
    chars_to_string(chars.as_slice())
}

/// `a`, then `mid`, then `b`.
fn concat3(a: &str, mid: &[char], b: &str) -> (r: String)
    ensures
        r@ == a@ + mid@ + b@,
{
    let mut v = str_chars(a);
    push_all(&mut v, mid);
    let w = str_chars(b);
    push_all(&mut v, w.as_slice());
    chars_to_string(v.as_slice())
}

/// How a call's callee is recorded: its name text, whether it names a
/// known function directly, and the variable it calls through, if any.
pub open spec fn callee_of(ctx: LowerContext, s: SymbolTable, t: SyntaxTree, n: int) -> (Seq<char>, bool, Option<VarId>)
    decreases t.nodes@.len() - n,
{
    let m = peeled(t, n);
    if !(0 <= n <= m < t.nodes@.len()) {
        (seq![], false, None)
    } else if kind(t, m) == "identifier"@ {
        let name = text(t, m);
        match var_named(ctx, s, name) {
            Some(v) => (name, false, Some(v)),
            None => (name, fn_named(ctx, s, name) is Some, None),
        }
    } else if kind(t, m) == "pointer_expression"@ || kind(t, m) == "parenthesized_expression"@ {
        match named_child_at(t, m, 0) {
            Some(c) => if m < c < t.nodes@.len() { callee_of(ctx, s, t, c as int) } else { (indirect_name(), false, None) },
            None => (indirect_name(), false, None),
        }
    } else if kind(t, m) == "field_expression"@ {
        let field = match field_child(t, m, "field"@) {
            Some(f) => text(t, f as int),
            None => seq!['f', 'i', 'e', 'l', 'd'],
        };
        match field_child(t, m, "argument"@) {
            Some(a) => match lvalue_var(ctx, s, t, a as int) {
                Some(v) => (text(t, a as int) + arrow() + field, false, Some(v)),
                None => (field, false, None),
            },
            None => (field, false, None),
        }
    } else if kind(t, m) == "subscript_expression"@ {
        match field_child(t, m, "argument"@) {
            Some(a) => match lvalue_var(ctx, s, t, a as int) {
                Some(v) => (text(t, a as int) + seq!['[', '.', '.', '.', ']'], false, Some(v)),
                None => (indirect_name(), false, None),
            },
            None => (indirect_name(), false, None),
        }
    } else {
        (text(t, m), false, None)
    }
}

/// How a call's callee is recorded: a variable called through, a known
/// function called directly, or only a name.
fn resolve_callee(program: &Program, ctx: &LowerContext, t: &SyntaxTree, n: usize) -> (r: (String, bool, Option<VarId>))
    requires
        node_in(*t, n),
    ensures
        (r.0@, r.1, r.2) == callee_of(*ctx, program.symbols, *t, n as int),
    decreases t.nodes@.len() - n,
{
    let m = peel_expression(t, n);
    if t.kind_is(m, "identifier") {
        let name = t.nodes[m].text.clone();
        if let Some(v) = lookup_var(ctx, program, name.as_str()) {
            return (name, false, Some(v));
        }
        let direct = resolve_function_named(program, ctx, name.as_str()).is_some();
        return (name, direct, None);
    }
    let indirect: Vec<char> = vec!['<', 'i', 'n', 'd', 'i', 'r', 'e', 'c', 't', '>'];
    proof { assert(indirect@ =~= indirect_name()); }
    if t.kind_is(m, "pointer_expression") || t.kind_is(m, "parenthesized_expression") {
        return match t.named_child(m, 0) {
            Some(c) => resolve_callee(program, ctx, t, c),
            None => (string_of(indirect), false, None),
        };
    }
    if t.kind_is(m, "field_expression") {
        let field = match t.child_by_field(m, "field") {
            Some(f) => t.nodes[f].text.clone(),
            None => {
                let v: Vec<char> = vec!['f', 'i', 'e', 'l', 'd'];
                proof { assert(v@ =~= seq!['f', 'i', 'e', 'l', 'd']); }
                string_of(v)
            },
        };
        let a = match t.child_by_field(m, "argument") {
            Some(a) => a,
            None => {
                return (field, false, None);
            },
        };
        if let Some(v) = resolve_lvalue_var(program, ctx, t, a) {
            let sep: Vec<char> = vec!['-', '>'];
            proof { assert(sep@ =~= arrow()); }
            return (concat3(t.nodes[a].text.as_str(), sep.as_slice(), field.as_str()), false, Some(v));
        }
        return (field, false, None);
    }
    if t.kind_is(m, "subscript_expression") {
        let a = match t.child_by_field(m, "argument") {
            Some(a) => a,
            None => {
                return (string_of(indirect), false, None);
            },
        };
        if let Some(v) = resolve_lvalue_var(program, ctx, t, a) {
            let dots: Vec<char> = vec!['[', '.', '.', '.', ']'];
            proof { assert(dots@ =~= seq!['[', '.', '.', '.', ']']); }
            let empty = "";
            proof {
                reveal_strlit("");
                assert(t.nodes@[a as int].text@ + dots@ + empty@ =~= t.nodes@[a as int].text@ + dots@);
            }
            return (concat3(t.nodes[a].text.as_str(), dots.as_slice(), empty), false, Some(v));
        }
        return (string_of(indirect), false, None);
    }
    (t.nodes[m].text.clone(), false, None)
}

/// The text of a field access chain: its base, and `->field` for each
/// level from the innermost out.
pub open spec fn chain_text(t: SyntaxTree, n: int) -> (Seq<char>, Seq<char>)
    decreases t.nodes@.len() - n,
{
    if 0 <= n < t.nodes@.len() && kind(t, n) == "field_expression"@ {
        let own = match field_child(t, n, "field"@) {
            Some(f) => arrow() + text(t, f as int),
            None => seq![],
        };
        match field_child(t, n, "argument"@) {
            Some(a) => {
                let inner = chain_text(t, a as int);
                (inner.0, inner.1 + own)
            },
            None => (text(t, n), own),
        }
    } else {
        (text(t, n), seq![])
    }
}

/// `->part` for each of `parts`, from the last to the first.
pub open spec fn arrows(parts: Seq<String>) -> Seq<char>
    decreases parts.len(),
{
    if parts.len() == 0 {
        seq![]
    } else {
        arrow() + parts.last()@ + arrows(parts.drop_last())
    }
}

/// The name a call through a field path is recorded under:
/// `base->f1->f2`.
fn field_callee_text(t: &SyntaxTree, n: usize) -> (r: String)
    requires
        node_in(*t, n),
    ensures
        r@ == chain_text(*t, peeled(*t, n as int)).0 + chain_text(*t, peeled(*t, n as int)).1,
{
    let m = peel_expression(t, n);
    let mut parts: Vec<String> = Vec::new();
    let mut cur = m;
    loop
        invariant_except_break
            chain_text(*t, m as int) == (chain_text(*t, cur as int).0, chain_text(*t, cur as int).1 + arrows(parts@)),
        invariant
            node_in(*t, cur),
            m as int == peeled(*t, n as int),
        ensures
            node_in(*t, cur),
            chain_text(*t, m as int) == (t.nodes@[cur as int].text@, arrows(parts@)),
        decreases t.nodes@.len() - cur,
    {
        if !t.kind_is(cur, "field_expression") {
            proof { assert(seq![] + arrows(parts@) =~= arrows(parts@)); }
            break;
        }
        let ghost old_parts = parts@;
        match t.child_by_field(cur, "field") {
            Some(f) => {
                parts.push(t.nodes[f].text.clone());
                proof {
                    assert(parts@.drop_last() =~= old_parts);
                }
            },
            None => {},
        }
        match t.child_by_field(cur, "argument") {
            Some(a) => {
                proof {
                    let own = match field_child(*t, cur as int, "field"@) {
                        Some(f) => arrow() + text(*t, f as int),
                        None => seq![],
                    };
                    assert(own + arrows(old_parts) =~= arrows(parts@));
                    assert(chain_text(*t, a as int).1 + own + arrows(old_parts)
                        =~= chain_text(*t, a as int).1 + arrows(parts@));
                }
                cur = a;
            },
            None => {
                proof {
                    let own = match field_child(*t, cur as int, "field"@) {
                        Some(f) => arrow() + text(*t, f as int),
                        None => seq![],
                    };
                    assert(own + arrows(old_parts) =~= arrows(parts@));
                }
                break;
            },
        }
    }
    let base = t.nodes[cur].text.as_str();
    let mut out = str_chars(base);
    let mut k: usize = parts.len();
    proof { assert(parts@.subrange(0, k as int) =~= parts@); }
    while k > 0
        invariant
            k <= parts@.len(),
            out@ + arrows(parts@.subrange(0, k as int)) == base@ + arrows(parts@),
        decreases k,
    {
        let ghost before = out@;
        let sep: Vec<char> = vec!['-', '>'];
        push_all(&mut out, sep.as_slice());
        let part = str_chars(parts[k - 1].as_str());
        push_all(&mut out, part.as_slice());
        proof {
            let sub = parts@.subrange(0, k as int);
            assert(sub.drop_last() =~= parts@.subrange(0, k - 1));
            assert(sub.last() == parts@[k - 1]);
            assert(sep@ =~= arrow());
            assert(out@ + arrows(parts@.subrange(0, k - 1)) =~= before + arrows(sub));
        }
        k = k - 1;
    }
    proof { assert(out@ + arrows(parts@.subrange(0, 0)) =~= out@); }
    chars_to_string(out.as_slice())
}

/// For a call through the field path `base.f1...fk`: loads the function
/// pointer out of the last field into a `_load` temporary, following
/// pointer fields on the way through further `_load` temporaries.
fn emit_field_fn_ptr_load(program: &mut Program, ctx: &LowerContext, t: &SyntaxTree, span_node: usize, base: VarId, field_ids: &[FieldId]) -> (r: Option<VarId>)
    requires
        node_in(*t, span_node),
        lower_ok(*old(program)),
    ensures
        field_ids@.len() == 1 && old(program).symbols.next_var + 2 < u32::MAX ==>
            match var_struct_type(old(program).symbols.variables@, old(program).types.types@, base) {
                Some(ty) => (field_ids@[0].0 as int) < old(program).types.types@[ty.0 as int].layout.fields@.len()
                    ==> (r is Some && final(program).flow@.last() == FlowConstraint::Load { dst: r->0, src: VarId(old(program).symbols.next_var) }),
                None => r is None,
            },
        wf_kept(*old(program), *final(program), *ctx),
        lowered(*old(program), *final(program)),
        final(program).symbols.functions == old(program).symbols.functions,
        final(program).symbols.next_call == old(program).symbols.next_call,
        final(program).symbols.call_sites == old(program).symbols.call_sites,
        final(program).fn_returns == old(program).fn_returns,
        r matches Some(v) ==> final(program).symbols.variables@.len() > 0
            && final(program).symbols.variables@.last().id == v
            && final(program).symbols.variables@.last().name@ == temp_name(seq!['_', 'l', 'o', 'a', 'd'], v),
{
    if field_ids.len() == 0 {
        return None;
    }
    let mut type_id = match struct_type_for_var(program, base) {
        Some(ty) => ty,
        None => {
            return None;
        },
    };
    let load_prefix = "_load";
    proof {
        reveal_strlit("_load");
        assert(load_prefix@ =~= seq!['_', 'l', 'o', 'a', 'd']);
    }
    let mut current = base;
    let mut i: usize = 0;
    while i < field_ids.len()
        invariant
            node_in(*t, span_node),
            lowered(*old(program), *program),
            wf_kept(*old(program), *program, *ctx),
            program.symbols.functions == old(program).symbols.functions,
            program.symbols.next_call == old(program).symbols.next_call,
            program.symbols.call_sites == old(program).symbols.call_sites,
            program.fn_returns == old(program).fn_returns,
            (type_id.0 as int) < program.types.types@.len(),
            load_prefix@ == seq!['_', 'l', 'o', 'a', 'd'],
            program.types == old(program).types,
            i == 0 ==> *program == *old(program) && Some(type_id) == var_struct_type(old(program).symbols.variables@, old(program).types.types@, base),
            field_ids@.len() == 1 ==> i == 0,
        decreases field_ids@.len() - i,
    {
        let fid = field_ids[i];
        let ghost p0 = *program;
        let gep = match alloc_gep_temp(program, ctx, t, span_node, current, fid) {
            Some(g) => g,
            None => {
                return None;
            },
        };
        proof { lemma_kept_trans(*old(program), p0, *program, *ctx); }
        let fields = &program.types.get(type_id).layout.fields;
        if fid.0 as usize >= fields.len() {
            return None;
        }
        let field_type_id = fields[fid.0 as usize].type_id;
        type_id = field_type_id;
        if i + 1 == field_ids.len() {
            let ghost p1 = *program;
            let load_var = match new_temp(program, ctx, t, span_node, load_prefix, program.types.int_type()) {
                Some(v) => v,
                None => {
                    return None;
                },
            };
            program.flow.push(FlowConstraint::Load { dst: load_var, src: gep });
            proof { lemma_kept_trans(*old(program), p1, *program, *ctx); }
            return Some(load_var);
        }
        let pointee = match &program.types.get(field_type_id).desc {
            TypeDesc::Ptr(inner) => Some(program.types.resolve_type_id(inner)),
            _ => None,
        };
        match pointee {
            Some(next_type) => {
                let ghost p1 = *program;
                let load_var = match new_temp(program, ctx, t, span_node, load_prefix, field_type_id) {
                    Some(v) => v,
                    None => {
                        return None;
                    },
                };
                program.flow.push(FlowConstraint::Load { dst: load_var, src: gep });
                proof { lemma_kept_trans(*old(program), p1, *program, *ctx); }
                current = load_var;
                type_id = next_type;
            },
            None => {
                current = gep;
            },
        }
        i = i + 1;
    }
    None
}

/// How a call's callee is recorded, loading a function pointer out of a
/// field path first: then the callee is recorded under the path's text
/// and called through the `_load` temporary.
fn resolve_callee_with_loads(program: &mut Program, ctx: &LowerContext, t: &SyntaxTree, n: usize) -> (r: (String, bool, Option<VarId>))
    requires
        node_in(*t, n),
        lower_ok(*old(program)),
    ensures
        wf_kept(*old(program), *final(program), *ctx),
        lowered(*old(program), *final(program)),
        final(program).symbols.functions == old(program).symbols.functions,
        final(program).symbols.next_call == old(program).symbols.next_call,
        final(program).symbols.call_sites == old(program).symbols.call_sites,
        final(program).fn_returns == old(program).fn_returns,
        (r.0@, r.1, r.2) == callee_of(*ctx, old(program).symbols, *t, n as int)
            || (kind(*t, peeled(*t, n as int)) == "field_expression"@
                && r.0@ == chain_text(*t, peeled(*t, n as int)).0 + chain_text(*t, peeled(*t, n as int)).1
                && !r.1 && r.2 is Some && final(program).symbols.variables@.len() > 0
                && final(program).symbols.variables@.last().id == r.2->0),
{
    let m = peel_expression(t, n);
    let plain = resolve_callee(program, ctx, t, n);
    proof {
        lemma_lowered_refl(*program);
        reveal_strlit("field_expression");
        reveal_strlit("parenthesized_expression");
        assert("field_expression"@.len() != "parenthesized_expression"@.len());
    }
    let ghost p0 = *program;
    if t.kind_is(m, "field_expression") {
        proof { assert(peeled(*t, m as int) == m); }
        if let Some((base, field_ids)) = decompose_field_path(program, ctx, t, m) {
            let text = field_callee_text(t, m);
            let ghost p1 = *program;
            if let Some(load_var) = emit_field_fn_ptr_load(program, ctx, t, m, base, field_ids.as_slice()) {
                proof { lemma_kept_trans(p0, p1, *program, *ctx); }
                return (text, false, Some(load_var));
            }
            proof { lemma_kept_trans(p0, p1, *program, *ctx); }
        }
    }
    plain
}


/// A call expression in the body of `caller`: its callee (unless it looks
/// like a macro that names no known function), and its arguments that
/// carry a variable or pass a function, numbered in the order found.
fn collect_call_at_node(program: &mut Program, ctx: &LowerContext, t: &SyntaxTree, n: usize, caller: FnId)
    requires
        node_in(*t, n),
        lower_ok(*old(program)),
    ensures
        match field_child(*t, n as int, "function"@) {
            Some(f) => kind(*t, peeled(*t, f as int)) != "field_expression"@ && callee_of(*ctx, old(program).symbols, *t, f as int).1
                && old(program).symbols.next_call < u32::MAX ==> {
                    &&& final(program).symbols.call_sites@.len() == old(program).symbols.call_sites@.len() + 1
                    &&& final(program).symbols.call_sites@.last().caller == caller
                    &&& final(program).symbols.call_sites@.last().is_direct
                    &&& final(program).symbols.call_sites@.last().callee_name@ == callee_of(*ctx, old(program).symbols, *t, f as int).0
                },
            None => *final(program) == *old(program),
        },
        wf_kept(*old(program), *final(program), *ctx),
        lowered(*old(program), *final(program)),
        final(program).symbols.functions == old(program).symbols.functions,
        final(program).fn_returns == old(program).fn_returns,
        final(program).symbols.call_sites == old(program).symbols.call_sites || ({
            &&& final(program).symbols.call_sites@.drop_last() == old(program).symbols.call_sites@
            &&& final(program).symbols.call_sites@.last().caller == caller
            &&& final(program).symbols.call_sites@.last().id.0 == old(program).symbols.next_call
        }),
{
    let func = match t.child_by_field(n, "function") {
        Some(f) => f,
        None => {
            return;
        },
    };
    let (callee_name, mut is_direct, callee_var) = resolve_callee_with_loads(program, ctx, t, func);
    if !is_direct && callee_var.is_none() {
        is_direct = resolve_function_named(program, ctx, callee_name.as_str()).is_some();
    }
    if !is_direct && is_likely_macro_callee(callee_name.as_str()) {
        return;
    }
    let mut var_args: Vec<(u32, VarId)> = Vec::new();
    let mut fn_args: Vec<(u32, FnId)> = Vec::new();
    let mut arg_index: u32 = 0;
    let ghost pm = *program;
    proof {
        if lower_wf(pm) && ctx_ok(*ctx, pm) {
            lemma_names_ok(*ctx, pm, None);
        }
    }
    if let Some(args) = t.child_by_field(n, "arguments") {
        let kids = &t.children[args];
        let mut k: usize = 0;
        while k < kids.len()
            invariant
                node_in(*t, args),
                *kids == t.children@[args as int],
                *program == pm,
                lower_wf(pm) && ctx_ok(*ctx, pm) ==> names_ok(*ctx, pm.symbols),
                lower_wf(pm) && ctx_ok(*ctx, pm) ==> forall|j: int| 0 <= j < var_args@.len()
                    ==> (#[trigger] var_args@[j].1.0 as int) < pm.symbols.variables@.len(),
            decreases kids@.len() - k,
        {
            let a = kids[k];
            proof { assert(args < t.children@[args as int]@[k as int] < t.nodes@.len()); }
            if !(t.kind_is(a, "(") || t.kind_is(a, ")") || t.kind_is(a, ",")) {
                if let Some(v) = resolve_expr_var(program, ctx, t, a) {
                    proof {
                        if lower_wf(pm) && ctx_ok(*ctx, pm) {
                            lemma_lvalue_ok(*ctx, pm.symbols, *t, a as int);
                        }
                    }
                    var_args.push((arg_index, v));
                    arg_index = arg_index.saturating_add(1);
                } else if let Some(f) = resolve_call_fn_arg(program, ctx, t, a) {
                    fn_args.push((arg_index, f));
                    arg_index = arg_index.saturating_add(1);
                }
            }
            k = k + 1;
        }
    }
    if program.symbols.next_call == u32::MAX {
        return;
    }
    let call_id = program.symbols.alloc_call_id();
    let span = node_span(ctx, t, n);
    let ghost before = program.symbols.call_sites@;
    program.symbols.call_sites.push(CallSite {
        id: call_id,
        caller,
        callee_name,
        callee_var,
        var_args,
        fn_args,
        span,
        is_direct,
    });
    proof { assert(program.symbols.call_sites@.drop_last() =~= before); }
}

/// The type id a parameter list position gets: its position, when it fits.
pub open spec fn param_ids(vars: Seq<Variable>, f: FnId) -> Seq<VarId>
    decreases vars.len(),
{
    if vars.len() == 0 {
        seq![]
    } else {
        let rest = param_ids(vars.drop_last(), f);
        if vars.last().fn_id == Some(f) && vars.last().storage == StorageClass::Param {
            rest.push(vars.last().id)
        } else {
            rest
        }
    }
}

/// `v` is the id of one of `vars`.
pub open spec fn var_listed(vars: Seq<Variable>, v: VarId) -> bool {
    exists|k: int| 0 <= k < vars.len() && (#[trigger] vars[k]).id == v
}

/// Every one of `params` is the id of one of `vars`.
pub open spec fn params_listed(params: Seq<VarId>, vars: Seq<Variable>) -> bool {
    forall|j: int| 0 <= j < params.len() ==> var_listed(vars, #[trigger] params[j])
}

/// A variable moved from function `from` to function `to`.
pub open spec fn moved_var(v: Variable, from: FnId, to: FnId) -> Variable {
    if v.fn_id == Some(from) { Variable { fn_id: Some(to), ..v } } else { v }
}

/// A call site moved from caller `from` to caller `to`.
pub open spec fn moved_site(c: CallSite, from: FnId, to: FnId) -> CallSite {
    if c.caller == from { CallSite { caller: to, ..c } } else { c }
}

/// After a declaration merged into an earlier one (`to`), what was
/// recorded under the provisional id `from` moves to `to`, and `to`'s
/// parameters become the parameters now recorded for it.
fn reassign_fn_id(program: &mut Program, from: FnId, to: FnId)
    ensures
        final(program).types == old(program).types,
        final(program).flow == old(program).flow,
        final(program).fn_returns == old(program).fn_returns,
        final(program).root == old(program).root,
        final(program).diagnostics == old(program).diagnostics,
        final(program).symbols.files == old(program).symbols.files,
        final(program).symbols.fn_by_name == old(program).symbols.fn_by_name,
        final(program).symbols.global_by_name == old(program).symbols.global_by_name,
        final(program).symbols.next_fn == old(program).symbols.next_fn,
        final(program).symbols.next_var == old(program).symbols.next_var,
        final(program).symbols.next_call == old(program).symbols.next_call,
        from == to ==> *final(program) == *old(program),
        from != to ==> {
            &&& final(program).symbols.variables@ == old(program).symbols.variables@.map_values(|v: Variable| moved_var(v, from, to))
            &&& final(program).symbols.call_sites@ == old(program).symbols.call_sites@.map_values(|c: CallSite| moved_site(c, from, to))
            &&& final(program).symbols.functions@.len() == old(program).symbols.functions@.len()
            &&& forall|i: int| 0 <= i < old(program).symbols.functions@.len() ==>
                (#[trigger] final(program).symbols.functions@[i]).id == old(program).symbols.functions@[i].id
                && final(program).symbols.functions@[i].name == old(program).symbols.functions@[i].name
                && final(program).symbols.functions@[i].linkage == old(program).symbols.functions@[i].linkage
                && final(program).symbols.functions@[i].return_type == old(program).symbols.functions@[i].return_type
                && (final(program).symbols.functions@[i].params == old(program).symbols.functions@[i].params
                    || params_listed(final(program).symbols.functions@[i].params@, final(program).symbols.variables@))
        },
{
    if from == to {
        return;
    }
    let ghost vars0 = program.symbols.variables@;
    let mut k: usize = 0;
    while k < program.symbols.variables.len()
        invariant
            program.types == old(program).types,
            program.flow == old(program).flow,
            program.fn_returns == old(program).fn_returns,
            program.root == old(program).root,
            program.diagnostics == old(program).diagnostics,
            program.symbols.files == old(program).symbols.files,
            program.symbols.functions == old(program).symbols.functions,
            program.symbols.call_sites == old(program).symbols.call_sites,
            program.symbols.fn_by_name == old(program).symbols.fn_by_name,
            program.symbols.global_by_name == old(program).symbols.global_by_name,
            program.symbols.next_fn == old(program).symbols.next_fn,
            program.symbols.next_var == old(program).symbols.next_var,
            program.symbols.next_call == old(program).symbols.next_call,
            vars0 == old(program).symbols.variables@,
            program.symbols.variables@.len() == vars0.len(),
            k <= vars0.len(),
            forall|j: int| 0 <= j < k ==> #[trigger] program.symbols.variables@[j] == moved_var(vars0[j], from, to),
            forall|j: int| k <= j < vars0.len() ==> #[trigger] program.symbols.variables@[j] == vars0[j],
        decreases vars0.len() - k,
    {
        if program.symbols.variables[k].fn_id == Some(from) {
            let mut v = program.symbols.variables.remove(k);
            v.fn_id = Some(to);
            program.symbols.variables.insert(k, v);
        }
        k = k + 1;
    }
    proof {
        assert(program.symbols.variables@ =~= vars0.map_values(|v: Variable| moved_var(v, from, to)));
    }
    let ghost sites0 = program.symbols.call_sites@;
    let ghost vars1 = program.symbols.variables@;
    k = 0;
    while k < program.symbols.call_sites.len()
        invariant
            program.types == old(program).types,
            program.flow == old(program).flow,
            program.fn_returns == old(program).fn_returns,
            program.root == old(program).root,
            program.diagnostics == old(program).diagnostics,
            program.symbols.files == old(program).symbols.files,
            program.symbols.functions == old(program).symbols.functions,
            program.symbols.variables@ == vars1,
            program.symbols.fn_by_name == old(program).symbols.fn_by_name,
            program.symbols.global_by_name == old(program).symbols.global_by_name,
            program.symbols.next_fn == old(program).symbols.next_fn,
            program.symbols.next_var == old(program).symbols.next_var,
            program.symbols.next_call == old(program).symbols.next_call,
            sites0 == old(program).symbols.call_sites@,
            program.symbols.call_sites@.len() == sites0.len(),
            k <= sites0.len(),
            forall|j: int| 0 <= j < k ==> #[trigger] program.symbols.call_sites@[j] == moved_site(sites0[j], from, to),
            forall|j: int| k <= j < sites0.len() ==> #[trigger] program.symbols.call_sites@[j] == sites0[j],
        decreases sites0.len() - k,
    {
        if program.symbols.call_sites[k].caller == from {
            let mut c = program.symbols.call_sites.remove(k);
            c.caller = to;
            program.symbols.call_sites.insert(k, c);
        }
        k = k + 1;
    }
    proof {
        assert(program.symbols.call_sites@ =~= sites0.map_values(|c: CallSite| moved_site(c, from, to)));
    }
    let mut idx: usize = 0;
    while idx < program.symbols.functions.len()
        invariant
            program.symbols.functions == old(program).symbols.functions,
        decreases program.symbols.functions@.len() - idx,
    {
        if program.symbols.functions[idx].id == to {
            break;
        }
        idx = idx + 1;
    }
    if idx < program.symbols.functions.len() {
        let mut params: Vec<VarId> = Vec::new();
        let mut j: usize = 0;
        while j < program.symbols.variables.len()
            invariant
                params_listed(params@, program.symbols.variables@),
            decreases program.symbols.variables@.len() - j,
        {
            let v = &program.symbols.variables[j];
            if v.fn_id == Some(to) && v.storage == StorageClass::Param {
                params.push(v.id);
                proof {
                    assert(var_listed(program.symbols.variables@, params@[params@.len() - 1])) by {
                        assert(program.symbols.variables@[j as int].id == params@[params@.len() - 1]);
                    }
                }
            }
            j = j + 1;
        }
        let ghost fs0 = program.symbols.functions@;
        let mut f = program.symbols.functions.remove(idx);
        f.params = params;
        program.symbols.functions.insert(idx, f);
        proof {
            assert forall|i: int| 0 <= i < fs0.len() implies
                (#[trigger] program.symbols.functions@[i]).id == fs0[i].id
                && program.symbols.functions@[i].return_type == fs0[i].return_type
                && (program.symbols.functions@[i].params == fs0[i].params
                    || params_listed(program.symbols.functions@[i].params@, program.symbols.variables@)) by {
                if i != idx { assert(program.symbols.functions@[i] == fs0[i]); }
            }
        }
    }
}


/// Whether a character is alphanumeric in Unicode's sense.
pub uninterp spec fn alnum(c: char) -> bool;

/// `char::is_alphanumeric`: alphabetic or numeric; among ASCII characters
/// exactly the letters and digits.
#[verifier::external_body]
fn char_is_alphanumeric(c: char) -> (r: bool)
    ensures
        r == alnum(c),
        ('a' <= c <= 'z') || ('A' <= c <= 'Z') || ('0' <= c <= '9') ==> r,
        (c as u32) < 128 && !(('a' <= c <= 'z') || ('A' <= c <= 'Z') || ('0' <= c <= '9')) ==> !r,
{
    c.is_alphanumeric()
}

/// Whether `needle` occurs in `hay` at `i`.
fn occurs_exec(hay: &[char], needle: &[char], i: usize) -> (r: bool)
    ensures
        r == occurs_at(hay@, needle@, i as int),
{
    let hl: usize = hay.len();
    if i > hl || needle.len() > hl - i {
        return false;
    }
    let mut j: usize = 0;
    while j < needle.len()
        invariant
            hl == hay@.len(),
            i + needle@.len() <= hl,
            j <= needle@.len(),
            forall|k: int| 0 <= k < j ==> hay@[i + k] == needle@[k],
        decreases needle@.len() - j,
    {
        let idx: usize = i + j;
        if hay[idx] != needle[j] {
            proof {
                if hay@.subrange(i as int, i + needle@.len()) == needle@ {
                    assert(hay@.subrange(i as int, i + needle@.len())[j as int] == hay@[i + j]);
                }
            }
            return false;
        }
        j = j + 1;
    }
    proof { assert(hay@.subrange(i as int, i + needle@.len()) =~= needle@); }
    true
}

/// The first position at or after `from` where `kw` occurs in `text`, or -1.
pub open spec fn first_at(text: Seq<char>, kw: Seq<char>, from: int) -> int
    decreases text.len() + 1 - from,
{
    if from < 0 || from + kw.len() > text.len() {
        -1
    } else if occurs_at(text, kw, from) {
        from
    } else {
        first_at(text, kw, from + 1)
    }
}

/// What `first_at` finds is an occurrence at or after `from`.
proof fn lemma_first_at(text: Seq<char>, kw: Seq<char>, from: int)
    ensures
        first_at(text, kw, from) >= 0 ==> from <= first_at(text, kw, from) && occurs_at(text, kw, first_at(text, kw, from)),
    decreases text.len() + 1 - from,
{
    if !(from < 0 || from + kw.len() > text.len()) && !occurs_at(text, kw, from) {
        lemma_first_at(text, kw, from + 1);
    }
}

/// The first position where `kw` occurs in `text`.
fn find_first(text: &[char], kw: &[char]) -> (r: Option<usize>)
    ensures
        match r {
            Some(i) => first_at(text@, kw@, 0) == i,
            None => first_at(text@, kw@, 0) == -1,
        },
{
    let mut i: usize = 0;
    while i <= text.len() && kw.len() <= text.len() - i
        invariant
            i <= text@.len() + 1,
            first_at(text@, kw@, 0) == first_at(text@, kw@, i as int),
        decreases text@.len() + 1 - i,
    {
        if occurs_exec(text, kw, i) {
            return Some(i);
        }
        proof {
            if kw@.len() == 0 {
                assert(text@.subrange(i as int, i as int) =~= kw@);
            }
        }
        i = i + 1;
    }
    None
}

/// The first position at or after `i` that is not white space.
pub open spec fn ws_from(s: Seq<char>, i: int) -> int
    decreases s.len() - i,
{
    if i < 0 || i >= s.len() || !white(s[i]) { i } else { ws_from(s, i + 1) }
}

/// The end of `s` before the white space that ends at `j`.
pub open spec fn ws_back(s: Seq<char>, j: int) -> int
    decreases j,
{
    if j <= 0 || j > s.len() || !white(s[j - 1]) { j } else { ws_back(s, j - 1) }
}

/// `s` without leading and trailing white space.
pub open spec fn trimmed(s: Seq<char>) -> Seq<char> {
    let a = ws_from(s, 0);
    let b = ws_back(s, s.len() as int);
    if a >= b { seq![] } else { s.subrange(a, b) }
}

/// The position after the `" {"` pairs that start at `i`.
pub open spec fn strip_from(s: Seq<char>, i: int) -> int
    decreases s.len() - i,
{
    if 0 <= i && i + 2 <= s.len() && s[i] == ' ' && s[i + 1] == '{' { strip_from(s, i + 2) } else { i }
}

/// The end of the run of alphanumeric characters and `_` that starts at `i`.
pub open spec fn run_end(s: Seq<char>, i: int) -> int
    decreases s.len() - i,
{
    if 0 <= i < s.len() && (alnum(s[i]) || s[i] == '_') { run_end(s, i + 1) } else { i }
}

/// The tag a type's text gives after `kw`: the text between the first and
/// the second occurrence of `kw`, trimmed, without leading `" {"` pairs,
/// up to the first character that is neither alphanumeric nor `_`;
/// `anon` when `kw` does not occur.
pub open spec fn tag_name(text: Seq<char>, kw: Seq<char>) -> Seq<char> {
    let i = first_at(text, kw, 0);
    if i < 0 {
        seq!['a', 'n', 'o', 'n']
    } else {
        let rest = text.subrange(i + kw.len(), text.len() as int);
        let j = first_at(rest, kw, 0);
        let seg = if j < 0 { rest } else { rest.subrange(0, j) };
        let tr = trimmed(seg);
        let a = strip_from(tr, 0);
        tr.subrange(a, run_end(tr, a))
    }
}

/// The tag name a type node's text gives after `kw`.
fn extract_tag_name(t: &SyntaxTree, n: usize, kw: &str) -> (r: String)
    requires
        node_in(*t, n),
        kw@.len() > 0,
    ensures
        r@ == tag_name(text(*t, n as int), kw@),
{
    let txt = str_chars(t.nodes[n].text.as_str());
    let key = str_chars(kw);
    let i = match find_first(txt.as_slice(), key.as_slice()) {
        Some(i) => i,
        None => {
            let v: Vec<char> = vec!['a', 'n', 'o', 'n'];
            proof { assert(v@ =~= seq!['a', 'n', 'o', 'n']); }
            return chars_to_string(v.as_slice());
        },
    };
    proof {
        lemma_first_at(txt@, key@, 0);
        assert(occurs_at(txt@, key@, i as int));
    }
    let tl: usize = txt.len();
    proof { assert(i + key@.len() <= tl); }
    let start: usize = i + key.len();
    let mut rest: Vec<char> = Vec::new();
    let mut k: usize = start;
    while k < txt.len()
        invariant
            i + key@.len() <= k <= txt@.len() || (k == i + key@.len() && k > txt@.len()),
            i + key@.len() <= txt@.len(),
            rest@ == txt@.subrange(i + key@.len(), k as int),
        decreases txt@.len() - k,
    {
        rest.push(txt[k]);
        proof { assert(rest@ =~= txt@.subrange(i + key@.len(), k + 1)); }
        k = k + 1;
    }
    proof { assert(rest@ =~= txt@.subrange(i + key@.len(), txt@.len() as int)); }
    let seg_end = match find_first(rest.as_slice(), key.as_slice()) {
        Some(j) => {
            proof {
                lemma_first_at(rest@, key@, 0);
                assert(occurs_at(rest@, key@, j as int));
            }
            j
        },
        None => rest.len(),
    };
    let ghost seg = rest@.subrange(0, seg_end as int);
    proof {
        if seg_end == rest.len() {
            assert(rest@.subrange(0, seg_end as int) =~= rest@);
        }
    }
    let mut a: usize = 0;
    while a < seg_end && char_is_whitespace(rest[a])
        invariant
            seg_end <= rest@.len(),
            seg == rest@.subrange(0, seg_end as int),
            a <= seg_end,
            ws_from(seg, 0) == ws_from(seg, a as int),
        decreases seg_end - a,
    {
        a = a + 1;
    }
    proof {
        if a < seg_end {
            assert(seg[a as int] == rest@[a as int]);
        }
        assert(ws_from(seg, a as int) == a as int);
    }
    let mut b: usize = seg_end;
    while b > 0 && char_is_whitespace(rest[b - 1])
        invariant
            seg_end <= rest@.len(),
            seg == rest@.subrange(0, seg_end as int),
            b <= seg_end,
            ws_back(seg, seg_end as int) == ws_back(seg, b as int),
        decreases b,
    {
        b = b - 1;
    }
    proof {
        if b > 0 {
            assert(seg[b - 1] == rest@[b - 1]);
        }
        assert(ws_back(seg, b as int) == b as int);
    }
    let mut tr: Vec<char> = Vec::new();
    if a < b {
        let mut k: usize = a;
        while k < b
            invariant
                a <= k <= b,
                b <= seg_end <= rest@.len(),
                tr@ == rest@.subrange(a as int, k as int),
            decreases b - k,
        {
            tr.push(rest[k]);
            proof { assert(tr@ =~= rest@.subrange(a as int, k + 1)); }
            k = k + 1;
        }
    }
    proof {
        if a < b {
            assert(tr@ =~= seg.subrange(a as int, b as int));
        } else {
            assert(tr@ =~= seq![]);
        }
        assert(tr@ == trimmed(seg));
    }
    let mut p: usize = 0;
    while p < tr.len() && tr.len() - p >= 2 && tr[p] == ' ' && tr[p + 1] == '{'
        invariant
            p <= tr@.len(),
            strip_from(tr@, 0) == strip_from(tr@, p as int),
        decreases tr@.len() - p,
    {
        p = p + 2;
    }
    let mut e: usize = p;
    while e < tr.len() && (char_is_alphanumeric(tr[e]) || tr[e] == '_')
        invariant
            p <= e <= tr@.len(),
            run_end(tr@, p as int) == run_end(tr@, e as int),
        decreases tr@.len() - e,
    {
        e = e + 1;
    }
    let mut out: Vec<char> = Vec::new();
    let mut k: usize = p;
    while k < e
        invariant
            p <= k <= e <= tr@.len(),
            out@ == tr@.subrange(p as int, k as int),
        decreases e - k,
    {
        out.push(tr[k]);
        proof { assert(out@ =~= tr@.subrange(p as int, k + 1)); }
        k = k + 1;
    }
    chars_to_string(out.as_slice())
}


/// The tag a struct or union specifier spells out, if any.
pub open spec fn given_tag(t: SyntaxTree, n: int) -> Option<Seq<char>> {
    match field_child(t, n, "name"@) {
        Some(c) => if text(t, c as int).len() > 0 { Some(text(t, c as int)) } else { None },
        None => None,
    }
}

/// The name a declarator declares, and whether it declares a pointer.
pub open spec fn declarator_name(t: SyntaxTree, n: int) -> (Seq<char>, bool)
    decreases t.nodes@.len() - n,
{
    if !(0 <= n < t.nodes@.len()) {
        (seq![], false)
    } else if kind(t, n) == "identifier"@ {
        (text(t, n), false)
    } else if kind(t, n) == "pointer_declarator"@ {
        match field_child(t, n, "declarator"@) {
            Some(c) => (declarator_name(t, c as int).0, true),
            None => (seq![], true),
        }
    } else {
        let next = if kind(t, n) == "function_declarator"@ {
            Some(field_child(t, n, "declarator"@))
        } else if kind(t, n) == "parenthesized_declarator"@ {
            Some(named_child_at(t, n, 0))
        } else if kind(t, n) == "array_declarator"@ {
            Some(field_child(t, n, "declarator"@))
        } else {
            None
        };
        match next {
            Some(Some(c)) => declarator_name(t, c as int),
            Some(None) => (seq![], false),
            None => (text(t, n), false),
        }
    }
}

/// A function declarator whose declarator is parenthesized or a pointer.
pub open spec fn fn_ptr_declarator(t: SyntaxTree, d: int) -> bool {
    kind(t, d) == "function_declarator"@ && match field_child(t, d, "declarator"@) {
        Some(c) => kind(t, c as int) == "parenthesized_declarator"@ || kind(t, c as int) == "pointer_declarator"@,
        None => false,
    }
}

/// Whether a declarator declares a pointer (looking through function,
/// parenthesized and array declarators).
pub open spec fn pointer_declarator(t: SyntaxTree, d: int) -> bool
    decreases t.nodes@.len() - d,
{
    if !(0 <= d < t.nodes@.len()) {
        false
    } else if kind(t, d) == "pointer_declarator"@ {
        true
    } else if kind(t, d) == "function_declarator"@ || kind(t, d) == "parenthesized_declarator"@
        || kind(t, d) == "array_declarator"@ {
        match field_child(t, d, "declarator"@) {
            Some(c) => pointer_declarator(t, c as int),
            None => false,
        }
    } else {
        false
    }
}

/// Whether a declaration has a `static` storage class specifier.
pub open spec fn static_decl(t: SyntaxTree, n: int) -> bool {
    exists|k: int, j: int| 0 <= k < t.children@[n]@.len()
        && kind(t, #[trigger] t.children@[n]@[k] as int) == "storage_class_specifier"@
        && 0 <= j < t.children@[t.children@[n]@[k] as int]@.len()
        && kind(t, #[trigger] t.children@[t.children@[n]@[k] as int]@[j] as int) == "static"@
}

/// Whether a declaration carries the `static` storage class.
fn declaration_is_static(t: &SyntaxTree, n: usize) -> (r: bool)
    requires
        node_in(*t, n),
    ensures
        r == static_decl(*t, n as int),
{
    let kids = &t.children[n];
    let mut k: usize = 0;
    while k < kids.len()
        invariant
            node_in(*t, n),
            *kids == t.children@[n as int],
            forall|kk: int, j: int| 0 <= kk < k
                && kind(*t, #[trigger] t.children@[n as int]@[kk] as int) == "storage_class_specifier"@
                && 0 <= j < t.children@[t.children@[n as int]@[kk] as int]@.len()
                ==> kind(*t, #[trigger] t.children@[t.children@[n as int]@[kk] as int]@[j] as int) != "static"@,
        decreases kids@.len() - k,
    {
        let c = kids[k];
        proof { assert(n < t.children@[n as int]@[k as int] < t.nodes@.len()); }
        if t.kind_is(c, "storage_class_specifier") {
            let inner = &t.children[c];
            let mut j: usize = 0;
            while j < inner.len()
                invariant
                    node_in(*t, n),
                    node_in(*t, c),
                    k < kids@.len(),
                    *kids == t.children@[n as int],
                    c == t.children@[n as int]@[k as int],
                    kind(*t, c as int) == "storage_class_specifier"@,
                    *inner == t.children@[c as int],
                    forall|jj: int| 0 <= jj < j ==> kind(*t, #[trigger] t.children@[c as int]@[jj] as int) != "static"@,
                decreases inner@.len() - j,
            {
                let d = inner[j];
                proof { assert(c < t.children@[c as int]@[j as int] < t.nodes@.len()); }
                if t.kind_is(d, "static") {
                    proof {
                        assert(t.children@[c as int]@[j as int] == d);
                        assert(kind(*t, t.children@[n as int]@[k as int] as int) == "storage_class_specifier"@);
                        assert(kind(*t, t.children@[t.children@[n as int]@[k as int] as int]@[j as int] as int) == "static"@);
                    }
                    return true;
                }
                j = j + 1;
            }
        }
        k = k + 1;
    }
    false
}

/// A function declarator whose declarator is parenthesized or a pointer:
/// a function pointer.
fn is_function_pointer_declarator(t: &SyntaxTree, d: usize) -> (r: bool)
    requires
        node_in(*t, d),
    ensures
        r == fn_ptr_declarator(*t, d as int),
{
    if !t.kind_is(d, "function_declarator") {
        return false;
    }
    match t.child_by_field(d, "declarator") {
        Some(c) => t.kind_is(c, "parenthesized_declarator") || t.kind_is(c, "pointer_declarator"),
        None => false,
    }
}

/// Whether declarator `d` declares a pointer.
fn declarator_is_pointer(t: &SyntaxTree, d: usize) -> (r: bool)
    requires
        node_in(*t, d),
    ensures
        r == pointer_declarator(*t, d as int),
    decreases t.nodes@.len() - d,
{
    if t.kind_is(d, "pointer_declarator") {
        true
    } else if t.kind_is(d, "function_declarator") || t.kind_is(d, "parenthesized_declarator")
        || t.kind_is(d, "array_declarator") {
        match t.child_by_field(d, "declarator") {
            Some(c) => declarator_is_pointer(t, c),
            None => false,
        }
    } else {
        false
    }
}

/// The first function declarator at or below `n` (in preorder).
fn find_function_declarator(t: &SyntaxTree, n: usize) -> (r: Option<usize>)
    requires
        node_in(*t, n),
    ensures
        r matches Some(f) ==> node_in(*t, f) && n <= f && kind(*t, f as int) == "function_declarator"@,
        kind(*t, n as int) == "function_declarator"@ ==> r == Some(n),
    decreases t.nodes@.len() - n,
{
    if t.kind_is(n, "function_declarator") {
        return Some(n);
    }
    let kids = &t.children[n];
    let mut k: usize = 0;
    while k < kids.len()
        invariant
            node_in(*t, n),
            kind(*t, n as int) != "function_declarator"@,
            *kids == t.children@[n as int],
        decreases kids@.len() - k,
    {
        let c = kids[k];
        proof { assert(n < t.children@[n as int]@[k as int] < t.nodes@.len()); }
        if let Some(f) = find_function_declarator(t, c) {
            return Some(f);
        }
        k = k + 1;
    }
    None
}

/// The parameter list of the first function declarator at or below `d`
/// (in preorder).
fn find_params(t: &SyntaxTree, d: usize) -> (r: Option<usize>)
    requires
        node_in(*t, d),
    ensures
        r matches Some(p) ==> node_in(*t, p) && d < p,
        kind(*t, d as int) == "function_declarator"@ ==> r == field_child(*t, d as int, "parameters"@),
    decreases t.nodes@.len() - d,
{
    if t.kind_is(d, "function_declarator") {
        return t.child_by_field(d, "parameters");
    }
    let kids = &t.children[d];
    let mut k: usize = 0;
    while k < kids.len()
        invariant
            node_in(*t, d),
            kind(*t, d as int) != "function_declarator"@,
            *kids == t.children@[d as int],
        decreases kids@.len() - k,
    {
        let c = kids[k];
        proof { assert(d < t.children@[d as int]@[k as int] < t.nodes@.len()); }
        if let Some(p) = find_params(t, c) {
            return Some(p);
        }
        k = k + 1;
    }
    None
}

/// The name a declarator declares, and whether it declares a pointer.
fn parse_declarator_name(t: &SyntaxTree, n: usize) -> (r: (String, bool))
    requires
        node_in(*t, n),
    ensures
        (r.0@, r.1) == declarator_name(*t, n as int),
    decreases t.nodes@.len() - n,
{
    if t.kind_is(n, "identifier") {
        (t.nodes[n].text.clone(), false)
    } else if t.kind_is(n, "pointer_declarator") {
        match t.child_by_field(n, "declarator") {
            Some(c) => {
                let (name, _) = parse_declarator_name(t, c);
                (name, true)
            },
            None => (String::new(), true),
        }
    } else {
        let next = if t.kind_is(n, "function_declarator") {
            Some(t.child_by_field(n, "declarator"))
        } else if t.kind_is(n, "parenthesized_declarator") {
            Some(t.named_child(n, 0))
        } else if t.kind_is(n, "array_declarator") {
            Some(t.child_by_field(n, "declarator"))
        } else {
            None
        };
        match next {
            Some(Some(c)) => parse_declarator_name(t, c),
            Some(None) => (String::new(), false),
            None => (t.nodes[n].text.clone(), false),
        }
    }
}

/// The type a type node's text stands for (when the node is no struct or
/// union specifier): a union or struct tag reference when the text
/// mentions `union` or `struct`, else `char`, `void`, or `int`.
pub open spec fn desc_from_text(d: TypeDesc, txt: Seq<char>) -> bool {
    if contains_seq(txt, seq!['u', 'n', 'i', 'o', 'n']) {
        d matches TypeDesc::Union { name, fields } && name@ == tag_name(txt, seq!['u', 'n', 'i', 'o', 'n']) && fields@.len() == 0
    } else if contains_seq(txt, seq!['s', 't', 'r', 'u', 'c', 't']) {
        d matches TypeDesc::Struct { name, fields } && name@ == tag_name(txt, seq!['s', 't', 'r', 'u', 'c', 't']) && fields@.len() == 0
    } else if contains_seq(txt, seq!['c', 'h', 'a', 'r']) {
        d is Char
    } else if contains_seq(txt, seq!['v', 'o', 'i', 'd']) {
        d is Void
    } else {
        d is Int
    }
}

/// The type description a type node stands for. A struct or union
/// specifier is lowered (with its fields) and referred to by its tag.
fn type_desc_from_node(program: &mut Program, t: &SyntaxTree, n: usize) -> (r: TypeDesc)
    requires
        node_in(*t, n),
        lower_ok(*old(program)),
    ensures
        lowered(*old(program), *final(program)),
        final(program).symbols == old(program).symbols,
        final(program).flow == old(program).flow,
        final(program).anon_type_counter >= old(program).anon_type_counter,
        final(program).fn_returns == old(program).fn_returns,
        kind(*t, n as int) == "struct_specifier"@ ==> (r matches TypeDesc::Struct { fields, .. } && fields@.len() == 0),
        kind(*t, n as int) != "struct_specifier"@ && kind(*t, n as int) == "union_specifier"@ ==>
            (r matches TypeDesc::Union { fields, .. } && fields@.len() == 0),
        kind(*t, n as int) != "struct_specifier"@ && kind(*t, n as int) != "union_specifier"@ ==>
            *final(program) == *old(program) && desc_from_text(r, text(*t, n as int)),
    decreases t.nodes@.len() - n, 1int,
{
    if t.kind_is(n, "struct_specifier") || t.kind_is(n, "union_specifier") {
        let is_union = t.kind_is(n, "union_specifier");
        let name = lower_struct_specifier(program, t, n);
        if is_union && !t.kind_is(n, "struct_specifier") {
            return TypeDesc::Union { name, fields: Vec::new() };
        }
        return TypeDesc::Struct { name, fields: Vec::new() };
    }
    proof {
        reveal_strlit("union");
        reveal_strlit("struct");
        reveal_strlit("char");
        reveal_strlit("void");
        assert("union"@ =~= seq!['u', 'n', 'i', 'o', 'n']);
        assert("struct"@ =~= seq!['s', 't', 'r', 'u', 'c', 't']);
        assert("char"@ =~= seq!['c', 'h', 'a', 'r']);
        assert("void"@ =~= seq!['v', 'o', 'i', 'd']);
    }
    if text_contains(t, n, "union") {
        return TypeDesc::Union { name: extract_tag_name(t, n, "union"), fields: Vec::new() };
    }
    if text_contains(t, n, "struct") {
        return TypeDesc::Struct { name: extract_tag_name(t, n, "struct"), fields: Vec::new() };
    }
    if text_contains(t, n, "char") {
        return TypeDesc::Char;
    }
    if text_contains(t, n, "void") {
        return TypeDesc::Void;
    }
    TypeDesc::Int
}

/// The `anon_<k>` name of the `k`-th unnamed struct or union.
pub open spec fn anon_name(k: u32) -> Seq<char> {
    seq!['a', 'n', 'o', 'n', '_'] + decimal(k as nat)
}

/// A struct or union specifier: its tag (or a fresh `anon_<k>` name), and,
/// when it has a body with named fields, its layout.
fn lower_struct_specifier(program: &mut Program, t: &SyntaxTree, n: usize) -> (r: String)
    requires
        node_in(*t, n),
        lower_ok(*old(program)),
    ensures
        lowered(*old(program), *final(program)),
        final(program).symbols == old(program).symbols,
        final(program).flow == old(program).flow,
        final(program).fn_returns == old(program).fn_returns,
        given_tag(*t, n as int) matches Some(g) ==> r@ == g,
        final(program).anon_type_counter >= old(program).anon_type_counter,
        given_tag(*t, n as int) is None && old(program).anon_type_counter < u32::MAX
            ==> final(program).anon_type_counter > old(program).anon_type_counter
                && r@ == anon_name((old(program).anon_type_counter + 1) as u32),
    decreases t.nodes@.len() - n, 0int,
{
    let is_union = t.kind_is(n, "union_specifier");
    let mut name = match t.child_by_field(n, "name") {
        Some(c) => t.nodes[c].text.clone(),
        None => String::new(),
    };
    if name.as_str().is_empty() {
        if program.anon_type_counter < u32::MAX {
            program.anon_type_counter = program.anon_type_counter + 1;
        }
        let mut v: Vec<char> = vec!['a', 'n', 'o', 'n', '_'];
        proof { assert(v@ =~= seq!['a', 'n', 'o', 'n', '_']); }
        let digits = u32_decimal(program.anon_type_counter);
        push_all(&mut v, digits.as_slice());
        name = chars_to_string(v.as_slice());
    }
    let mut fields: Vec<(String, TypeDesc)> = Vec::new();
    if let Some(body) = t.child_by_field(n, "body") {
        let kids = &t.children[body];
        let mut k: usize = 0;
        while k < kids.len()
            invariant
                node_in(*t, body),
                n < body,
                *kids == t.children@[body as int],
                lowered(*old(program), *program),
                program.symbols == old(program).symbols,
                program.flow == old(program).flow,
                program.fn_returns == old(program).fn_returns,
                program.anon_type_counter >= old(program).anon_type_counter,
                given_tag(*t, n as int) is None && old(program).anon_type_counter < u32::MAX
                    ==> program.anon_type_counter > old(program).anon_type_counter
                        && name@ == anon_name((old(program).anon_type_counter + 1) as u32),
                given_tag(*t, n as int) matches Some(g) ==> name@ == g,
            decreases kids@.len() - k,
        {
            let c = kids[k];
            proof { assert(body < t.children@[body as int]@[k as int] < t.nodes@.len()); }
            if t.kind_is(c, "field_declaration") {
                let ghost p0 = *program;
                if let Some((fname, ftype)) = type_desc_from_field_declaration(program, t, c) {
                    if !fname.as_str().is_empty() {
                        fields.push((fname, ftype));
                    }
                }
                proof { lemma_lowered_trans(*old(program), p0, *program); }
            }
            k = k + 1;
        }
    }
    let ghost p1 = *program;
    if fields.len() > 0 {
        if is_union {
            program.types.compute_union_layout(name.clone(), fields);
        } else {
            program.types.compute_struct_layout(name.clone(), fields);
        }
    }
    proof { lemma_lowered_trans(*old(program), p1, *program); }
    name
}

/// A struct or union field: its name (from the declarator) and its type
/// (a function pointer, a pointer, or the base type).
fn type_desc_from_field_declaration(program: &mut Program, t: &SyntaxTree, n: usize) -> (r: Option<(String, TypeDesc)>)
    requires
        node_in(*t, n),
        lower_ok(*old(program)),
    ensures
        lowered(*old(program), *final(program)),
        final(program).symbols == old(program).symbols,
        final(program).flow == old(program).flow,
        final(program).anon_type_counter >= old(program).anon_type_counter,
        final(program).fn_returns == old(program).fn_returns,
        r matches Some(x) ==> x.0@.len() > 0,
        match field_child(*t, n as int, "declarator"@) {
            Some(d) => if declarator_name(*t, d as int).0.len() > 0 {
                r matches Some(x) && x.0@ == declarator_name(*t, d as int).0
                    && (fn_ptr_declarator(*t, d as int) ==> x.1 is FnPtr)
                    && (!fn_ptr_declarator(*t, d as int) && pointer_declarator(*t, d as int) ==> x.1 is Ptr)
            } else {
                r is None
            },
            None => r is None,
        },
    decreases t.nodes@.len() - n, 0int,
{
    let decl = match t.child_by_field(n, "declarator") {
        Some(d) => d,
        None => {
            return None;
        },
    };
    let (fname, _) = parse_declarator_name(t, decl);
    if fname.as_str().is_empty() {
        return None;
    }
    let base = match t.child_by_field(n, "type") {
        Some(ty) => type_desc_from_node(program, t, ty),
        None => TypeDesc::Int,
    };
    let desc = if is_function_pointer_declarator(t, decl) {
        TypeDesc::FnPtr { ret: Box::new(base), params: Vec::new() }
    } else if declarator_is_pointer(t, decl) {
        TypeDesc::Ptr(Box::new(base))
    } else {
        base
    };
    Some((fname, desc))
}

/// What type description a type node gives (see `type_desc_from_node`).
pub open spec fn type_node_desc(t: SyntaxTree, n: int, d: TypeDesc) -> bool {
    &&& kind(t, n) == "struct_specifier"@ ==> (d matches TypeDesc::Struct { fields, .. } && fields@.len() == 0)
    &&& kind(t, n) != "struct_specifier"@ && kind(t, n) == "union_specifier"@ ==>
        (d matches TypeDesc::Union { fields, .. } && fields@.len() == 0)
    &&& kind(t, n) != "struct_specifier"@ && kind(t, n) != "union_specifier"@ ==> desc_from_text(d, text(t, n))
}

/// Interns the type a type node stands for.
fn parse_type_node(program: &mut Program, t: &SyntaxTree, n: usize) -> (r: TypeId)
    requires
        node_in(*t, n),
        lower_ok(*old(program)),
    ensures
        lowered(*old(program), *final(program)),
        final(program).symbols == old(program).symbols,
        final(program).flow == old(program).flow,
        final(program).anon_type_counter >= old(program).anon_type_counter,
        final(program).fn_returns == old(program).fn_returns,
        (r.0 as int) < final(program).types.types@.len(),
        exists|d: TypeDesc| type_node_desc(*t, n as int, d) && interned_as(final(program).types.types@, r, d),
{
    let desc = type_desc_from_node(program, t, n);
    let ghost dg = desc;
    let ghost p0 = *program;
    let r = program.types.intern(desc);
    proof { assert(type_node_desc(*t, n as int, dg)); }
    proof { lemma_lowered_trans(*old(program), p0, *program); }
    r
}

/// A typedef (with a declarator) of a struct or union specifier that
/// spells out no tag.
pub open spec fn typedef_anon(t: SyntaxTree, n: int) -> bool {
    field_child(t, n, "declarator"@) is Some && match field_child(t, n, "type"@) {
        Some(ty) => (kind(t, ty as int) == "struct_specifier"@ || kind(t, ty as int) == "union_specifier"@)
            && given_tag(t, ty as int) is None,
        None => false,
    }
}

/// A struct or union specifier that spells out no tag.
pub open spec fn anon_specifier(t: SyntaxTree, n: int) -> bool {
    (kind(t, n) == "struct_specifier"@ || kind(t, n) == "union_specifier"@) && given_tag(t, n) is None
}

/// A typedef of a struct or union: lowers the specifier, and, when the
/// alias differs from the tag, interns the tag reference.
fn lower_typedef(program: &mut Program, t: &SyntaxTree, n: usize)
    requires
        node_in(*t, n),
        lower_ok(*old(program)),
    ensures
        typedef_anon(*t, n as int) && old(program).anon_type_counter < u32::MAX
            ==> final(program).anon_type_counter > old(program).anon_type_counter,
        lowered(*old(program), *final(program)),
        final(program).symbols == old(program).symbols,
        final(program).flow == old(program).flow,
        final(program).anon_type_counter >= old(program).anon_type_counter,
        final(program).fn_returns == old(program).fn_returns,
{
    let decl = match t.child_by_field(n, "declarator") {
        Some(d) => d,
        None => {
            return;
        },
    };
    let (alias, _) = parse_declarator_name(t, decl);
    let ty = match t.child_by_field(n, "type") {
        Some(ty) => ty,
        None => {
            return;
        },
    };
    if t.kind_is(ty, "struct_specifier") || t.kind_is(ty, "union_specifier") {
        let tag = lower_struct_specifier(program, t, ty);
        if !alias.as_str().is_empty() && !tag.as_str().is_empty() && !strings_eq(&alias, &tag) {
            let desc = if t.kind_is(ty, "union_specifier") {
                TypeDesc::Union { name: tag, fields: Vec::new() }
            } else {
                TypeDesc::Struct { name: tag, fields: Vec::new() }
            };
            let ghost p0 = *program;
            program.types.intern(desc);
            proof { lemma_lowered_trans(*old(program), p0, *program); }
        }
    }
}


/// A parameter declaration of function `fn_id` at position `index`: a
/// parameter variable of the declared type (a pointer to it when the
/// declarator is one), registered as a local.
fn lower_parameter(program: &mut Program, ctx: &mut LowerContext, t: &SyntaxTree, n: usize, fn_id: FnId, index: u32) -> (r: Option<VarId>)
    requires
        node_in(*t, n),
        lower_ok(*old(program)),
    ensures
        final(program).symbols.fn_by_name == old(program).symbols.fn_by_name,
        final(program).symbols.next_fn == old(program).symbols.next_fn,
        final(program).symbols.next_var <= old(program).symbols.next_var + 1,
        (field_child(*t, n as int, "declarator"@) matches Some(d) && declarator_name(*t, d as int).0.len() > 0)
            && old(program).symbols.next_var < u32::MAX ==> r is Some,
        wf_except(*old(program), Some(fn_id)) && ctx_ok(*old(ctx), *old(program)) ==>
            wf_except(*final(program), Some(fn_id)) && ctx_ok(*final(ctx), *final(program))
            && (r matches Some(v) ==> (v.0 as int) < final(program).symbols.variables@.len()),
        lowered(*old(program), *final(program)),
        final(program).flow == old(program).flow,
        final(program).fn_returns == old(program).fn_returns,
        final(program).symbols.functions == old(program).symbols.functions,
        final(program).symbols.call_sites == old(program).symbols.call_sites,
        final(ctx).current_fn == old(ctx).current_fn,
        final(ctx).current_file == old(ctx).current_file,
        r matches Some(v) ==> {
            let last = final(program).symbols.variables@.last();
            &&& final(program).symbols.variables@.len() > 0
            &&& last.id == v
            &&& last.storage == StorageClass::Param
            &&& last.fn_id == Some(fn_id)
            &&& last.param_index == Some(index)
            &&& field_child(*t, n as int, "declarator"@) matches Some(d)
                && last.name@ == declarator_name(*t, d as int).0
                && last.is_pointer == declarator_name(*t, d as int).1
                && last.name@.len() > 0
        },
{
    let decl = match t.child_by_field(n, "declarator") {
        Some(d) => d,
        None => {
            return None;
        },
    };
    let (name, is_ptr) = parse_declarator_name(t, decl);
    if name.as_str().is_empty() {
        return None;
    }
    let base = match t.child_by_field(n, "type") {
        Some(ty) => type_desc_from_node(program, t, ty),
        None => TypeDesc::Int,
    };
    let desc = if is_ptr { TypeDesc::Ptr(Box::new(base)) } else { base };
    let ghost p0 = *program;
    let type_id = program.types.intern(desc);
    proof {
        lemma_lowered_trans(*old(program), p0, *program);
        if wf_except(*old(program), Some(fn_id)) {
            lemma_wf_types_grow(*old(program), p0, Some(fn_id));
            lemma_wf_types_grow(p0, *program, Some(fn_id));
        }
    }
    let ghost p1 = *program;
    if program.symbols.next_var == u32::MAX {
        return None;
    }
    let var_id = program.symbols.alloc_var_id();
    let span = node_span(ctx, t, n);
    program.symbols.add_variable(Variable {
        id: var_id,
        name: name.clone(),
        type_id,
        storage: StorageClass::Param,
        fn_id: Some(fn_id),
        param_index: Some(index),
        span,
        is_pointer: is_ptr,
    });
    let ghost p2 = *program;
    proof {
        lemma_lowered_trans(*old(program), p1, *program);
        if wf_except(*old(program), Some(fn_id)) && ctx_ok(*old(ctx), *old(program)) {
            lemma_ctx_kept(*old(ctx), *old(program), *program);
            assert(var_id.0 == p1.symbols.variables@.len());
            assert(wf_except(p2, Some(fn_id)));
        }
    }
    let ghost c0 = *ctx;
    register_local(ctx, name, var_id);
    proof {
        if wf_except(*old(program), Some(fn_id)) && ctx_ok(*old(ctx), *old(program)) {
            assert forall|i: int| 0 <= i < ctx.locals@.len() implies
                ((#[trigger] ctx.locals@[i]).1.0 as int) < p2.symbols.variables@.len() by {
                if ctx.locals@[i].1 != var_id {
                    assert(ctx.locals@[i] == c0.locals@[i]);
                }
            }
        }
    }
    Some(var_id)
}

/// The parameters of the function declarator at or below `decl`, lowered
/// for the provisional function id `fn_id`, in order.
fn lower_parameters(program: &mut Program, ctx: &mut LowerContext, t: &SyntaxTree, decl: usize, fn_id: FnId) -> (r: Vec<VarId>)
    requires
        node_in(*t, decl),
        lower_ok(*old(program)),
    ensures
        final(program).symbols.fn_by_name == old(program).symbols.fn_by_name,
        final(program).symbols.next_fn == old(program).symbols.next_fn,
        kind(*t, decl as int) == "function_declarator"@ ==> match field_child(*t, decl as int, "parameters"@) {
            Some(l) => old(program).symbols.next_var + t.children@[l as int]@.len() < u32::MAX
                ==> r@.len() == named_params(*t, t.children@[l as int]@),
            None => r@.len() == 0,
        },
        wf_except(*old(program), Some(fn_id)) && ctx_ok(*old(ctx), *old(program)) ==>
            wf_except(*final(program), Some(fn_id)) && ctx_ok(*final(ctx), *final(program))
            && forall|j: int| 0 <= j < r@.len() ==> (#[trigger] r@[j].0 as int) < final(program).symbols.variables@.len(),
        lowered(*old(program), *final(program)),
        final(program).flow == old(program).flow,
        final(program).fn_returns == old(program).fn_returns,
        final(program).symbols.functions == old(program).symbols.functions,
        final(program).symbols.call_sites == old(program).symbols.call_sites,
        final(ctx).current_fn == old(ctx).current_fn,
        final(ctx).current_file == old(ctx).current_file,
{
    let mut params: Vec<VarId> = Vec::new();
    if let Some(list) = find_params(t, decl) {
        let kids = &t.children[list];
        let mut k: usize = 0;
        while k < kids.len()
            invariant
                node_in(*t, list),
                *kids == t.children@[list as int],
                lowered(*old(program), *program),
                program.flow == old(program).flow,
                program.fn_returns == old(program).fn_returns,
                program.symbols.functions == old(program).symbols.functions,
                program.symbols.fn_by_name == old(program).symbols.fn_by_name,
                program.symbols.next_fn == old(program).symbols.next_fn,
                program.symbols.call_sites == old(program).symbols.call_sites,
                ctx.current_fn == old(ctx).current_fn,
                ctx.current_file == old(ctx).current_file,
                k <= kids@.len(),
                program.symbols.next_var <= old(program).symbols.next_var + k,
                old(program).symbols.next_var + kids@.len() < u32::MAX ==> params@.len() == named_params(*t, kids@.subrange(0, k as int)),
                wf_except(*old(program), Some(fn_id)) && ctx_ok(*old(ctx), *old(program)) ==>
                    wf_except(*program, Some(fn_id)) && ctx_ok(*ctx, *program)
                    && forall|j: int| 0 <= j < params@.len() ==> (#[trigger] params@[j].0 as int) < program.symbols.variables@.len(),
            decreases kids@.len() - k,
        {
            let c = kids[k];
            proof {
                assert(list < t.children@[list as int]@[k as int] < t.nodes@.len());
                assert(kids@.subrange(0, k + 1).drop_last() =~= kids@.subrange(0, k as int));
            }
            if t.kind_is(c, "parameter_declaration") {
                let index: u32 = if params.len() < 0xffff_ffff { params.len() as u32 } else { 0xffff_ffff };
                let ghost p0 = *program;
                if let Some(v) = lower_parameter(program, ctx, t, c, fn_id, index) {
                    params.push(v);
                }
                proof { lemma_lowered_trans(*old(program), p0, *program); }
            }
            k = k + 1;
        }
        proof { assert(kids@.subrange(0, k as int) =~= kids@); }
    }
    params
}

/// How many of `kids` are parameter declarations with a named declarator.
pub open spec fn named_params(t: SyntaxTree, kids: Seq<usize>) -> int
    decreases kids.len(),
{
    if kids.len() == 0 {
        0
    } else {
        let c = kids.last() as int;
        named_params(t, kids.drop_last()) + if kind(t, c) == "parameter_declaration"@
            && (field_child(t, c, "declarator"@) matches Some(d) && declarator_name(t, d as int).0.len() > 0) { 1int } else { 0int }
    }
}

/// A function of `name` is recorded: under the next fresh id, or under
/// the id of the external function of that name.
pub open spec fn fn_declared(a: SymbolTable, b: SymbolTable, name: Seq<char>) -> bool {
    fn_index(b.functions@, FnId(a.next_fn)) >= 0
        || (name_lookup(a.fn_by_name@, name) matches Some(k) && fn_index(b.functions@, k) >= 0)
}

/// Records a declared or defined function (merging into an external one
/// of the same name) and moves what was recorded under its provisional id
/// to the id it got.
fn declare_function(program: &mut Program, func: Function) -> (r: FnId)
    requires
        lower_ok(*old(program)),
    ensures
        r == func.id || name_lookup(old(program).symbols.fn_by_name@, func.name@) == Some(r),
        final(program).symbols.next_fn == old(program).symbols.next_fn,
        lowered(*old(program), *final(program)),
        final(program).flow == old(program).flow,
        final(program).fn_returns == old(program).fn_returns,
        fn_index(final(program).symbols.functions@, r) >= 0,
        func.linkage != Linkage::External || name_lookup(old(program).symbols.fn_by_name@, func.name@) is None
            ==> r == func.id && final(program).symbols.functions@ == old(program).symbols.functions@.push(func),
        wf_except(*old(program), Some(func.id)) && (func.return_type.0 as int) < old(program).types.types@.len()
            && (forall|j: int| 0 <= j < func.params@.len() ==> (#[trigger] func.params@[j].0 as int) < old(program).symbols.variables@.len())
            ==> lower_wf(*final(program)),
{
    let ghost p1 = *program;
    let ghost fg = func;
    let id = func.id;
    let fn_id = program.symbols.add_function(func);
    let ghost p2 = *program;
    proof {
        let fs1 = p1.symbols.functions@;
        let fs2 = p2.symbols.functions@;
        let known = name_lookup(p1.symbols.fn_by_name@, fg.name@);
        let merges = fg.linkage == Linkage::External && known is Some && fn_index(fs1, known->0) >= 0;
        if merges {
            lemma_fn_kept(fs1, fs2, known->0);
        } else {
            assert(fs2.drop_last() =~= fs1);
            crate::symbol::lemma_fn_index(fs1, fg.id);
        }
        if wf_except(p1, Some(fg.id)) && (fg.return_type.0 as int) < p1.types.types@.len()
            && (forall|j: int| 0 <= j < fg.params@.len() ==> (#[trigger] fg.params@[j].0 as int) < p1.symbols.variables@.len()) {
            let nv = p1.symbols.variables@.len();
            assert forall|i: int| 0 <= i < nv implies {
                let v = #[trigger] p2.symbols.variables@[i];
                v.fn_id matches Some(f) ==> fn_index(fs2, f) >= 0 || Some(fg.id) == Some(f)
            } by {
                match p1.symbols.variables@[i].fn_id {
                    Some(f) => {
                        if fn_index(fs1, f) >= 0 {
                            lemma_fn_kept(fs1, fs2, f);
                        }
                    },
                    None => {},
                }
            }
            assert forall|i: int| 0 <= i < fs2.len() implies {
                let f = #[trigger] fs2[i];
                &&& (f.return_type.0 as int) < p2.types.types@.len()
                &&& forall|j: int| 0 <= j < f.params@.len() ==> (#[trigger] f.params@[j].0 as int) < nv
            } by {
                if merges {
                    let k = fn_index(fs1, known->0);
                    crate::symbol::lemma_fn_index(fs1, known->0);
                    assert(fs2 == fs1.update(k, crate::symbol::merged_function(fs1[k], fg)));
                    if i != k {
                        assert(fs2[i] == fs1[i]);
                    } else {
                        assert(fs2[i] == crate::symbol::merged_function(fs1[k], fg));
                    }
                } else {
                    if i < fs1.len() {
                        assert(fs2[i] == fs1[i]);
                    }
                }
            }
            assert forall|i: int| 0 <= i < p2.symbols.fn_by_name@.len() implies
                fn_index(fs2, (#[trigger] p2.symbols.fn_by_name@[i]).1) >= 0 by {
                if p2.symbols.fn_by_name@[i].1 != fn_id {
                    lemma_fn_kept(fs1, fs2, p2.symbols.fn_by_name@[i].1);
                }
            }
            assert(wf_except(p2, Some(fg.id)));
        }
    }
    reassign_fn_id(program, id, fn_id);
    proof {
        if wf_except(p1, Some(fg.id)) && (fg.return_type.0 as int) < p1.types.types@.len()
            && (forall|j: int| 0 <= j < fg.params@.len() ==> (#[trigger] fg.params@[j].0 as int) < p1.symbols.variables@.len()) {
            lemma_reassign_wf(p2, *program, id, fn_id);
        }
        let fs2 = p2.symbols.functions@;
        assert forall|i: int| 0 <= i < fs2.len() implies #[trigger] program.symbols.functions@[i].id == fs2[i].id by {}
        lemma_fn_kept(fs2, program.symbols.functions@, fn_id);
        let fs1 = p1.symbols.functions@;
        let known = name_lookup(p1.symbols.fn_by_name@, fg.name@);
        let merges = fg.linkage == Linkage::External && known is Some && fn_index(fs1, known->0) >= 0;
        assert forall|i: int| #![trigger program.symbols.functions@[i]] 0 <= i < fs1.len() implies program.symbols.functions@[i].id == fs1[i].id
            && program.symbols.functions@[i].name == fs1[i].name
            && program.symbols.functions@[i].linkage == fs1[i].linkage by {
            assert(program.symbols.functions@[i].id == fs2[i].id);
            if merges {
                let k = fn_index(fs1, known->0);
                crate::symbol::lemma_fn_index(fs1, known->0);
                if i != k {
                    assert(fs2[i] == fs1[i]);
                } else {
                    assert(fs2[i] == crate::symbol::merged_function(fs1[k], fg));
                }
            } else {
                assert(fs2[i] == fs1[i]);
            }
        }
    }
    fn_id
}

/// A function declarator without a body (a prototype): the function, with
/// its parameters, declared (not defined) in the current file.
fn lower_function_decl(program: &mut Program, ctx: &mut LowerContext, t: &SyntaxTree, decl: usize, ret_type: TypeId, is_static: bool)
    requires
        node_in(*t, decl),
        lower_ok(*old(program)),
        (ret_type.0 as int) < old(program).types.types@.len(),
    ensures
        declarator_name(*t, decl as int).0.len() > 0 && old(program).symbols.next_fn < u32::MAX
            ==> fn_declared(old(program).symbols, final(program).symbols, declarator_name(*t, decl as int).0),
        lower_wf(*old(program)) && ctx_ok(*old(ctx), *old(program)) ==> lower_wf(*final(program)) && ctx_ok(*final(ctx), *final(program)),
        lowered(*old(program), *final(program)),
        final(program).flow == old(program).flow,
        final(program).fn_returns == old(program).fn_returns,
        final(ctx).current_fn == old(ctx).current_fn,
        final(ctx).current_file == old(ctx).current_file,
{
    let (name, _) = parse_declarator_name(t, decl);
    if name.as_str().is_empty() {
        return;
    }
    if program.symbols.next_fn == u32::MAX {
        return;
    }
    let provisional = program.symbols.alloc_fn_id();
    let ghost p0 = *program;
    let params = lower_parameters(program, ctx, t, decl, provisional);
    let span = node_span(ctx, t, decl);
    let func = Function {
        id: provisional,
        name,
        linkage: if is_static { Linkage::Internal } else { Linkage::External },
        return_type: ret_type,
        params,
        locals: Vec::new(),
        span,
        file: ctx.current_file,
        is_defined: false,
    };
    let ghost p1 = *program;
    let ghost c1 = *ctx;
    let _fn_id = declare_function(program, func);
    proof {
        assert(fn_declared(old(program).symbols, program.symbols, declarator_name(*t, decl as int).0));
        lemma_lowered_trans(*old(program), p0, p1);
        lemma_lowered_trans(*old(program), p1, *program);
        if lower_wf(*old(program)) && ctx_ok(*old(ctx), *old(program)) {
            assert(wf_except(p0, Some(provisional)));
            lemma_ctx_kept(c1, p1, *program);
        }
    }
}

/// One declarator of a declaration: a function pointer variable (with the
/// table members and flow of its initializer), a function prototype, or a
/// variable (with the flow of its initializer).
fn lower_one_declarator(program: &mut Program, ctx: &mut LowerContext, t: &SyntaxTree, span_node: usize, decl: usize, type_id: TypeId, is_static: bool, storage_override: Option<StorageClass>, init: Option<usize>)
    requires
        node_in(*t, span_node),
        node_in(*t, decl),
        init matches Some(i) ==> node_in(*t, i),
        lower_ok(*old(program)),
        (type_id.0 as int) < old(program).types.types@.len(),
    ensures
        !fn_ptr_declarator(*t, decl as int) && kind(*t, decl as int) == "function_declarator"@ ==>
            (declarator_name(*t, decl as int).0.len() > 0 && old(program).symbols.next_fn < u32::MAX
                ==> fn_declared(old(program).symbols, final(program).symbols, declarator_name(*t, decl as int).0)),
        !(!fn_ptr_declarator(*t, decl as int) && kind(*t, decl as int) == "function_declarator"@)
            && declarator_name(*t, decl as int).0.len() > 0 && old(program).symbols.next_var < u32::MAX
            ==> final(program).symbols.variables@.len() > old(program).symbols.variables@.len(),
        lower_wf(*old(program)) && ctx_ok(*old(ctx), *old(program)) ==> lower_wf(*final(program)) && ctx_ok(*final(ctx), *final(program)),
        lowered(*old(program), *final(program)),
        final(program).fn_returns == old(program).fn_returns,
        final(ctx).current_fn == old(ctx).current_fn,
        final(ctx).current_file == old(ctx).current_file,
{
    let fn_ptr = is_function_pointer_declarator(t, decl);
    if !fn_ptr && t.kind_is(decl, "function_declarator") {
        lower_function_decl(program, ctx, t, decl, type_id, is_static);
        return;
    }
    let (name, is_ptr) = parse_declarator_name(t, decl);
    if name.as_str().is_empty() {
        return;
    }
    if program.symbols.next_var == u32::MAX {
        return;
    }
    let var_id = program.symbols.alloc_var_id();
    let storage = match storage_override {
        Some(sc) => sc,
        None => storage_for(ctx, is_static),
    };
    let span = node_span(ctx, t, span_node);
    program.symbols.add_variable(Variable {
        id: var_id,
        name: name.clone(),
        type_id,
        storage,
        fn_id: ctx.current_fn,
        param_index: None,
        span,
        is_pointer: fn_ptr || is_ptr,
    });
    let ghost c0 = *ctx;
    register_local(ctx, name, var_id);
    let ghost p0 = *program;
    proof {
        if lower_wf(*old(program)) && ctx_ok(*old(ctx), *old(program)) {
            assert(lower_wf(p0));
            assert forall|i: int| 0 <= i < ctx.locals@.len() implies
                ((#[trigger] ctx.locals@[i]).1.0 as int) < p0.symbols.variables@.len() by {
                if ctx.locals@[i].1 != var_id {
                    assert(ctx.locals@[i] == c0.locals@[i]);
                }
            }
            assert(ctx_ok(*ctx, p0));
        }
    }
    if let Some(i) = init {
        if t.kind_is(i, "initializer_list") {
            lower_fn_ptr_array_init(program, ctx, t, var_id, i);
        }
        let ghost p1 = *program;
        extract_flow_from_expr(program, ctx, t, i, Some(var_id));
        proof {
            lemma_lowered_trans(p0, p1, *program);
            if lower_wf(*old(program)) && ctx_ok(*old(ctx), *old(program)) {
                lemma_ctx_kept(*ctx, p0, p1);
                lemma_ctx_kept(*ctx, p0, *program);
            }
        }
    }
}

/// The type a declaration's type node gives is in the table.
pub open spec fn declared_type_kept(t: SyntaxTree, ty: int, types: Seq<TypeInfo>) -> bool {
    exists|d: TypeDesc, id: TypeId| type_node_desc(t, ty, d) && interned_as(types, id, d)
}

/// What was interned stays interned as the table grows.
proof fn lemma_interned_kept(a: Seq<TypeInfo>, b: Seq<TypeInfo>, id: TypeId, d: TypeDesc)
    requires
        interned_as(a, id, d),
        a.len() <= b.len() <= u32::MAX,
        forall|k: int| 0 <= k < a.len() ==> #[trigger] b[k] == a[k],
    ensures
        interned_as(b, id, d),
{
    if (id.0 as int) < a.len() {
        assert(b[id.0 as int] == a[id.0 as int]);
    }
}

/// The declarator that the child `c` of a declaration declares.
pub open spec fn child_declarator(t: SyntaxTree, c: int) -> int {
    if kind(t, c) == "init_declarator"@ {
        match field_child(t, c, "declarator"@) {
            Some(d) => d as int,
            None => c,
        }
    } else {
        c
    }
}

/// The child `c` of a declaration declares a variable: a declarator (not
/// of a function) with a name, or a bare identifier.
pub open spec fn declares_variable(t: SyntaxTree, c: int) -> bool {
    let d = child_declarator(t, c);
    ||| (kind(t, c) == "init_declarator"@ || kind(t, c) == "declarator"@ || kind(t, c) == "pointer_declarator"@)
        && !(!fn_ptr_declarator(t, d) && kind(t, d) == "function_declarator"@)
        && declarator_name(t, d).0.len() > 0
    ||| kind(t, c) == "identifier"@ && text(t, c).len() > 0
}

/// A declaration: its base type, and each of its declarators.
fn lower_declaration(program: &mut Program, ctx: &mut LowerContext, t: &SyntaxTree, n: usize, storage_override: Option<StorageClass>)
    requires
        node_in(*t, n),
        lower_ok(*old(program)),
    ensures
        match field_child(*t, n as int, "type"@) {
            Some(ty) => declared_type_kept(*t, ty as int, final(program).types.types@),
            None => *final(program) == *old(program),
        },
        lower_wf(*old(program)) && ctx_ok(*old(ctx), *old(program)) ==> lower_wf(*final(program)) && ctx_ok(*final(ctx), *final(program)),
        lower_wf(*old(program)) && ctx_ok(*old(ctx), *old(program)) && old(program).symbols.next_var < u32::MAX
            && field_child(*t, n as int, "type"@) is Some
            && (exists|k: int| 0 <= k < t.children@[n as int]@.len() && #[trigger] declares_variable(*t, t.children@[n as int]@[k] as int))
            ==> final(program).symbols.variables@.len() > old(program).symbols.variables@.len(),
        lowered(*old(program), *final(program)),
        final(program).fn_returns == old(program).fn_returns,
        final(ctx).current_fn == old(ctx).current_fn,
        final(ctx).current_file == old(ctx).current_file,
{
    let type_node = match t.child_by_field(n, "type") {
        Some(ty) => ty,
        None => {
            return;
        },
    };
    let type_id = parse_type_node(program, t, type_node);
    let ghost pt = *program;
    proof { lemma_lowered_refl(pt); }
    proof {
        if lower_wf(*old(program)) && ctx_ok(*old(ctx), *old(program)) {
            lemma_wf_types_grow(*old(program), *program, None);
            lemma_ctx_kept(*old(ctx), *old(program), *program);
        }
    }
    let is_static = declaration_is_static(t, n);
    let kids = &t.children[n];
    let mut k: usize = 0;
    while k < kids.len()
        invariant
            node_in(*t, n),
            *kids == t.children@[n as int],
            lowered(*old(program), *program),
            program.fn_returns == old(program).fn_returns,
            ctx.current_fn == old(ctx).current_fn,
            ctx.current_file == old(ctx).current_file,
            (type_id.0 as int) < program.types.types@.len(),
            lowered(pt, *program),
            lower_wf(*old(program)) && ctx_ok(*old(ctx), *old(program)) ==> lower_wf(*program) && ctx_ok(*ctx, *program),
            k <= kids@.len(),
            pt.symbols == old(program).symbols,
            lower_wf(*old(program)) && ctx_ok(*old(ctx), *old(program)) && old(program).symbols.next_var < u32::MAX
                && (exists|j: int| 0 <= j < k && #[trigger] declares_variable(*t, t.children@[n as int]@[j] as int))
                ==> program.symbols.variables@.len() > old(program).symbols.variables@.len(),
        decreases kids@.len() - k,
    {
        let c = kids[k];
        proof { assert(n < t.children@[n as int]@[k as int] < t.nodes@.len()); }
        let ghost p0 = *program;
        if t.kind_is(c, "init_declarator") {
            let decl = match t.child_by_field(c, "declarator") {
                Some(d) => d,
                None => c,
            };
            let value = t.child_by_field(c, "value");
            proof { assert(decl as int == child_declarator(*t, c as int)); }
            lower_one_declarator(program, ctx, t, c, decl, type_id, is_static, storage_override, value);
            proof {
                reveal_strlit("init_declarator");
                reveal_strlit("identifier");
                if declares_variable(*t, c as int) && p0.symbols.next_var < u32::MAX {
                    assert("init_declarator"@.len() == 15);
                    assert("identifier"@.len() == 10);
                    assert(kind(*t, c as int) != "identifier"@);
                    assert(declarator_name(*t, decl as int).0.len() > 0);
                    assert(program.symbols.variables@.len() > p0.symbols.variables@.len());
                }
            }
        } else if t.kind_is(c, "declarator") || t.kind_is(c, "pointer_declarator") || t.kind_is(c, "function_declarator") {
            lower_one_declarator(program, ctx, t, c, c, type_id, is_static, storage_override, None);
            proof {
                reveal_strlit("init_declarator");
                reveal_strlit("identifier");
                if declares_variable(*t, c as int) && p0.symbols.next_var < u32::MAX {
                    reveal_strlit("declarator");
                    reveal_strlit("pointer_declarator");
                    reveal_strlit("function_declarator");
                    assert("identifier"@[0] == 'i');
                    assert("declarator"@[0] == 'd');
                    assert("pointer_declarator"@[0] == 'p');
                    assert("function_declarator"@[0] == 'f');
                    assert(kind(*t, c as int) != "identifier"@);
                    assert(program.symbols.variables@.len() > p0.symbols.variables@.len());
                }
            }
        } else if t.kind_is(c, "identifier") && !t.nodes[c].text.as_str().is_empty() && program.symbols.next_var < u32::MAX {
            let name = t.nodes[c].text.clone();
            let var_id = program.symbols.alloc_var_id();
            let storage = match storage_override {
                Some(sc) => sc,
                None => storage_for(ctx, is_static),
            };
            let span = node_span(ctx, t, c);
            program.symbols.add_variable(Variable {
                id: var_id,
                name: name.clone(),
                type_id,
                storage,
                fn_id: ctx.current_fn,
                param_index: None,
                span,
                is_pointer: false,
            });
            proof { assert(program.symbols.variables@.len() == p0.symbols.variables@.len() + 1); }
            let ghost c0 = *ctx;
            register_local(ctx, name, var_id);
            proof {
                if lower_wf(p0) && ctx_ok(c0, p0) {
                    assert(lower_wf(*program));
                    assert forall|i: int| 0 <= i < ctx.locals@.len() implies
                        ((#[trigger] ctx.locals@[i]).1.0 as int) < program.symbols.variables@.len() by {
                        if ctx.locals@[i].1 != var_id {
                            assert(ctx.locals@[i] == c0.locals@[i]);
                        }
                    }
                }
            }
        }
        proof {
            lemma_lowered_trans(*old(program), p0, *program);
            lemma_lowered_trans(pt, p0, *program);
            if lower_wf(*old(program)) && ctx_ok(*old(ctx), *old(program)) && old(program).symbols.next_var < u32::MAX
                && (exists|j: int| 0 <= j < k + 1 && #[trigger] declares_variable(*t, t.children@[n as int]@[j] as int)) {
                let j = choose|j: int| 0 <= j < k + 1 && #[trigger] declares_variable(*t, t.children@[n as int]@[j] as int);
                assert(program.symbols.variables@.len() >= p0.symbols.variables@.len());
                if j < k {
                    assert(p0.symbols.variables@.len() > old(program).symbols.variables@.len());
                } else {
                    assert(c == t.children@[n as int]@[j]);
                    assert(p0.symbols.next_var as int == p0.symbols.variables@.len());
                    if p0.symbols.next_var < u32::MAX {
                        assert(program.symbols.variables@.len() > p0.symbols.variables@.len());
                    }
                }
            }
        }
        k = k + 1;
    }
    proof {
        let (d, id) = choose|d: TypeDesc, id: TypeId| type_node_desc(*t, type_node as int, d) && interned_as(pt.types.types@, id, d);
        lemma_interned_kept(pt.types.types@, program.types.types@, id, d);
    }
}

/// Node `c` is a declaration with a type that declares a variable.
pub open spec fn declares_here(t: SyntaxTree, c: int) -> bool {
    &&& kind(t, c) == "declaration"@
    &&& field_child(t, c, "type"@) is Some
    &&& exists|k: int| 0 <= k < t.children@[c]@.len() && #[trigger] declares_variable(t, t.children@[c]@[k] as int)
}

/// Some child of `n` is a declaration that declares a variable.
pub open spec fn declares_below(t: SyntaxTree, n: int) -> bool {
    exists|k: int| 0 <= k < t.children@[n]@.len() && #[trigger] declares_here(t, t.children@[n]@[k] as int)
}

/// The statements of a function body: declarations, assignments, calls
/// and returns, at any depth.
fn walk_function_body(program: &mut Program, ctx: &mut LowerContext, t: &SyntaxTree, n: usize, caller: FnId)
    requires
        node_in(*t, n),
        lower_ok(*old(program)),
    ensures
        kind(*t, n as int) != "declaration"@ && kind(*t, n as int) == "assignment_expression"@ ==> match assign_sides(*t, n as int) {
            Some((l, r)) => {
                &&& (store_case(*old(ctx), old(program).symbols, *t, l, r) matches Some((ptr, src)) ==>
                    old(program).flow@.push(FlowConstraint::Store { dst: ptr, src }).is_prefix_of(final(program).flow@))
                &&& (copy_case(*old(ctx), old(program).symbols, *t, l, r) matches Some(dst) ==> exists|f: Option<FlowConstraint>|
                    rhs_flow_is(*old(ctx), old(program).symbols, *t, rhs_core(*t, r), dst, f)
                    && (old(program).flow@ + flow_of(f)).is_prefix_of(final(program).flow@))
            },
            None => true,
        },
        lowered(*old(program), *final(program)),
        final(ctx).current_fn == old(ctx).current_fn,
        final(ctx).current_file == old(ctx).current_file,
        lower_wf(*old(program)) && ctx_ok(*old(ctx), *old(program))
            ==> lower_wf(*final(program)) && ctx_ok(*final(ctx), *final(program)),
        lower_wf(*old(program)) && ctx_ok(*old(ctx), *old(program)) && old(program).symbols.next_var < u32::MAX
            && (declares_here(*t, n as int) || declares_below(*t, n as int))
            ==> final(program).symbols.variables@.len() > old(program).symbols.variables@.len(),
    decreases t.nodes@.len() - n,
{
    let ghost p0 = *program;
    if t.kind_is(n, "declaration") {
        lower_declaration(program, ctx, t, n, None);
    } else if t.kind_is(n, "assignment_expression") {
        extract_flow_from_expr(program, ctx, t, n, None);
        proof { if lower_wf(p0) && ctx_ok(*ctx, p0) { lemma_ctx_kept(*ctx, p0, *program); } }
    } else if t.kind_is(n, "call_expression") {
        collect_call_at_node(program, ctx, t, n, caller);
        proof { if lower_wf(p0) && ctx_ok(*ctx, p0) { lemma_ctx_kept(*ctx, p0, *program); } }
    } else if t.kind_is(n, "return_statement") {
        collect_return_statement(program, ctx, t, n, caller);
    }
    let ghost p1 = *program;
    proof { lemma_lowered_refl(p1); }
    let kids = &t.children[n];
    let mut k: usize = 0;
    while k < kids.len()
        invariant
            node_in(*t, n),
            *kids == t.children@[n as int],
            lowered(*old(program), *program),
            lowered(p1, *program),
            ctx.current_fn == old(ctx).current_fn,
            ctx.current_file == old(ctx).current_file,
            lower_wf(*old(program)) && ctx_ok(*old(ctx), *old(program))
                ==> lower_wf(*program) && ctx_ok(*ctx, *program),
            k <= kids@.len(),
            lower_wf(*old(program)) && ctx_ok(*old(ctx), *old(program)) && old(program).symbols.next_var < u32::MAX
                && declares_here(*t, n as int) ==> program.symbols.variables@.len() > old(program).symbols.variables@.len(),
            lower_wf(*old(program)) && ctx_ok(*old(ctx), *old(program)) && old(program).symbols.next_var < u32::MAX
                && (exists|j: int| 0 <= j < k && #[trigger] declares_here(*t, kids@[j] as int))
                ==> program.symbols.variables@.len() > old(program).symbols.variables@.len(),
        decreases kids@.len() - k,
    {
        let c = kids[k];
        proof { assert(n < t.children@[n as int]@[k as int] < t.nodes@.len()); }
        let ghost p1x = *program;
        let ghost c1x = *ctx;
        walk_function_body(program, ctx, t, c, caller);
        proof {
            lemma_lowered_trans(*old(program), p1x, *program);
            lemma_lowered_trans(p1, p1x, *program);
            if lower_wf(*old(program)) && ctx_ok(*old(ctx), *old(program)) && old(program).symbols.next_var < u32::MAX
                && (exists|j: int| 0 <= j < k + 1 && #[trigger] declares_here(*t, kids@[j] as int)) {
                let j = choose|j: int| 0 <= j < k + 1 && #[trigger] declares_here(*t, kids@[j] as int);
                if j == k {
                    assert(p1x.symbols.next_var as int == p1x.symbols.variables@.len());
                    assert(p1x.symbols.variables@.len() >= old(program).symbols.variables@.len());
                }
            }
        }
        k = k + 1;
    }
    proof {
        if kind(*t, n as int) != "declaration"@ && kind(*t, n as int) == "assignment_expression"@ {
            match assign_sides(*t, n as int) {
                Some(sides) => {
                    let l = sides.0;
                    let r = sides.1;
                    match store_case(*old(ctx), old(program).symbols, *t, l, r) {
                        Some(pp) => {
                            lemma_prefix_kept(old(program).flow@.push(FlowConstraint::Store { dst: pp.0, src: pp.1 }), p1, *program);
                        },
                        None => {},
                    }
                    match copy_case(*old(ctx), old(program).symbols, *t, l, r) {
                        Some(dst) => {
                            let f = choose|f: Option<FlowConstraint>| rhs_flow_is(*old(ctx), old(program).symbols, *t, rhs_core(*t, r), dst, f)
                                && p1.flow@ == old(program).flow@ + flow_of(f);
                            lemma_prefix_kept(old(program).flow@ + flow_of(f), p1, *program);
                        },
                        None => {},
                    }
                },
                None => {},
            }
        }
    }
}

/// A function definition: the function (defined in the current file) with
/// its parameters, then its body with the parameters as the first locals.
fn lower_function(program: &mut Program, ctx: &mut LowerContext, t: &SyntaxTree, n: usize)
    requires
        node_in(*t, n),
        lower_ok(*old(program)),
    ensures
        lowered(*old(program), *final(program)),
        final(ctx).current_file == old(ctx).current_file,
        final(ctx).current_fn is None || *final(ctx) == *old(ctx),
        lower_wf(*old(program)) && ctx_ok(*old(ctx), *old(program))
            ==> lower_wf(*final(program)) && ctx_ok(*final(ctx), *final(program)),
        match field_child(*t, n as int, "declarator"@) {
            Some(d) => declarator_name(*t, d as int).0.len() > 0 && old(program).symbols.next_fn < u32::MAX
                ==> fn_declared(old(program).symbols, final(program).symbols, declarator_name(*t, d as int).0),
            None => true,
        },
        match (field_child(*t, n as int, "declarator"@), field_child(*t, n as int, "body"@)) {
            (Some(d), Some(b)) => declarator_name(*t, d as int).0.len() > 0 && old(program).symbols.next_fn < u32::MAX
                && lower_wf(*old(program)) && ctx_ok(*old(ctx), *old(program)) && old(program).symbols.next_var < u32::MAX
                && declares_below(*t, b as int)
                ==> final(program).symbols.variables@.len() > old(program).symbols.variables@.len(),
            _ => true,
        },
        match field_child(*t, n as int, "declarator"@) {
            Some(d) => declarator_name(*t, d as int).0.len() > 0 && old(program).symbols.next_fn < u32::MAX
                && static_decl(*t, n as int) ==> exists|k: int| 0 <= k < final(program).symbols.functions@.len()
                    && #[trigger] final(program).symbols.functions@[k].id == FnId(old(program).symbols.next_fn)
                    && final(program).symbols.functions@[k].name@ == declarator_name(*t, d as int).0
                    && final(program).symbols.functions@[k].linkage == Linkage::Internal,
            None => true,
        },
        match field_child(*t, n as int, "declarator"@) {
            Some(d) => declarator_name(*t, d as int).0.len() > 0 && old(program).symbols.next_fn < u32::MAX
                && !static_decl(*t, n as int) && name_lookup(old(program).symbols.fn_by_name@, declarator_name(*t, d as int).0) is None
                ==> exists|k: int| 0 <= k < final(program).symbols.functions@.len()
                    && #[trigger] final(program).symbols.functions@[k].id == FnId(old(program).symbols.next_fn)
                    && final(program).symbols.functions@[k].name@ == declarator_name(*t, d as int).0
                    && final(program).symbols.functions@[k].linkage == Linkage::External,
            None => true,
        },
{
    let decl = match t.child_by_field(n, "declarator") {
        Some(d) => d,
        None => match find_function_declarator(t, n) {
            Some(d) => d,
            None => {
                return;
            },
        },
    };
    let (name, _) = parse_declarator_name(t, decl);
    if name.as_str().is_empty() {
        return;
    }
    let ghost pa = *program;
    let ret_type = match t.child_by_field(n, "type") {
        Some(ty) => parse_type_node(program, t, ty),
        None => program.types.int_type(),
    };
    proof {
        if lower_wf(pa) {
            lemma_wf_types_grow(pa, *program, None);
        }
    }
    if program.symbols.next_fn == u32::MAX {
        return;
    }
    let provisional = program.symbols.alloc_fn_id();
    let ghost p0 = *program;
    proof {
        if lower_wf(pa) && ctx_ok(*old(ctx), pa) {
            assert(wf_except(p0, Some(provisional)));
            assert(ctx_ok(*ctx, p0));
        }
    }
    let params = lower_parameters(program, ctx, t, decl, provisional);
    let is_static = declaration_is_static(t, n);
    let span = node_span(ctx, t, n);
    let func = Function {
        id: provisional,
        name,
        linkage: if is_static { Linkage::Internal } else { Linkage::External },
        return_type: ret_type,
        params: params.clone(),
        locals: Vec::new(),
        span,
        file: ctx.current_file,
        is_defined: true,
    };
    let ghost p1 = *program;
    let ghost wf1 = lower_wf(*old(program)) && ctx_ok(*old(ctx), *old(program));
    proof {
        if wf1 {
            assert forall|j: int| 0 <= j < func.params@.len() implies (#[trigger] func.params@[j].0 as int) < p1.symbols.variables@.len() by {
                assert(func.params@[j] == params@[j]);
            }
        }
    }
    let fn_id = declare_function(program, func);
    let ghost p2 = *program;
    proof {
        lemma_lowered_trans(*old(program), p0, p1);
        lemma_lowered_trans(*old(program), p1, *program);
        assert(fn_declared(old(program).symbols, program.symbols, name@));
    }
    ctx.current_fn = Some(fn_id);
    ctx.locals = Vec::new();
    let mut k: usize = 0;
    while k < params.len()
        invariant
            ctx.current_file == old(ctx).current_file,
            ctx.current_fn == Some(fn_id),
            fn_index(program.symbols.functions@, fn_id) >= 0,
            forall|i: int| 0 <= i < ctx.locals@.len() ==> ((#[trigger] ctx.locals@[i]).1.0 as int) < program.symbols.variables@.len(),
        decreases params@.len() - k,
    {
        if let Some(v) = program.symbols.variable_by_id(params[k]) {
            let ghost l0 = ctx.locals@;
            store_name(&mut ctx.locals, v.name.clone(), params[k]);
            proof {
                assert forall|i: int| 0 <= i < ctx.locals@.len() implies ((#[trigger] ctx.locals@[i]).1.0 as int) < program.symbols.variables@.len() by {
                    if ctx.locals@[i].1 != params@[k as int] {
                        assert(ctx.locals@[i] == l0[i]);
                    }
                }
            }
        }
        k = k + 1;
    }
    proof { assert(ctx_ok(*ctx, *program)); }
    if let Some(body) = t.child_by_field(n, "body") {
        let ghost p3 = *program;
        proof {
            if wf1 {
                assert(p3.symbols.next_var as int == p3.symbols.variables@.len());
                assert(p3.symbols.variables@.len() >= old(program).symbols.variables@.len());
            }
        }
        walk_function_body(program, ctx, t, body, fn_id);
        proof { lemma_lowered_trans(*old(program), p3, *program); }
    }
    proof {
        let fs2 = p2.symbols.functions@;
        if is_static || name_lookup(p1.symbols.fn_by_name@, name@) is None {
            let k = p1.symbols.functions@.len() as int;
            assert(fs2[k] == func);
            assert(program.symbols.functions@[k].id == fs2[k].id);
            assert(program.symbols.functions@[k].id == FnId(old(program).symbols.next_fn));
        }
        if fn_index(fs2, FnId(old(program).symbols.next_fn)) >= 0 {
            lemma_fn_kept(fs2, program.symbols.functions@, FnId(old(program).symbols.next_fn));
        } else {
            let k = name_lookup(old(program).symbols.fn_by_name@, name@)->0;
            lemma_fn_kept(fs2, program.symbols.functions@, k);
        }
    }
    ctx.current_fn = None;
    ctx.locals = Vec::new();
}

/// The top level of a translation unit: function definitions,
/// declarations and struct or union specifiers, wherever they stand.
fn lower_tree(program: &mut Program, ctx: &mut LowerContext, t: &SyntaxTree, n: usize)
    requires
        node_in(*t, n),
        lower_ok(*old(program)),
    ensures
        kind(*t, n as int) == "function_definition"@ ==> match field_child(*t, n as int, "declarator"@) {
            Some(d) => declarator_name(*t, d as int).0.len() > 0 && old(program).symbols.next_fn < u32::MAX
                ==> fn_declared(old(program).symbols, final(program).symbols, declarator_name(*t, d as int).0),
            None => true,
        },
        kind(*t, n as int) != "function_definition"@ && kind(*t, n as int) != "declaration"@ && anon_specifier(*t, n as int)
            && old(program).anon_type_counter < u32::MAX ==> final(program).anon_type_counter > old(program).anon_type_counter,
        lowered(*old(program), *final(program)),
        final(ctx).current_file == old(ctx).current_file,
        lower_wf(*old(program)) && ctx_ok(*old(ctx), *old(program))
            ==> lower_wf(*final(program)) && ctx_ok(*final(ctx), *final(program)),
    decreases t.nodes@.len() - n,
{
    if t.kind_is(n, "function_definition") {
        lower_function(program, ctx, t, n);
        return;
    }
    if t.kind_is(n, "declaration") {
        lower_declaration(program, ctx, t, n, None);
        return;
    }
    if t.kind_is(n, "struct_specifier") || t.kind_is(n, "union_specifier") {
        lower_struct_specifier(program, t, n);
        proof { if lower_wf(*old(program)) { lemma_wf_types_grow(*old(program), *program, None); } }
        return;
    }
    let kids = &t.children[n];
    let mut k: usize = 0;
    while k < kids.len()
        invariant
            node_in(*t, n),
            *kids == t.children@[n as int],
            lowered(*old(program), *program),
            ctx.current_file == old(ctx).current_file,
            lower_wf(*old(program)) && ctx_ok(*old(ctx), *old(program))
                ==> lower_wf(*program) && ctx_ok(*ctx, *program),
        decreases kids@.len() - k,
    {
        let c = kids[k];
        proof { assert(n < t.children@[n as int]@[k as int] < t.nodes@.len()); }
        let ghost p1 = *program;
        lower_tree(program, ctx, t, c);
        proof { lemma_lowered_trans(*old(program), p1, *program); }
        k = k + 1;
    }
}

/// The type declarations of a header: declarations, struct or union
/// specifiers and typedefs, wherever they stand.
fn lower_type_declarations(program: &mut Program, ctx: &mut LowerContext, t: &SyntaxTree, n: usize)
    requires
        node_in(*t, n),
        lower_ok(*old(program)),
    ensures
        kind(*t, n as int) != "declaration"@ && anon_specifier(*t, n as int) && old(program).anon_type_counter < u32::MAX
            ==> final(program).anon_type_counter > old(program).anon_type_counter,
        kind(*t, n as int) != "declaration"@ && !(kind(*t, n as int) == "struct_specifier"@ || kind(*t, n as int) == "union_specifier"@)
            && kind(*t, n as int) == "type_definition"@ && typedef_anon(*t, n as int) && old(program).anon_type_counter < u32::MAX
            ==> final(program).anon_type_counter > old(program).anon_type_counter,
        lowered(*old(program), *final(program)),
        final(ctx).current_file == old(ctx).current_file,
        final(ctx).current_fn == old(ctx).current_fn,
        lower_wf(*old(program)) && ctx_ok(*old(ctx), *old(program))
            ==> lower_wf(*final(program)) && ctx_ok(*final(ctx), *final(program)),
    decreases t.nodes@.len() - n,
{
    if t.kind_is(n, "declaration") {
        lower_declaration(program, ctx, t, n, None);
        return;
    }
    if t.kind_is(n, "struct_specifier") || t.kind_is(n, "union_specifier") {
        lower_struct_specifier(program, t, n);
        proof { if lower_wf(*old(program)) { lemma_wf_types_grow(*old(program), *program, None); } }
        return;
    }
    if t.kind_is(n, "type_definition") {
        lower_typedef(program, t, n);
        proof { if lower_wf(*old(program)) { lemma_wf_types_grow(*old(program), *program, None); } }
        return;
    }
    let kids = &t.children[n];
    let mut k: usize = 0;
    while k < kids.len()
        invariant
            node_in(*t, n),
            *kids == t.children@[n as int],
            lowered(*old(program), *program),
            ctx.current_file == old(ctx).current_file,
            ctx.current_fn == old(ctx).current_fn,
            lower_wf(*old(program)) && ctx_ok(*old(ctx), *old(program))
                ==> lower_wf(*program) && ctx_ok(*ctx, *program),
        decreases kids@.len() - k,
    {
        let c = kids[k];
        proof { assert(n < t.children@[n as int]@[k as int] < t.nodes@.len()); }
        let ghost p1 = *program;
        lower_type_declarations(program, ctx, t, c);
        proof { lemma_lowered_trans(*old(program), p1, *program); }
        k = k + 1;
    }
}


/// How lowering a unit may change a program: as `lowered`, except that
/// files and diagnostics may be appended.
pub open spec fn unit_lowered(a: Program, b: Program) -> bool {
    &&& table_wf(b.types)
    &&& table_grows(a.types, b.types)
    &&& a.flow@.is_prefix_of(b.flow@)
    &&& b.root == a.root
    &&& a.symbols.files@.is_prefix_of(b.symbols.files@)
    &&& a.diagnostics@.is_prefix_of(b.diagnostics@)
}

/// A prefix of a prefix is a prefix.
proof fn lemma_prefix_trans<T>(a: Seq<T>, b: Seq<T>, c: Seq<T>)
    requires
        a.is_prefix_of(b),
        b.is_prefix_of(c),
    ensures
        a.is_prefix_of(c),
{
    assert forall|i: int| 0 <= i < a.len() implies c[i] == a[i] by {
        assert(c[i] == b[i]);
    }
}

/// `unit_lowered` chains.
proof fn lemma_unit_lowered_trans(a: Program, b: Program, c: Program)
    requires
        unit_lowered(a, b),
        unit_lowered(b, c),
    ensures
        unit_lowered(a, c),
{
    lemma_prefix_trans(a.flow@, b.flow@, c.flow@);
    lemma_prefix_trans(a.symbols.files@, b.symbols.files@, c.symbols.files@);
    lemma_prefix_trans(a.diagnostics@, b.diagnostics@, c.diagnostics@);
    assert forall|k: int| 0 <= k < a.types.types@.len() implies #[trigger] c.types.types@[k] == a.types.types@[k] by {
        assert(b.types.types@[k] == a.types.types@[k]);
    }
}

/// Opening a unit (a file registered, perhaps a warning) and then lowering
/// its tree is a unit's lowering.
proof fn lemma_opened_then_lowered(a: Program, m: Program, b: Program)
    requires
        table_wf(a.types),
        m.types == a.types,
        m.flow == a.flow,
        m.root == a.root,
        m.symbols.files@.drop_last() == a.symbols.files@,
        m.symbols.files@.len() == a.symbols.files@.len() + 1,
        m.diagnostics@ == a.diagnostics@ || m.diagnostics@.drop_last() == a.diagnostics@,
        m.diagnostics@.len() >= a.diagnostics@.len(),
        lowered(m, b),
    ensures
        unit_lowered(a, b),
{
    assert(a.symbols.files@.is_prefix_of(m.symbols.files@)) by {
        assert forall|i: int| 0 <= i < a.symbols.files@.len() implies m.symbols.files@[i] == a.symbols.files@[i] by {
            assert(m.symbols.files@.drop_last()[i] == m.symbols.files@[i]);
        }
    }
    assert(a.diagnostics@.is_prefix_of(m.diagnostics@)) by {
        if m.diagnostics@ != a.diagnostics@ {
            assert forall|i: int| 0 <= i < a.diagnostics@.len() implies m.diagnostics@[i] == a.diagnostics@[i] by {
                assert(m.diagnostics@.drop_last()[i] == m.diagnostics@[i]);
            }
        }
    }
    assert forall|i: int| 0 <= i < m.flow@.len() implies b.flow@[i] == m.flow@[i] by {}
}

/// `parse errors in <path>`.
pub open spec fn parse_error_message(path: Seq<char>) -> Seq<char> {
    seq!['p', 'a', 'r', 's', 'e', ' ', 'e', 'r', 'r', 'o', 'r', 's', ' ', 'i', 'n', ' '] + path
}

/// What registering a unit adds: its file, last; and either no diagnostic
/// or the warning that its tree has syntax errors.
pub open spec fn unit_opened(a: Program, b: Program, path: Seq<char>) -> bool {
    &&& b.symbols.files@.len() == a.symbols.files@.len() + 1
    &&& b.symbols.files@.last().path@ == path
    &&& (b.diagnostics@ == a.diagnostics@ || (b.diagnostics@.len() == a.diagnostics@.len() + 1
        && parse_warning(b.diagnostics@.last(), path)))
}

/// The warning that the tree of `path` has syntax errors.
pub open spec fn parse_warning(d: Diagnostic, path: Seq<char>) -> bool {
    &&& d.severity == DiagnosticSeverity::Warning
    &&& d.file is None && d.line == 0
    &&& d.message@ == parse_error_message(path)
    &&& d.stage@ == parse_stage()
}

/// The error left for a unit that could not be lowered.
pub open spec fn unit_error(d: Diagnostic, files: nat) -> bool {
    &&& d.severity == DiagnosticSeverity::Error
    &&& d.file is None && d.line == 0
    &&& unit_failure(d.message@, files)
    &&& d.stage@ == parse_stage()
}

/// `too many files`.
pub open spec fn too_many_files_message() -> Seq<char> {
    seq!['t', 'o', 'o', ' ', 'm', 'a', 'n', 'y', ' ', 'f', 'i', 'l', 'e', 's']
}

/// How a unit can fail: its syntax tree has more nodes than memory holds,
/// or the file table is full.
pub open spec fn unit_failure(msg: Seq<char>, files: nat) -> bool {
    msg == tree_too_large_message() || (files >= 0xffff_ffff && msg == too_many_files_message())
}

/// `parse`.
pub open spec fn parse_stage() -> Seq<char> {
    seq!['p', 'a', 'r', 's', 'e']
}

/// Parses a unit's source and registers its file; a warning diagnostic
/// when the tree has syntax errors.
fn open_unit(program: &mut Program, path: &str, source: &str) -> (r: Result<(SyntaxTree, FileId), String>)
    requires
        lower_ok(*old(program)),
    ensures
        lower_ok(*final(program)),
        lower_wf(*old(program)) ==> lower_wf(*final(program)),
        r is Err ==> *final(program) == *old(program),
        r is Err ==> unit_failure(r->Err_0@, old(program).symbols.files@.len()),
        r matches Ok(x) ==> {
            &&& tree_wf(x.0)
            &&& x.1.0 == old(program).symbols.files@.len()
            &&& final(program).symbols.files@.len() == old(program).symbols.files@.len() + 1
            &&& final(program).symbols.files@.drop_last() == old(program).symbols.files@
            &&& final(program).symbols.files@.last().path@ == path@
            &&& final(program).symbols.files@.last().id == x.1
            &&& (final(program).diagnostics@ == old(program).diagnostics@ || ({
                let d = final(program).diagnostics@.last();
                &&& final(program).diagnostics@.len() == old(program).diagnostics@.len() + 1
                &&& final(program).diagnostics@.drop_last() == old(program).diagnostics@
                &&& d.severity == DiagnosticSeverity::Warning
                &&& d.file is None && d.line == 0
                &&& d.message@ == parse_error_message(path@)
                &&& d.stage@ == parse_stage()
            }))
            &&& final(program).types == old(program).types
            &&& final(program).flow == old(program).flow
            &&& final(program).root == old(program).root
            &&& final(program).symbols.functions == old(program).symbols.functions
            &&& final(program).symbols.variables == old(program).symbols.variables
        },
{
    let tree = match parse_c_source(source) {
        Ok(tr) => tr,
        Err(e) => {
            return Err(e);
        },
    };
    if program.symbols.files.len() >= 0xffff_ffff {
        let v: Vec<char> = vec!['t', 'o', 'o', ' ', 'm', 'a', 'n', 'y', ' ', 'f', 'i', 'l', 'e', 's'];
        proof { assert(v@ =~= too_many_files_message()); }
        return Err(string_of(v));
    }
    if tree.nodes[0].has_error {
        let head: Vec<char> = vec!['p', 'a', 'r', 's', 'e', ' ', 'e', 'r', 'r', 'o', 'r', 's', ' ', 'i', 'n', ' '];
        proof { assert(head@ =~= seq!['p', 'a', 'r', 's', 'e', ' ', 'e', 'r', 'r', 'o', 'r', 's', ' ', 'i', 'n', ' ']); }
        let empty = "";
        proof { reveal_strlit(""); }
        let stage: Vec<char> = vec!['p', 'a', 'r', 's', 'e'];
        proof {
            assert(stage@ =~= parse_stage());
            assert(seq![] + head@ + path@ + empty@ =~= parse_error_message(path@));
        }
        let ghost d0 = program.diagnostics@;
        program.add_diagnostic(Diagnostic {
            severity: DiagnosticSeverity::Warning,
            file: None,
            line: 0,
            message: concat3("", head.as_slice(), path),
            stage: string_of(stage),
        });
        proof { assert(program.diagnostics@.drop_last() =~= d0); }
    }
    let ghost f0 = program.symbols.files@;
    let file_id = program.symbols.add_file(path.to_string());
    proof { assert(program.symbols.files@.drop_last() =~= f0); }
    Ok((tree, file_id))
}

/// Lowers a translation unit given its path and (preprocessed) source: a
/// parse failure is the error; otherwise the unit's file is registered
/// (with a warning when the tree has syntax errors) and its functions,
/// declarations and types are lowered.
pub fn process_translation_unit(program: &mut Program, path: &str, source: &str) -> (r: Result<(), String>)
    requires
        lower_ok(*old(program)),
    ensures
        unit_lowered(*old(program), *final(program)),
        lower_wf(*old(program)) ==> lower_wf(*final(program)),
        r is Err ==> *final(program) == *old(program),
        r is Err ==> unit_failure(r->Err_0@, old(program).symbols.files@.len()),
        r is Ok ==> unit_opened(*old(program), *final(program), path@),
{
    let ghost p0 = *program;
    let (tree, file_id) = match open_unit(program, path, source) {
        Ok(x) => x,
        Err(e) => {
            return Err(e);
        },
    };
    let ghost p1 = *program;
    let mut ctx = LowerContext { current_fn: None, current_file: file_id, locals: Vec::new() };
    lower_tree(program, &mut ctx, &tree, 0);
    proof {
        lemma_opened_then_lowered(p0, p1, *program);
    }
    Ok(())
}

/// Lowers the type declarations of a header given its path and source; a
/// parse failure is the error.
pub fn lower_header_unit(program: &mut Program, path: &str, source: &str) -> (r: Result<(), String>)
    requires
        lower_ok(*old(program)),
    ensures
        unit_lowered(*old(program), *final(program)),
        lower_wf(*old(program)) ==> lower_wf(*final(program)),
        r is Err ==> *final(program) == *old(program),
        r is Err ==> unit_failure(r->Err_0@, old(program).symbols.files@.len()),
        r is Ok ==> unit_opened(*old(program), *final(program), path@),
{
    let ghost p0 = *program;
    let (tree, file_id) = match open_unit(program, path, source) {
        Ok(x) => x,
        Err(e) => {
            return Err(e);
        },
    };
    let ghost p1 = *program;
    let mut ctx = LowerContext { current_fn: None, current_file: file_id, locals: Vec::new() };
    lower_type_declarations(program, &mut ctx, &tree, 0);
    proof {
        lemma_opened_then_lowered(p0, p1, *program);
    }
    Ok(())
}

/// `p` is the path of one of the first `k` units.
pub open spec fn unit_path_among(units: Seq<(String, String)>, k: int, p: Seq<char>) -> bool {
    exists|u: int| 0 <= u < k && #[trigger] units[u].0@ == p
}

/// What lowering `units` in order added, given which of them succeeded
/// (`ok`): for each unit, in order, either its file (with at most the
/// warning that its tree has syntax errors) or one error diagnostic saying
/// why it failed (`files`: the size of the file table before the units).
pub open spec fn units_trace(units: Seq<(String, String)>, ok: Seq<bool>, files: Seq<Seq<char>>,
    diags: Seq<Diagnostic>, base: nat) -> bool
    decreases units.len(),
{
    if units.len() == 0 {
        ok.len() == 0 && files.len() == 0 && diags.len() == 0
    } else {
        let u = units.last();
        let rest = units.drop_last();
        let ok_rest = ok.drop_last();
        &&& ok.len() == units.len()
        &&& if ok.last() {
            &&& files.len() >= 1 && files.last() == u.0@
            &&& (units_trace(rest, ok_rest, files.drop_last(), diags, base)
                || (diags.len() >= 1 && parse_warning(diags.last(), u.0@)
                    && units_trace(rest, ok_rest, files.drop_last(), diags.drop_last(), base)))
        } else {
            &&& diags.len() >= 1 && unit_error(diags.last(), base + files.len())
            &&& units_trace(rest, ok_rest, files, diags.drop_last(), base)
        }
    }
}

/// Paths of the files from index `k` on.
pub open spec fn file_paths_from(p: Program, k: int) -> Seq<Seq<char>> {
    p.symbols.files@.subrange(k, p.symbols.files@.len() as int).map_values(|f: crate::symbol::FileInfo| f.path@)
}

/// Lowers translation units one after the other, each given by its path
/// and source; a unit that fails leaves an error diagnostic (stage
/// `parse`) with the failure's message. With room in the file table, a
/// unit fails only when its syntax tree is larger than memory holds.
pub fn lower_units(program: &mut Program, units: &[(String, String)])
    requires
        lower_ok(*old(program)),
    ensures
        unit_lowered(*old(program), *final(program)),
        lower_wf(*old(program)) ==> lower_wf(*final(program)),
        lower_wf(*old(program)) ==> program_wf(*final(program)),
        exists|ok: Seq<bool>| units_trace(units@, ok,
            file_paths_from(*final(program), old(program).symbols.files@.len() as int),
            final(program).diagnostics@.subrange(old(program).diagnostics@.len() as int, final(program).diagnostics@.len() as int),
            old(program).symbols.files@.len()),
{
    let ghost ok: Seq<bool> = Seq::empty();
    let ghost f0 = old(program).symbols.files@.len() as int;
    let ghost d0 = old(program).diagnostics@.len() as int;
    let mut k: usize = 0;
    proof {
        assert(units@.subrange(0, 0).len() == 0);
        assert(file_paths_from(*program, f0).len() == 0);
    }
    while k < units.len()
        invariant
            unit_lowered(*old(program), *program),
            lower_wf(*old(program)) ==> lower_wf(*program),
            k <= units@.len(),
            f0 == old(program).symbols.files@.len(),
            d0 == old(program).diagnostics@.len(),
            units_trace(units@.subrange(0, k as int), ok, file_paths_from(*program, f0),
                program.diagnostics@.subrange(d0, program.diagnostics@.len() as int), f0 as nat),
        decreases units@.len() - k,
    {
        let ghost p0 = *program;
        let ghost b: bool;
        match process_translation_unit(program, units[k].0.as_str(), units[k].1.as_str()) {
            Ok(()) => {
                proof { b = true; }
            },
            Err(e) => {
                let stage: Vec<char> = vec!['p', 'a', 'r', 's', 'e'];
                proof { assert(stage@ =~= parse_stage()); }
                program.add_diagnostic(Diagnostic {
                    severity: DiagnosticSeverity::Error,
                    file: None,
                    line: 0,
                    message: e,
                    stage: string_of(stage),
                });
                proof { b = false; }
            },
        }
        proof {
            lemma_unit_lowered_trans(*old(program), p0, *program);
            let us = units@.subrange(0, k + 1);
            assert(us.drop_last() =~= units@.subrange(0, k as int));
            assert(us.last() == units@[k as int]);
            let ok2 = ok.push(b);
            assert(ok2.drop_last() =~= ok);
            let fs = file_paths_from(*program, f0);
            let ds = program.diagnostics@.subrange(d0, program.diagnostics@.len() as int);
            let fs0 = file_paths_from(p0, f0);
            let ds0 = p0.diagnostics@.subrange(d0, p0.diagnostics@.len() as int);
            assert(p0.symbols.files@.len() >= f0) by {
                assert(old(program).symbols.files@.is_prefix_of(p0.symbols.files@));
            }
            assert(p0.diagnostics@.len() >= d0) by {
                assert(old(program).diagnostics@.is_prefix_of(p0.diagnostics@));
            }
            if b {
                assert(fs.drop_last() =~= fs0) by {
                    assert forall|i: int| 0 <= i < fs0.len() implies fs.drop_last()[i] == fs0[i] by {
                        assert(program.symbols.files@[f0 + i] == p0.symbols.files@[f0 + i]);
                    }
                }
                assert(fs.last() == units@[k as int].0@);
                if program.diagnostics@ == p0.diagnostics@ {
                    assert(ds =~= ds0);
                } else {
                    assert(ds.drop_last() =~= ds0);
                    assert(ds.last() == program.diagnostics@.last());
                }
            } else {
                assert(fs =~= fs0);
                assert(ds.drop_last() =~= ds0);
                assert(ds.last() == program.diagnostics@.last());
                assert(p0.symbols.files@.len() == f0 + fs0.len());
            }
            ok = ok2;
        }
        k = k + 1;
    }
    proof {
        assert(units@.subrange(0, units@.len() as int) =~= units@);
        if lower_wf(*old(program)) { lemma_lower_wf_program_wf(*program); }
    }
}


/// `no .c or .h files found under `.
pub open spec fn no_files_prefix() -> Seq<char> {
    seq!['n', 'o', ' ', '.', 'c', ' ', 'o', 'r', ' ', '.', 'h', ' ', 'f', 'i', 'l', 'e', 's', ' ',
        'f', 'o', 'u', 'n', 'd', ' ', 'u', 'n', 'd', 'e', 'r', ' ']
}

/// The error left for a translation unit whose text could not be read.
pub open spec fn read_error(d: Diagnostic, path: Seq<char>) -> bool {
    &&& d.severity == DiagnosticSeverity::Error
    &&& d.file is None && d.line == 0
    &&& d.message@ == read_failed_prefix() + path + no_such_source_suffix()
    &&& d.stage@ == parse_stage()
}

/// Reading the texts of `files` in order gave the units `units` (path and
/// text, in order) and one read error per file that could not be read.
pub open spec fn reads_trace(files: Seq<String>, units: Seq<(String, String)>, diags: Seq<Diagnostic>) -> bool
    decreases files.len(),
{
    if files.len() == 0 {
        units.len() == 0 && diags.len() == 0
    } else {
        let f = files.last()@;
        ||| (units.len() >= 1 && units.last().0@ == f
            && reads_trace(files.drop_last(), units.drop_last(), diags))
        ||| (diags.len() >= 1 && read_error(diags.last(), f)
            && reads_trace(files.drop_last(), units, diags.drop_last()))
    }
}

/// Each unit's text is what the index cache holds for its path; a path
/// that was not cached before and needs no preprocessing has its raw text.
pub open spec fn units_read(units: Seq<(String, String)>, before: Seq<(String, String)>,
    after: Seq<(String, String)>, graph: IncludeGraph, opts: PreprocessOptions) -> bool {
    forall|k: int| 0 <= k < units.len() ==> {
        let p = #[trigger] units[k].0@;
        &&& cached_text(after, p) == Some(units[k].1@)
        &&& (cached_text(before, p) is None && !needs_preprocessing(p, opts, graph)
            ==> raw_text(p, graph, opts) == Ok::<Seq<char>, Seq<char>>(units[k].1@))
    }
}

/// What the cache holds after reads that started from `before`: the
/// entries it had, and for each new path, its raw text where that path
/// needs no preprocessing.
pub open spec fn cache_kept(before: Seq<(String, String)>, after: Seq<(String, String)>,
    graph: IncludeGraph, opts: PreprocessOptions) -> bool {
    forall|q: Seq<char>| {
        &&& (cached_text(before, q) is Some ==> #[trigger] cached_text(after, q) == cached_text(before, q))
        &&& (cached_text(before, q) is None && cached_text(after, q) is Some && !needs_preprocessing(q, opts, graph)
            ==> raw_text(q, graph, opts) == Ok::<Seq<char>, Seq<char>>(cached_text(after, q)->Some_0))
    }
}

/// Builds the program of a tree: an error when it has neither `.c` nor
/// `.h` files; else an empty program rooted at `root`, with the options'
/// include paths and defines, into which the translation units `c_files`
/// are lowered in order, each from its indexing text (preprocessed where
/// the options or the include scan call for it, raw otherwise; see
/// `IndexSourceCache::get_or_preprocess`). A file whose text cannot be
/// read leaves an error diagnostic.
pub fn build_program(root: &str, c_files: &[String], headers: &[String], graph: &IncludeGraph,
    cache: &mut IndexSourceCache, opts: &PreprocessOptions) -> (r: Result<Program, String>)
    ensures
        r is Err <==> c_files@.len() == 0 && headers@.len() == 0,
        r is Err ==> r->Err_0@ == no_files_prefix() + root@ && final(cache).entries@ == old(cache).entries@,
        r matches Ok(p) ==> {
            &&& program_wf(p)
            &&& p.root@ == root@
            &&& p.include_paths@.len() == opts.include_paths@.len()
            &&& (forall|k: int| 0 <= k < p.include_paths@.len() ==> #[trigger] p.include_paths@[k]@ == opts.include_paths@[k]@)
            &&& define_entries(p.defines) == define_entries(opts.defines)
            &&& cache_kept(old(cache).entries@, final(cache).entries@, *graph, *opts)
            &&& exists|units: Seq<(String, String)>, n: int, ok: Seq<bool>| {
                &&& 0 <= n <= p.diagnostics@.len()
                &&& reads_trace(c_files@, units, p.diagnostics@.subrange(0, n))
                &&& units_read(units, old(cache).entries@, final(cache).entries@, *graph, *opts)
                &&& units_trace(units, ok, file_paths_from(p, 0), p.diagnostics@.subrange(n, p.diagnostics@.len() as int), 0)
            }
        },
{
    if c_files.len() == 0 && headers.len() == 0 {
        let head: Vec<char> = vec!['n', 'o', ' ', '.', 'c', ' ', 'o', 'r', ' ', '.', 'h', ' ', 'f', 'i', 'l', 'e', 's', ' ',
            'f', 'o', 'u', 'n', 'd', ' ', 'u', 'n', 'd', 'e', 'r', ' '];
        proof { assert(head@ =~= no_files_prefix()); }
        let mut msg = head;
        let rc = str_chars(root);
        push_all(&mut msg, rc.as_slice());
        return Err(string_of(msg));
    }
    let mut incs: Vec<String> = Vec::new();
    let mut k: usize = 0;
    while k < opts.include_paths.len()
        invariant
            k <= opts.include_paths@.len(),
            incs@.len() == k,
            forall|j: int| 0 <= j < k ==> #[trigger] incs@[j]@ == opts.include_paths@[j]@,
        decreases opts.include_paths@.len() - k,
    {
        incs.push(chars_to_string(opts.include_paths[k].as_slice()));
        k = k + 1;
    }
    let mut program = Program::new(root);
    let ghost c0 = cache.entries@;
    let mut units: Vec<(String, String)> = Vec::new();
    let mut i: usize = 0;
    proof {
        assert(c_files@.subrange(0, 0).len() == 0);
        assert(program.diagnostics@.subrange(0, 0) =~= program.diagnostics@);
    }
    while i < c_files.len()
        invariant
            i <= c_files@.len(),
            program.root@ == root@,
            table_wf(program.types),
            program.symbols.functions@.len() == 0,
            program.symbols.variables@.len() == 0,
            program.symbols.call_sites@.len() == 0,
            program.symbols.files@.len() == 0,
            program.symbols.fn_by_name@.len() == 0,
            program.symbols.global_by_name@.len() == 0,
            program.symbols.next_var == 0 && program.symbols.next_call == 0,
            program.flow@.len() == 0,
            incs@.len() == opts.include_paths@.len(),
            forall|j: int| 0 <= j < incs@.len() ==> #[trigger] incs@[j]@ == opts.include_paths@[j]@,
            c0 == old(cache).entries@,
            cache_kept(c0, cache.entries@, *graph, *opts),
            reads_trace(c_files@.subrange(0, i as int), units@, program.diagnostics@),
            units_read(units@, c0, cache.entries@, *graph, *opts),
        decreases c_files@.len() - i,
    {
        let ghost e0 = cache.entries@;
        let ghost u0 = units@;
        let ghost d0 = program.diagnostics@;
        let path = c_files[i].as_str();
        match cache.get_or_preprocess(path, graph, opts) {
            Ok(text) => {
                units.push((c_files[i].clone(), text));
                proof {
                    assert(units@.last().0@ == c_files@[i as int]@);
                }
            },
            Err(e) => {
                let stage: Vec<char> = vec!['p', 'a', 'r', 's', 'e'];
                proof { assert(stage@ =~= parse_stage()); }
                program.add_diagnostic(Diagnostic {
                    severity: DiagnosticSeverity::Error,
                    file: None,
                    line: 0,
                    message: e,
                    stage: string_of(stage),
                });
            },
        }
        proof {
            let fs = c_files@.subrange(0, i + 1);
            assert(fs.drop_last() =~= c_files@.subrange(0, i as int));
            assert(fs.last() == c_files@[i as int]);
            if units@.len() > u0.len() {
                assert(units@.drop_last() =~= u0);
            } else {
                assert(program.diagnostics@.drop_last() =~= d0);
            }
            if cache.entries@ != e0 {
                let x = cache.entries@.last();
                assert(cache.entries@ =~= e0.push(x));
                assert forall|q: Seq<char>| #[trigger] cached_text(cache.entries@, q) == if cached_text(e0, q) is Some {
                    cached_text(e0, q)
                } else if x.0@ == q {
                    Some(x.1@)
                } else {
                    None::<Seq<char>>
                } by {
                    crate::index_cache::lemma_cached_push_any(e0, x, q);
                }
            }
            assert forall|q: Seq<char>| {
                &&& (cached_text(c0, q) is Some ==> #[trigger] cached_text(cache.entries@, q) == cached_text(c0, q))
                &&& (cached_text(c0, q) is None && cached_text(cache.entries@, q) is Some && !needs_preprocessing(q, *opts, *graph)
                    ==> raw_text(q, *graph, *opts) == Ok::<Seq<char>, Seq<char>>(cached_text(cache.entries@, q)->Some_0))
            } by {
                let _ = cached_text(e0, q);
            }
            assert forall|j: int| 0 <= j < units@.len() implies {
                let p = #[trigger] units@[j].0@;
                &&& cached_text(cache.entries@, p) == Some(units@[j].1@)
                &&& (cached_text(c0, p) is None && !needs_preprocessing(p, *opts, *graph)
                    ==> raw_text(p, *graph, *opts) == Ok::<Seq<char>, Seq<char>>(units@[j].1@))
            } by {
                if j < u0.len() {
                    assert(units@[j] == u0[j]);
                    let _ = cached_text(e0, u0[j].0@);
                } else {
                    let _ = cached_text(e0, units@[j].0@);
                }
            }
        }
        i = i + 1;
    }
    let ghost n = program.diagnostics@.len() as int;
    let ghost pr = program;
    proof {
        assert(c_files@.subrange(0, c_files@.len() as int) =~= c_files@);
        lemma_empty_program_lower_wf(program);
    }
    lower_units(&mut program, units.as_slice());
    proof {
        assert(pr.diagnostics@.is_prefix_of(program.diagnostics@));
        assert(program.diagnostics@.subrange(0, n) =~= pr.diagnostics@);
        let ok = choose|ok: Seq<bool>| units_trace(units@, ok,
            file_paths_from(program, 0),
            program.diagnostics@.subrange(n, program.diagnostics@.len() as int), 0);
        assert(units_trace(units@, ok, file_paths_from(program, 0),
            program.diagnostics@.subrange(n, program.diagnostics@.len() as int), 0));
    }
    let ghost pl = program;
    program.include_paths = incs;
    program.defines = defines_clone(&opts.defines);
    proof {
        assert(program_wf(pl));
        assert(program_wf(program));
        assert(program.root@ == root@);
        assert(cache_kept(old(cache).entries@, cache.entries@, *graph, *opts));
        assert(file_paths_from(program, 0) == file_paths_from(pl, 0));
        assert(reads_trace(c_files@, units@, program.diagnostics@.subrange(0, n)));
        assert(units_read(units@, old(cache).entries@, cache.entries@, *graph, *opts));
    }
    Ok(program)
}

/// What lowering keeps of a program for the analysis: `program_wf`, except
/// that variables of the function `skip` (one being declared) may point to
/// a function not recorded yet; the id counters are the table sizes, and
/// every global name points at a variable.
pub open spec fn wf_except(p: Program, skip: Option<FnId>) -> bool {
    let s = p.symbols;
    let nt = p.types.types@.len();
    let nv = s.variables@.len();
    &&& table_wf(p.types)
    &&& s.next_var as int == nv
    &&& s.next_call as int == s.call_sites@.len()
    &&& forall|i: int| 0 <= i < nv ==> {
        let v = #[trigger] s.variables@[i];
        &&& v.id.0 == i
        &&& (v.type_id.0 as int) < nt
        &&& (v.fn_id matches Some(f) ==> fn_index(s.functions@, f) >= 0 || skip == Some(f))
    }
    &&& forall|i: int| 0 <= i < s.functions@.len() ==> {
        let f = #[trigger] s.functions@[i];
        &&& (f.return_type.0 as int) < nt
        &&& forall|j: int| 0 <= j < f.params@.len() ==> (#[trigger] f.params@[j].0 as int) < nv
    }
    &&& forall|i: int| 0 <= i < s.call_sites@.len() ==> {
        let c = #[trigger] s.call_sites@[i];
        &&& c.id.0 == i
        &&& forall|j: int| 0 <= j < c.var_args@.len() ==> (#[trigger] c.var_args@[j].1.0 as int) < nv
    }
    &&& forall|i: int| 0 <= i < s.fn_by_name@.len() ==> fn_index(s.functions@, (#[trigger] s.fn_by_name@[i]).1) >= 0
    &&& forall|i: int| 0 <= i < p.flow@.len() ==> match #[trigger] p.flow@[i] {
        FlowConstraint::CallReturn { dst, .. } => (dst.0 as int) < nv,
        _ => true,
    }
    &&& forall|i: int| 0 <= i < s.global_by_name@.len() ==> ((#[trigger] s.global_by_name@[i]).1.0 as int) < nv
}

/// `wf_except` with nothing excepted.
pub open spec fn lower_wf(p: Program) -> bool {
    wf_except(p, None)
}

/// What lowering keeps of where it stands: the locals are variables, and
/// the current function is recorded.
pub open spec fn ctx_ok(ctx: LowerContext, p: Program) -> bool {
    &&& forall|i: int| 0 <= i < ctx.locals@.len() ==> ((#[trigger] ctx.locals@[i]).1.0 as int) < p.symbols.variables@.len()
    &&& (ctx.current_fn matches Some(f) ==> fn_index(p.symbols.functions@, f) >= 0)
}

/// Every variable a name can denote from where lowering stands.
pub open spec fn names_ok(ctx: LowerContext, s: SymbolTable) -> bool {
    forall|name: Seq<char>| var_below(#[trigger] var_named(ctx, s, name), s.variables@.len() as int)
}

/// The variable, if any, is numbered below `n`.
pub open spec fn var_below(o: Option<VarId>, n: int) -> bool {
    match o {
        Some(v) => (v.0 as int) < n,
        None => true,
    }
}

/// An empty program, as `Program::new` makes it, is ready for lowering,
/// and so fit for the analysis.
pub proof fn lemma_empty_program_lower_wf(p: Program)
    requires
        table_wf(p.types),
        p.symbols.functions@.len() == 0,
        p.symbols.variables@.len() == 0,
        p.symbols.call_sites@.len() == 0,
        p.symbols.fn_by_name@.len() == 0,
        p.symbols.global_by_name@.len() == 0,
        p.symbols.next_var == 0 && p.symbols.next_call == 0,
        p.flow@.len() == 0,
    ensures
        lower_wf(p),
        program_wf(p),
{
}

/// A lowered program is fit for the analysis.
pub proof fn lemma_lower_wf_program_wf(p: Program)
    requires
        lower_wf(p),
    ensures
        program_wf(p),
{
}

/// The value a name lookup finds is one of the entries' values.
proof fn lemma_lookup_in<T>(entries: Seq<(String, T)>, name: Seq<char>)
    ensures
        name_lookup(entries, name) matches Some(x) ==> exists|i: int| 0 <= i < entries.len() && (#[trigger] entries[i]).1 == x,
{
    lemma_name_pos(entries, name);
    if name_pos(entries, name) >= 0 {
        let i = name_pos(entries, name);
        assert(entries[i].1 == entries[i].1);
    }
}

/// The static a name denotes is one of the variables.
proof fn lemma_static_pick_in(vars: Seq<Variable>, name: Seq<char>, ctx: LowerContext)
    ensures
        static_pick(vars, name, ctx) matches Some(v) ==> exists|i: int| 0 <= i < vars.len() && (#[trigger] vars[i]).id == v,
    decreases vars.len(),
{
    if vars.len() > 0 {
        lemma_static_pick_in(vars.drop_first(), name, ctx);
        if !(vars[0].name@ == name && static_visible(vars[0], ctx)) {
            match static_pick(vars.drop_first(), name, ctx) {
                Some(v) => {
                    let i = choose|i: int| 0 <= i < vars.drop_first().len() && (#[trigger] vars.drop_first()[i]).id == v;
                    assert(vars[i + 1] == vars.drop_first()[i]);
                },
                None => {},
            }
        } else {
            assert(vars[0].id == vars[0].id);
        }
    }
}

/// In a well-formed program, every variable a name denotes is one.
proof fn lemma_names_ok(ctx: LowerContext, p: Program, skip: Option<FnId>)
    requires
        wf_except(p, skip),
        ctx_ok(ctx, p),
    ensures
        names_ok(ctx, p.symbols),
{
    assert forall|name: Seq<char>| var_below(#[trigger] var_named(ctx, p.symbols, name), p.symbols.variables@.len() as int) by {
        lemma_lookup_in(ctx.locals@, name);
        lemma_lookup_in(p.symbols.global_by_name@, name);
        lemma_static_pick_in(p.symbols.variables@, name, ctx);
        let v = var_named(ctx, p.symbols, name)->0;
        if ctx.current_fn is Some && name_lookup(ctx.locals@, name) is Some {
            let i = choose|i: int| 0 <= i < ctx.locals@.len() && (#[trigger] ctx.locals@[i]).1 == v;
        } else if name_lookup(p.symbols.global_by_name@, name) is Some {
            let i = choose|i: int| 0 <= i < p.symbols.global_by_name@.len() && (#[trigger] p.symbols.global_by_name@[i]).1 == v;
        } else {
            let i = choose|i: int| 0 <= i < p.symbols.variables@.len() && (#[trigger] p.symbols.variables@[i]).id == v;
        }
    }
}

/// The variables lvalues, argument expressions and stored values denote
/// are variables, when names only denote variables.
proof fn lemma_lvalue_ok(ctx: LowerContext, s: SymbolTable, t: SyntaxTree, n: int)
    requires
        names_ok(ctx, s),
    ensures
        lvalue_var(ctx, s, t, n) matches Some(v) ==> (v.0 as int) < s.variables@.len(),
        expr_var(ctx, s, t, n) matches Some(v) ==> (v.0 as int) < s.variables@.len(),
        store_src(ctx, s, t, n) matches Some(v) ==> (v.0 as int) < s.variables@.len(),
    decreases t.nodes@.len() - n,
{
    assert(var_below(var_named(ctx, s, text(t, n)), s.variables@.len() as int));
    match ptr_arg(t, n) {
        Some(a) => { if n < a < t.nodes@.len() { lemma_lvalue_ok(ctx, s, t, a as int); } },
        None => {},
    }
    match field_child(t, n, "argument"@) {
        Some(a) => { if n < a < t.nodes@.len() { lemma_lvalue_ok(ctx, s, t, a as int); } },
        None => {},
    }
    match named_child_at(t, n, 0) {
        Some(a) => { if n < a < t.nodes@.len() { lemma_lvalue_ok(ctx, s, t, a as int); } },
        None => {},
    }
    match cast_arg(t, n) {
        Some(a) => { if n < a < t.nodes@.len() { lemma_lvalue_ok(ctx, s, t, a as int); } },
        None => {},
    }
}

/// Whether `b` is well formed whenever `a` is and `ctx` fits `a`.
pub open spec fn wf_kept(a: Program, b: Program, ctx: LowerContext) -> bool {
    lower_wf(a) && ctx_ok(ctx, a) ==> lower_wf(b)
}

/// A function recorded in `a` stays recorded when ids keep their places.
proof fn lemma_fn_kept(a: Seq<Function>, b: Seq<Function>, f: FnId)
    requires
        a.len() <= b.len(),
        forall|i: int| 0 <= i < a.len() ==> #[trigger] b[i].id == a[i].id,
        fn_index(a, f) >= 0,
    ensures
        fn_index(b, f) >= 0,
{
    crate::symbol::lemma_fn_index(a, f);
    crate::symbol::lemma_fn_index(b, f);
    let k = fn_index(a, f);
    assert(b[k].id == f);
}

/// Where lowering stands still fits a program lowered further.
proof fn lemma_ctx_kept(ctx: LowerContext, a: Program, b: Program)
    requires
        lowered(a, b),
        ctx_ok(ctx, a),
    ensures
        ctx_ok(ctx, b),
{
    match ctx.current_fn {
        Some(f) => { lemma_fn_kept(a.symbols.functions@, b.symbols.functions@, f); },
        None => {},
    }
}

/// `lowered` and `wf_kept` chain.
proof fn lemma_kept_trans(a: Program, b: Program, c: Program, ctx: LowerContext)
    requires
        lowered(a, b),
        lowered(b, c),
        wf_kept(a, b, ctx),
        wf_kept(b, c, ctx),
    ensures
        lowered(a, c),
        wf_kept(a, c, ctx),
{
    lemma_lowered_trans(a, b, c);
    if lower_wf(a) && ctx_ok(ctx, a) {
        lemma_ctx_kept(ctx, a, b);
    }
}

/// Growing the type table alone keeps a program well formed.
proof fn lemma_wf_types_grow(a: Program, b: Program, skip: Option<FnId>)
    requires
        wf_except(a, skip),
        b.symbols == a.symbols,
        b.flow == a.flow,
        table_wf(b.types),
        table_grows(a.types, b.types),
    ensures
        wf_except(b, skip),
{
}



/// Moving what was recorded under `from` to the recorded function `to`
/// makes a program well formed again.
proof fn lemma_reassign_wf(a: Program, b: Program, from: FnId, to: FnId)
    requires
        wf_except(a, Some(from)),
        fn_index(a.symbols.functions@, to) >= 0,
        b.types == a.types,
        b.flow == a.flow,
        b.symbols.fn_by_name == a.symbols.fn_by_name,
        b.symbols.global_by_name == a.symbols.global_by_name,
        b.symbols.next_var == a.symbols.next_var,
        b.symbols.next_call == a.symbols.next_call,
        from == to ==> b == a,
        from != to ==> {
            &&& b.symbols.variables@ == a.symbols.variables@.map_values(|v: Variable| moved_var(v, from, to))
            &&& b.symbols.call_sites@ == a.symbols.call_sites@.map_values(|c: CallSite| moved_site(c, from, to))
            &&& b.symbols.functions@.len() == a.symbols.functions@.len()
            &&& forall|i: int| 0 <= i < a.symbols.functions@.len() ==>
                (#[trigger] b.symbols.functions@[i]).id == a.symbols.functions@[i].id
                && b.symbols.functions@[i].return_type == a.symbols.functions@[i].return_type
                && (b.symbols.functions@[i].params == a.symbols.functions@[i].params
                    || params_listed(b.symbols.functions@[i].params@, b.symbols.variables@))
        },
    ensures
        lower_wf(b),
{
    if from == to {
        return;
    }
    let fa = a.symbols.functions@;
    let fb = b.symbols.functions@;
    assert forall|i: int| 0 <= i < fa.len() implies #[trigger] fb[i].id == fa[i].id by {}
    lemma_fn_kept(fa, fb, to);
    let va = a.symbols.variables@;
    let vb = b.symbols.variables@;
    assert forall|i: int| 0 <= i < vb.len() implies {
        let v = #[trigger] vb[i];
        &&& v.id.0 == i
        &&& (v.type_id.0 as int) < b.types.types@.len()
        &&& (v.fn_id matches Some(f) ==> fn_index(fb, f) >= 0 || None::<FnId> == Some(f))
    } by {
        assert(vb[i] == moved_var(va[i], from, to));
        match va[i].fn_id {
            Some(f) => {
                if f != from {
                    lemma_fn_kept(fa, fb, f);
                }
            },
            None => {},
        }
    }
    assert forall|i: int| 0 <= i < fb.len() implies {
        let f = #[trigger] fb[i];
        &&& (f.return_type.0 as int) < b.types.types@.len()
        &&& forall|j: int| 0 <= j < f.params@.len() ==> (#[trigger] f.params@[j].0 as int) < vb.len()
    } by {
        assert(fa[i] == a.symbols.functions@[i]);
        if fb[i].params != fa[i].params {
            assert forall|j: int| 0 <= j < fb[i].params@.len() implies (#[trigger] fb[i].params@[j].0 as int) < vb.len() by {
                assert(var_listed(vb, fb[i].params@[j]));
                let k = choose|k: int| 0 <= k < vb.len() && (#[trigger] vb[k]).id == fb[i].params@[j];
                assert(vb[k] == moved_var(va[k], from, to));
            }
        }
    }
    assert forall|i: int| 0 <= i < b.symbols.call_sites@.len() implies {
        let c = #[trigger] b.symbols.call_sites@[i];
        &&& c.id.0 == i
        &&& forall|j: int| 0 <= j < c.var_args@.len() ==> (#[trigger] c.var_args@[j].1.0 as int) < vb.len()
    } by {
        assert(b.symbols.call_sites@[i] == moved_site(a.symbols.call_sites@[i], from, to));
    }
    assert forall|i: int| 0 <= i < b.symbols.fn_by_name@.len() implies fn_index(fb, (#[trigger] b.symbols.fn_by_name@[i]).1) >= 0 by {
        lemma_fn_kept(fa, fb, a.symbols.fn_by_name@[i].1);
    }
}

/// Facts at the front of the flow stay there.
proof fn lemma_prefix_kept(x: Seq<FlowConstraint>, m: Program, b: Program)
    requires
        x.is_prefix_of(m.flow@),
        lowered(m, b),
    ensures
        x.is_prefix_of(b.flow@),
{
    assert forall|i: int| 0 <= i < x.len() implies b.flow@[i] == x[i] by {
        assert(b.flow@[i] == m.flow@[i]);
    }
}
} // verus!
