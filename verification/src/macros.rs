//! Macro definitions and the macro table (an insertion-ordered map from
//! macro name to definition, kept in `indexmap::IndexMap`).

use vstd::prelude::*;
use indexmap::IndexMap;
use crate::lexer::{Token, Lexer, hide_set, is_eof_kind, is_eof, kind_view, names_view, copy_names, opens_token, first_token_fits, well_formed_tokens};

verus! {

#[verifier::external_type_specification]
#[verifier::external_body]
#[verifier::reject_recursive_types(K)]
#[verifier::reject_recursive_types(V)]
#[verifier::reject_recursive_types(S)]
pub struct ExIndexMap<K, V, S>(IndexMap<K, V, S>);

/// A macro definition.
#[derive(Debug, Clone)]
pub enum MacroDef {
    Object { replacement: Vec<Token> },
    Function { params: Vec<Vec<char>>, replacement: Vec<Token>, variadic: bool },
}

/// Kind views of a token sequence.
pub open spec fn views(toks: Seq<Token>) -> Seq<(int, Seq<char>)> {
    toks.map_values(|t: Token| kind_view(t.kind))
}

/// Two definitions agree: same form, parameters and variadic flag, and
/// replacement lists with the same token kinds.
pub open spec fn same_def(a: MacroDef, b: MacroDef) -> bool {
    match (a, b) {
        (MacroDef::Object { replacement: r1 }, MacroDef::Object { replacement: r2 }) => views(r1@) == views(r2@),
        (MacroDef::Function { params: p1, replacement: r1, variadic: v1 },
            MacroDef::Function { params: p2, replacement: r2, variadic: v2 }) =>
            names_view(p1@) == names_view(p2@) && views(r1@) == views(r2@) && v1 == v2,
        _ => false,
    }
}

/// A copy of `v`, token for token: same kinds, positions and hide sets.
pub fn duplicate_tokens(v: &Vec<Token>) -> (r: Vec<Token>)
    ensures
        views(r@) == views(v@),
        r@.len() == v@.len(),
        forall|k: int| 0 <= k < v@.len() ==> (#[trigger] r@[k]).line == v@[k].line && r@[k].col == v@[k].col
            && hide_set(r@[k]) == hide_set(v@[k]),
{
    let mut r: Vec<Token> = Vec::new();
    let mut k: usize = 0;
    while k < v.len()
        invariant
            k <= v@.len(),
            views(r@) == views(v@.subrange(0, k as int)),
            r@.len() == k,
            forall|j: int| 0 <= j < k ==> (#[trigger] r@[j]).line == v@[j].line && r@[j].col == v@[j].col
                && hide_set(r@[j]) == hide_set(v@[j]),
        decreases v@.len() - k,
    {
        let ghost r0 = r@;
        let t = v[k].duplicate();
        r.push(t);
        proof {
            assert(views(r@) =~= views(r0).push(kind_view(v@[k as int].kind)));
            assert(v@.subrange(0, k + 1) =~= v@.subrange(0, k as int).push(v@[k as int]));
            assert(views(v@.subrange(0, k + 1)) =~= views(v@.subrange(0, k as int)).push(kind_view(v@[k as int].kind)));
        }
        k = k + 1;
    }
    assert(v@.subrange(0, v@.len() as int) =~= v@);
    r
}

impl MacroDef {
    /// A copy of this definition.
    pub fn duplicate(&self) -> (r: MacroDef)
        ensures
            same_def(r, *self),
    {
        match self {
            MacroDef::Object { replacement } => MacroDef::Object { replacement: duplicate_tokens(replacement) },
            MacroDef::Function { params, replacement, variadic } => MacroDef::Function {
                params: copy_names(params),
                replacement: duplicate_tokens(replacement),
                variadic: *variadic,
            },
        }
    }
}

/// The definition stored under `name`.
pub open spec fn def_of(t: IndexMap<Vec<char>, MacroDef>, name: Seq<char>) -> MacroDef {
    macro_entries(t)[entry_index(macro_entries(t), name)].1
}

/// Macro name to definition, in definition order.
pub type MacroTable = IndexMap<Vec<char>, MacroDef>;

/// The entries of a macro table, in order: name and definition.
pub uninterp spec fn macro_entries(t: IndexMap<Vec<char>, MacroDef>) -> Seq<(Seq<char>, MacroDef)>;

/// Position of `name` in `entries`, or -1.
pub open spec fn entry_index<V>(entries: Seq<(Seq<char>, V)>, name: Seq<char>) -> int
    decreases entries.len(),
{
    if entries.len() == 0 {
        -1
    } else if entries.last().0 == name {
        entries.len() - 1
    } else {
        entry_index(entries.drop_last(), name)
    }
}

pub proof fn lemma_entry_index<V>(entries: Seq<(Seq<char>, V)>, name: Seq<char>)
    ensures
        -1 <= entry_index(entries, name) < entries.len(),
        entry_index(entries, name) >= 0 ==> entries[entry_index(entries, name)].0 == name,
        entry_index(entries, name) == -1 <==> forall|k: int| 0 <= k < entries.len() ==> #[trigger] entries[k].0 != name,
    decreases entries.len(),
{
    if entries.len() > 0 {
        lemma_entry_index(entries.drop_last(), name);
        if entries.last().0 != name {
            assert forall|k: int| 0 <= k < entries.len() - 1 implies #[trigger] entries[k].0 == entries.drop_last()[k].0 by {}
            if entry_index(entries, name) == -1 {
                assert forall|k: int| 0 <= k < entries.len() implies #[trigger] entries[k].0 != name by {
                    if k < entries.len() - 1 {
                        assert(entries[k] == entries.drop_last()[k]);
                    }
                }
            }
        }
    }
}

/// Whether `name` is defined in `t`.
pub open spec fn macro_defined(t: IndexMap<Vec<char>, MacroDef>, name: Seq<char>) -> bool {
    entry_index(macro_entries(t), name) >= 0
}

/// No name occurs twice among `entries`.
pub open spec fn names_distinct<V>(entries: Seq<(Seq<char>, V)>) -> bool {
    forall|i: int, j: int| 0 <= i < j < entries.len() ==> #[trigger] entries[i].0 != #[trigger] entries[j].0
}

/// Updating an entry in place, or adding a new name last, keeps the names
/// distinct.
pub proof fn lemma_insert_distinct<V>(entries: Seq<(Seq<char>, V)>, name: Seq<char>, v: V)
    requires
        names_distinct(entries),
    ensures
        entry_index(entries, name) >= 0 ==> names_distinct(entries.update(entry_index(entries, name), (name, v))),
        entry_index(entries, name) == -1 ==> names_distinct(entries.push((name, v))),
{
    lemma_entry_index(entries, name);
    if entry_index(entries, name) >= 0 {
        let e = entries.update(entry_index(entries, name), (name, v));
        assert forall|i: int, j: int| 0 <= i < j < e.len() implies #[trigger] e[i].0 != #[trigger] e[j].0 by {
            assert(entries[i].0 != entries[j].0);
        }
    } else {
        let e = entries.push((name, v));
        assert forall|i: int, j: int| 0 <= i < j < e.len() implies #[trigger] e[i].0 != #[trigger] e[j].0 by {
            if j < entries.len() {
                assert(entries[i].0 != entries[j].0);
            } else {
                assert(entries[i].0 != name);
            }
        }
    }
}

/// Removing the entry of `name` keeps the names distinct, and `name` is
/// then absent.
pub proof fn lemma_remove_distinct<V>(entries: Seq<(Seq<char>, V)>, name: Seq<char>)
    requires
        names_distinct(entries),
        entry_index(entries, name) >= 0,
    ensures
        names_distinct(entries.remove(entry_index(entries, name))),
        entry_index(entries.remove(entry_index(entries, name)), name) == -1,
{
    lemma_entry_index(entries, name);
    let x = entry_index(entries, name);
    let e = entries.remove(x);
    assert forall|i: int, j: int| 0 <= i < j < e.len() implies #[trigger] e[i].0 != #[trigger] e[j].0 by {
        let a = if i < x { i } else { i + 1 };
        let b = if j < x { j } else { j + 1 };
        assert(e[i] == entries[a] && e[j] == entries[b]);
        assert(entries[a].0 != entries[b].0);
    }
    lemma_entry_index(e, name);
    assert forall|k: int| 0 <= k < e.len() implies #[trigger] e[k].0 != name by {
        let a = if k < x { k } else { k + 1 };
        assert(e[k] == entries[a]);
        if a < x {
            assert(entries[a].0 != entries[x].0);
        } else {
            assert(entries[x].0 != entries[a].0);
        }
    }
}

/// `IndexMap::new`: an empty table.
#[verifier::external_body]
pub(crate) fn macro_table_new() -> (t: IndexMap<Vec<char>, MacroDef>)
    ensures
        macro_entries(t) == Seq::<(Seq<char>, MacroDef)>::empty(),
{
    IndexMap::new()
}

/// `IndexMap::get`: the definition stored under `name`, if any.
#[verifier::external_body]
pub(crate) fn macro_get<'a>(t: &'a IndexMap<Vec<char>, MacroDef>, name: &Vec<char>) -> (r: Option<&'a MacroDef>)
    ensures
        match r {
            Some(d) => entry_index(macro_entries(*t), name@) >= 0
                && *d == macro_entries(*t)[entry_index(macro_entries(*t), name@)].1,
            None => entry_index(macro_entries(*t), name@) == -1,
        },
{
    t.get(name)
}

/// `IndexMap::contains_key`.
#[verifier::external_body]
pub(crate) fn macro_contains(t: &IndexMap<Vec<char>, MacroDef>, name: &Vec<char>) -> (r: bool)
    ensures
        r == macro_defined(*t, name@),
{
    t.contains_key(name)
}

/// `IndexMap::insert`: an existing entry keeps its place and takes the new
/// definition; a new name goes last.
#[verifier::external_body]
pub(crate) fn macro_insert(t: &mut IndexMap<Vec<char>, MacroDef>, name: Vec<char>, def: MacroDef)
    ensures
        entry_index(macro_entries(*old(t)), name@) >= 0 ==> macro_entries(*final(t))
            == macro_entries(*old(t)).update(entry_index(macro_entries(*old(t)), name@), (name@, def)),
        entry_index(macro_entries(*old(t)), name@) == -1 ==> macro_entries(*final(t))
            == macro_entries(*old(t)).push((name@, def)),
{
    t.insert(name, def);
}

/// `IndexMap::shift_remove`: removes the entry for `name`, keeping the
/// order of the others.
#[verifier::external_body]
pub(crate) fn macro_shift_remove(t: &mut IndexMap<Vec<char>, MacroDef>, name: &Vec<char>)
    ensures
        entry_index(macro_entries(*old(t)), name@) >= 0 ==> macro_entries(*final(t))
            == macro_entries(*old(t)).remove(entry_index(macro_entries(*old(t)), name@)),
        entry_index(macro_entries(*old(t)), name@) == -1 ==> macro_entries(*final(t))
            == macro_entries(*old(t)),
{
    t.shift_remove(name);
}

/// The tokens of `text` without the final end-of-input token.
pub fn replacement_tokens(text: &str) -> (r: Vec<Token>)
    ensures
        forall|k: int| 0 <= k < r@.len() ==> !is_eof(#[trigger] r@[k].kind),
        opens_token(text@) ==> r@.len() >= 1 && first_token_fits(text@, r@[0]),
{
    let tokens = Lexer::new(text).tokenize();
    let mut out: Vec<Token> = Vec::new();
    let mut i: usize = 0;
    while i < tokens.len()
        invariant
            i <= tokens@.len(),
            forall|k: int| 0 <= k < out@.len() ==> !is_eof(#[trigger] out@[k].kind),
            well_formed_tokens(tokens@),
            i == 0 ==> out@.len() == 0,
            opens_token(text@) ==> tokens@.len() >= 2 && first_token_fits(text@, tokens@[0]),
            i >= 1 && opens_token(text@) ==> out@.len() >= 1 && first_token_fits(text@, out@[0]),
        decreases tokens@.len() - i,
    {
        if !is_eof_kind(&tokens[i].kind) {
            out.push(tokens[i].duplicate());
        }
        i = i + 1;
    }
    out
}

} // verus!
