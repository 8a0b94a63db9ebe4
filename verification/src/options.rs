//! Preprocessor configuration.

use vstd::prelude::*;
use indexmap::IndexMap;
use crate::text::{str_chars};

verus! {

/// Source text available to the preprocessor, under its (canonical) path.
#[derive(Debug, Clone)]
pub struct SourceFile {
    pub path: Vec<char>,
    pub text: Vec<char>,
}

/// Include search paths, predefined macros (`-D NAME=VALUE`, in order), and
/// the source texts that `#include` may read.
#[derive(Debug)]
pub struct PreprocessOptions {
    pub include_paths: Vec<Vec<char>>,
    pub defines: IndexMap<String, String>,
    pub source_cache: Vec<SourceFile>,
}

/// The entries of a define table, in order: name and value.
pub uninterp spec fn define_entries(d: IndexMap<String, String>) -> Seq<(Seq<char>, Seq<char>)>;

/// `IndexMap::new`: an empty define table.
#[verifier::external_body]
pub(crate) fn defines_new() -> (d: IndexMap<String, String>)
    ensures
        define_entries(d) == Seq::<(Seq<char>, Seq<char>)>::empty(),
{
    IndexMap::new()
}

/// Index of `name` among the define entries, or -1.
pub open spec fn define_index(entries: Seq<(Seq<char>, Seq<char>)>, name: Seq<char>) -> int
    decreases entries.len(),
{
    if entries.len() == 0 {
        -1
    } else if entries.last().0 == name {
        entries.len() - 1
    } else {
        define_index(entries.drop_last(), name)
    }
}

/// `IndexMap::insert` on the define table: an existing name keeps its
/// place and takes the new value; a new name goes last.
#[verifier::external_body]
fn defines_insert(d: &mut IndexMap<String, String>, name: String, value: String)
    ensures
        define_index(define_entries(*old(d)), name@) >= 0 ==> define_entries(*final(d))
            == define_entries(*old(d)).update(define_index(define_entries(*old(d)), name@), (name@, value@)),
        define_index(define_entries(*old(d)), name@) == -1 ==> define_entries(*final(d))
            == define_entries(*old(d)).push((name@, value@)),
{
    d.insert(name, value);
}

/// `IndexMap::iter` collected: the defines as (name, value) pairs in order.
#[verifier::external_body]
pub(crate) fn defines_list(d: &IndexMap<String, String>) -> (r: Vec<(Vec<char>, Vec<char>)>)
    ensures
        r@.len() == define_entries(*d).len(),
        forall|k: int| 0 <= k < r@.len() ==> (#[trigger] r@[k]).0@ == define_entries(*d)[k].0
            && r@[k].1@ == define_entries(*d)[k].1,
{
    d.iter().map(|(k, v)| (k.chars().collect(), v.chars().collect())).collect()
}

/// `IndexMap::clone`: a table with the same entries in the same order.
#[verifier::external_body]
pub(crate) fn defines_clone(d: &IndexMap<String, String>) -> (r: IndexMap<String, String>)
    ensures
        define_entries(r) == define_entries(*d),
{
    d.clone()
}

/// `IndexMap::len` of the define table.
#[verifier::external_body]
pub(crate) fn defines_len(d: &IndexMap<String, String>) -> (r: usize)
    ensures
        r == define_entries(*d).len(),
{
    d.len()
}

impl Default for PreprocessOptions {
    /// No include paths, no defines, no sources.
    fn default() -> (r: PreprocessOptions)
        ensures
            r.include_paths@.len() == 0,
            define_entries(r.defines).len() == 0,
            r.source_cache@.len() == 0,
    {
        PreprocessOptions::new()
    }
}

impl PreprocessOptions {
    /// No include paths, no defines, no sources.
    pub fn new() -> (r: PreprocessOptions)
        ensures
            r.include_paths@.len() == 0,
            define_entries(r.defines).len() == 0,
            r.source_cache@.len() == 0,
    {
        PreprocessOptions { include_paths: Vec::new(), defines: defines_new(), source_cache: Vec::new() }
    }

    /// Adds an include search path after the existing ones.
    pub fn with_include(self, path: &str) -> (r: PreprocessOptions)
        ensures
            r.include_paths@.len() == self.include_paths@.len() + 1,
            forall|k: int| 0 <= k < self.include_paths@.len() ==> #[trigger] r.include_paths@[k] == self.include_paths@[k],
            r.include_paths@.last()@ == path@,
            r.defines == self.defines,
            r.source_cache == self.source_cache,
    {
        let mut s = self;
        s.include_paths.push(str_chars(path));
        s
    }

    /// Defines `name` as `value` (replacing an earlier value of `name`).
    pub fn with_define(self, name: &str, value: &str) -> (r: PreprocessOptions)
        ensures
            define_index(define_entries(self.defines), name@) >= 0 ==> define_entries(r.defines)
                == define_entries(self.defines).update(define_index(define_entries(self.defines), name@), (name@, value@)),
            define_index(define_entries(self.defines), name@) == -1 ==> define_entries(r.defines)
                == define_entries(self.defines).push((name@, value@)),
            r.include_paths == self.include_paths,
            r.source_cache == self.source_cache,
    {
        let mut s = self;
        defines_insert(&mut s.defines, name.to_owned(), value.to_owned());
        s
    }

    /// Makes `text` available as the contents of `path`.
    pub fn with_source(self, path: &str, text: &str) -> (r: PreprocessOptions)
        ensures
            r.source_cache@.len() == self.source_cache@.len() + 1,
            forall|k: int| 0 <= k < self.source_cache@.len() ==> #[trigger] r.source_cache@[k] == self.source_cache@[k],
            r.source_cache@.last().path@ == path@,
            r.source_cache@.last().text@ == text@,
            r.include_paths == self.include_paths,
            r.defines == self.defines,
    {
        let mut s = self;
        s.source_cache.push(SourceFile { path: str_chars(path), text: str_chars(text) });
        s
    }
}

} // verus!
