//! Source text for indexing: preprocessed where the configuration or the
//! include graph calls for it, raw otherwise, and kept per file path.

use vstd::prelude::*;
use crate::options::{PreprocessOptions, SourceFile, define_entries, defines_len};
use crate::preprocessor::{DiagnosticSeverity, Diagnostic, PreprocessError, PreprocessResult, preprocess_file, read_failed_prefix, no_such_source_suffix};
use crate::text::{str_chars, chars_to_string, chars_eq};

verus! {

/// What the include scan found out about the analyzed tree: its root, the
/// files that need the preprocessor, and the raw text of the files it read.
#[derive(Debug)]
pub struct IncludeGraph {
    pub root: String,
    pub needs_preprocess: Vec<String>,
    pub source_cache: Vec<SourceFile>,
}

impl Default for IncludeGraph {
    fn default() -> (g: IncludeGraph)
        ensures
            g.root@.len() == 0,
            g.needs_preprocess@.len() == 0,
            g.source_cache@.len() == 0,
    {
        IncludeGraph { root: String::new(), needs_preprocess: Vec::new(), source_cache: Vec::new() }
    }
}

/// A blank: space or tab.
pub open spec fn blank(c: char) -> bool {
    c == ' ' || c == '\t'
}

/// The first position at or after `i` that holds no blank.
pub open spec fn skip_blanks(t: Seq<char>, i: int) -> int
    decreases t.len() - i,
{
    if 0 <= i < t.len() && blank(t[i]) {
        skip_blanks(t, i + 1)
    } else {
        i
    }
}

/// `include`.
pub open spec fn include_word() -> Seq<char> {
    seq!['i', 'n', 'c', 'l', 'u', 'd', 'e']
}

/// A line starts at `i` whose first word, after `#` and blanks, is
/// `include`.
pub open spec fn include_line_at(t: Seq<char>, i: int) -> bool {
    &&& (i == 0 || (0 < i <= t.len() && t[i - 1] == '\n'))
    &&& 0 <= skip_blanks(t, i) < t.len()
    &&& t[skip_blanks(t, i)] == '#'
    &&& skip_blanks(t, skip_blanks(t, i) + 1) + 7 <= t.len()
    &&& t.subrange(skip_blanks(t, skip_blanks(t, i) + 1), skip_blanks(t, skip_blanks(t, i) + 1) + 7) == include_word()
}

/// The text has an `#include` line.
pub open spec fn has_include_line(t: Seq<char>) -> bool {
    exists|i: int| 0 <= i <= t.len() && #[trigger] include_line_at(t, i)
}

/// Paths of the sources that have an `#include` line, in order.
pub open spec fn including_paths(s: Seq<SourceFile>) -> Seq<Seq<char>>
    decreases s.len(),
{
    if s.len() == 0 {
        Seq::empty()
    } else if has_include_line(s.last().text@) {
        including_paths(s.drop_last()).push(s.last().path@)
    } else {
        including_paths(s.drop_last())
    }
}

proof fn lemma_skip_blanks(t: Seq<char>, i: int)
    requires
        0 <= i,
    ensures
        i <= skip_blanks(t, i),
        i <= t.len() ==> skip_blanks(t, i) <= t.len(),
    decreases t.len() - i,
{
    if 0 <= i < t.len() && blank(t[i]) {
        lemma_skip_blanks(t, i + 1);
    }
}

fn skip_blanks_exec(t: &Vec<char>, i: usize) -> (r: usize)
    requires
        i <= t@.len(),
    ensures
        r == skip_blanks(t@, i as int),
        i <= r <= t@.len(),
{
    let mut j = i;
    while j < t.len() && (t[j] == ' ' || t[j] == '\t')
        invariant
            i <= j <= t@.len(),
            skip_blanks(t@, j as int) == skip_blanks(t@, i as int),
        decreases t@.len() - j,
    {
        j = j + 1;
    }
    j
}

fn include_line_exec(t: &Vec<char>, i: usize) -> (r: bool)
    requires
        i <= t@.len(),
    ensures
        r == include_line_at(t@, i as int),
{
    if i > 0 && t[i - 1] != '\n' {
        return false;
    }
    let h = skip_blanks_exec(t, i);
    if h >= t.len() || t[h] != '#' {
        return false;
    }
    let w = skip_blanks_exec(t, h + 1);
    if w > t.len() || t.len() - w < 7 {
        return false;
    }
    let ok = t[w] == 'i' && t[w + 1] == 'n' && t[w + 2] == 'c' && t[w + 3] == 'l'
        && t[w + 4] == 'u' && t[w + 5] == 'd' && t[w + 6] == 'e';
    proof {
        if ok {
            assert(t@.subrange(w as int, w + 7) =~= include_word());
        } else {
            if t@.subrange(w as int, w + 7) == include_word() {
                assert(t@.subrange(w as int, w + 7)[0] == 'i');
                assert(t@.subrange(w as int, w + 7)[1] == 'n');
                assert(t@.subrange(w as int, w + 7)[2] == 'c');
                assert(t@.subrange(w as int, w + 7)[3] == 'l');
                assert(t@.subrange(w as int, w + 7)[4] == 'u');
                assert(t@.subrange(w as int, w + 7)[5] == 'd');
                assert(t@.subrange(w as int, w + 7)[6] == 'e');
            }
        }
    }
    ok
}

/// Whether the text has an `#include` line.
pub fn has_include(t: &Vec<char>) -> (r: bool)
    ensures
        r == has_include_line(t@),
{
    let mut i: usize = 0;
    loop
        invariant
            i <= t@.len(),
            forall|j: int| 0 <= j < i ==> !#[trigger] include_line_at(t@, j),
        decreases t@.len() - i,
    {
        if include_line_exec(t, i) {
            return true;
        }
        if i == t.len() {
            proof {
                assert(forall|j: int| 0 <= j <= t@.len() ==> !#[trigger] include_line_at(t@, j));
            }
            return false;
        }
        i = i + 1;
    }
}

/// The include scan of a tree: its root, its sources (path and text), and
/// as files that need the preprocessor, those with an `#include` line, in
/// the order of `sources`.
pub fn scan_includes(root: &str, sources: &Vec<SourceFile>) -> (g: IncludeGraph)
    ensures
        g.root@ == root@,
        strings_view(g.needs_preprocess@) == including_paths(sources@),
        g.source_cache@.len() == sources@.len(),
        forall|k: int| 0 <= k < sources@.len() ==> (#[trigger] g.source_cache@[k]).path@ == sources@[k].path@
            && g.source_cache@[k].text@ == sources@[k].text@,
{
    let mut needs: Vec<String> = Vec::new();
    let mut cache: Vec<SourceFile> = Vec::new();
    let mut k: usize = 0;
    while k < sources.len()
        invariant
            k <= sources@.len(),
            strings_view(needs@) == including_paths(sources@.subrange(0, k as int)),
            cache@.len() == k,
            forall|j: int| 0 <= j < k ==> (#[trigger] cache@[j]).path@ == sources@[j].path@
                && cache@[j].text@ == sources@[j].text@,
        decreases sources@.len() - k,
    {
        let ghost sub = sources@.subrange(0, k + 1);
        proof {
            assert(sub.drop_last() =~= sources@.subrange(0, k as int));
            assert(sub.last() == sources@[k as int]);
        }
        let mut p: Vec<char> = Vec::new();
        crate::text::push_all(&mut p, sources[k].path.as_slice());
        let mut t: Vec<char> = Vec::new();
        crate::text::push_all(&mut t, sources[k].text.as_slice());
        if has_include(&sources[k].text) {
            let ghost n0 = needs@;
            needs.push(chars_to_string(p.as_slice()));
            proof { assert(strings_view(needs@) =~= strings_view(n0).push(p@)); }
        }
        cache.push(SourceFile { path: p, text: t });
        k = k + 1;
    }
    proof { assert(sources@.subrange(0, sources@.len() as int) =~= sources@); }
    IncludeGraph { root: root.to_owned(), needs_preprocess: needs, source_cache: cache }
}

/// Characters of each string.
pub open spec fn strings_view(v: Seq<String>) -> Seq<Seq<char>> {
    v.map_values(|s: String| s@)
}

/// Whether indexing `path` goes through the preprocessor: always when
/// defines or include paths are configured, else when the include scan
/// marked the file.
pub open spec fn needs_preprocessing(path: Seq<char>, opts: PreprocessOptions, graph: IncludeGraph) -> bool {
    define_entries(opts.defines).len() > 0 || opts.include_paths@.len() > 0
        || strings_view(graph.needs_preprocess@).contains(path)
}

/// Whether `path` is among `paths`.
fn strings_contain(paths: &Vec<String>, path: &[char]) -> (r: bool)
    ensures
        r == strings_view(paths@).contains(path@),
{
    let mut k: usize = 0;
    while k < paths.len()
        invariant
            k <= paths@.len(),
            forall|j: int| 0 <= j < k ==> (#[trigger] paths@[j])@ != path@,
        decreases paths@.len() - k,
    {
        let pc = str_chars(paths[k].as_str());
        if chars_eq(&pc, path) {
            assert(strings_view(paths@)[k as int] == path@);
            return true;
        }
        k = k + 1;
    }
    proof {
        if strings_view(paths@).contains(path@) {
            let j = choose|j: int| 0 <= j < strings_view(paths@).len() && #[trigger] strings_view(paths@)[j] == path@;
            assert(paths@[j]@ == path@);
        }
    }
    false
}

/// Whether indexing `path` goes through the preprocessor.
pub fn should_preprocess(path: &str, opts: &PreprocessOptions, graph: &IncludeGraph) -> (r: bool)
    ensures
        r == needs_preprocessing(path@, *opts, *graph),
{
    if defines_len(&opts.defines) > 0 || opts.include_paths.len() > 0 {
        return true;
    }
    let p = str_chars(path);
    strings_contain(&graph.needs_preprocess, &p)
}

/// Index of the first source stored under `path` at or after `k`, or -1.
pub open spec fn first_source(s: Seq<SourceFile>, path: Seq<char>, k: int) -> int
    decreases s.len() - k,
{
    if k < 0 || k >= s.len() {
        -1
    } else if s[k].path@ == path {
        k
    } else {
        first_source(s, path, k + 1)
    }
}

/// Text stored under `path` (its first entry), if any.
pub open spec fn stored_text(s: Seq<SourceFile>, path: Seq<char>) -> Option<Seq<char>> {
    let k = first_source(s, path, 0);
    if k >= 0 { Some(s[k].text@) } else { None }
}

proof fn lemma_first_source(s: Seq<SourceFile>, path: Seq<char>, k: int)
    requires
        0 <= k,
    ensures
        first_source(s, path, k) == -1 || k <= first_source(s, path, k) < s.len(),
        first_source(s, path, k) >= 0 ==> s[first_source(s, path, k)].path@ == path,
    decreases s.len() - k,
{
    if k < s.len() && s[k].path@ != path {
        lemma_first_source(s, path, k + 1);
    }
}

/// The text stored under `path`, if any.
fn find_stored(s: &Vec<SourceFile>, path: &[char]) -> (r: Option<Vec<char>>)
    ensures
        match r {
            Some(t) => stored_text(s@, path@) == Some(t@),
            None => stored_text(s@, path@) is None,
        },
{
    proof { lemma_first_source(s@, path@, 0); }
    let mut k: usize = 0;
    while k < s.len()
        invariant
            k <= s@.len(),
            first_source(s@, path@, 0) == first_source(s@, path@, k as int),
        decreases s@.len() - k,
    {
        if chars_eq(&s[k].path, path) {
            let mut t: Vec<char> = Vec::new();
            crate::text::push_all(&mut t, &s[k].text);
            return Some(t);
        }
        k = k + 1;
    }
    None
}

/// Raw text of `path` for indexing: the include scan's copy, else the file
/// as stored in the options; an error when neither has it.
pub open spec fn raw_text(path: Seq<char>, graph: IncludeGraph, opts: PreprocessOptions) -> Result<Seq<char>, Seq<char>> {
    match stored_text(graph.source_cache@, path) {
        Some(t) => Ok(t),
        None => match stored_text(opts.source_cache@, path) {
            Some(t) => Ok(t),
            None => Err(read_failed_prefix() + path + no_such_source_suffix()),
        },
    }
}

/// Characters of a text result.
pub open spec fn result_view(r: Result<String, String>) -> Result<Seq<char>, Seq<char>> {
    match r {
        Ok(t) => Ok(t@),
        Err(e) => Err(e@),
    }
}

/// The raw text of `path` for indexing.
fn read_raw(path: &[char], graph: &IncludeGraph, opts: &PreprocessOptions) -> (r: Result<String, String>)
    ensures
        r is Ok <==> raw_text(path@, *graph, *opts) is Ok,
        r is Ok ==> result_view(r) == raw_text(path@, *graph, *opts),
        r is Err ==> r->Err_0@ == read_failed_prefix() + path@ + no_such_source_suffix(),
{
    match find_stored(&graph.source_cache, path) {
        Some(t) => Ok(chars_to_string(&t)),
        None => match find_stored(&opts.source_cache, path) {
            Some(t) => Ok(chars_to_string(&t)),
            None => {
                let mut p: Vec<char> = Vec::new();
                crate::text::push_all(&mut p, path);
                let e = PreprocessError::Io { path: p };
                Err(chars_to_string(&e.text()))
            },
        },
    }
}

/// Text of `path` for indexing: preprocessed when `should_preprocess` says
/// so (a run that stopped early or reported errors keeps the text it wrote
/// up to there, whose line map stays consistent), raw otherwise.
fn read_index_source(path: &str, graph: &IncludeGraph, opts: &PreprocessOptions) -> (r: Result<String, String>)
    ensures
        !needs_preprocessing(path@, *opts, *graph) ==> result_view(r) == raw_text(path@, *graph, *opts),
        needs_preprocessing(path@, *opts, *graph) ==> (r is Ok <==> crate::preprocessor::source_paths(opts.source_cache@).contains(path@)),
        needs_preprocessing(path@, *opts, *graph) && r is Err ==> r->Err_0@ == read_failed_prefix() + path@ + no_such_source_suffix(),
{
    if !should_preprocess(path, opts, graph) {
        let p = str_chars(path);
        return read_raw(&p, graph, opts);
    }
    match preprocess_file(path, opts) {
        Err(e) => Err(chars_to_string(&e.text())),
        Ok(res) => Ok(res.output),
    }
}

/// Text cached for `path` (its first entry), if any.
pub open spec fn cached_text(entries: Seq<(String, String)>, path: Seq<char>) -> Option<Seq<char>>
    decreases entries.len(),
{
    if entries.len() == 0 {
        None
    } else if entries[0].0@ == path {
        Some(entries[0].1@)
    } else {
        cached_text(entries.drop_first(), path)
    }
}

/// Indexing text per file path, filled on first use.
#[derive(Debug)]
pub struct IndexSourceCache {
    pub entries: Vec<(String, String)>,
}

impl Default for IndexSourceCache {
    fn default() -> (c: IndexSourceCache)
        ensures
            c.entries@.len() == 0,
    {
        IndexSourceCache::new()
    }
}

impl IndexSourceCache {
    /// An empty cache.
    pub fn new() -> (c: IndexSourceCache)
        ensures
            c.entries@.len() == 0,
    {
        IndexSourceCache { entries: Vec::new() }
    }

    /// The cached text of `path`, if any.
    fn lookup(&self, path: &[char]) -> (r: Option<String>)
        ensures
            match r {
                Some(t) => cached_text(self.entries@, path@) == Some(t@),
                None => cached_text(self.entries@, path@) is None,
            },
    {
        let mut k: usize = 0;
        assert(self.entries@.subrange(0, self.entries@.len() as int) =~= self.entries@);
        while k < self.entries.len()
            invariant
                k <= self.entries@.len(),
                cached_text(self.entries@, path@) == cached_text(self.entries@.subrange(k as int, self.entries@.len() as int), path@),
            decreases self.entries@.len() - k,
        {
            let ghost rest = self.entries@.subrange(k as int, self.entries@.len() as int);
            assert(rest.drop_first() =~= self.entries@.subrange(k + 1, self.entries@.len() as int));
            let kc = str_chars(self.entries[k].0.as_str());
            if chars_eq(&kc, path) {
                return Some(self.entries[k].1.clone());
            }
            k = k + 1;
        }
        None
    }

    /// The indexing text of `path` (a canonical path): the cached one when
    /// there is one; else it is read (see `should_preprocess`), and kept
    /// when the read succeeds.
    pub fn get_or_preprocess(&mut self, path: &str, graph: &IncludeGraph, eff_opts: &PreprocessOptions)
        -> (r: Result<String, String>)
        ensures
            cached_text(old(self).entries@, path@) is Some ==> r == Ok::<String, String>(r->Ok_0)
                && Some(r->Ok_0@) == cached_text(old(self).entries@, path@) && final(self).entries@ == old(self).entries@,
            cached_text(old(self).entries@, path@) is None && !needs_preprocessing(path@, *eff_opts, *graph)
                ==> result_view(r) == raw_text(path@, *graph, *eff_opts),
            cached_text(old(self).entries@, path@) is None && needs_preprocessing(path@, *eff_opts, *graph)
                ==> (r is Ok <==> crate::preprocessor::source_paths(eff_opts.source_cache@).contains(path@)),
            cached_text(old(self).entries@, path@) is None && r is Ok
                ==> final(self).entries@ == old(self).entries@.push(final(self).entries@.last())
                    && final(self).entries@.last().0@ == path@ && final(self).entries@.last().1@ == r->Ok_0@,
            r is Err ==> final(self).entries@ == old(self).entries@
                && r->Err_0@ == read_failed_prefix() + path@ + no_such_source_suffix(),
            r is Ok ==> cached_text(final(self).entries@, path@) == Some(r->Ok_0@),
    {
        let p = str_chars(path);
        if let Some(t) = self.lookup(&p) {
            return Ok(t);
        }
        let r = read_index_source(path, graph, eff_opts);
        match r {
            Ok(text) => {
                let ghost e0 = self.entries@;
                self.entries.push((path.to_owned(), text.clone()));
                proof { lemma_cached_push(e0, path@, text@); }
                Ok(text)
            },
            Err(e) => Err(e),
        }
    }
}

/// Appending an entry changes the cached text of its path only, and only
/// when that path had none.
pub proof fn lemma_cached_push_any(e: Seq<(String, String)>, x: (String, String), q: Seq<char>)
    ensures
        cached_text(e, q) is Some ==> cached_text(e.push(x), q) == cached_text(e, q),
        cached_text(e, q) is None && x.0@ == q ==> cached_text(e.push(x), q) == Some(x.1@),
        cached_text(e, q) is None && x.0@ != q ==> cached_text(e.push(x), q) is None,
    decreases e.len(),
{
    if e.len() == 0 {
        assert(e.push(x)[0] == x);
        assert(e.push(x).drop_first().len() == 0);
        assert(cached_text(e.push(x).drop_first(), q) is None);
    } else {
        lemma_cached_push_any(e.drop_first(), x, q);
        assert(e.push(x).drop_first() =~= e.drop_first().push(x));
        assert(e.push(x)[0] == e[0]);
    }
}

proof fn lemma_cached_push(e: Seq<(String, String)>, path: Seq<char>, t: Seq<char>)
    requires
        cached_text(e, path) is None,
    ensures
        forall|x: (String, String)| x.0@ == path && x.1@ == t ==> cached_text(#[trigger] e.push(x), path) == Some(t),
    decreases e.len(),
{
    assert forall|x: (String, String)| x.0@ == path && x.1@ == t implies cached_text(#[trigger] e.push(x), path) == Some(t) by {
        if e.len() == 0 {
            assert(e.push(x)[0] == x);
        } else {
            lemma_cached_push(e.drop_first(), path, t);
            assert(e.push(x).drop_first() =~= e.drop_first().push(x));
        }
    }
}

} // verus!
