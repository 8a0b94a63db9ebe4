//! Picking the C sources and headers of a tree out of a directory walk.

use vstd::prelude::*;
use crate::text::str_chars;

verus! {

/// One entry of a directory walk: its path, and whether it is a regular file.
#[derive(Debug, Clone)]
pub struct WalkEntry {
    pub path: String,
    pub is_file: bool,
}

/// Index of the last `c` in `s`, or -1.
pub open spec fn last_index_of(s: Seq<char>, c: char) -> int
    decreases s.len(),
{
    if s.len() == 0 {
        -1
    } else if s.last() == c {
        s.len() - 1
    } else {
        last_index_of(s.drop_last(), c)
    }
}

/// The last component of a path: what follows its last `/`.
pub open spec fn file_name(p: Seq<char>) -> Seq<char> {
    p.subrange(last_index_of(p, '/') + 1, p.len() as int)
}

/// The extension of a path: what follows the last `.` of its file name,
/// when that dot is not the name's first character; `..` has none.
pub open spec fn extension(p: Seq<char>) -> Option<Seq<char>> {
    let n = file_name(p);
    let d = last_index_of(n, '.');
    if d <= 0 || n == seq!['.', '.'] {
        None
    } else {
        Some(n.subrange(d + 1, n.len() as int))
    }
}

/// Rank of a character in path order: the separator comes before all others.
pub open spec fn path_rank(c: char) -> int {
    if c == '/' { -1 } else { c as int }
}

/// Path order from position `i` on.
pub open spec fn path_lt_from(a: Seq<char>, b: Seq<char>, i: int) -> bool
    decreases a.len() - i,
{
    if i < 0 || i >= a.len() {
        0 <= i < b.len()
    } else if i >= b.len() {
        false
    } else if path_rank(a[i]) != path_rank(b[i]) {
        path_rank(a[i]) < path_rank(b[i])
    } else {
        path_lt_from(a, b, i + 1)
    }
}

/// Path order (that of `Path`, component by component): lexicographic on
/// the characters, with `/` below every other character.
pub open spec fn path_lt(a: Seq<char>, b: Seq<char>) -> bool {
    path_lt_from(a, b, 0)
}

proof fn lemma_rank_eq(x: char, y: char)
    ensures
        path_rank(x) == path_rank(y) <==> x == y,
{
    assert((x as u32) == (y as u32) ==> x == y);
}

proof fn lemma_path_lt_from_pair(a: Seq<char>, b: Seq<char>, i: int)
    requires
        0 <= i <= a.len(),
        i <= b.len(),
    ensures
        !(path_lt_from(a, b, i) && path_lt_from(b, a, i)),
        !path_lt_from(a, b, i) && !path_lt_from(b, a, i) ==> a.subrange(i, a.len() as int) == b.subrange(i, b.len() as int),
    decreases a.len() - i,
{
    if i < a.len() && i < b.len() {
        lemma_rank_eq(a[i], b[i]);
        lemma_path_lt_from_pair(a, b, i + 1);
        if !path_lt_from(a, b, i) && !path_lt_from(b, a, i) {
            assert(a.subrange(i, a.len() as int) =~= seq![a[i]] + a.subrange(i + 1, a.len() as int));
            assert(b.subrange(i, b.len() as int) =~= seq![b[i]] + b.subrange(i + 1, b.len() as int));
        }
    } else if !path_lt_from(a, b, i) && !path_lt_from(b, a, i) {
        assert(a.subrange(i, a.len() as int) =~= b.subrange(i, b.len() as int));
    }
}

proof fn lemma_path_lt_from_trans(a: Seq<char>, b: Seq<char>, c: Seq<char>, i: int)
    requires
        0 <= i <= a.len(),
        i <= b.len(),
        i <= c.len(),
        path_lt_from(a, b, i),
        path_lt_from(b, c, i),
    ensures
        path_lt_from(a, c, i),
    decreases a.len() - i,
{
    if i < a.len() {
        lemma_rank_eq(a[i], b[i]);
        lemma_rank_eq(b[i], c[i]);
        if path_rank(a[i]) == path_rank(b[i]) && path_rank(b[i]) == path_rank(c[i]) {
            lemma_path_lt_from_trans(a, b, c, i + 1);
        }
    }
}

/// Path order is a strict total order on character sequences.
pub proof fn lemma_path_lt_order(a: Seq<char>, b: Seq<char>, c: Seq<char>)
    ensures
        !(path_lt(a, b) && path_lt(b, a)),
        path_lt(a, b) && path_lt(b, c) ==> path_lt(a, c),
        !path_lt(a, b) && !path_lt(b, a) ==> a == b,
{
    lemma_path_lt_from_pair(a, b, 0);
    if path_lt(a, b) && path_lt(b, c) {
        lemma_path_lt_from_trans(a, b, c, 0);
    }
    assert(a.subrange(0, a.len() as int) =~= a);
    assert(b.subrange(0, b.len() as int) =~= b);
}

/// Characters of each path.
pub open spec fn paths_view(v: Seq<String>) -> Seq<Seq<char>> {
    v.map_values(|s: String| s@)
}

/// No path comes after a later one.
pub open spec fn paths_sorted(s: Seq<Seq<char>>) -> bool {
    forall|i: int, j: int| 0 <= i < j < s.len() ==> !path_lt(#[trigger] s[j], #[trigger] s[i])
}

/// The paths of the walked regular files whose extension is `ext`, in walk order.
pub open spec fn picked(walked: Seq<WalkEntry>, ext: Seq<char>) -> Seq<Seq<char>>
    decreases walked.len(),
{
    if walked.len() == 0 {
        Seq::empty()
    } else {
        let rest = picked(walked.drop_last(), ext);
        let e = walked.last();
        if e.is_file && extension(e.path@) == Some(ext) { rest.push(e.path@) } else { rest }
    }
}

proof fn lemma_last_index_range(s: Seq<char>, c: char)
    ensures
        -1 <= last_index_of(s, c) < s.len(),
        last_index_of(s, c) >= 0 ==> s[last_index_of(s, c)] == c,
    decreases s.len(),
{
    if s.len() > 0 && s.last() != c {
        lemma_last_index_range(s.drop_last(), c);
    }
}

proof fn lemma_rank_nonneg(c: char)
    ensures
        c != '/' ==> path_rank(c) >= 0,
{
    assert((c as int) >= 0);
}

/// Index of the last occurrence of `c` (the executable side of `last_index_of`).
fn last_index(s: &[char], c: char) -> (r: i64)
    requires
        s@.len() < i64::MAX,
    ensures
        r == last_index_of(s@, c),
        -1 <= r < s@.len(),
{
    proof { lemma_last_index_range(s@, c); }
    let mut i: usize = s.len();
    assert(s@.subrange(0, i as int) =~= s@);
    while i > 0
        invariant
            i <= s@.len(),
            s@.len() < i64::MAX,
            last_index_of(s@, c) == last_index_of(s@.subrange(0, i as int), c),
        decreases i,
    {
        let ghost t = s@.subrange(0, i as int);
        if s[i - 1] == c {
            return (i - 1) as i64;
        }
        assert(t.drop_last() =~= s@.subrange(0, i - 1));
        i = i - 1;
    }
    assert(s@.subrange(0, 0).len() == 0);
    -1
}

/// Whether the extension of `path` is `ext`.
fn has_extension(path: &[char], ext: &[char]) -> (r: bool)
    requires
        path@.len() < i64::MAX,
    ensures
        r == (extension(path@) == Some(ext@)),
{
    let s = last_index(path, '/');
    let start = (s + 1) as usize;
    let mut name: Vec<char> = Vec::new();
    let mut k: usize = start;
    while k < path.len()
        invariant
            start <= k <= path@.len(),
            name@ == path@.subrange(start as int, k as int),
        decreases path@.len() - k,
    {
        name.push(path[k]);
        k = k + 1;
        assert(name@ =~= path@.subrange(start as int, k as int));
    }
    assert(name@ == file_name(path@));
    let d = last_index(&name, '.');
    if d <= 0 {
        return false;
    }
    if name.len() == 2 && name[0] == '.' && name[1] == '.' {
        assert(name@ =~= seq!['.', '.']);
        return false;
    }
    assert(name@ != seq!['.', '.']);
    let from = (d + 1) as usize;
    if name.len() - from != ext.len() {
        assert(name@.subrange(from as int, name@.len() as int).len() != ext@.len());
        return false;
    }
    assert(extension(path@) == Some(name@.subrange(from as int, name@.len() as int)));
    let mut j: usize = 0;
    while j < ext.len()
        invariant
            from + ext@.len() == name@.len(),
            from <= name@.len() <= usize::MAX,
            extension(path@) == Some(name@.subrange(from as int, name@.len() as int)),
            j <= ext@.len(),
            forall|q: int| 0 <= q < j ==> name@[from + q] == ext@[q],
        decreases ext@.len() - j,
    {
        let at: usize = from + j;
        if name[at] != ext[j] {
            assert(name@.subrange(from as int, name@.len() as int)[j as int] != ext@[j as int]);
            return false;
        }
        j = j + 1;
    }
    assert(name@.subrange(from as int, name@.len() as int) =~= ext@);
    true
}

/// Whether `a` comes before `b` in path order.
fn path_less(a: &[char], b: &[char]) -> (r: bool)
    ensures
        r == path_lt(a@, b@),
{
    let mut i: usize = 0;
    while i < a.len() && i < b.len()
        invariant
            i <= a@.len(),
            i <= b@.len(),
            path_lt(a@, b@) == path_lt_from(a@, b@, i as int),
        decreases a@.len() - i,
    {
        let x = a[i];
        let y = b[i];
        if x != y {
            proof {
                lemma_rank_eq(x, y);
                lemma_rank_nonneg(x);
                lemma_rank_nonneg(y);
            }
            if x == '/' {
                return true;
            }
            if y == '/' {
                return false;
            }
            return x < y;
        }
        i = i + 1;
    }
    i < b.len()
}

/// Inserts `x` into the sorted `out`, after every path it does not precede.
fn insert_sorted(out: &mut Vec<String>, x: String)
    requires
        paths_sorted(paths_view(old(out)@)),
    ensures
        paths_sorted(paths_view(final(out)@)),
        paths_view(final(out)@).to_multiset() == paths_view(old(out)@).to_multiset().insert(x@),
{
    let xc = str_chars(x.as_str());
    let ghost s = paths_view(out@);
    let mut p: usize = out.len();
    let mut placed = false;
    while p > 0 && !placed
        invariant
            p <= out@.len(),
            s == paths_view(out@),
            paths_sorted(s),
            xc@ == x@,
            forall|k: int| p <= k < s.len() ==> path_lt(x@, #[trigger] s[k]),
            placed ==> p > 0 && !path_lt(x@, s[p - 1]),
        decreases p + if placed { 0int } else { 1int },
    {
        let yc = str_chars(out[p - 1].as_str());
        assert(yc@ == s[p - 1]);
        if path_less(&xc, &yc) {
            p = p - 1;
        } else {
            placed = true;
        }
    }
    out.insert(p, x);
    proof {
        let t = paths_view(out@);
        assert(t =~= s.insert(p as int, x@));
        assert forall|i: int, j: int| 0 <= i < j < t.len() implies !path_lt(#[trigger] t[j], #[trigger] t[i]) by {
            if j < p {
                assert(t[i] == s[i] && t[j] == s[j]);
            } else if j == p {
                assert(t[i] == s[i] && t[j] == x@);
                lemma_path_lt_order(x@, s[i], s[p - 1]);
                lemma_path_lt_order(s[i], s[p - 1], x@);
                lemma_path_lt_order(s[p - 1], s[i], x@);
                if i < p - 1 {
                    assert(!path_lt(s[p - 1], s[i]));
                }
            } else if i < p {
                assert(t[i] == s[i] && t[j] == s[j - 1]);
            } else if i == p {
                assert(t[i] == x@ && t[j] == s[j - 1]);
                assert(path_lt(x@, s[j - 1]));
                lemma_path_lt_order(x@, s[j - 1], x@);
            } else {
                assert(t[i] == s[i - 1] && t[j] == s[j - 1]);
            }
        }
        vstd::seq_lib::to_multiset_insert(s, p as int, x@);
    }
}

/// The walked regular files with extension `ext`, in path order; for a
/// root that is itself a file, that file when its extension is `ext`.
fn discover_by_extension(root: &str, root_is_file: bool, walked: &[WalkEntry], ext: &str) -> (r: Vec<String>)
    requires
        root@.len() < i64::MAX,
        forall|k: int| 0 <= k < walked@.len() ==> (#[trigger] walked@[k]).path@.len() < i64::MAX,
    ensures
        root_is_file ==> paths_view(r@) == if extension(root@) == Some(ext@) { seq![root@] } else { Seq::<Seq<char>>::empty() },
        !root_is_file ==> paths_sorted(paths_view(r@)) && paths_view(r@).to_multiset() == picked(walked@, ext@).to_multiset(),
{
    let e = str_chars(ext);
    if root_is_file {
        let rc = str_chars(root);
        let mut r: Vec<String> = Vec::new();
        if has_extension(&rc, &e) {
            r.push(root.to_owned());
            assert(paths_view(r@) =~= seq![root@]);
        } else {
            assert(paths_view(r@) =~= Seq::<Seq<char>>::empty());
        }
        return r;
    }
    let mut out: Vec<String> = Vec::new();
    let mut k: usize = 0;
    assert(walked@.take(0) =~= Seq::<WalkEntry>::empty());
    assert(paths_view(out@) =~= Seq::<Seq<char>>::empty());
    while k < walked.len()
        invariant
            k <= walked@.len(),
            e@ == ext@,
            forall|q: int| 0 <= q < walked@.len() ==> (#[trigger] walked@[q]).path@.len() < i64::MAX,
            paths_sorted(paths_view(out@)),
            paths_view(out@).to_multiset() == picked(walked@.take(k as int), ext@).to_multiset(),
        decreases walked@.len() - k,
    {
        let ghost w = walked@.take(k as int + 1);
        assert(w.drop_last() =~= walked@.take(k as int));
        assert(w.last() == walked@[k as int]);
        let entry = &walked[k];
        if entry.is_file {
            let pc = str_chars(entry.path.as_str());
            if has_extension(&pc, &e) {
                insert_sorted(&mut out, entry.path.clone());
                proof {
                    vstd::seq_lib::to_multiset_build(picked(walked@.take(k as int), ext@), entry.path@);
                }
            }
        }
        k = k + 1;
    }
    assert(walked@.take(walked@.len() as int) =~= walked@);
    out
}

/// The `.c` files of the tree rooted at `root`, in path order, from the
/// entries of a walk of that tree; a `.c` root file alone.
pub fn discover_c_files(root: &str, root_is_file: bool, walked: &[WalkEntry]) -> (r: Vec<String>)
    requires
        root@.len() < i64::MAX,
        forall|k: int| 0 <= k < walked@.len() ==> (#[trigger] walked@[k]).path@.len() < i64::MAX,
    ensures
        root_is_file ==> paths_view(r@) == if extension(root@) == Some(seq!['c']) { seq![root@] } else { Seq::<Seq<char>>::empty() },
        !root_is_file ==> paths_sorted(paths_view(r@)) && paths_view(r@).to_multiset() == picked(walked@, seq!['c']).to_multiset(),
{
    proof {
        reveal_strlit("c");
        assert("c"@ =~= seq!['c']);
    }
    discover_by_extension(root, root_is_file, walked, "c")
}

/// The `.h` files of the analyzed tree (for struct layouts; not the
/// external include directories), in path order, from the entries of a
/// walk of that tree; a `.h` root file alone.
pub fn discover_header_files(root: &str, root_is_file: bool, walked: &[WalkEntry]) -> (r: Vec<String>)
    requires
        root@.len() < i64::MAX,
        forall|k: int| 0 <= k < walked@.len() ==> (#[trigger] walked@[k]).path@.len() < i64::MAX,
    ensures
        root_is_file ==> paths_view(r@) == if extension(root@) == Some(seq!['h']) { seq![root@] } else { Seq::<Seq<char>>::empty() },
        !root_is_file ==> paths_sorted(paths_view(r@)) && paths_view(r@).to_multiset() == picked(walked@, seq!['h']).to_multiset(),
{
    proof {
        reveal_strlit("h");
        assert("h"@ =~= seq!['h']);
    }
    discover_by_extension(root, root_is_file, walked, "h")
}

} // verus!
