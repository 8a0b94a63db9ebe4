//! Evaluation of `#if` / `#elif` conditions after macro substitution.

use vstd::prelude::*;
use crate::macros::{MacroDef, macro_contains, macro_defined};
use crate::text::{copy_chars, white, char_is_whitespace};
use indexmap::IndexMap;

verus! {

/// White space as `str::trim` sees it (Unicode's White_Space property).
pub open spec fn is_ws(c: char) -> bool {
    if (c as u32) < 128 {
        c == ' ' || c == '\t' || c == '\n' || c == '\r' || c == '\x0b' || c == '\x0c'
    } else {
        white(c)
    }
}

/// `s` without leading whitespace.
pub open spec fn trim_start(s: Seq<char>) -> Seq<char>
    decreases s.len(),
{
    if s.len() > 0 && is_ws(s[0]) {
        trim_start(s.drop_first())
    } else {
        s
    }
}

/// `s` without trailing whitespace.
pub open spec fn trim_end(s: Seq<char>) -> Seq<char>
    decreases s.len(),
{
    if s.len() > 0 && is_ws(s.last()) {
        trim_end(s.drop_last())
    } else {
        s
    }
}

/// `s` without leading and trailing whitespace.
pub open spec fn trim(s: Seq<char>) -> Seq<char> {
    trim_end(trim_start(s))
}

/// `s` without any leading copies of `c`.
pub open spec fn trim_start_char(s: Seq<char>, c: char) -> Seq<char>
    decreases s.len(),
{
    if s.len() > 0 && s[0] == c {
        trim_start_char(s.drop_first(), c)
    } else {
        s
    }
}

/// `s` without any trailing copies of `c`.
pub open spec fn trim_end_char(s: Seq<char>, c: char) -> Seq<char>
    decreases s.len(),
{
    if s.len() > 0 && s.last() == c {
        trim_end_char(s.drop_last(), c)
    } else {
        s
    }
}

pub open spec fn starts_with(s: Seq<char>, p: Seq<char>) -> bool {
    p.len() <= s.len() && s.subrange(0, p.len() as int) == p
}

/// `s` without any leading copies of the nonempty pattern `p`.
pub open spec fn trim_start_pat(s: Seq<char>, p: Seq<char>) -> Seq<char>
    decreases s.len(),
{
    if p.len() > 0 && starts_with(s, p) {
        trim_start_pat(s.subrange(p.len() as int, s.len() as int), p)
    } else {
        s
    }
}

/// First position at or after `k` where `p` occurs in `s`, or -1.
pub open spec fn find_from(s: Seq<char>, p: Seq<char>, k: int) -> int
    decreases s.len() + 1 - k,
{
    if k < 0 || k + p.len() > s.len() {
        -1
    } else if s.subrange(k, k + p.len()) == p {
        k
    } else {
        find_from(s, p, k + 1)
    }
}

pub proof fn lemma_trim_start(s: Seq<char>)
    ensures
        trim_start(s).len() <= s.len(),
        trim_start(s) == s.subrange(s.len() - trim_start(s).len(), s.len() as int),
    decreases s.len(),
{
    if s.len() > 0 && is_ws(s[0]) {
        lemma_trim_start(s.drop_first());
        assert(s.drop_first().subrange(s.drop_first().len() - trim_start(s).len(), s.drop_first().len() as int)
            =~= s.subrange(s.len() - trim_start(s).len(), s.len() as int));
    } else {
        assert(s.subrange(0, s.len() as int) =~= s);
    }
}

pub proof fn lemma_trim_end(s: Seq<char>)
    ensures
        trim_end(s).len() <= s.len(),
        trim_end(s) == s.subrange(0, trim_end(s).len() as int),
    decreases s.len(),
{
    if s.len() > 0 && is_ws(s.last()) {
        lemma_trim_end(s.drop_last());
        assert(s.drop_last().subrange(0, trim_end(s).len() as int) =~= s.subrange(0, trim_end(s).len() as int));
    } else {
        assert(s.subrange(0, s.len() as int) =~= s);
    }
}

pub proof fn lemma_trim_len(s: Seq<char>)
    ensures
        trim(s).len() <= s.len(),
{
    lemma_trim_start(s);
    lemma_trim_end(trim_start(s));
}

pub proof fn lemma_find_from(s: Seq<char>, p: Seq<char>, k: int)
    requires
        0 <= k,
    ensures
        find_from(s, p, k) == -1 || (k <= find_from(s, p, k) && find_from(s, p, k) + p.len() <= s.len()),
    decreases s.len() + 1 - k,
{
    if k + p.len() <= s.len() && s.subrange(k, k + p.len()) != p {
        lemma_find_from(s, p, k + 1);
    }
}

/// Value of a nonempty run of decimal digits.
pub open spec fn digits_value(s: Seq<char>) -> int
    decreases s.len(),
{
    if s.len() == 0 {
        0
    } else {
        digits_value(s.drop_last()) * 10 + (s.last() as int - '0' as int)
    }
}

pub open spec fn all_digits(s: Seq<char>) -> bool {
    forall|k: int| 0 <= k < s.len() ==> '0' <= #[trigger] s[k] && s[k] <= '9'
}

/// Integer denoted by `s` as Rust's `i64` parser reads it (optional sign,
/// then at least one digit), or `None` if `s` is no such integer or it does
/// not fit in `i64`.
pub open spec fn parse_i64(s: Seq<char>) -> Option<int> {
    let neg = s.len() > 0 && s[0] == '-';
    let signed = s.len() > 0 && (s[0] == '-' || s[0] == '+');
    let digits = if signed { s.drop_first() } else { s };
    if digits.len() == 0 || !all_digits(digits) {
        None
    } else {
        let v = if neg { -digits_value(digits) } else { digits_value(digits) };
        if i64::MIN <= v <= i64::MAX { Some(v) } else { None }
    }
}

pub open spec fn ascii_lower(c: char) -> char {
    if 'A' <= c && c <= 'Z' { (((c as u8) + 32) as u8) as char } else { c }
}

/// ASCII case-insensitive equality.
pub open spec fn eq_ignore_case(a: Seq<char>, b: Seq<char>) -> bool {
    a.len() == b.len() && forall|k: int| 0 <= k < a.len() ==> ascii_lower(#[trigger] a[k]) == ascii_lower(b[k])
}

pub open spec fn alnum_or_underscore(c: char) -> bool {
    ('a' <= c && c <= 'z') || ('A' <= c && c <= 'Z') || ('0' <= c && c <= '9') || c == '_'
}

/// Value of one condition operand: `0`/`false` is 0, `1`/`true` is 1, an
/// `i64` literal is its value, any other nonempty word is 1, anything else 0.
pub open spec fn atom_value(atom: Seq<char>) -> int {
    let t = trim(atom);
    if t == seq!['0'] || eq_ignore_case(t, seq!['f', 'a', 'l', 's', 'e']) {
        0
    } else if t == seq!['1'] || eq_ignore_case(t, seq!['t', 'r', 'u', 'e']) {
        1
    } else if parse_i64(t) is Some {
        parse_i64(t)->0
    } else if t.len() > 0 && forall|k: int| 0 <= k < t.len() ==> alnum_or_underscore(#[trigger] t[k]) {
        1
    } else {
        0
    }
}

pub open spec fn defined_open() -> Seq<char> {
    seq!['d', 'e', 'f', 'i', 'n', 'e', 'd', '(']
}

pub open spec fn defined_space_open() -> Seq<char> {
    seq!['d', 'e', 'f', 'i', 'n', 'e', 'd', ' ', '(']
}

pub open spec fn defined_word() -> Seq<char> {
    seq!['d', 'e', 'f', 'i', 'n', 'e', 'd']
}

/// Name tested by a `defined(NAME)` condition.
pub open spec fn defined_operand(t: Seq<char>) -> Seq<char> {
    trim(trim_end_char(trim_start_char(trim(trim_start_pat(t, defined_word())), '('), ')'))
}

/// Truth of a preprocessor condition: `!c`, `defined(NAME)`, then the
/// first `&&`, `||`, `==`, `!=` splits it (in that priority), else the
/// operand's value is nonzero.
pub open spec fn condition_holds(cond: Seq<char>, t: IndexMap<Vec<char>, MacroDef>) -> bool
    decreases cond.len(),
{
    let c = trim(cond);
    if c.len() == 0 {
        false
    } else if c[0] == '!' {
        proof {
            lemma_trim_len(cond);
        }
        !condition_holds(c.drop_first(), t)
    } else if starts_with(c, defined_open()) || starts_with(c, defined_space_open()) {
        macro_defined(t, defined_operand(c))
    } else if find_from(c, seq!['&', '&'], 0) >= 0 {
        let k = find_from(c, seq!['&', '&'], 0);
        proof {
            lemma_trim_len(cond);
            lemma_find_from(c, seq!['&', '&'], 0);
        }
        condition_holds(c.subrange(0, k), t) && condition_holds(c.subrange(k + 2, c.len() as int), t)
    } else if find_from(c, seq!['|', '|'], 0) >= 0 {
        let k = find_from(c, seq!['|', '|'], 0);
        proof {
            lemma_trim_len(cond);
            lemma_find_from(c, seq!['|', '|'], 0);
        }
        condition_holds(c.subrange(0, k), t) || condition_holds(c.subrange(k + 2, c.len() as int), t)
    } else if find_from(c, seq!['=', '='], 0) >= 0 {
        let k = find_from(c, seq!['=', '='], 0);
        atom_value(c.subrange(0, k)) == atom_value(c.subrange(k + 2, c.len() as int))
    } else if find_from(c, seq!['!', '='], 0) >= 0 {
        let k = find_from(c, seq!['!', '='], 0);
        atom_value(c.subrange(0, k)) != atom_value(c.subrange(k + 2, c.len() as int))
    } else {
        atom_value(c) != 0
    }
}

fn is_ws_exec(c: char) -> (r: bool)
    ensures
        r == is_ws(c),
{
    char_is_whitespace(c)
}

/// `s` without leading and trailing whitespace.
pub fn trim_chars(s: &[char]) -> (r: Vec<char>)
    ensures
        r@ == trim(s@),
{
    let n = s.len();
    let mut a: usize = 0;
    assert(s@.subrange(0, n as int) =~= s@);
    while a < n && is_ws_exec(s[a])
        invariant
            n == s@.len(),
            a <= n,
            trim_start(s@) == trim_start(s@.subrange(a as int, n as int)),
        decreases n - a,
    {
        assert(s@.subrange(a as int, n as int).drop_first() =~= s@.subrange(a + 1, n as int));
        a = a + 1;
    }
    assert(trim_start(s@.subrange(a as int, n as int)) == s@.subrange(a as int, n as int));
    let ghost ts = s@.subrange(a as int, n as int);
    let mut b: usize = n;
    while b > a && is_ws_exec(s[b - 1])
        invariant
            n == s@.len(),
            a <= b <= n,
            ts == s@.subrange(a as int, n as int),
            trim_end(ts) == trim_end(s@.subrange(a as int, b as int)),
        decreases b - a,
    {
        assert(s@.subrange(a as int, b as int).drop_last() =~= s@.subrange(a as int, b - 1));
        b = b - 1;
    }
    let mut r: Vec<char> = Vec::new();
    let mut k = a;
    while k < b
        invariant
            a <= k <= b <= n,
            n == s@.len(),
            r@ == s@.subrange(a as int, k as int),
        decreases b - k,
    {
        r.push(s[k]);
        k = k + 1;
        assert(r@ =~= s@.subrange(a as int, k as int));
    }
    r
}

/// `s` without leading copies of `c`.
fn trim_start_char_exec(s: &[char], c: char) -> (r: Vec<char>)
    ensures
        r@ == trim_start_char(s@, c),
{
    let n = s.len();
    let mut a: usize = 0;
    assert(s@.subrange(0, n as int) =~= s@);
    while a < n && s[a] == c
        invariant
            n == s@.len(),
            a <= n,
            trim_start_char(s@, c) == trim_start_char(s@.subrange(a as int, n as int), c),
        decreases n - a,
    {
        assert(s@.subrange(a as int, n as int).drop_first() =~= s@.subrange(a + 1, n as int));
        a = a + 1;
    }
    let r = slice_range(s, a, n);
    r
}

/// `s` without trailing copies of `c`.
fn trim_end_char_exec(s: &[char], c: char) -> (r: Vec<char>)
    ensures
        r@ == trim_end_char(s@, c),
{
    let n = s.len();
    let mut b: usize = n;
    assert(s@.subrange(0, n as int) =~= s@);
    while b > 0 && s[b - 1] == c
        invariant
            n == s@.len(),
            b <= n,
            trim_end_char(s@, c) == trim_end_char(s@.subrange(0, b as int), c),
        decreases b,
    {
        assert(s@.subrange(0, b as int).drop_last() =~= s@.subrange(0, b - 1));
        b = b - 1;
    }
    assert(s@.subrange(0, 0) =~= Seq::<char>::empty());
    slice_range(s, 0, b)
}

/// Copy of `s[a..b]`.
pub fn slice_range(s: &[char], a: usize, b: usize) -> (r: Vec<char>)
    requires
        a <= b <= s@.len(),
    ensures
        r@ == s@.subrange(a as int, b as int),
{
    let mut r: Vec<char> = Vec::new();
    let mut k = a;
    while k < b
        invariant
            a <= k <= b <= s@.len(),
            r@ == s@.subrange(a as int, k as int),
        decreases b - k,
    {
        r.push(s[k]);
        k = k + 1;
        assert(r@ =~= s@.subrange(a as int, k as int));
    }
    r
}

/// Whether `s` starts with `p`.
pub fn starts_with_exec(s: &[char], p: &[char]) -> (r: bool)
    ensures
        r == starts_with(s@, p@),
{
    if p.len() > s.len() {
        return false;
    }
    let mut k: usize = 0;
    while k < p.len()
        invariant
            p@.len() <= s@.len(),
            k <= p@.len(),
            forall|j: int| 0 <= j < k ==> s@[j] == p@[j],
        decreases p@.len() - k,
    {
        if s[k] != p[k] {
            assert(s@.subrange(0, p@.len() as int)[k as int] != p@[k as int]);
            return false;
        }
        k = k + 1;
    }
    assert(s@.subrange(0, p@.len() as int) =~= p@);
    true
}

/// `s` without leading copies of the nonempty pattern `p`.
fn trim_start_pat_exec(s: &[char], p: &[char]) -> (r: Vec<char>)
    ensures
        r@ == trim_start_pat(s@, p@),
{
    let mut cur = copy_chars(s);
    if p.len() == 0 {
        return cur;
    }
    while starts_with_exec(&cur, p)
        invariant
            p@.len() > 0,
            trim_start_pat(s@, p@) == trim_start_pat(cur@, p@),
        decreases cur@.len(),
    {
        let next = slice_range(&cur, p.len(), cur.len());
        cur = next;
    }
    cur
}

/// First position where `p` occurs in `s`, or -1.
fn find_exec(s: &[char], p: &[char]) -> (r: i64)
    requires
        s@.len() < i64::MAX,
    ensures
        r == find_from(s@, p@, 0),
{
    let n = s.len();
    if p.len() > n {
        return -1;
    }
    if p.len() == 0 {
        assert(s@.subrange(0, 0) =~= p@);
        return 0;
    }
    let mut k: usize = 0;
    while k <= n - p.len()
        invariant
            n == s@.len(),
            0 < p@.len() <= n,
            n < i64::MAX,
            k <= n - p@.len() + 1,
            find_from(s@, p@, 0) == find_from(s@, p@, k as int),
        decreases n - k,
    {
        let w = slice_range(s, k, k + p.len());
        if crate::text::chars_eq(&w, p) {
            return k as i64;
        }
        k = k + 1;
    }
    -1
}

fn ascii_lower_exec(c: char) -> (r: char)
    ensures
        r == ascii_lower(c),
{
    if 'A' <= c && c <= 'Z' {
        let b = (c as u8) + 32;
        b as char
    } else {
        c
    }
}

fn eq_ignore_case_exec(a: &[char], b: &[char]) -> (r: bool)
    ensures
        r == eq_ignore_case(a@, b@),
{
    if a.len() != b.len() {
        return false;
    }
    let mut k: usize = 0;
    while k < a.len()
        invariant
            a@.len() == b@.len(),
            k <= a@.len(),
            forall|j: int| 0 <= j < k ==> ascii_lower(#[trigger] a@[j]) == ascii_lower(b@[j]),
        decreases a@.len() - k,
    {
        if ascii_lower_exec(a[k]) != ascii_lower_exec(b[k]) {
            return false;
        }
        k = k + 1;
    }
    true
}

proof fn lemma_digits_value_nonneg(s: Seq<char>)
    requires
        all_digits(s),
    ensures
        digits_value(s) >= 0,
    decreases s.len(),
{
    if s.len() > 0 {
        assert(all_digits(s.drop_last())) by {
            assert forall|k: int| 0 <= k < s.drop_last().len() implies '0' <= #[trigger] s.drop_last()[k] && s.drop_last()[k] <= '9' by {
                assert(s.drop_last()[k] == s[k]);
            }
        }
        lemma_digits_value_nonneg(s.drop_last());
        assert('0' <= s[s.len() - 1]);
    }
}

/// Prefix values never exceed the full value.
proof fn lemma_digits_prefix_le(s: Seq<char>, k: int)
    requires
        all_digits(s),
        0 <= k <= s.len(),
    ensures
        digits_value(s.subrange(0, k)) <= digits_value(s),
    decreases s.len() - k,
{
    if k < s.len() {
        let p = s.subrange(0, k + 1);
        assert(p.drop_last() =~= s.subrange(0, k));
        assert(all_digits(s.subrange(0, k))) by {
            assert forall|j: int| 0 <= j < k implies '0' <= #[trigger] s.subrange(0, k)[j] && s.subrange(0, k)[j] <= '9' by {
                assert(s.subrange(0, k)[j] == s[j]);
            }
        }
        lemma_digits_value_nonneg(s.subrange(0, k));
        assert(p.last() == s[k]);
        assert('0' <= s[k]);
        lemma_digits_prefix_le(s, k + 1);
    } else {
        assert(s.subrange(0, k) =~= s);
    }
}

/// Reads `s` as Rust reads an `i64`.
pub fn parse_i64_exec(s: &[char]) -> (r: Option<i64>)
    ensures
        match r {
            Some(v) => parse_i64(s@) == Some(v as int),
            None => parse_i64(s@) is None,
        },
{
    let n = s.len();
    if n == 0 {
        return None;
    }
    let neg = s[0] == '-';
    let signed = s[0] == '-' || s[0] == '+';
    let start: usize = if signed { 1 } else { 0 };
    let ghost digits = if signed { s@.drop_first() } else { s@ };
    assert(digits =~= s@.subrange(start as int, n as int));
    if start >= n {
        return None;
    }
    let limit: u128 = 9223372036854775808u128;
    let mut acc: u128 = 0;
    let mut k: usize = start;
    while k < n
        invariant
            n == s@.len(),
            n > 0,
            start == (if s@[0] == '-' || s@[0] == '+' { 1usize } else { 0usize }),
            digits == (if s@[0] == '-' || s@[0] == '+' { s@.drop_first() } else { s@ }),
            neg == (s@[0] == '-'),
            start <= k <= n,
            digits == s@.subrange(start as int, n as int),
            all_digits(s@.subrange(start as int, k as int)),
            acc == digits_value(s@.subrange(start as int, k as int)),
            acc <= limit,
            limit == 9223372036854775808u128,
        decreases n - k,
    {
        let c = s[k];
        if c < '0' || c > '9' {
            assert(!all_digits(digits)) by {
                assert(digits[k - start] == c);
                assert(!('0' <= digits[k - start] && digits[k - start] <= '9'));
            }
            return None;
        }
        let d = (c as u32 - '0' as u32) as u128;
        let next = acc * 10 + d;
        let ghost pre = s@.subrange(start as int, k as int);
        assert(s@.subrange(start as int, k + 1).drop_last() =~= pre);
        assert(s@.subrange(start as int, k + 1).last() == c);
        assert(next == digits_value(s@.subrange(start as int, k + 1)));
        assert(all_digits(s@.subrange(start as int, k + 1))) by {
            assert forall|j: int| 0 <= j < k + 1 - start implies '0' <= #[trigger] s@.subrange(start as int, k + 1)[j]
                && s@.subrange(start as int, k + 1)[j] <= '9' by {
                if j < k - start {
                    assert(s@.subrange(start as int, k + 1)[j] == pre[j]);
                }
            }
        }
        if next > limit {
            proof {
                let rest_ok = all_digits(digits);
                if rest_ok {
                    assert(digits.subrange(0, k + 1 - start) =~= s@.subrange(start as int, k + 1));
                    lemma_digits_prefix_le(digits, k + 1 - start);
                }
            }
            return None;
        }
        acc = next;
        k = k + 1;
    }
    assert(s@.subrange(start as int, n as int) == digits);
    if neg {
        Some((0i128 - acc as i128) as i64)
    } else if acc <= 9223372036854775807u128 {
        Some(acc as i64)
    } else {
        None
    }
}

fn alnum_word_exec(t: &[char]) -> (r: bool)
    ensures
        r == (t@.len() > 0 && forall|k: int| 0 <= k < t@.len() ==> alnum_or_underscore(#[trigger] t@[k])),
{
    if t.len() == 0 {
        return false;
    }
    let mut k: usize = 0;
    while k < t.len()
        invariant
            k <= t@.len(),
            forall|j: int| 0 <= j < k ==> alnum_or_underscore(#[trigger] t@[j]),
        decreases t@.len() - k,
    {
        let c = t[k];
        if !(('a' <= c && c <= 'z') || ('A' <= c && c <= 'Z') || ('0' <= c && c <= '9') || c == '_') {
            assert(!alnum_or_underscore(t@[k as int]));
            return false;
        }
        k = k + 1;
    }
    true
}

/// Value of one condition operand (see `atom_value`).
pub fn eval_pp_atom(atom: &[char]) -> (r: i64)
    ensures
        r as int == atom_value(atom@),
{
    let t = trim_chars(atom);
    let zero: Vec<char> = vec!['0'];
    let one: Vec<char> = vec!['1'];
    let fals: Vec<char> = vec!['f', 'a', 'l', 's', 'e'];
    let tru: Vec<char> = vec!['t', 'r', 'u', 'e'];
    assert(zero@ =~= seq!['0']);
    assert(one@ =~= seq!['1']);
    assert(fals@ =~= seq!['f', 'a', 'l', 's', 'e']);
    assert(tru@ =~= seq!['t', 'r', 'u', 'e']);
    if crate::text::chars_eq(&t, &zero) || eq_ignore_case_exec(&t, &fals) {
        return 0;
    }
    if crate::text::chars_eq(&t, &one) || eq_ignore_case_exec(&t, &tru) {
        return 1;
    }
    match parse_i64_exec(&t) {
        Some(v) => {
            return v;
        },
        None => {},
    }
    if alnum_word_exec(&t) {
        1
    } else {
        0
    }
}

/// Truth of a preprocessor condition (see `condition_holds`).
pub fn eval_pp_condition(cond: &[char], macros: &IndexMap<Vec<char>, MacroDef>) -> (r: bool)
    requires
        cond@.len() < i64::MAX,
    ensures
        r == condition_holds(cond@, *macros),
    decreases cond@.len(),
{
    let c = trim_chars(cond);
    proof {
        lemma_trim_len(cond@);
    }
    if c.len() == 0 {
        return false;
    }
    if c[0] == '!' {
        let rest = slice_range(&c, 1, c.len());
        assert(rest@ =~= c@.drop_first());
        return !eval_pp_condition(&rest, macros);
    }
    let d1: Vec<char> = vec!['d', 'e', 'f', 'i', 'n', 'e', 'd', '('];
    let d2: Vec<char> = vec!['d', 'e', 'f', 'i', 'n', 'e', 'd', ' ', '('];
    let dw: Vec<char> = vec!['d', 'e', 'f', 'i', 'n', 'e', 'd'];
    assert(d1@ =~= defined_open());
    assert(d2@ =~= defined_space_open());
    assert(dw@ =~= defined_word());
    if starts_with_exec(&c, &d1) || starts_with_exec(&c, &d2) {
        let a = trim_start_pat_exec(&c, &dw);
        let b = trim_chars(&a);
        let e = trim_start_char_exec(&b, '(');
        let f = trim_end_char_exec(&e, ')');
        let inner = trim_chars(&f);
        return macro_contains(macros, &inner);
    }
    let and: Vec<char> = vec!['&', '&'];
    let or: Vec<char> = vec!['|', '|'];
    let eq: Vec<char> = vec!['=', '='];
    let ne: Vec<char> = vec!['!', '='];
    assert(and@ =~= seq!['&', '&']);
    assert(or@ =~= seq!['|', '|']);
    assert(eq@ =~= seq!['=', '=']);
    assert(ne@ =~= seq!['!', '=']);
    let k = find_exec(&c, &and);
    if k >= 0 {
        proof { lemma_find_from(c@, and@, 0); }
        let ku = k as usize;
        let lhs = slice_range(&c, 0, ku);
        let rhs = slice_range(&c, ku + 2, c.len());
        return eval_pp_condition(&lhs, macros) && eval_pp_condition(&rhs, macros);
    }
    let k = find_exec(&c, &or);
    if k >= 0 {
        proof { lemma_find_from(c@, or@, 0); }
        let ku = k as usize;
        let lhs = slice_range(&c, 0, ku);
        let rhs = slice_range(&c, ku + 2, c.len());
        return eval_pp_condition(&lhs, macros) || eval_pp_condition(&rhs, macros);
    }
    let k = find_exec(&c, &eq);
    if k >= 0 {
        proof { lemma_find_from(c@, eq@, 0); }
        let ku = k as usize;
        let lhs = slice_range(&c, 0, ku);
        let rhs = slice_range(&c, ku + 2, c.len());
        return eval_pp_atom(&lhs) == eval_pp_atom(&rhs);
    }
    let k = find_exec(&c, &ne);
    if k >= 0 {
        proof { lemma_find_from(c@, ne@, 0); }
        let ku = k as usize;
        let lhs = slice_range(&c, 0, ku);
        let rhs = slice_range(&c, ku + 2, c.len());
        return eval_pp_atom(&lhs) != eval_pp_atom(&rhs);
    }
    eval_pp_atom(&c) != 0
}

/// A text that starts and ends with a non-blank is its own trim.
proof fn lemma_trim_unchanged(s: Seq<char>)
    requires
        s.len() > 0,
        !is_ws(s[0]),
        !is_ws(s.last()),
    ensures
        trim(s) == s,
{
    assert(trim_start(s) == s);
    assert(trim_end(s) == s);
}

/// A pattern whose first character does not occur is not found.
proof fn lemma_find_absent(s: Seq<char>, p: Seq<char>, k: int)
    requires
        p.len() > 0,
        0 <= k,
        forall|j: int| 0 <= j < s.len() ==> #[trigger] s[j] != p[0],
    ensures
        find_from(s, p, k) == -1,
    decreases s.len() + 1 - k,
{
    if k + p.len() <= s.len() {
        assert(s.subrange(k, k + p.len())[0] == s[k]);
        lemma_find_absent(s, p, k + 1);
    }
}

/// A pattern found at `m` is found there when its first character does not
/// occur before `m`.
proof fn lemma_find_at(s: Seq<char>, p: Seq<char>, k: int, m: int)
    requires
        p.len() > 0,
        0 <= k <= m,
        m + p.len() <= s.len(),
        s.subrange(m, m + p.len()) == p,
        forall|j: int| k <= j < m ==> #[trigger] s[j] != p[0],
    ensures
        find_from(s, p, k) == m,
    decreases m - k,
{
    if k < m {
        assert(s.subrange(k, k + p.len())[0] == s[k]);
        lemma_find_at(s, p, k + 1, m);
    }
}

/// `a == b` holds exactly when its two operands have the same value, for
/// operands without `!`, `&&`, `||`, `defined` or a further `=` on the
/// left (surrounding blanks aside).
pub proof fn lemma_equality_condition(a: Seq<char>, b: Seq<char>, t: IndexMap<Vec<char>, MacroDef>)
    requires
        a.len() > 0,
        b.len() > 0,
        !is_ws(a[0]),
        !is_ws(b.last()),
        a[0] != '!',
        !starts_with(a, defined_word()),
        forall|k: int| 0 <= k < a.len() ==> #[trigger] a[k] != '=' && a[k] != '&' && a[k] != '|',
        forall|k: int| 0 <= k < b.len() ==> #[trigger] b[k] != '&' && b[k] != '|',
    ensures
        condition_holds(a + seq!['=', '='] + b, t) <==> atom_value(a) == atom_value(b),
{
    let c = a + seq!['=', '='] + b;
    let m = a.len() as int;
    assert(c[0] == a[0]);
    assert(c.last() == b.last());
    lemma_trim_unchanged(c);
    assert(c[m] == '=' && c[m + 1] == '=');
    assert forall|k: int| 0 <= k < m implies c[k] == a[k] by {}
    if starts_with(c, defined_open()) || starts_with(c, defined_space_open()) {
        if m >= 7 {
            assert(a.subrange(0, 7) =~= defined_word()) by {
                assert forall|k: int| 0 <= k < 7 implies a.subrange(0, 7)[k] == defined_word()[k] by {
                    assert(c[k] == a[k]);
                    if starts_with(c, defined_open()) {
                        assert(c.subrange(0, 8)[k] == defined_open()[k]);
                    } else {
                        assert(c.subrange(0, 9)[k] == defined_space_open()[k]);
                    }
                }
            }
            assert(false);
        } else {
            if starts_with(c, defined_open()) {
                assert(c.subrange(0, 8)[m] == defined_open()[m]);
            } else {
                assert(c.subrange(0, 9)[m] == defined_space_open()[m]);
            }
            assert(false);
        }
    }
    assert forall|j: int| 0 <= j < c.len() implies #[trigger] c[j] != '&' && c[j] != '|' by {
        if j < m {
            assert(c[j] == a[j]);
        } else if j >= m + 2 {
            assert(c[j] == b[j - m - 2]);
        }
    }
    lemma_find_absent(c, seq!['&', '&'], 0);
    lemma_find_absent(c, seq!['|', '|'], 0);
    assert(c.subrange(m, m + 2) =~= seq!['=', '=']);
    assert forall|j: int| 0 <= j < m implies #[trigger] c[j] != seq!['=', '='][0] by {
        assert(c[j] == a[j]);
    }
    lemma_find_at(c, seq!['=', '='], 0, m);
    assert(c.subrange(0, m) =~= a);
    assert(c.subrange(m + 2, c.len() as int) =~= b);
}

/// A pattern that occurs nowhere is not found.
proof fn lemma_find_none(s: Seq<char>, p: Seq<char>, k: int)
    requires
        0 <= k,
        forall|j: int| 0 <= j && j + p.len() <= s.len() ==> #[trigger] s.subrange(j, j + p.len()) != p,
    ensures
        find_from(s, p, k) == -1,
    decreases s.len() + 1 - k,
{
    if k + p.len() <= s.len() {
        lemma_find_none(s, p, k + 1);
    }
}

/// `a != b` holds exactly when its two operands have different values, for
/// operands without `!`, `&&`, `||`, `=` or `defined` (surrounding blanks
/// aside).
pub proof fn lemma_inequality_condition(a: Seq<char>, b: Seq<char>, t: IndexMap<Vec<char>, MacroDef>)
    requires
        a.len() > 0,
        b.len() > 0,
        !is_ws(a[0]),
        !is_ws(b.last()),
        a[0] != '!',
        !starts_with(a, defined_word()),
        forall|k: int| 0 <= k < a.len() ==> #[trigger] a[k] != '=' && a[k] != '&' && a[k] != '|' && a[k] != '!',
        forall|k: int| 0 <= k < b.len() ==> #[trigger] b[k] != '&' && b[k] != '|' && b[k] != '=',
    ensures
        condition_holds(a + seq!['!', '='] + b, t) <==> atom_value(a) != atom_value(b),
{
    let c = a + seq!['!', '='] + b;
    let m = a.len() as int;
    assert(c[0] == a[0]);
    assert(c.last() == b.last());
    lemma_trim_unchanged(c);
    assert(c[m] == '!' && c[m + 1] == '=');
    assert forall|k: int| 0 <= k < m implies c[k] == a[k] by {}
    if starts_with(c, defined_open()) || starts_with(c, defined_space_open()) {
        if m >= 7 {
            assert(a.subrange(0, 7) =~= defined_word()) by {
                assert forall|k: int| 0 <= k < 7 implies a.subrange(0, 7)[k] == defined_word()[k] by {
                    assert(c[k] == a[k]);
                    if starts_with(c, defined_open()) {
                        assert(c.subrange(0, 8)[k] == defined_open()[k]);
                    } else {
                        assert(c.subrange(0, 9)[k] == defined_space_open()[k]);
                    }
                }
            }
            assert(false);
        } else {
            if starts_with(c, defined_open()) {
                assert(c.subrange(0, 8)[m] == defined_open()[m]);
            } else {
                assert(c.subrange(0, 9)[m] == defined_space_open()[m]);
            }
            assert(false);
        }
    }
    assert forall|j: int| 0 <= j < c.len() implies #[trigger] c[j] != '&' && c[j] != '|' by {
        if j < m {
            assert(c[j] == a[j]);
        } else if j >= m + 2 {
            assert(c[j] == b[j - m - 2]);
        }
    }
    lemma_find_absent(c, seq!['&', '&'], 0);
    lemma_find_absent(c, seq!['|', '|'], 0);
    assert forall|j: int| 0 <= j && j + 2 <= c.len() implies #[trigger] c.subrange(j, j + 2) != seq!['=', '='] by {
        if c.subrange(j, j + 2) == seq!['=', '='] {
            assert(c.subrange(j, j + 2)[0] == c[j]);
            assert(c.subrange(j, j + 2)[1] == c[j + 1]);
            if j < m {
                assert(c[j] == a[j]);
            } else if j == m {
            } else {
                assert(c[j + 1] == b[j + 1 - m - 2]);
            }
        }
    }
    lemma_find_none(c, seq!['=', '='], 0);
    assert(c.subrange(m, m + 2) =~= seq!['!', '=']);
    assert forall|j: int| 0 <= j < m implies #[trigger] c[j] != seq!['!', '='][0] by {
        assert(c[j] == a[j]);
    }
    lemma_find_at(c, seq!['!', '='], 0, m);
    assert(c.subrange(0, m) =~= a);
    assert(c.subrange(m + 2, c.len() as int) =~= b);
}

/// Facts shared by the split laws: a text `a + op + b` is its own trim,
/// does not start with `!` or `defined`, and its first `op` is at `a`'s end.
proof fn lemma_split_shape(a: Seq<char>, op: Seq<char>, b: Seq<char>)
    requires
        a.len() > 0,
        b.len() > 0,
        op.len() == 2,
        op[0] == '&' || op[0] == '|' || op[0] == '=' || op[0] == '!',
        !is_ws(a[0]),
        !is_ws(b.last()),
        a[0] != '!',
        !starts_with(a, defined_word()),
        forall|k: int| 0 <= k < a.len() ==> #[trigger] a[k] != op[0],
    ensures
        trim(a + op + b) == a + op + b,
        !starts_with(a + op + b, defined_open()),
        !starts_with(a + op + b, defined_space_open()),
        find_from(a + op + b, op, 0) == a.len(),
        (a + op + b).subrange(0, a.len() as int) == a,
        (a + op + b).subrange(a.len() as int + 2, (a + op + b).len() as int) == b,
{
    let c = a + op + b;
    let m = a.len() as int;
    assert(c[0] == a[0]);
    assert(c.last() == b.last());
    lemma_trim_unchanged(c);
    assert forall|k: int| 0 <= k < m implies c[k] == a[k] by {}
    if starts_with(c, defined_open()) || starts_with(c, defined_space_open()) {
        if m >= 7 {
            assert(a.subrange(0, 7) =~= defined_word()) by {
                assert forall|k: int| 0 <= k < 7 implies a.subrange(0, 7)[k] == defined_word()[k] by {
                    assert(c[k] == a[k]);
                    if starts_with(c, defined_open()) {
                        assert(c.subrange(0, 8)[k] == defined_open()[k]);
                    } else {
                        assert(c.subrange(0, 9)[k] == defined_space_open()[k]);
                    }
                }
            }
            assert(false);
        } else {
            assert(c[m] == op[0]);
            if starts_with(c, defined_open()) {
                assert(c.subrange(0, 8)[m] == defined_open()[m]);
            } else {
                assert(c.subrange(0, 9)[m] == defined_space_open()[m]);
            }
            assert(false);
        }
    }
    assert(c.subrange(m, m + 2) =~= op);
    lemma_find_at(c, op, 0, m);
    assert(c.subrange(0, m) =~= a);
    assert(c.subrange(m + 2, c.len() as int) =~= b);
}

/// `a && b` holds exactly when both operands hold, for a left operand
/// without `&` that does not start with `!` or `defined`.
pub proof fn lemma_and_condition(a: Seq<char>, b: Seq<char>, t: IndexMap<Vec<char>, MacroDef>)
    requires
        a.len() > 0,
        b.len() > 0,
        !is_ws(a[0]),
        !is_ws(b.last()),
        a[0] != '!',
        !starts_with(a, defined_word()),
        forall|k: int| 0 <= k < a.len() ==> #[trigger] a[k] != '&',
    ensures
        condition_holds(a + seq!['&', '&'] + b, t) <==> condition_holds(a, t) && condition_holds(b, t),
{
    lemma_split_shape(a, seq!['&', '&'], b);
}

/// `a || b` holds exactly when either operand holds, for operands
/// without `&`, a left operand without `|` that does not start with `!`
/// or `defined`.
pub proof fn lemma_or_condition(a: Seq<char>, b: Seq<char>, t: IndexMap<Vec<char>, MacroDef>)
    requires
        a.len() > 0,
        b.len() > 0,
        !is_ws(a[0]),
        !is_ws(b.last()),
        a[0] != '!',
        !starts_with(a, defined_word()),
        forall|k: int| 0 <= k < a.len() ==> #[trigger] a[k] != '&' && a[k] != '|',
        forall|k: int| 0 <= k < b.len() ==> #[trigger] b[k] != '&',
    ensures
        condition_holds(a + seq!['|', '|'] + b, t) <==> condition_holds(a, t) || condition_holds(b, t),
{
    let c = a + seq!['|', '|'] + b;
    let m = a.len() as int;
    lemma_split_shape(a, seq!['|', '|'], b);
    assert forall|j: int| 0 <= j < c.len() implies #[trigger] c[j] != '&' by {
        if j < m {
            assert(c[j] == a[j]);
        } else if j >= m + 2 {
            assert(c[j] == b[j - m - 2]);
        }
    }
    lemma_find_absent(c, seq!['&', '&'], 0);
}

/// `!a` holds exactly when `a` does not.
pub proof fn lemma_not_condition(a: Seq<char>, t: IndexMap<Vec<char>, MacroDef>)
    requires
        a.len() > 0,
        !is_ws(a.last()),
    ensures
        condition_holds(seq!['!'] + a, t) <==> !condition_holds(a, t),
{
    let c = seq!['!'] + a;
    assert(c[0] == '!');
    assert(c.last() == a.last());
    lemma_trim_unchanged(c);
    assert(c.drop_first() =~= a);
}

/// `defined(NAME)` holds exactly when `NAME` is a defined macro.
pub proof fn lemma_defined_condition(name: Seq<char>, t: IndexMap<Vec<char>, MacroDef>)
    requires
        name.len() > 0,
        !is_ws(name[0]),
        !is_ws(name.last()),
        name[0] != '(',
        name.last() != ')',
    ensures
        condition_holds(defined_open() + name + seq![')'], t) <==> macro_defined(t, name),
{
    let c = defined_open() + name + seq![')'];
    assert(c[0] == 'd');
    assert(c.last() == ')');
    lemma_trim_unchanged(c);
    assert(c.subrange(0, 8) =~= defined_open());
    assert(starts_with(c, defined_open()));
    let r1 = seq!['('] + name + seq![')'];
    assert(c.subrange(0, 7) =~= defined_word());
    assert(c.subrange(7, c.len() as int) =~= r1);
    assert(r1[0] == '(');
    assert(!starts_with(r1, defined_word())) by {
        if starts_with(r1, defined_word()) {
            assert(r1.subrange(0, 7)[0] == r1[0]);
        }
    }
    assert(trim_start_pat(r1, defined_word()) == r1);
    assert(trim_start_pat(c, defined_word()) == r1);
    assert(r1.last() == ')');
    lemma_trim_unchanged(r1);
    let r2 = name + seq![')'];
    assert(r1.drop_first() =~= r2);
    assert(r2[0] == name[0]);
    assert(trim_start_char(r2, '(') == r2);
    assert(trim_start_char(r1, '(') == r2);
    assert(r2.last() == ')');
    assert(r2.drop_last() =~= name);
    assert(trim_end_char(name, ')') == name);
    assert(trim_end_char(r2, ')') == name);
    lemma_trim_unchanged(name);
    assert(defined_operand(c) == name);
}

} // verus!
