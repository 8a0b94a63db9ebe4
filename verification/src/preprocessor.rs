//! The C preprocessor: conditional inclusion, `#include`, object- and
//! function-like macros with hide sets (C11 6.10.3.4), `#`/`##`.

use vstd::prelude::*;
use indexmap::IndexMap;
use crate::lexer::{Token, TokenKind, Lexer, is_punct, is_newline, is_eof, hide_set, kind_view, punct_is, punct_is2, punct_is3, is_newline_kind, is_eof_kind, names_view, opens_token, first_token_fits, well_formed_tokens, plain_text, is_digit};
use crate::line_map::LineMap;
use crate::macros::{MacroDef, MacroTable, macro_table_new, macro_get, macro_contains, macro_insert, macro_shift_remove, macro_defined, macro_entries, entry_index, names_distinct, views, def_of};
use crate::options::{PreprocessOptions, SourceFile, defines_list};
use crate::pp_eval::eval_pp_condition;
use crate::text::{str_chars, chars_to_string, push_all, copy_chars, chars_eq, contains_char};

verus! {

/// Nested macro-expansion cap; hide sets are the primary recursion brake.
pub const MAX_MACRO_EXPANSION_DEPTH: u32 = 256;

#[derive(Debug, Clone, Copy, PartialEq, Eq)]
pub enum DiagnosticSeverity {
    Error,
    Warning,
    Info,
}

/// A preprocessor message about a file and line.
#[derive(Debug, Clone)]
pub struct Diagnostic {
    pub severity: DiagnosticSeverity,
    pub file: Option<String>,
    pub line: u32,
    pub message: String,
}

/// Why preprocessing stopped.
#[derive(Debug, Clone)]
pub enum PreprocessError {
    /// The file is not among the available sources.
    Io { path: Vec<char> },
    Message { message: Vec<char> },
}

/// Text of an error, as reported in diagnostics.
pub open spec fn error_text(e: PreprocessError) -> Seq<char> {
    match e {
        PreprocessError::Io { path } => read_failed_prefix() + path@ + no_such_source_suffix(),
        PreprocessError::Message { message } => message@,
    }
}

pub open spec fn read_failed_prefix() -> Seq<char> {
    seq!['f', 'a', 'i', 'l', 'e', 'd', ' ', 't', 'o', ' ', 'r', 'e', 'a', 'd', ' ']
}

pub open spec fn no_such_source_suffix() -> Seq<char> {
    seq![':', ' ', 'n', 'o', ' ', 's', 'u', 'c', 'h', ' ', 'f', 'i', 'l', 'e']
}

impl PreprocessError {
    /// The error's message text.
    pub fn text(&self) -> (r: Vec<char>)
        ensures
            r@ == error_text(*self),
    {
        match self {
            PreprocessError::Io { path } => {
                let mut r: Vec<char> = vec!['f', 'a', 'i', 'l', 'e', 'd', ' ', 't', 'o', ' ', 'r', 'e', 'a', 'd', ' '];
                assert(r@ =~= read_failed_prefix());
                push_all(&mut r, path);
                let tail: Vec<char> = vec![':', ' ', 'n', 'o', ' ', 's', 'u', 'c', 'h', ' ', 'f', 'i', 'l', 'e'];
                assert(tail@ =~= no_such_source_suffix());
                push_all(&mut r, &tail);
                r
            },
            PreprocessError::Message { message } => copy_chars(message),
        }
    }
}

/// Preprocessed text with its position map and messages.
#[derive(Debug, Clone)]
pub struct PreprocessResult {
    pub output: String,
    pub line_map: LineMap,
    pub diagnostics: Vec<Diagnostic>,
}

/// Text a token contributes to the output.
pub open spec fn token_text(kind: TokenKind) -> Seq<char> {
    match kind {
        TokenKind::Identifier(s) => s@,
        TokenKind::Number(s) => s@,
        TokenKind::String(s) => seq!['"'] + s@ + seq!['"'],
        TokenKind::Char(s) => seq!['\''] + s@ + seq!['\''],
        TokenKind::Punct(s) => s@,
        TokenKind::Hash => seq!['#'],
        TokenKind::Newline => seq!['\n'],
        TokenKind::Eof => Seq::empty(),
    }
}

/// Text a token contributes to the output.
pub fn token_to_string(kind: &TokenKind) -> (r: Vec<char>)
    ensures
        r@ == token_text(*kind),
{
    match kind {
        TokenKind::Identifier(s) => copy_chars(s),
        TokenKind::Number(s) => copy_chars(s),
        TokenKind::String(s) => {
            let mut r: Vec<char> = vec!['"'];
            push_all(&mut r, s);
            r.push('"');
            assert(r@ =~= seq!['"'] + s@ + seq!['"']);
            r
        },
        TokenKind::Char(s) => {
            let mut r: Vec<char> = vec!['\''];
            push_all(&mut r, s);
            r.push('\'');
            assert(r@ =~= seq!['\''] + s@ + seq!['\'']);
            r
        },
        TokenKind::Punct(s) => copy_chars(s),
        TokenKind::Hash => {
            let r: Vec<char> = vec!['#'];
            assert(r@ =~= seq!['#']);
            r
        },
        TokenKind::Newline => {
            let r: Vec<char> = vec!['\n'];
            assert(r@ =~= seq!['\n']);
            r
        },
        TokenKind::Eof => Vec::new(),
    }
}

/// Whether a token of `kind` written after `output` needs a separating space.
pub open spec fn leading_space(output: Seq<char>, kind: TokenKind) -> bool {
    if output.len() == 0 || output.last() == '\n' || output.last() == ' ' {
        false
    } else {
        match kind {
            TokenKind::Punct(s) => s@ == seq![';'] || s@ == seq![','] || s@ == seq![')'] || s@ == seq![']']
                || s@ == seq!['}'] || s@ == seq![':', ':'] || s@ == seq!['.'],
            TokenKind::Newline => false,
            _ => !(output.last() == '(' || output.last() == '[' || output.last() == '{'
                || output.last() == '.' || output.last() == ';'),
        }
    }
}

/// Whether a token of `kind` written after `output` needs a separating space.
pub fn needs_leading_space(output: &[char], kind: &TokenKind) -> (r: bool)
    ensures
        r == leading_space(output@, *kind),
{
    if output.len() == 0 {
        return false;
    }
    let last = output[output.len() - 1];
    if last == '\n' || last == ' ' {
        return false;
    }
    match kind {
        TokenKind::Punct(_) => punct_is(kind, ';') || punct_is(kind, ',') || punct_is(kind, ')')
            || punct_is(kind, ']') || punct_is(kind, '}') || punct_is2(kind, ':', ':') || punct_is(kind, '.'),
        TokenKind::Newline => false,
        _ => !(last == '(' || last == '[' || last == '{' || last == '.' || last == ';'),
    }
}

/// Output after writing a token of `kind`: an optional separating space,
/// then its text.
pub open spec fn emit_text(output: Seq<char>, kind: TokenKind) -> Seq<char> {
    if is_eof(kind) {
        output
    } else if leading_space(output, kind) {
        output + seq![' '] + token_text(kind)
    } else {
        output + token_text(kind)
    }
}

/// Text of a token of kind view `v`.
pub open spec fn view_text(v: (int, Seq<char>)) -> Seq<char> {
    if v.0 == 2 {
        seq!['"'] + v.1 + seq!['"']
    } else if v.0 == 3 {
        seq!['\''] + v.1 + seq!['\'']
    } else if v.0 == 5 {
        seq!['#']
    } else if v.0 == 6 {
        seq!['\n']
    } else if v.0 == 7 {
        Seq::empty()
    } else {
        v.1
    }
}

/// Whether a token of kind view `v` written after `output` needs a space.
pub open spec fn view_space(output: Seq<char>, v: (int, Seq<char>)) -> bool {
    if output.len() == 0 || output.last() == '\n' || output.last() == ' ' {
        false
    } else if v.0 == 4 {
        v.1 == seq![';'] || v.1 == seq![','] || v.1 == seq![')'] || v.1 == seq![']']
            || v.1 == seq!['}'] || v.1 == seq![':', ':'] || v.1 == seq!['.']
    } else if v.0 == 6 {
        false
    } else {
        !(output.last() == '(' || output.last() == '[' || output.last() == '{'
            || output.last() == '.' || output.last() == ';')
    }
}

/// Output after writing a token of kind view `v`.
pub open spec fn emit_view(output: Seq<char>, v: (int, Seq<char>)) -> Seq<char> {
    if v.0 == 7 {
        output
    } else if view_space(output, v) {
        output + seq![' '] + view_text(v)
    } else {
        output + view_text(v)
    }
}

/// Output after writing tokens of kind views `vs`, in order.
pub open spec fn emit_views(output: Seq<char>, vs: Seq<(int, Seq<char>)>) -> Seq<char>
    decreases vs.len(),
{
    if vs.len() == 0 { output } else { emit_view(emit_views(output, vs.drop_last()), vs.last()) }
}

/// Writing a token depends only on its kind view.
pub proof fn lemma_emit_view(output: Seq<char>, k: TokenKind)
    ensures
        emit_text(output, k) == emit_view(output, kind_view(k)),
{
}

/// Writing one token is writing its kind view.
pub proof fn lemma_emit_views_single(output: Seq<char>, v: (int, Seq<char>))
    ensures
        emit_views(output, seq![v]) == emit_view(output, v),
{
    let s = seq![v];
    assert(s.drop_last() =~= Seq::<(int, Seq<char>)>::empty());
    assert(s.last() == v);
    assert(emit_views(output, s.drop_last()) == output);
}

/// Writing `a` then `b` is writing `a + b`.
pub proof fn lemma_emit_views_append(output: Seq<char>, a: Seq<(int, Seq<char>)>, b: Seq<(int, Seq<char>)>)
    ensures
        emit_views(output, a + b) == emit_views(emit_views(output, a), b),
    decreases b.len(),
{
    if b.len() == 0 {
        assert(a + b =~= a);
    } else {
        lemma_emit_views_append(output, a, b.drop_last());
        assert((a + b).drop_last() =~= a + b.drop_last());
    }
}

/// Whether token `i` starts a line.
pub fn at_beginning_of_line(tokens: &[Token], i: usize) -> (r: bool)
    requires
        i <= tokens@.len(),
    ensures
        r == (i == 0 || is_newline(tokens@[i - 1].kind)),
{
    if i == 0 {
        return true;
    }
    is_newline_kind(&tokens[i - 1].kind)
}

/// Width of a paste operator at `i`: 1 for `##`, 2 for `#` `#`, else 0.
pub open spec fn concat_width(tokens: Seq<Token>, i: int) -> int {
    if is_punct(tokens[i].kind, seq!['#', '#']) {
        1
    } else if tokens[i].kind is Hash && i + 1 < tokens.len() && tokens[i + 1].kind is Hash {
        2
    } else {
        0
    }
}

/// Width of a paste operator at `i`: 1 for `##`, 2 for `#` `#`, else 0.
pub fn concat_width_at(tokens: &[Token], i: usize) -> (r: usize)
    requires
        i < tokens@.len(),
    ensures
        r as int == concat_width(tokens@, i as int),
{
    if punct_is2(&tokens[i].kind, '#', '#') {
        return 1;
    }
    match tokens[i].kind {
        TokenKind::Hash => {
            if i + 1 < tokens.len() {
                match tokens[i + 1].kind {
                    TokenKind::Hash => 2,
                    _ => 0,
                }
            } else {
                0
            }
        },
        _ => 0,
    }
}

/// Spelling a token contributes to a paste.
pub open spec fn paste_fragment(kind: TokenKind) -> Seq<char> {
    match kind {
        TokenKind::Identifier(s) => s@,
        TokenKind::Number(s) => s@,
        TokenKind::Punct(s) => if s@ == seq!['#', '#'] { Seq::empty() } else { s@ },
        _ => Seq::empty(),
    }
}

/// Spelling a token contributes to a paste.
pub fn token_paste_fragment(kind: &TokenKind) -> (r: Vec<char>)
    ensures
        r@ == paste_fragment(*kind),
{
    match kind {
        TokenKind::Identifier(s) => copy_chars(s),
        TokenKind::Number(s) => copy_chars(s),
        TokenKind::Punct(s) => {
            if punct_is2(kind, '#', '#') {
                Vec::new()
            } else {
                copy_chars(s)
            }
        },
        _ => Vec::new(),
    }
}

/// `left ## right`: an identifier spelled by both fragments, at the left
/// token's position, hidden from both hide sets' macros.
pub fn paste_two_tokens(left: &Token, right: &Token) -> (r: Token)
    ensures
        r.kind matches TokenKind::Identifier(s) && s@ == paste_fragment(left.kind) + paste_fragment(right.kind),
        r.line == left.line,
        r.col == left.col,
        forall|h: Seq<char>| #[trigger] hide_set(r).contains(h) <==> (hide_set(*left).contains(h)
            || hide_set(*right).contains(h)),
{
    let mut text = token_paste_fragment(&left.kind);
    let rt = token_paste_fragment(&right.kind);
    push_all(&mut text, &rt);
    Token { kind: TokenKind::Identifier(text), line: left.line, col: left.col, hidden: Token::union_hidden(left, right) }
}

/// No paste operator remains in `tokens`.
pub open spec fn no_paste(tokens: Seq<Token>) -> bool {
    forall|k: int| 0 <= k < tokens.len() ==> concat_width(tokens, k) == 0
}

/// Width of a paste operator at `i` of kind views `vs`.
pub open spec fn view_concat_width(vs: Seq<(int, Seq<char>)>, i: int) -> int {
    if vs[i] == (4int, seq!['#', '#']) {
        1
    } else if vs[i].0 == 5 && i + 1 < vs.len() && vs[i + 1].0 == 5 {
        2
    } else {
        0
    }
}

/// Spelling a token of kind view `v` contributes to a paste.
pub open spec fn view_fragment(v: (int, Seq<char>)) -> Seq<char> {
    if v.0 == 0 || v.0 == 1 || (v.0 == 4 && v.1 != seq!['#', '#']) { v.1 } else { Seq::empty() }
}

/// The identifier that pasting `a` and `b` spells.
pub open spec fn pasted_view(a: (int, Seq<char>), b: (int, Seq<char>)) -> (int, Seq<char>) {
    (0int, view_fragment(a) + view_fragment(b))
}

/// One pasting pass over `vs` from `i` on: `a ## b` becomes one identifier
/// spelled by both, which is the left operand of a following `##` (so
/// `a ## b ## c` spells `abc`); a lone operator is dropped; other tokens
/// are kept.
pub open spec fn paste_pass(vs: Seq<(int, Seq<char>)>, i: int) -> Seq<(int, Seq<char>)>
    decreases vs.len() - i,
{
    if i < 0 || i >= vs.len() {
        Seq::empty()
    } else if i + 2 < vs.len() && view_concat_width(vs, i + 1) > 0 {
        paste_pass(vs.update(i + 2, pasted_view(vs[i], vs[i + 2])), i + 2)
    } else if view_concat_width(vs, i) > 0 {
        paste_pass(vs, i + view_concat_width(vs, i))
    } else {
        seq![vs[i]] + paste_pass(vs, i + 1)
    }
}

/// Some paste operator occurs in `vs`.
pub open spec fn has_paste(vs: Seq<(int, Seq<char>)>) -> bool {
    exists|k: int| 0 <= k < vs.len() && #[trigger] view_concat_width(vs, k) > 0
}

/// A pasting pass never lengthens the sequence, and shortens it when a
/// paste operator occurs.
pub proof fn lemma_paste_pass_len(vs: Seq<(int, Seq<char>)>, i: int)
    requires
        0 <= i <= vs.len(),
    ensures
        paste_pass(vs, i).len() <= vs.len() - i,
        (exists|k: int| i <= k < vs.len() && #[trigger] view_concat_width(vs, k) > 0) ==> paste_pass(vs, i).len() < vs.len() - i,
    decreases vs.len() - i,
{
    if i < vs.len() {
        if i + 2 < vs.len() && view_concat_width(vs, i + 1) > 0 {
            lemma_paste_pass_len(vs.update(i + 2, pasted_view(vs[i], vs[i + 2])), i + 2);
        } else if view_concat_width(vs, i) > 0 {
            lemma_paste_pass_len(vs, i + view_concat_width(vs, i));
        } else {
            lemma_paste_pass_len(vs, i + 1);
            if exists|k: int| i <= k < vs.len() && #[trigger] view_concat_width(vs, k) > 0 {
                let k = choose|k: int| i <= k < vs.len() && #[trigger] view_concat_width(vs, k) > 0;
                assert(k != i);
                assert(i + 1 <= k);
            }
        }
    }
}

proof fn lemma_views_paste(tokens: Seq<Token>, k: int)
    requires
        0 <= k < tokens.len(),
    ensures
        concat_width(tokens, k) == view_concat_width(views(tokens), k),
        paste_fragment(tokens[k].kind) == view_fragment(views(tokens)[k]),
{
    assert(views(tokens)[k] == kind_view(tokens[k].kind));
    if k + 1 < tokens.len() {
        assert(views(tokens)[k + 1] == kind_view(tokens[k + 1].kind));
    }
}

/// The result of pasting until no paste operator remains.
pub open spec fn pasted_views(vs: Seq<(int, Seq<char>)>) -> Seq<(int, Seq<char>)>
    decreases vs.len(),
{
    if has_paste(vs) {
        proof { lemma_paste_pass_len(vs, 0); }
        pasted_views(paste_pass(vs, 0))
    } else {
        vs
    }
}

/// What pasting leaves holds no paste operator.
pub proof fn lemma_pasted_views_plain(vs: Seq<(int, Seq<char>)>)
    ensures
        !has_paste(pasted_views(vs)),
    decreases vs.len(),
{
    if has_paste(vs) {
        lemma_paste_pass_len(vs, 0);
        lemma_pasted_views_plain(paste_pass(vs, 0));
    }
}

/// Pasting is idempotent: pasting what pasting left changes nothing.
pub proof fn lemma_pasting_idempotent(vs: Seq<(int, Seq<char>)>)
    ensures
        pasted_views(pasted_views(vs)) == pasted_views(vs),
{
    lemma_pasted_views_plain(vs);
}

/// Applies `##` pasting until no paste operator remains.
pub fn apply_concatenation(tokens: Vec<Token>) -> (r: Vec<Token>)
    ensures
        no_paste(r@),
        views(r@) == pasted_views(views(tokens@)),
        no_paste(tokens@) ==> r@.len() == tokens@.len() && forall|k: int| 0 <= k < tokens@.len()
            ==> kind_view((#[trigger] r@[k]).kind) == kind_view(tokens@[k].kind) && r@[k].line == tokens@[k].line
                && r@[k].col == tokens@[k].col && hide_set(r@[k]) == hide_set(tokens@[k]),
    decreases tokens@.len(),
{
    let ghost vs = views(tokens@);
    let ghost orig = tokens@;
    let mut tokens = tokens;
    let mut next: Vec<Token> = Vec::new();
    let mut changed = false;
    let mut i: usize = 0;
    assert(views(next@) =~= Seq::<(int, Seq<char>)>::empty());
    while i < tokens.len()
        invariant
            i <= tokens@.len(),
            tokens@.len() == orig.len(),
            vs == views(orig),
            next@.len() <= i,
            changed ==> next@.len() < i,
            !changed ==> tokens@ == orig,
            !changed ==> next@.len() == i,
            !changed ==> forall|k: int| 0 <= k < i ==> concat_width(tokens@, k) == 0
                && kind_view(#[trigger] next@[k].kind) == kind_view(tokens@[k].kind)
                && next@[k].line == tokens@[k].line && next@[k].col == tokens@[k].col
                && hide_set(next@[k]) == hide_set(tokens@[k]),
            changed ==> has_paste(vs),
            views(next@) + paste_pass(views(tokens@), i as int) == paste_pass(vs, 0),
        decreases tokens@.len() - i,
    {
        let ghost n0 = views(next@);
        let ghost cur = views(tokens@);
        proof {
            lemma_views_paste(tokens@, i as int);
            if i + 1 < tokens@.len() {
                lemma_views_paste(tokens@, i + 1);
            }
            if i + 2 < tokens@.len() {
                lemma_views_paste(tokens@, i + 2);
            }
        }
        if tokens.len() - i > 2 && concat_width_at(&tokens, i + 1) > 0 {
            let t = paste_two_tokens(&tokens[i], &tokens[i + 2]);
            proof {
                assert(kind_view(t.kind) == pasted_view(cur[i as int], cur[i + 2]));
                assert(view_concat_width(cur, i + 1) > 0);
                if !changed {
                    assert(view_concat_width(vs, i + 1) > 0);
                }
            }
            tokens.set(i + 2, t);
            proof {
                assert(views(tokens@) =~= cur.update(i + 2, pasted_view(cur[i as int], cur[i + 2])));
            }
            i = i + 2;
            changed = true;
        } else if concat_width_at(&tokens, i) > 0 {
            let w = concat_width_at(&tokens, i);
            proof { assert(view_concat_width(cur, i as int) > 0); }
            i = i + w;
            changed = true;
        } else {
            let t = tokens[i].duplicate();
            next.push(t);
            proof {
                assert(cur[i as int] == kind_view(tokens@[i as int].kind));
                assert(views(next@) =~= n0.push(cur[i as int]));
                assert(views(next@) + paste_pass(cur, i + 1) =~= n0 + paste_pass(cur, i as int));
            }
            i = i + 1;
        }
    }
    if !changed {
        assert forall|k: int| 0 <= k < next@.len() implies concat_width(next@, k) == 0 by {
            assert(kind_view(next@[k].kind) == kind_view(tokens@[k].kind));
            if k + 1 < next@.len() {
                assert(kind_view(next@[k + 1].kind) == kind_view(tokens@[k + 1].kind));
            }
            assert(concat_width(tokens@, k) == 0);
        }
        proof {
            assert(views(next@) =~= vs) by {
                assert forall|k: int| 0 <= k < vs.len() implies views(next@)[k] == vs[k] by {
                    assert(kind_view(next@[k].kind) == kind_view(tokens@[k].kind));
                }
            }
            assert(!has_paste(vs)) by {
                assert forall|k: int| 0 <= k < vs.len() implies view_concat_width(vs, k) == 0 by {
                    lemma_views_paste(tokens@, k);
                }
            }
        }
        return next;
    }
    proof {
        assert(paste_pass(views(tokens@), i as int) =~= Seq::<(int, Seq<char>)>::empty());
        assert(views(next@) =~= paste_pass(vs, 0));
        let k = choose|k: int| 0 <= k < vs.len() && #[trigger] view_concat_width(vs, k) > 0;
        lemma_views_paste(orig, k);
        assert(!no_paste(orig));
    }
    apply_concatenation(next)
}

/// Copies the tokens of `src` (same kinds and hide sets) after `out`.
fn extend_tokens(out: &mut Vec<Token>, src: &Vec<Token>)
    ensures
        views(final(out)@) == views(old(out)@) + views(src@),
        final(out)@.len() == old(out)@.len() + src@.len(),
        forall|k: int| 0 <= k < old(out)@.len() ==> #[trigger] final(out)@[k] == old(out)@[k],
        forall|k: int| 0 <= k < src@.len() ==> kind_view(#[trigger] final(out)@[old(out)@.len() + k].kind)
            == kind_view(src@[k].kind) && hide_set(final(out)@[old(out)@.len() + k]) == hide_set(src@[k]),
{
    let mut i: usize = 0;
    while i < src.len()
        invariant
            i <= src@.len(),
            out@.len() == old(out)@.len() + i,
            forall|k: int| 0 <= k < old(out)@.len() ==> #[trigger] out@[k] == old(out)@[k],
            forall|k: int| 0 <= k < i ==> kind_view(#[trigger] out@[old(out)@.len() + k].kind) == kind_view(src@[k].kind)
                && hide_set(out@[old(out)@.len() + k]) == hide_set(src@[k]),
        decreases src@.len() - i,
    {
        out.push(src[i].duplicate());
        i = i + 1;
    }
    assert(views(out@) =~= views(old(out)@) + views(src@)) by {
        assert forall|k: int| 0 <= k < out@.len() implies views(out@)[k] == (views(old(out)@) + views(src@))[k] by {
            if k >= old(out)@.len() {
                assert(kind_view(out@[old(out)@.len() + (k - old(out)@.len())].kind) == kind_view(src@[k - old(out)@.len()].kind));
            }
        }
    }
}

/// Position of the first parameter named `name` at or after `k`.
pub open spec fn first_param(params: Seq<Seq<char>>, name: Seq<char>, k: int) -> Option<usize>
    decreases params.len() - k,
{
    if k < 0 || k >= params.len() {
        None
    } else if params[k] == name {
        Some(k as usize)
    } else {
        first_param(params, name, k + 1)
    }
}

/// Kind views of the arguments from `start` on, separated by commas.
pub open spec fn variadic_views(args: Seq<Vec<Token>>, start: int) -> Seq<(int, Seq<char>)>
    decreases args.len() - start,
{
    if start < 0 || start >= args.len() {
        Seq::empty()
    } else if start == args.len() - 1 {
        views(args[start]@)
    } else {
        views(args[start]@) + seq![(4int, seq![','])] + variadic_views(args, start + 1)
    }
}

proof fn lemma_variadic_views_split(args: Seq<Vec<Token>>, start: int)
    ensures
        start >= args.len() ==> variadic_views(args, start) == Seq::<(int, Seq<char>)>::empty(),
{
}

/// Whether the argument for parameter `idx` is empty (for the variadic
/// parameter: all arguments from `idx` on).
pub open spec fn arg_empty(args: Seq<Vec<Token>>, nparams: int, idx: int, variadic: bool) -> bool {
    if variadic && idx == nparams - 1 && idx < args.len() {
        forall|k: int| idx <= k < args.len() ==> (#[trigger] args[k])@.len() == 0
    } else if idx < args.len() {
        args[idx]@.len() == 0
    } else {
        true
    }
}

/// `body[i]` is `##` followed by a parameter whose argument is empty.
pub open spec fn pasted_empty(body: Seq<Token>, i: int, params: Seq<Seq<char>>, args: Seq<Vec<Token>>, variadic: bool) -> bool {
    0 <= i && i + 1 < body.len() && is_punct(body[i].kind, seq!['#', '#'])
        && (body[i + 1].kind matches TokenKind::Identifier(n)
            && first_param(params, n@, 0) is Some
            && arg_empty(args, params.len() as int, first_param(params, n@, 0)->0 as int, variadic))
}

/// Kind views of the substitution of `args` for `params` in `body` from
/// position `i` on, after `out`: `name ## p` with an empty argument for `p`
/// drops both (and a comma just before); `__VA_ARGS__` and the variadic
/// parameter take the remaining arguments, comma-separated; another
/// parameter takes its argument; every other token is kept.
pub open spec fn subst_views(out: Seq<(int, Seq<char>)>, body: Seq<Token>, i: int, params: Seq<Seq<char>>,
    args: Seq<Vec<Token>>, variadic: bool) -> Seq<(int, Seq<char>)>
    decreases body.len() - i,
{
    if i < 0 || i >= body.len() {
        out
    } else {
        if pasted_empty(body, i, params, args, variadic) {
            let kept = if out.len() > 0 && out.last() == (4int, seq![',']) { out.drop_last() } else { out };
            subst_views(kept, body, i + 2, params, args, variadic)
        } else {
            match body[i].kind {
                TokenKind::Identifier(n) => if variadic && n@ == "__VA_ARGS__"@ {
                    let start = if params.len() > 0 { params.len() - 1 } else { 0 };
                    subst_views(out + variadic_views(args, start), body, i + 1, params, args, variadic)
                } else if first_param(params, n@, 0) is Some {
                    let idx = first_param(params, n@, 0)->0 as int;
                    if variadic && idx == params.len() - 1 {
                        subst_views(out + variadic_views(args, idx), body, i + 1, params, args, variadic)
                    } else if idx < args.len() {
                        subst_views(out + views(args[idx]@), body, i + 1, params, args, variadic)
                    } else {
                        subst_views(out, body, i + 1, params, args, variadic)
                    }
                } else {
                    subst_views(out.push(kind_view(body[i].kind)), body, i + 1, params, args, variadic)
                },
                _ => subst_views(out.push(kind_view(body[i].kind)), body, i + 1, params, args, variadic),
            }
        }
    }
}

/// A token of the substitution either copies an argument token or is a
/// replacement-list token hidden from `name`.
pub open spec fn from_args_or_hidden(t: Token, args: Seq<Vec<Token>>, name: Seq<char>) -> bool {
    hide_set(t).contains(name) || exists|a: int, j: int| 0 <= a < args.len() && 0 <= j < args[a]@.len()
        && kind_view(t.kind) == kind_view(#[trigger] args[a]@[j].kind) && hide_set(t) == hide_set(args[a]@[j])
}

/// Position of `name` in `params`.
fn param_position(params: &Vec<Vec<char>>, name: &[char]) -> (r: Option<usize>)
    ensures
        match r {
            Some(k) => k < params@.len() && params@[k as int]@ == name@
                && forall|j: int| 0 <= j < k ==> (#[trigger] params@[j])@ != name@,
            None => forall|k: int| 0 <= k < params@.len() ==> (#[trigger] params@[k])@ != name@,
        },
        r == first_param(names_view(params@), name@, 0),
{
    let mut k: usize = 0;
    while k < params.len()
        invariant
            k <= params@.len(),
            forall|j: int| 0 <= j < k ==> (#[trigger] params@[j])@ != name@,
            first_param(names_view(params@), name@, 0) == first_param(names_view(params@), name@, k as int),
        decreases params@.len() - k,
    {
        assert(names_view(params@)[k as int] == params@[k as int]@);
        if chars_eq(&params[k], name) {
            return Some(k);
        }
        k = k + 1;
    }
    None
}

/// Appends the argument list from `start` on, comma-separated (the
/// variadic tail), with separating commas hidden from `name`.
fn push_variadic(out: &mut Vec<Token>, args: &Vec<Vec<Token>>, start: usize, at: &Token, origin: &Token, name: &[char])
    requires
        forall|k: int| 0 <= k < old(out)@.len() ==> from_args_or_hidden(#[trigger] old(out)@[k], args@, name@),
    ensures
        forall|k: int| 0 <= k < final(out)@.len() ==> from_args_or_hidden(#[trigger] final(out)@[k], args@, name@),
        views(final(out)@) == views(old(out)@) + variadic_views(args@, start as int),
{
    let mut ai = start;
    proof { lemma_variadic_views_split(args@, start as int); }
    while ai < args.len()
        invariant
            start <= ai,
            forall|k: int| 0 <= k < out@.len() ==> from_args_or_hidden(#[trigger] out@[k], args@, name@),
            ai < args@.len() ==> views(out@) + (if ai > start { seq![(4int, seq![','])] } else { Seq::empty() })
                + variadic_views(args@, ai as int) == views(old(out)@) + variadic_views(args@, start as int),
            ai >= args@.len() ==> views(out@) == views(old(out)@) + variadic_views(args@, start as int),
        decreases args@.len() - ai,
    {
        let ghost o0 = views(out@);
        if ai > start {
            let comma = Token::new(TokenKind::Punct(vec![',']), at.line, at.col).with_macro_hide(origin, name);
            proof { assert(kind_view(comma.kind) == (4int, seq![','])); }
            out.push(comma);
            proof { assert(views(out@) =~= o0.push((4int, seq![',']))); }
        }
        let ghost before = out@;
        let ghost o1 = views(out@);
        assert(o1 == o0 + (if ai > start { seq![(4int, seq![','])] } else { Seq::<(int, Seq<char>)>::empty() }));
        extend_tokens(out, &args[ai]);
        proof {
            if ai + 1 < args@.len() {
                assert(variadic_views(args@, ai as int) == views(args@[ai as int]@) + seq![(4int, seq![','])]
                    + variadic_views(args@, ai + 1));
                assert(views(out@) + seq![(4int, seq![','])] + variadic_views(args@, ai + 1)
                    =~= o0 + (if ai > start { seq![(4int, seq![','])] } else { Seq::<(int, Seq<char>)>::empty() })
                    + variadic_views(args@, ai as int));
            } else {
                assert(variadic_views(args@, ai as int) == views(args@[ai as int]@));
                assert(views(out@) =~= o0 + (if ai > start { seq![(4int, seq![','])] } else { Seq::<(int, Seq<char>)>::empty() })
                    + variadic_views(args@, ai as int));
            }
        }
        assert forall|k: int| 0 <= k < out@.len() implies from_args_or_hidden(#[trigger] out@[k], args@, name@) by {
            if k >= before.len() {
                let j = k - before.len();
                assert(kind_view(out@[before.len() + j].kind) == kind_view(args@[ai as int]@[j].kind)
                    && hide_set(out@[before.len() + j]) == hide_set(args@[ai as int]@[j]));
            } else {
                assert(out@[k] == before[k]);
            }
        }
        ai = ai + 1;
    }
}

/// Parameter substitution for one invocation of function-like macro `name`:
/// each result token is an argument token or a replacement-list token whose
/// hide set holds `name`.
pub fn substitute_macro(
    macro_name: &[char],
    origin: &Token,
    body: &[Token],
    params: &Vec<Vec<char>>,
    args: &Vec<Vec<Token>>,
    variadic: bool,
) -> (out: Vec<Token>)
    ensures
        forall|k: int| 0 <= k < out@.len() ==> from_args_or_hidden(#[trigger] out@[k], args@, macro_name@),
        views(out@) == subst_views(Seq::empty(), body@, 0, names_view(params@), args@, variadic),
{
    let mut out: Vec<Token> = Vec::new();
    let mut i: usize = 0;
    let va: Vec<char> = str_chars("__VA_ARGS__");
    let ghost ps = names_view(params@);
    assert(views(out@) =~= Seq::<(int, Seq<char>)>::empty());
    while i < body.len()
        invariant
            i <= body@.len(),
            va@ == "__VA_ARGS__"@,
            ps == names_view(params@),
            forall|k: int| 0 <= k < out@.len() ==> from_args_or_hidden(#[trigger] out@[k], args@, macro_name@),
            subst_views(Seq::empty(), body@, 0, ps, args@, variadic) == subst_views(views(out@), body@, i as int, ps, args@, variadic),
        decreases body@.len() - i,
    {
        let ghost o0 = views(out@);
        if i + 1 < body.len() && punct_is2(&body[i].kind, '#', '#') {
            match &body[i + 1].kind {
                TokenKind::Identifier(name) => {
                    let pos = param_position(params, name);
                    if let Some(idx) = pos {
                        let empty = if variadic && idx == params.len() - 1 && idx < args.len() {
                            all_empty_from(args, idx)
                        } else if idx < args.len() {
                            args[idx].len() == 0
                        } else {
                            true
                        };
                        if empty {
                            proof { assert(pasted_empty(body@, i as int, ps, args@, variadic)); }
                            if out.len() > 0 && punct_is(&out[out.len() - 1].kind, ',') {
                                proof { assert(o0.last() == kind_view(out@[out@.len() - 1].kind)); }
                                out.pop();
                                proof { assert(views(out@) =~= o0.drop_last()); }
                            } else {
                                proof {
                                    if o0.len() > 0 {
                                        assert(o0.last() == kind_view(out@[out@.len() - 1].kind));
                                    }
                                }
                            }
                            i = i + 2;
                            continue;
                        }
                    }
                },
                _ => {},
            }
        }
        proof {
            if pasted_empty(body@, i as int, ps, args@, variadic) {
                match body@[i + 1].kind {
                    TokenKind::Identifier(n) => {},
                    _ => {},
                }
            }
        }
        match &body[i].kind {
            TokenKind::Identifier(name) => {
                if variadic && chars_eq(name, &va) {
                    let start = if params.len() > 0 { params.len() - 1 } else { 0 };
                    push_variadic(&mut out, args, start, &body[i], origin, macro_name);
                    i = i + 1;
                    continue;
                }
                let pos = param_position(params, name);
                if let Some(idx) = pos {
                    if variadic && idx == params.len() - 1 {
                        push_variadic(&mut out, args, idx, &body[i], origin, macro_name);
                    } else if idx < args.len() {
                        let ghost before = out@;
                        extend_tokens(&mut out, &args[idx]);
                        assert forall|k: int| 0 <= k < out@.len() implies from_args_or_hidden(#[trigger] out@[k], args@, macro_name@) by {
                            if k >= before.len() {
                                let j = k - before.len();
                                assert(kind_view(out@[before.len() + j].kind) == kind_view(args@[idx as int]@[j].kind)
                                    && hide_set(out@[before.len() + j]) == hide_set(args@[idx as int]@[j]));
                            } else {
                                assert(out@[k] == before[k]);
                            }
                        }
                    }
                    i = i + 1;
                    continue;
                }
            },
            _ => {},
        }
        let t = body[i].with_macro_hide(origin, macro_name);
        out.push(t);
        proof { assert(views(out@) =~= o0.push(kind_view(body@[i as int].kind))); }
        i = i + 1;
    }
    out
}

/// Whether the arguments from `start` on are all empty (their
/// concatenation is empty).
fn all_empty_from(args: &Vec<Vec<Token>>, start: usize) -> (r: bool)
    ensures
        r == forall|k: int| start <= k < args@.len() ==> (#[trigger] args@[k])@.len() == 0,
{
    let mut k = start;
    while k < args.len()
        invariant
            start <= k || k == start,
            forall|j: int| start <= j < k ==> (#[trigger] args@[j])@.len() == 0,
        decreases args@.len() - k,
    {
        if args[k].len() != 0 {
            return false;
        }
        k = k + 1;
    }
    true
}


/// Paths of the available sources.
pub open spec fn source_paths(sources: Seq<SourceFile>) -> Seq<Seq<char>> {
    sources.map_values(|f: SourceFile| f.path@)
}

/// Number of entries of `paths` not yet in `guard`.
pub open spec fn unguarded(paths: Seq<Seq<char>>, guard: Seq<Seq<char>>) -> nat
    decreases paths.len(),
{
    if paths.len() == 0 {
        0
    } else {
        unguarded(paths.drop_last(), guard) + if guard.contains(paths.last()) { 0nat } else { 1nat }
    }
}

pub proof fn lemma_unguarded_mono(paths: Seq<Seq<char>>, g1: Seq<Seq<char>>, g2: Seq<Seq<char>>)
    requires
        forall|h: Seq<char>| g1.contains(h) ==> g2.contains(h),
    ensures
        unguarded(paths, g2) <= unguarded(paths, g1),
    decreases paths.len(),
{
    if paths.len() > 0 {
        lemma_unguarded_mono(paths.drop_last(), g1, g2);
    }
}

pub proof fn lemma_unguarded_strict(paths: Seq<Seq<char>>, g1: Seq<Seq<char>>, g2: Seq<Seq<char>>, p: Seq<char>)
    requires
        forall|h: Seq<char>| g1.contains(h) ==> g2.contains(h),
        paths.contains(p),
        !g1.contains(p),
        g2.contains(p),
    ensures
        unguarded(paths, g2) < unguarded(paths, g1),
    decreases paths.len(),
{
    lemma_unguarded_mono(paths.drop_last(), g1, g2);
    if paths.last() != p {
        let k = choose|k: int| 0 <= k < paths.len() && paths[k] == p;
        assert(paths.drop_last()[k] == p);
        lemma_unguarded_strict(paths.drop_last(), g1, g2, p);
    }
}

/// Whether `s` spells the word `w`.
fn word_is(s: &[char], w: &str) -> (r: bool)
    ensures
        r == (s@ == w@),
{
    let wc = str_chars(w);
    chars_eq(s, &wc)
}

/// Tokens of `val` without the final end-of-input token.
fn object_tokens(val: &[char]) -> (r: Vec<Token>)
    ensures
        forall|k: int| 0 <= k < r@.len() ==> !is_eof(#[trigger] r@[k].kind),
        opens_token(val@) ==> r@.len() >= 1 && first_token_fits(val@, r@[0]),
{
    let tokens = Lexer::from_chars(val).tokenize();
    let mut out: Vec<Token> = Vec::new();
    let mut i: usize = 0;
    while i < tokens.len()
        invariant
            i <= tokens@.len(),
            forall|k: int| 0 <= k < out@.len() ==> !is_eof(#[trigger] out@[k].kind),
            well_formed_tokens(tokens@),
            i == 0 ==> out@.len() == 0,
            opens_token(val@) ==> tokens@.len() >= 2 && first_token_fits(val@, tokens@[0]),
            i >= 1 && opens_token(val@) ==> out@.len() >= 1 && first_token_fits(val@, out@[0]),
        decreases tokens@.len() - i,
    {
        if !is_eof_kind(&tokens[i].kind) {
            out.push(tokens[i].duplicate());
        }
        i = i + 1;
    }
    out
}

/// Preprocessor state for one run.
pub struct PreprocessorState<'a> {
    pub opts: &'a PreprocessOptions,
    pub macros: MacroTable,
    pub include_stack: Vec<Vec<char>>,
    /// Files already expanded in this run (each is expanded at most once).
    pub included_guard: Vec<Vec<char>>,
    pub conditional_stack: Vec<bool>,
    /// Per conditional level: whether one of its branches was taken (so a
    /// later `#elif` or `#else` of that level is skipped).
    pub branch_taken: Vec<bool>,
    pub output: Vec<char>,
    /// UTF-8 length of `output` in bytes (`usize::MAX` beyond that).
    pub output_bytes: usize,
    pub line_map: LineMap,
    pub diagnostics: Vec<Diagnostic>,
    pub current_file: Vec<char>,
    pub current_line: u32,
    pub expansion_depth: u32,
    pub expansion_limit_warned: bool,
}

/// Bytes of `c` in UTF-8.
pub open spec fn char_utf8_len(c: char) -> nat {
    if (c as u32) < 0x80 {
        1
    } else if (c as u32) < 0x800 {
        2
    } else if (c as u32) < 0x10000 {
        3
    } else {
        4
    }
}

/// Bytes of `s` in UTF-8.
pub open spec fn utf8_len(s: Seq<char>) -> nat
    decreases s.len(),
{
    if s.len() == 0 { 0 } else { utf8_len(s.drop_last()) + char_utf8_len(s.last()) }
}

/// A byte count as a `usize`, capped at its maximum.
pub open spec fn capped(n: nat) -> usize {
    if n > usize::MAX { usize::MAX } else { n as usize }
}

/// Line-map records point into the output, in output order.
pub open spec fn line_map_ok(entries: Seq<crate::line_map::LineMapEntry>, bytes: usize) -> bool {
    &&& forall|k: int| 0 <= k < entries.len() ==> #[trigger] entries[k].output_offset <= bytes
    &&& forall|i: int, j: int| 0 <= i < j < entries.len() ==> #[trigger] entries[i].output_offset <= #[trigger] entries[j].output_offset
}

/// The state's invariant: the base conditional entry is always present, the
/// expansion depth stays within its cap, the byte count matches the output,
/// and the line map points into the output in order.
pub open spec fn state_wf(st: PreprocessorState) -> bool {
    &&& st.conditional_stack@.len() >= 1
    &&& st.branch_taken@.len() == st.conditional_stack@.len()
    &&& st.expansion_depth <= MAX_MACRO_EXPANSION_DEPTH
    &&& st.output_bytes == capped(utf8_len(st.output@))
    &&& line_map_ok(st.line_map.entries@, st.output_bytes)
    &&& names_distinct(macro_entries(st.macros))
}

/// Files still available for a first expansion.
pub open spec fn files_left(st: PreprocessorState) -> nat {
    unguarded(source_paths(st.opts.source_cache@), names_view(st.included_guard@))
}

/// `new` follows `old` in one run: same options, same expansion depth,
/// expanded files kept, output and diagnostics only appended to.
pub open spec fn steps(old: PreprocessorState, new: PreprocessorState) -> bool {
    &&& new.opts == old.opts
    &&& new.expansion_depth == old.expansion_depth
    &&& forall|h: Seq<char>| names_view(old.included_guard@).contains(h) ==> names_view(new.included_guard@).contains(h)
    &&& old.output@.len() <= new.output@.len()
    &&& new.output@.subrange(0, old.output@.len() as int) == old.output@
    &&& old.diagnostics@.len() <= new.diagnostics@.len()
    &&& new.diagnostics@.subrange(0, old.diagnostics@.len() as int) == old.diagnostics@
    &&& state_wf(new)
}

pub proof fn lemma_steps_trans(a: PreprocessorState, b: PreprocessorState, c: PreprocessorState)
    requires
        steps(a, b),
        steps(b, c),
    ensures
        steps(a, c),
{
    assert(c.output@.subrange(0, a.output@.len() as int) =~= c.output@.subrange(0, b.output@.len() as int).subrange(0, a.output@.len() as int));
    assert(c.diagnostics@.subrange(0, a.diagnostics@.len() as int) =~= c.diagnostics@.subrange(0, b.diagnostics@.len() as int).subrange(0, a.diagnostics@.len() as int));
}

pub proof fn lemma_steps_refl(a: PreprocessorState)
    requires
        state_wf(a),
    ensures
        steps(a, a),
{
    assert(a.output@.subrange(0, a.output@.len() as int) =~= a.output@);
    assert(a.diagnostics@.subrange(0, a.diagnostics@.len() as int) =~= a.diagnostics@);
}

/// Bytes of `c` in UTF-8.
fn utf8_width(c: char) -> (r: usize)
    ensures
        r == char_utf8_len(c),
{
    let v = c as u32;
    if v < 0x80 {
        1
    } else if v < 0x800 {
        2
    } else if v < 0x10000 {
        3
    } else {
        4
    }
}

/// Appends `src` to `out`, keeping `bytes` the (capped) UTF-8 length of `out`.
fn push_counted(out: &mut Vec<char>, bytes: &mut usize, src: &[char])
    requires
        *old(bytes) == capped(utf8_len(old(out)@)),
    ensures
        final(out)@ == old(out)@ + src@,
        *final(bytes) == capped(utf8_len(final(out)@)),
        *final(bytes) >= *old(bytes),
{
    let mut i: usize = 0;
    while i < src.len()
        invariant
            i <= src@.len(),
            out@ == old(out)@ + src@.subrange(0, i as int),
            *bytes == capped(utf8_len(out@)),
            *bytes >= *old(bytes),
        decreases src@.len() - i,
    {
        let c = src[i];
        let ghost o0 = out@;
        out.push(c);
        proof { assert(out@.drop_last() =~= o0); }
        *bytes = bytes.saturating_add(utf8_width(c));
        i = i + 1;
        assert(src@.subrange(0, i as int) =~= src@.subrange(0, (i - 1) as int).push(c));
    }
    assert(src@.subrange(0, src@.len() as int) =~= src@);
}

impl<'a> PreprocessorState<'a> {
    pub fn new(opts: &'a PreprocessOptions, file: &[char]) -> (st: PreprocessorState<'a>)
        ensures
            state_wf(st),
            st.opts == opts,
            st.expansion_depth == 0,
            st.included_guard@.len() == 0,
            st.output@.len() == 0,
            st.diagnostics@.len() == 0,
            st.conditional_stack@ == seq![true],
            st.branch_taken@ == seq![true],
            st.current_file@ == file@,
            crate::options::define_entries(opts.defines).len() == 0 ==> macro_entries(st.macros).len() == 0,
    {
        let mut cs: Vec<bool> = Vec::new();
        cs.push(true);
        let mut taken: Vec<bool> = Vec::new();
        taken.push(true);
        let mut stack: Vec<Vec<char>> = Vec::new();
        stack.push(copy_chars(file));
        let mut st = PreprocessorState {
            opts,
            macros: macro_table_new(),
            include_stack: stack,
            included_guard: Vec::new(),
            conditional_stack: cs,
            branch_taken: taken,
            output: Vec::new(),
            output_bytes: 0,
            line_map: LineMap::new(),
            diagnostics: Vec::new(),
            current_file: copy_chars(file),
            current_line: 1,
            expansion_depth: 0,
            expansion_limit_warned: false,
        };
        assert(st.conditional_stack@ =~= seq![true]);
        assert(st.branch_taken@ =~= seq![true]);
        st.init_predefined_macros();
        st
    }

    /// Defines each `-D NAME=VALUE` as an object-like macro, in order.
    fn init_predefined_macros(&mut self)
        requires
            names_distinct(macro_entries(old(self).macros)),
        ensures
            names_distinct(macro_entries(final(self).macros)),
            final(self).opts == old(self).opts,
            final(self).expansion_depth == old(self).expansion_depth,
            final(self).included_guard == old(self).included_guard,
            final(self).output == old(self).output,
            final(self).output_bytes == old(self).output_bytes,
            final(self).line_map == old(self).line_map,
            final(self).diagnostics == old(self).diagnostics,
            final(self).conditional_stack == old(self).conditional_stack,
            final(self).branch_taken == old(self).branch_taken,
            final(self).current_file == old(self).current_file,
            forall|k: int| 0 <= k < crate::options::define_entries(old(self).opts.defines).len()
                ==> macro_defined(final(self).macros, #[trigger] crate::options::define_entries(old(self).opts.defines)[k].0),
            crate::options::define_entries(old(self).opts.defines).len() == 0 ==> final(self).macros == old(self).macros,
    {
        let defines = defines_list(&self.opts.defines);
        let mut k: usize = 0;
        while k < defines.len()
            invariant
                names_distinct(macro_entries(self.macros)),
                k <= defines@.len(),
                defines@.len() == crate::options::define_entries(self.opts.defines).len(),
                forall|j: int| 0 <= j < defines@.len() ==> (#[trigger] defines@[j]).0@ == crate::options::define_entries(self.opts.defines)[j].0,
                forall|j: int| 0 <= j < k ==> macro_defined(self.macros, #[trigger] defines@[j].0@),
                self.opts == old(self).opts,
                self.expansion_depth == old(self).expansion_depth,
                self.included_guard == old(self).included_guard,
                self.output == old(self).output,
                self.output_bytes == old(self).output_bytes,
                self.line_map == old(self).line_map,
                self.diagnostics == old(self).diagnostics,
                self.conditional_stack == old(self).conditional_stack,
                self.branch_taken == old(self).branch_taken,
                self.current_file == old(self).current_file,
                defines@.len() == 0 ==> self.macros == old(self).macros,
            decreases defines@.len() - k,
        {
            let name = copy_chars(&defines[k].0);
            let tokens = object_tokens(&defines[k].1);
            let ghost m0 = self.macros;
            self.insert_macro(name, MacroDef::Object { replacement: tokens });
            proof {
                assert forall|j: int| 0 <= j < k + 1 implies macro_defined(self.macros, #[trigger] defines@[j].0@) by {
                    if j < k {
                        assert(macro_defined(m0, defines@[j].0@));
                    }
                }
            }
            k = k + 1;
        }
        proof {
            assert forall|k: int| 0 <= k < crate::options::define_entries(old(self).opts.defines).len()
                implies macro_defined(self.macros, #[trigger] crate::options::define_entries(old(self).opts.defines)[k].0) by {
                assert(defines@[k].0@ == crate::options::define_entries(self.opts.defines)[k].0);
            }
        }
    }

    fn insert_macro(&mut self, name: Vec<char>, def: MacroDef)
        requires
            names_distinct(macro_entries(old(self).macros)),
        ensures
            names_distinct(macro_entries(final(self).macros)),
            final(self).opts == old(self).opts,
            final(self).expansion_depth == old(self).expansion_depth,
            final(self).included_guard == old(self).included_guard,
            final(self).output == old(self).output,
            final(self).output_bytes == old(self).output_bytes,
            final(self).line_map == old(self).line_map,
            final(self).diagnostics == old(self).diagnostics,
            final(self).conditional_stack == old(self).conditional_stack,
            final(self).branch_taken == old(self).branch_taken,
            final(self).current_file == old(self).current_file,
            macro_defined(final(self).macros, name@),
            def_of(final(self).macros, name@) == def,
            forall|q: Seq<char>| #[trigger] macro_defined(old(self).macros, q) ==> macro_defined(final(self).macros, q),
    {
        let ghost n = name@;
        let ghost d = def;
        proof { crate::macros::lemma_insert_distinct(macro_entries(self.macros), n, d); }
        macro_insert(&mut self.macros, name, def);
        proof {
            crate::macros::lemma_entry_index(macro_entries(old(self).macros), n);
            crate::macros::lemma_entry_index(macro_entries(self.macros), n);
            let e = macro_entries(self.macros);
            if entry_index(macro_entries(old(self).macros), n) == -1 {
                assert(e[e.len() - 1].0 == n);
            } else {
                let x = entry_index(macro_entries(old(self).macros), n);
                assert(e[x].0 == n);
                let y = entry_index(e, n);
                if y != x {
                    assert(e[y].0 == e[x].0);
                }
            }
            assert forall|q: Seq<char>| #[trigger] macro_defined(old(self).macros, q) implies macro_defined(self.macros, q) by {
                crate::macros::lemma_entry_index(macro_entries(old(self).macros), q);
                crate::macros::lemma_entry_index(macro_entries(self.macros), q);
                if q != n {
                    let x = entry_index(macro_entries(old(self).macros), q);
                    assert(e[x].0 == q);
                }
            }
        }
    }

    fn remove_macro(&mut self, name: &Vec<char>)
        requires
            names_distinct(macro_entries(old(self).macros)),
        ensures
            names_distinct(macro_entries(final(self).macros)),
            !macro_defined(final(self).macros, name@),
            final(self).opts == old(self).opts,
            final(self).expansion_depth == old(self).expansion_depth,
            final(self).included_guard == old(self).included_guard,
            final(self).output == old(self).output,
            final(self).output_bytes == old(self).output_bytes,
            final(self).line_map == old(self).line_map,
            final(self).diagnostics == old(self).diagnostics,
            final(self).conditional_stack == old(self).conditional_stack,
            final(self).branch_taken == old(self).branch_taken,
            final(self).current_file == old(self).current_file,
    {
        let ghost e0 = macro_entries(self.macros);
        proof {
            crate::macros::lemma_entry_index(e0, name@);
            if entry_index(e0, name@) >= 0 {
                crate::macros::lemma_remove_distinct(e0, name@);
            }
        }
        macro_shift_remove(&mut self.macros, name);
        proof {
            if entry_index(e0, name@) >= 0 {
                assert(macro_entries(self.macros) == e0.remove(entry_index(e0, name@)));
            } else {
                assert(macro_entries(self.macros) == e0);
            }
        }
    }

    /// Whether every enclosing conditional branch is taken.
    pub fn is_active(&self) -> (r: bool)
        ensures
            r == forall|k: int| 0 <= k < self.conditional_stack@.len() ==> #[trigger] self.conditional_stack@[k],
    {
        let mut k: usize = 0;
        while k < self.conditional_stack.len()
            invariant
                k <= self.conditional_stack@.len(),
                forall|j: int| 0 <= j < k ==> #[trigger] self.conditional_stack@[j],
            decreases self.conditional_stack@.len() - k,
        {
            if !self.conditional_stack[k] {
                return false;
            }
            k = k + 1;
        }
        true
    }

    /// Enters one more level of macro expansion unless the cap is reached
    /// (then warns once and refuses).
    fn push_expansion(&mut self, line: u32) -> (r: bool)
        requires
            state_wf(*old(self)),
        ensures
            r ==> final(self).expansion_depth == old(self).expansion_depth + 1,
            !r ==> final(self).expansion_depth == old(self).expansion_depth,
            !r ==> old(self).expansion_depth >= MAX_MACRO_EXPANSION_DEPTH,
            final(self).opts == old(self).opts,
            final(self).included_guard == old(self).included_guard,
            final(self).output == old(self).output,
            final(self).output_bytes == old(self).output_bytes,
            final(self).line_map == old(self).line_map,
            final(self).conditional_stack == old(self).conditional_stack,
            final(self).branch_taken == old(self).branch_taken,
            final(self).macros == old(self).macros,
            r ==> final(self).diagnostics == old(self).diagnostics,
            final(self).expansion_depth <= MAX_MACRO_EXPANSION_DEPTH,
            old(self).diagnostics@.len() <= final(self).diagnostics@.len(),
            final(self).diagnostics@.subrange(0, old(self).diagnostics@.len() as int) == old(self).diagnostics@,
    {
        if self.expansion_depth >= MAX_MACRO_EXPANSION_DEPTH {
            if !self.expansion_limit_warned {
                let msg = str_chars("macro expansion depth exceeded (256); skipping further expansion");
                self.warn(line, &msg);
                self.expansion_limit_warned = true;
            } else {
                assert(self.diagnostics@.subrange(0, self.diagnostics@.len() as int) =~= self.diagnostics@);
            }
            return false;
        }
        self.expansion_depth = self.expansion_depth + 1;
        assert(self.diagnostics@.subrange(0, self.diagnostics@.len() as int) =~= self.diagnostics@);
        true
    }

    fn pop_expansion(&mut self)
        ensures
            final(self).expansion_depth == if old(self).expansion_depth > 0 { old(self).expansion_depth - 1 } else { 0 },
            final(self).opts == old(self).opts,
            final(self).included_guard == old(self).included_guard,
            final(self).output == old(self).output,
            final(self).output_bytes == old(self).output_bytes,
            final(self).line_map == old(self).line_map,
            final(self).diagnostics == old(self).diagnostics,
            final(self).conditional_stack == old(self).conditional_stack,
            final(self).branch_taken == old(self).branch_taken,
            final(self).macros == old(self).macros,
    {
        if self.expansion_depth > 0 {
            self.expansion_depth = self.expansion_depth - 1;
        }
    }

    /// The replacement list painted with the invoked macro's hide set.
    fn paint_replacement(tokens: &Vec<Token>, origin: &Token, name: &[char]) -> (r: Vec<Token>)
        ensures
            r@.len() == tokens@.len(),
            forall|k: int| 0 <= k < r@.len() ==> hide_set(#[trigger] r@[k]).contains(name@)
                && kind_view(r@[k].kind) == kind_view(tokens@[k].kind),
    {
        let mut r: Vec<Token> = Vec::new();
        let mut k: usize = 0;
        while k < tokens.len()
            invariant
                k <= tokens@.len(),
                r@.len() == k,
                forall|j: int| 0 <= j < k ==> hide_set(#[trigger] r@[j]).contains(name@)
                    && kind_view(r@[j].kind) == kind_view(tokens@[j].kind),
            decreases tokens@.len() - k,
        {
            r.push(tokens[k].with_macro_hide(origin, name));
            k = k + 1;
        }
        r
    }

    /// Writes a token (with a separating space where needed) and records its
    /// position.
    fn emit_token(&mut self, tok: &Token)
        requires
            state_wf(*old(self)),
        ensures
            steps(*old(self), *final(self)),
            final(self).output@ == emit_text(old(self).output@, tok.kind),
            final(self).diagnostics == old(self).diagnostics,
            final(self).included_guard == old(self).included_guard,
            final(self).conditional_stack == old(self).conditional_stack,
            final(self).branch_taken == old(self).branch_taken,
            final(self).current_file == old(self).current_file,
            final(self).macros == old(self).macros,
    {
        proof { lemma_steps_refl(*self); }
        if is_eof_kind(&tok.kind) {
            return;
        }
        if !is_newline_kind(&tok.kind) && needs_leading_space(&self.output, &tok.kind) {
            let sp: Vec<char> = vec![' '];
            push_counted(&mut self.output, &mut self.output_bytes, &sp);
        }
        let offset = self.output_bytes;
        let text = token_to_string(&tok.kind);
        push_counted(&mut self.output, &mut self.output_bytes, &text);
        self.line_map.push(offset, copy_chars(&self.current_file), tok.line, tok.col);
        if is_newline_kind(&tok.kind) && self.current_line < u32::MAX {
            self.current_line = self.current_line + 1;
        }
        proof {
            assert(self.output@.subrange(0, old(self).output@.len() as int) =~= old(self).output@);
        }
    }

    /// Writes `s` verbatim and records its position.
    fn emit_str(&mut self, s: &[char], line: u32, col: u32)
        requires
            state_wf(*old(self)),
        ensures
            steps(*old(self), *final(self)),
            final(self).output@ == old(self).output@ + s@,
            final(self).diagnostics == old(self).diagnostics,
            final(self).included_guard == old(self).included_guard,
            final(self).conditional_stack == old(self).conditional_stack,
            final(self).branch_taken == old(self).branch_taken,
            final(self).current_file == old(self).current_file,
    {
        let offset = self.output_bytes;
        push_counted(&mut self.output, &mut self.output_bytes, s);
        self.line_map.push(offset, copy_chars(&self.current_file), line, col);
        proof {
            assert(self.output@.subrange(0, old(self).output@.len() as int) =~= old(self).output@);
            assert(self.diagnostics@.subrange(0, self.diagnostics@.len() as int) =~= self.diagnostics@);
        }
    }

    /// Records a warning about the current file.
    fn warn(&mut self, line: u32, message: &[char])
        ensures
            final(self).diagnostics@.len() == old(self).diagnostics@.len() + 1,
            final(self).diagnostics@.subrange(0, old(self).diagnostics@.len() as int) == old(self).diagnostics@,
            final(self).diagnostics@.last().severity == DiagnosticSeverity::Warning,
            final(self).diagnostics@.last().message@ == message@,
            final(self).diagnostics@.last().line == line,
            final(self).macros == old(self).macros,
            final(self).opts == old(self).opts,
            final(self).expansion_depth == old(self).expansion_depth,
            final(self).included_guard == old(self).included_guard,
            final(self).output == old(self).output,
            final(self).output_bytes == old(self).output_bytes,
            final(self).line_map == old(self).line_map,
            final(self).conditional_stack == old(self).conditional_stack,
            final(self).branch_taken == old(self).branch_taken,
            final(self).current_file == old(self).current_file,
    {
        let d = Diagnostic {
            severity: DiagnosticSeverity::Warning,
            file: Some(chars_to_string(&self.current_file)),
            line,
            message: chars_to_string(message),
        };
        self.diagnostics.push(d);
        assert(self.diagnostics@.subrange(0, old(self).diagnostics@.len() as int) =~= old(self).diagnostics@);
    }

    /// Records an error about the current file and returns it.
    fn error(&mut self, line: u32, message: &[char]) -> (e: PreprocessError)
        ensures
            e == (PreprocessError::Message { message: e->message }),
            e->message@ == message@,
            final(self).diagnostics@.len() == old(self).diagnostics@.len() + 1,
            final(self).diagnostics@.subrange(0, old(self).diagnostics@.len() as int) == old(self).diagnostics@,
            final(self).diagnostics@.last().severity == DiagnosticSeverity::Error,
            final(self).diagnostics@.last().message@ == message@,
            final(self).macros == old(self).macros,
            final(self).opts == old(self).opts,
            final(self).expansion_depth == old(self).expansion_depth,
            final(self).included_guard == old(self).included_guard,
            final(self).output == old(self).output,
            final(self).output_bytes == old(self).output_bytes,
            final(self).line_map == old(self).line_map,
            final(self).conditional_stack == old(self).conditional_stack,
            final(self).branch_taken == old(self).branch_taken,
            final(self).current_file == old(self).current_file,
    {
        let d = Diagnostic {
            severity: DiagnosticSeverity::Error,
            file: Some(chars_to_string(&self.current_file)),
            line,
            message: chars_to_string(message),
        };
        self.diagnostics.push(d);
        assert(self.diagnostics@.subrange(0, old(self).diagnostics@.len() as int) =~= old(self).diagnostics@);
        PreprocessError::Message { message: copy_chars(message) }
    }
}


/// `new` differs from `old` only by diagnostics appended (and, where
/// `macros_too`, by the macro table).
pub open spec fn quiet(old: PreprocessorState, new: PreprocessorState, macros_too: bool) -> bool {
    &&& new.opts == old.opts
    &&& new.expansion_depth == old.expansion_depth
    &&& new.included_guard == old.included_guard
    &&& new.output == old.output
    &&& new.output_bytes == old.output_bytes
    &&& new.line_map == old.line_map
    &&& new.conditional_stack == old.conditional_stack
    &&& new.branch_taken == old.branch_taken
    &&& new.current_file == old.current_file
    &&& (!macros_too ==> new.macros == old.macros)
    &&& (macros_too ==> names_distinct(macro_entries(new.macros)))
    &&& old.diagnostics@.len() <= new.diagnostics@.len()
    &&& new.diagnostics@.subrange(0, old.diagnostics@.len() as int) == old.diagnostics@
}

pub proof fn lemma_quiet_trans(a: PreprocessorState, b: PreprocessorState, c: PreprocessorState, m: bool)
    requires
        quiet(a, b, m),
        quiet(b, c, m),
    ensures
        quiet(a, c, m),
{
    assert(c.diagnostics@.subrange(0, a.diagnostics@.len() as int) =~= c.diagnostics@.subrange(0, b.diagnostics@.len() as int).subrange(0, a.diagnostics@.len() as int));
}

pub proof fn lemma_quiet_weaken(a: PreprocessorState, b: PreprocessorState)
    requires
        quiet(a, b, false),
        names_distinct(macro_entries(a.macros)),
    ensures
        quiet(a, b, true),
{
}

pub proof fn lemma_quiet_steps(a: PreprocessorState, b: PreprocessorState, m: bool)
    requires
        quiet(a, b, m),
        state_wf(a),
    ensures
        steps(a, b),
{
    assert(b.output@.subrange(0, a.output@.len() as int) =~= a.output@);
}

/// Index of the first token at or after `i` that is not a newline.
pub open spec fn skip_newlines(tokens: Seq<Token>, i: int) -> int
    decreases tokens.len() - i,
{
    if i < tokens.len() && 0 <= i && is_newline(tokens[i].kind) {
        skip_newlines(tokens, i + 1)
    } else {
        i
    }
}

/// First index at or after `i` that is not a newline.
fn skip_newlines_exec(tokens: &[Token], i: usize) -> (r: usize)
    ensures
        r as int == skip_newlines(tokens@, i as int),
        i <= r,
        r <= i || r <= tokens@.len(),
{
    let mut j = i;
    while j < tokens.len() && is_newline_kind(&tokens[j].kind)
        invariant
            i <= j,
            j <= i || j <= tokens@.len(),
            skip_newlines(tokens@, i as int) == skip_newlines(tokens@, j as int),
        decreases tokens@.len() - j,
    {
        j = j + 1;
    }
    j
}

/// Whether the first non-newline token at or after `i` is the punctuator `c`.
fn next_non_newline_is(tokens: &[Token], i: usize, c: char) -> (r: bool)
    ensures
        r == (skip_newlines(tokens@, i as int) < tokens@.len() && is_punct(tokens@[skip_newlines(tokens@, i as int)].kind, seq![c])),
{
    let j = skip_newlines_exec(tokens, i);
    j < tokens.len() && punct_is(&tokens[j].kind, c)
}

/// The first position at or after `j` that holds a newline or the end of
/// input (or is past the end).
pub open spec fn line_stop(ts: Seq<Token>, j: int) -> int
    decreases ts.len() - j,
{
    if j >= ts.len() || j < 0 || is_newline(ts[j].kind) || is_eof(ts[j].kind) { j } else { line_stop(ts, j + 1) }
}

/// The position just past the newline that ends the line at `i` (the end
/// of input's position when the input ends first).
pub open spec fn past_line(ts: Seq<Token>, i: int) -> int {
    let j = line_stop(ts, i);
    if 0 <= j < ts.len() && is_newline(ts[j].kind) { j + 1 } else { j }
}

/// Index just past the next newline (or the end-of-input token's index,
/// or the end).
fn skip_to_newline(tokens: &[Token], i: usize) -> (r: usize)
    ensures
        i <= r,
        r <= i || r <= tokens@.len(),
        r == past_line(tokens@, i as int),
{
    let mut j = i;
    while j < tokens.len() && !is_newline_kind(&tokens[j].kind) && !is_eof_kind(&tokens[j].kind)
        invariant
            i <= j,
            j <= i || j <= tokens@.len(),
            line_stop(tokens@, i as int) == line_stop(tokens@, j as int),
        decreases tokens@.len() - j,
    {
        j = j + 1;
    }
    if j < tokens.len() && is_newline_kind(&tokens[j].kind) {
        j = j + 1;
    }
    j
}

/// `...` as one token or three `.` tokens at `i`.
fn token_is_ellipsis(tokens: &[Token], i: usize) -> (r: bool)
    ensures
        r == ((i < tokens@.len() && is_punct(tokens@[i as int].kind, seq!['.', '.', '.']))
            || (i + 2 < tokens@.len() && is_punct(tokens@[i as int].kind, seq!['.']) && is_punct(tokens@[i + 1].kind, seq!['.'])
                && is_punct(tokens@[i + 2].kind, seq!['.']))),
{
    if i < tokens.len() && punct_is3(&tokens[i].kind, '.', '.', '.') {
        return true;
    }
    i < tokens.len() && tokens.len() - i > 2 && punct_is(&tokens[i].kind, '.') && punct_is(&tokens[i + 1].kind, '.')
        && punct_is(&tokens[i + 2].kind, '.')
}

/// Index past the ellipsis at `i`.
fn skip_ellipsis(tokens: &[Token], i: usize) -> (r: usize)
    requires
        token_is_ellipsis_spec(tokens@, i as int),
    ensures
        i < r <= tokens@.len(),
{
    if punct_is3(&tokens[i].kind, '.', '.', '.') {
        i + 1
    } else {
        i + 3
    }
}

pub open spec fn token_is_ellipsis_spec(tokens: Seq<Token>, i: int) -> bool {
    (0 <= i < tokens.len() && is_punct(tokens[i].kind, seq!['.', '.', '.'])) || (0 <= i && i + 2 < tokens.len()
        && is_punct(tokens[i].kind, seq!['.']) && is_punct(tokens[i + 1].kind, seq!['.']) && is_punct(tokens[i + 2].kind, seq!['.']))
}

/// Whether `#define NAME(` opens a parameter list: the next non-newline
/// token is an identifier, `)` or `...`.
fn looks_like_function_macro_params(tokens: &[Token], i: usize) -> (r: bool)
    ensures
        r == (skip_newlines(tokens@, i as int) < tokens@.len() && (tokens@[skip_newlines(tokens@, i as int)].kind is Identifier
            || is_punct(tokens@[skip_newlines(tokens@, i as int)].kind, seq![')'])
            || is_punct(tokens@[skip_newlines(tokens@, i as int)].kind, seq!['.', '.', '.']))),
{
    let j = skip_newlines_exec(tokens, i);
    if j >= tokens.len() {
        return false;
    }
    match &tokens[j].kind {
        TokenKind::Identifier(_) => true,
        _ => punct_is(&tokens[j].kind, ')') || punct_is3(&tokens[j].kind, '.', '.', '.'),
    }
}

/// Whether a replacement list is continued on the next line at `i`
/// (a `\` followed by a newline).
fn is_continuation(tokens: &[Token], i: usize) -> (r: bool)
    requires
        i < tokens@.len(),
    ensures
        r == (is_punct(tokens@[i as int].kind, seq!['\\']) && i + 1 < tokens@.len() && is_newline(tokens@[i + 1].kind)),
{
    punct_is(&tokens[i].kind, '\\') && tokens.len() - i > 1 && is_newline_kind(&tokens[i + 1].kind)
}

/// The replacement list from `j` to the end of the directive line, with
/// `\`-newline continuations joined: its tokens' kind views.
pub open spec fn replacement_from(ts: Seq<Token>, j: int) -> Seq<(int, Seq<char>)>
    decreases ts.len() - j,
{
    if j < 0 || j >= ts.len() || is_newline(ts[j].kind) {
        seq![]
    } else if is_punct(ts[j].kind, seq!['\\']) && j + 1 < ts.len() && is_newline(ts[j + 1].kind) {
        replacement_from(ts, j + 2)
    } else {
        seq![kind_view(ts[j].kind)] + replacement_from(ts, j + 1)
    }
}

/// Replacement list from `i` to the end of the directive line, joining
/// continued lines; returns it and the index of the line's end.
fn read_replacement(tokens: &[Token], i: usize) -> (r: (Vec<Token>, usize))
    ensures
        i <= r.1,
        r.1 <= i || r.1 <= tokens@.len(),
        views(r.0@) == replacement_from(tokens@, i as int),
{
    let mut j = i;
    let mut replacement: Vec<Token> = Vec::new();
    assert(views(replacement@) =~= Seq::<(int, Seq<char>)>::empty());
    while j < tokens.len() && !is_newline_kind(&tokens[j].kind)
        invariant
            i <= j,
            j <= i || j <= tokens@.len(),
            views(replacement@) + replacement_from(tokens@, j as int) == replacement_from(tokens@, i as int),
        decreases tokens@.len() - j,
    {
        if is_continuation(tokens, j) {
            j = j + 2;
            continue;
        }
        let ghost r0 = views(replacement@);
        let t = tokens[j].duplicate();
        replacement.push(t);
        proof {
            assert(views(replacement@) =~= r0.push(kind_view(tokens@[j as int].kind)));
            assert(views(replacement@) + replacement_from(tokens@, j + 1) =~= r0 + replacement_from(tokens@, j as int));
        }
        j = j + 1;
    }
    proof { assert(views(replacement@) + replacement_from(tokens@, j as int) =~= views(replacement@)); }
    (replacement, j)
}

/// `b` starts on `a`'s line right where `a`, spelled by `len` characters,
/// ends: no white space separates them.
pub open spec fn abuts(a: Token, len: int, b: Token) -> bool {
    a.line == b.line && a.col + len == b.col
}

fn abuts_exec(a: &Token, len: usize, b: &Token) -> (r: bool)
    ensures
        r == abuts(*a, len as int, *b),
{
    a.line == b.line && (a.col as u128) + (len as u128) == (b.col as u128)
}

/// The `#define` whose name is at `k` is function-like: a `(` follows the
/// name with no white space between and opens a parameter list.
pub open spec fn function_define(tokens: Seq<Token>, k: int) -> bool {
    &&& 0 <= k && k + 1 < tokens.len()
    &&& is_punct(tokens[k + 1].kind, seq!['('])
    &&& abuts(tokens[k], kind_view(tokens[k].kind).1.len() as int, tokens[k + 1])
    &&& {
        let q = skip_newlines(tokens, k + 2);
        q < tokens.len() && (tokens[q].kind is Identifier || is_punct(tokens[q].kind, seq![')'])
            || is_punct(tokens[q].kind, seq!['.', '.', '.']))
    }
}

/// What `#define` at `i0` (the position after the directive name) stores
/// when it is object-like: the replacement list after the name.
pub open spec fn object_define_ok(tokens: Seq<Token>, i0: int, m: MacroTable) -> bool {
    let k = skip_newlines(tokens, i0);
    def_of(m, ident_after(tokens, i0)->0) matches MacroDef::Object { replacement }
        && views(replacement@) == replacement_from(tokens, k + 1)
}

impl<'a> PreprocessorState<'a> {
    /// Reads the identifier after a directive name.
    fn read_directive_ident(&mut self, tokens: &[Token], i: &mut usize) -> (r: Result<Vec<char>, PreprocessError>)
        ensures
            quiet(*old(self), *final(self), false),
            r is Ok <==> ident_after(tokens@, *old(i) as int) is Some,
            r is Ok ==> ident_after(tokens@, *old(i) as int) == Some(r->Ok_0@),
            r is Ok ==> *old(i) < *final(i) && *final(i) <= tokens@.len(),
            r is Ok ==> *final(i) == skip_newlines(tokens@, *old(i) as int) + 1,
            r is Err ==> *old(i) <= *final(i) && (*final(i) <= *old(i) || *final(i) <= tokens@.len()),
    {
        *i = skip_newlines_exec(tokens, *i);
        if *i < tokens.len() {
            match &tokens[*i].kind {
                TokenKind::Identifier(s) => {
                    let name = copy_chars(s);
                    *i = *i + 1;
                    assert(self.diagnostics@.subrange(0, self.diagnostics@.len() as int) =~= self.diagnostics@);
                    return Ok(name);
                },
                _ => {},
            }
        }
        let line = if *i < tokens.len() { tokens[*i].line } else { 1 };
        let msg = str_chars("expected identifier in directive");
        let ghost prev = *self;
        assert(prev.diagnostics@.subrange(0, prev.diagnostics@.len() as int) =~= prev.diagnostics@);
        let e = self.error(line, &msg);
        proof { lemma_quiet_trans(*old(self), prev, *self, false); }
        Err(e)
    }

    /// Parses `(a, b, ...)` after a function-like macro name; returns the
    /// parameter names and whether the macro is variadic.
    fn parse_macro_param_list(&mut self, tokens: &[Token], i: &mut usize) -> (r: Result<(Vec<Vec<char>>, bool), PreprocessError>)
        ensures
            quiet(*old(self), *final(self), false),
            *old(i) <= *final(i),
            *final(i) <= *old(i) || *final(i) <= tokens@.len(),
    {
        let mut params: Vec<Vec<char>> = Vec::new();
        let mut variadic = false;
        let ghost i0 = *i;
        assert(self.diagnostics@.subrange(0, self.diagnostics@.len() as int) =~= self.diagnostics@);
        loop
            invariant
                quiet(*old(self), *self, false),
                i0 == *old(i),
                i0 <= *i,
                *i <= i0 || *i <= tokens@.len(),
            decreases tokens@.len() - *i,
        {
            *i = skip_newlines_exec(tokens, *i);
            if *i >= tokens.len() {
                let msg = str_chars("unterminated macro parameter list");
                let ghost prev = *self;
                let e = self.error(1, &msg);
                proof { lemma_quiet_trans(*old(self), prev, *self, false); }
                return Err(e);
            }
            if punct_is(&tokens[*i].kind, ')') {
                *i = *i + 1;
                break;
            }
            if token_is_ellipsis(tokens, *i) {
                variadic = true;
                *i = skip_ellipsis(tokens, *i);
                *i = skip_newlines_exec(tokens, *i);
                if *i < tokens.len() && punct_is(&tokens[*i].kind, ')') {
                    *i = *i + 1;
                }
                break;
            }
            let ghost prev = *self;
            let got = self.read_directive_ident(tokens, i);
            proof { lemma_quiet_trans(*old(self), prev, *self, false); }
            let param = match got {
                Ok(p) => p,
                Err(e) => {
                    return Err(e);
                },
            };
            params.push(param);
            if token_is_ellipsis(tokens, *i) {
                variadic = true;
                *i = skip_ellipsis(tokens, *i);
                *i = skip_newlines_exec(tokens, *i);
                if *i < tokens.len() && punct_is(&tokens[*i].kind, ')') {
                    *i = *i + 1;
                }
                break;
            }
            *i = skip_newlines_exec(tokens, *i);
            if *i < tokens.len() && punct_is(&tokens[*i].kind, ')') {
                *i = *i + 1;
                break;
            }
            if *i < tokens.len() && punct_is(&tokens[*i].kind, ',') {
                *i = *i + 1;
                continue;
            }
            let line = if *i < tokens.len() { tokens[*i].line } else { 1 };
            let msg = str_chars("expected , or ) in macro parameters");
            let ghost prev = *self;
            let e = self.error(line, &msg);
            proof { lemma_quiet_trans(*old(self), prev, *self, false); }
            return Err(e);
        }
        Ok((params, variadic))
    }

    /// Reads the parenthesized, comma-separated arguments of a macro
    /// invocation (nested parentheses kept inside arguments).
    fn parse_macro_args(&mut self, tokens: &[Token], i: &mut usize) -> (r: Result<Vec<Vec<Token>>, PreprocessError>)
        ensures
            quiet(*old(self), *final(self), false),
            *old(i) <= *final(i),
            *final(i) <= *old(i) || *final(i) <= tokens@.len(),
    {
        assert(self.diagnostics@.subrange(0, self.diagnostics@.len() as int) =~= self.diagnostics@);
        *i = skip_newlines_exec(tokens, *i);
        if !(*i < tokens.len() && punct_is(&tokens[*i].kind, '(')) {
            return Ok(Vec::new());
        }
        *i = *i + 1;
        let mut args: Vec<Vec<Token>> = Vec::new();
        let mut current: Vec<Token> = Vec::new();
        let mut depth: u64 = 0;
        let ghost i0 = *old(i);
        while *i < tokens.len()
            invariant
                quiet(*old(self), *self, false),
                i0 == *old(i),
                i0 <= *i,
                *i <= tokens@.len(),
                depth <= *i,
            decreases tokens@.len() - *i,
        {
            if is_continuation(tokens, *i) {
                *i = *i + 2;
                continue;
            }
            let k = *i;
            if punct_is(&tokens[k].kind, '(') {
                depth = depth + 1;
                current.push(tokens[k].duplicate());
                *i = k + 1;
            } else if punct_is(&tokens[k].kind, ')') && depth == 0 {
                args.push(current);
                current = Vec::new();
                *i = k + 1;
                break;
            } else if punct_is(&tokens[k].kind, ')') {
                depth = depth - 1;
                current.push(tokens[k].duplicate());
                *i = k + 1;
            } else if punct_is(&tokens[k].kind, ',') && depth == 0 {
                args.push(current);
                current = Vec::new();
                *i = k + 1;
            } else if is_eof_kind(&tokens[k].kind) {
                let msg = str_chars("unterminated macro argument list");
                let ghost prev = *self;
                let e = self.error(tokens[k].line, &msg);
                proof { lemma_quiet_trans(*old(self), prev, *self, false); }
                return Err(e);
            } else {
                current.push(tokens[k].duplicate());
                *i = k + 1;
            }
        }
        Ok(args)
    }

    /// Expands the rest of a `#if`/`#elif` line (object-like macros
    /// substituted once) and evaluates it.
    fn expand_and_eval_condition(&self, tokens: &[Token], i: &mut usize) -> (r: bool)
        ensures
            *old(i) <= *final(i),
            *final(i) <= *old(i) || *final(i) <= tokens@.len(),
            r == if_condition(tokens@, *old(i) as int, self.macros),
    {
        let mut expanded: Vec<char> = Vec::new();
        let ghost i0 = *old(i);
        let ghost end = line_end(tokens@, i0 as int);
        proof { lemma_line_end(tokens@, i0 as int); }
        while *i < tokens.len() && !is_newline_kind(&tokens[*i].kind)
            invariant
                i0 == *old(i),
                i0 <= *i,
                *i <= i0 || *i <= tokens@.len(),
                end == line_end(tokens@, i0 as int),
                i0 <= tokens@.len() ==> *i <= end,
                line_end(tokens@, i0 as int) == line_end(tokens@, *i as int),
                cond_text(Seq::empty(), tokens@, i0 as int, end, self.macros)
                    == cond_text(expanded@, tokens@, *i as int, end, self.macros),
            decreases tokens@.len() - *i,
        {
            let ghost e0 = expanded@;
            if expanded.len() > 0 {
                expanded.push(' ');
            }
            let k = *i;
            proof { assert(expanded@ == if e0.len() > 0 { e0.push(' ') } else { e0 }); }
            match &tokens[k].kind {
                TokenKind::Identifier(name) => {
                    let def = macro_get(&self.macros, name);
                    match def {
                        Some(MacroDef::Object { replacement }) => {
                            let ghost a = expanded@;
                            let mut j: usize = 0;
                            while j < replacement.len()
                                invariant
                                    j <= replacement@.len(),
                                    rep_text(a, replacement@, 0) == rep_text(expanded@, replacement@, j as int),
                                decreases replacement@.len() - j,
                            {
                                let ghost b0 = expanded@;
                                if expanded.len() > 0 && expanded[expanded.len() - 1] != ' '
                                    && !is_newline_kind(&replacement[j].kind) {
                                    expanded.push(' ');
                                }
                                let t = token_to_string(&replacement[j].kind);
                                push_all(&mut expanded, &t);
                                j = j + 1;
                            }
                            proof {
                                assert(rep_text(expanded@, replacement@, j as int) == expanded@);
                                crate::macros::lemma_entry_index(macro_entries(self.macros), name@);
                            }
                        },
                        _ => {
                            push_all(&mut expanded, name);
                        },
                    }
                },
                other => {
                    let t = token_to_string(other);
                    push_all(&mut expanded, &t);
                },
            }
            proof {
                assert(expanded@ == cond_token_text(e0, tokens@[k as int], self.macros));
                lemma_line_end(tokens@, k + 1);
            }
            *i = k + 1;
        }
        if (expanded.len() as u64) < 0x7fff_ffff_ffff_ffffu64 {
            eval_pp_condition(&expanded, &self.macros)
        } else {
            false
        }
    }
}


/// Index of the source stored under `path`.
fn find_source(sources: &Vec<SourceFile>, path: &[char]) -> (r: Option<usize>)
    ensures
        match r {
            Some(k) => k < sources@.len() && sources@[k as int].path@ == path@
                && forall|j: int| 0 <= j < k ==> (#[trigger] sources@[j]).path@ != path@,
            None => !source_paths(sources@).contains(path@),
        },
{
    let mut k: usize = 0;
    while k < sources.len()
        invariant
            k <= sources@.len(),
            forall|j: int| 0 <= j < k ==> (#[trigger] sources@[j]).path@ != path@,
        decreases sources@.len() - k,
    {
        if chars_eq(&sources[k].path, path) {
            return Some(k);
        }
        k = k + 1;
    }
    proof {
        if source_paths(sources@).contains(path@) {
            let j = choose|j: int| 0 <= j < source_paths(sources@).len() && #[trigger] source_paths(sources@)[j] == path@;
            assert(sources@[j].path@ == path@);
        }
    }
    None
}

/// Directory part of `p`: up to its last `/` (`/` itself for a top-level
/// file, empty when `p` has no `/`).
pub open spec fn parent_dir(p: Seq<char>) -> Seq<char> {
    if !p.contains('/') {
        Seq::empty()
    } else {
        let k = last_slash(p);
        if k == 0 { seq!['/'] } else { p.subrange(0, k) }
    }
}

/// Position of the last `/` in `p`, or -1.
pub open spec fn last_slash(p: Seq<char>) -> int
    decreases p.len(),
{
    if p.len() == 0 {
        -1
    } else if p.last() == '/' {
        p.len() - 1
    } else {
        last_slash(p.drop_last())
    }
}

proof fn lemma_last_slash(p: Seq<char>)
    ensures
        -1 <= last_slash(p) < p.len(),
        last_slash(p) >= 0 ==> p[last_slash(p)] == '/',
        last_slash(p) == -1 <==> !p.contains('/'),
    decreases p.len(),
{
    if p.len() > 0 {
        lemma_last_slash(p.drop_last());
        if p.last() != '/' {
            if p.contains('/') {
                let j = choose|j: int| 0 <= j < p.len() && p[j] == '/';
                assert(p.drop_last()[j] == '/');
            }
            if p.drop_last().contains('/') {
                let j = choose|j: int| 0 <= j < p.drop_last().len() && p.drop_last()[j] == '/';
                assert(p[j] == '/');
            }
        } else {
            assert(p[p.len() - 1] == '/');
        }
    }
}

/// Directory part of `p`.
fn parent_of(p: &[char]) -> (r: Vec<char>)
    ensures
        r@ == parent_dir(p@),
{
    proof { lemma_last_slash(p@); }
    let mut k = p.len();
    assert(p@.subrange(0, k as int) =~= p@);
    while k > 0 && p[k - 1] != '/'
        invariant
            k <= p@.len(),
            last_slash(p@) == last_slash(p@.subrange(0, k as int)),
        decreases k,
    {
        assert(p@.subrange(0, k as int).drop_last() =~= p@.subrange(0, k - 1));
        k = k - 1;
    }
    if k == 0 {
        assert(p@.subrange(0, 0) =~= Seq::<char>::empty());
        return Vec::new();
    }
    assert(p@.subrange(0, k as int).last() == '/');
    if k == 1 {
        let r: Vec<char> = vec!['/'];
        assert(r@ =~= seq!['/']);
        return r;
    }
    crate::pp_eval::slice_range(p, 0, k - 1)
}

/// `p` relative to `base` (an absolute `p`, or an empty `base`, leaves
/// `p` as it is).
pub open spec fn join_path(base: Seq<char>, p: Seq<char>) -> Seq<char> {
    if (p.len() > 0 && p[0] == '/') || base.len() == 0 {
        p
    } else if base.last() == '/' {
        base + p
    } else {
        base + seq!['/'] + p
    }
}

fn join_paths(base: &[char], p: &[char]) -> (r: Vec<char>)
    ensures
        r@ == join_path(base@, p@),
{
    if (p.len() > 0 && p[0] == '/') || base.len() == 0 {
        return copy_chars(p);
    }
    let mut r = copy_chars(base);
    if base[base.len() - 1] != '/' {
        r.push('/');
    }
    push_all(&mut r, p);
    r
}

/// Concatenation of the given pieces.
fn concat3(a: &[char], b: &[char], c: &[char]) -> (r: Vec<char>)
    ensures
        r@ == a@ + b@ + c@,
{
    let mut r = copy_chars(a);
    push_all(&mut r, b);
    push_all(&mut r, c);
    r
}

impl<'a> PreprocessorState<'a> {
    /// Where `#include "path"` resolves: next to the current file, else in
    /// the first include directory that holds it.
    fn resolve_include(&self, path: &[char]) -> (r: Option<Vec<char>>)
        ensures
            r matches Some(p) ==> source_paths(self.opts.source_cache@).contains(p@),
            match r {
                Some(p) => first_found(include_candidates(self.current_file@, self.opts.include_paths@, path@),
                    source_paths(self.opts.source_cache@)) == Some(p@),
                None => first_found(include_candidates(self.current_file@, self.opts.include_paths@, path@),
                    source_paths(self.opts.source_cache@)) is None,
            },
    {
        let ghost stored = source_paths(self.opts.source_cache@);
        let ghost incs = self.opts.include_paths@.map_values(|d: Vec<char>| join_path(d@, path@));
        let candidate = if (path.len() > 0 && path[0] == '/') || contains_char(path, '\\') {
            copy_chars(path)
        } else {
            let dir = parent_of(&self.current_file);
            join_paths(&dir, path)
        };
        let ghost cands = include_candidates(self.current_file@, self.opts.include_paths@, path@);
        assert(cands[0] == candidate@);
        assert(cands.drop_first() =~= incs);
        if let Some(k) = find_source(&self.opts.source_cache, &candidate) {
            proof { assert(source_paths(self.opts.source_cache@)[k as int] == candidate@); }
            return Some(candidate);
        }
        let mut j: usize = 0;
        assert(incs.subrange(0, incs.len() as int) =~= incs);
        while j < self.opts.include_paths.len()
            invariant
                j <= self.opts.include_paths@.len(),
                incs == self.opts.include_paths@.map_values(|d: Vec<char>| join_path(d@, path@)),
                stored == source_paths(self.opts.source_cache@),
                cands == include_candidates(self.current_file@, self.opts.include_paths@, path@),
                first_found(cands, stored) == first_found(incs.subrange(j as int, incs.len() as int), stored),
            decreases self.opts.include_paths@.len() - j,
        {
            let p = join_paths(&self.opts.include_paths[j], path);
            let ghost rest = incs.subrange(j as int, incs.len() as int);
            assert(rest[0] == p@);
            assert(rest.drop_first() =~= incs.subrange(j + 1, incs.len() as int));
            if let Some(k) = find_source(&self.opts.source_cache, &p) {
                proof {
                    assert(source_paths(self.opts.source_cache@)[k as int] == p@);
                    assert(stored.contains(rest[0]));
                    assert(first_found(rest, stored) == Some(rest[0]));
                }
                return Some(p);
            }
            j = j + 1;
        }
        None
    }

    /// Expands a file once per run: skipped when already expanded, an
    /// error when no source is stored under `path`.
    pub fn process_file(&mut self, path: &[char]) -> (r: Result<(), PreprocessError>)
        requires
            state_wf(*old(self)),
        ensures
            steps(*old(self), *final(self)),
            r is Err <==> (!names_view(old(self).included_guard@).contains(path@)
                && !source_paths(old(self).opts.source_cache@).contains(path@)),
            r is Err ==> r == Err::<(), PreprocessError>(PreprocessError::Io { path: r->Err_0->path }) && r->Err_0->path@ == path@,
            names_view(old(self).included_guard@).contains(path@) ==> r is Ok && *final(self) == *old(self),
            r is Ok ==> names_view(final(self).included_guard@).contains(path@),
            final(self).current_file@ == old(self).current_file@,
            forall|k: int| 0 <= k < old(self).opts.source_cache@.len() && (#[trigger] old(self).opts.source_cache@[k]).path@ == path@
                && (forall|j: int| 0 <= j < k ==> old(self).opts.source_cache@[j].path@ != path@)
                && !names_view(old(self).included_guard@).contains(path@)
                && macro_entries(old(self).macros).len() == 0 && active(*old(self))
                && old(self).expansion_depth < MAX_MACRO_EXPANSION_DEPTH
                && lex_plain(crate::lexer::lex_views(old(self).opts.source_cache@[k].text@, 0))
                ==> r is Ok
                    && final(self).output@ == emit_views(old(self).output@, crate::lexer::lex_views(old(self).opts.source_cache@[k].text@, 0))
                    && final(self).diagnostics == old(self).diagnostics
                    && final(self).conditional_stack == old(self).conditional_stack,
        decreases files_left(*old(self)), MAX_MACRO_EXPANSION_DEPTH - old(self).expansion_depth, 1nat,
    {
        proof { lemma_steps_refl(*self); }
        if crate::lexer::names_contain(&self.included_guard, path) {
            return Ok(());
        }
        let idx = match find_source(&self.opts.source_cache, path) {
            None => {
                proof {
                    assert forall|k: int| 0 <= k < self.opts.source_cache@.len()
                        implies (#[trigger] self.opts.source_cache@[k]).path@ != path@ by {
                        assert(source_paths(self.opts.source_cache@)[k] == self.opts.source_cache@[k].path@);
                    }
                }
                return Err(PreprocessError::Io { path: copy_chars(path) });
            },
            Some(k) => k,
        };
        let content = copy_chars(&self.opts.source_cache[idx].text);
        let ghost g0 = names_view(self.included_guard@);
        self.included_guard.push(copy_chars(path));
        proof {
            let g1 = names_view(self.included_guard@);
            assert(g1 =~= g0.push(path@));
            assert forall|h: Seq<char>| g0.contains(h) implies g1.contains(h) by {
                let j = choose|j: int| 0 <= j < g0.len() && g0[j] == h;
                assert(g1[j] == h);
            }
            assert(g1[g1.len() - 1] == path@);
            assert(source_paths(self.opts.source_cache@)[idx as int] == path@);
            lemma_unguarded_strict(source_paths(self.opts.source_cache@), g0, g1, path@);
            assert(self.output@.subrange(0, old(self).output@.len() as int) =~= old(self).output@);
            assert(self.diagnostics@.subrange(0, old(self).diagnostics@.len() as int) =~= old(self).diagnostics@);
        }
        let prev_file = copy_chars(&self.current_file);
        self.current_file = copy_chars(path);
        self.include_stack.push(copy_chars(path));
        let tokens = Lexer::from_chars(&content).tokenize();
        proof {
            let srcs = old(self).opts.source_cache@;
            assert forall|k: int| 0 <= k < srcs.len() && (#[trigger] srcs[k]).path@ == path@
                && (forall|j: int| 0 <= j < k ==> srcs[j].path@ != path@)
                && !names_view(old(self).included_guard@).contains(path@)
                && macro_entries(old(self).macros).len() == 0 && active(*old(self))
                && old(self).expansion_depth < MAX_MACRO_EXPANSION_DEPTH
                && lex_plain(crate::lexer::lex_views(srcs[k].text@, 0))
                implies k == idx && expandable_tokens(tokens@, self.macros)
                    && expand_views(tokens@.take(first_eof(tokens@, 0)), self.macros) == crate::lexer::lex_views(srcs[k].text@, 0) by {
                if (idx as int) < k {
                    assert(srcs[idx as int].path@ == path@);
                } else if k < (idx as int) {
                    assert(self.opts.source_cache@[k].path@ != path@);
                }
                lemma_lexed_plain(tokens@, crate::lexer::lex_views(content@, 0), self.macros);
            }
        }
        let ghost mid = *self;
        let res = self.process_tokens(&tokens);
        proof { lemma_steps_trans(*old(self), mid, *self); }
        match res {
            Err(e) => {
                let et = e.text();
                let head = str_chars("preprocess stopped in ");
                let sep = str_chars(": ");
                let msg0 = concat3(&head, &self.current_file, &sep);
                let msg = concat3(&msg0, &et, &[]);
                let ghost before = *self;
                self.warn(1, &msg);
                proof {
                    lemma_quiet_steps(before, *self, false);
                    lemma_steps_trans(*old(self), before, *self);
                }
            },
            Ok(()) => {},
        }
        self.include_stack.pop();
        self.current_file = prev_file;
        proof {
            assert(self.output@.subrange(0, old(self).output@.len() as int) =~= old(self).output@);
        }
        Ok(())
    }
}


/// The header name spelled by `<...>` from `i` on: the identifiers and
/// punctuators up to `>`.
pub open spec fn angle_path(tokens: Seq<Token>, i: int) -> Seq<char>
    decreases tokens.len() - i,
{
    if i < 0 || i >= tokens.len() || is_punct(tokens[i].kind, seq!['>']) {
        seq![]
    } else {
        match tokens[i].kind {
            TokenKind::Identifier(s) => s@ + angle_path(tokens, i + 1),
            TokenKind::Punct(s) => s@ + angle_path(tokens, i + 1),
            _ => seq![],
        }
    }
}

/// The file an `#include` names from `i0` on: a string literal's contents
/// or a `<...>` header name; `None` when neither follows.
pub open spec fn include_target(tokens: Seq<Token>, i0: int) -> Option<Seq<char>> {
    let i = skip_newlines(tokens, i0);
    if 0 <= i < tokens.len() {
        match tokens[i].kind {
            TokenKind::String(s) => Some(s@),
            _ => if is_punct(tokens[i].kind, seq!['<']) { Some(angle_path(tokens, i + 1)) } else { None },
        }
    } else {
        None
    }
}

/// The directive names are pairwise different.
proof fn lemma_directive_names_differ()
    ensures
        "include"@ != "define"@,
        "include"@ != "ifdef"@,
        "include"@ != "ifndef"@,
        "include"@ != "if"@,
        "include"@ != "elif"@,
        "include"@ != "else"@,
        "include"@ != "endif"@,
        "include"@ != "line"@,
        "include"@ != "undef"@,
        "define"@ != "ifdef"@,
        "define"@ != "ifndef"@,
        "define"@ != "if"@,
        "define"@ != "elif"@,
        "define"@ != "else"@,
        "define"@ != "endif"@,
        "define"@ != "line"@,
        "define"@ != "undef"@,
        "ifdef"@ != "ifndef"@,
        "ifdef"@ != "if"@,
        "ifdef"@ != "elif"@,
        "ifdef"@ != "else"@,
        "ifdef"@ != "endif"@,
        "ifdef"@ != "line"@,
        "ifdef"@ != "undef"@,
        "ifndef"@ != "if"@,
        "ifndef"@ != "elif"@,
        "ifndef"@ != "else"@,
        "ifndef"@ != "endif"@,
        "ifndef"@ != "line"@,
        "ifndef"@ != "undef"@,
        "if"@ != "elif"@,
        "if"@ != "else"@,
        "if"@ != "endif"@,
        "if"@ != "line"@,
        "if"@ != "undef"@,
        "elif"@ != "else"@,
        "elif"@ != "endif"@,
        "elif"@ != "line"@,
        "elif"@ != "undef"@,
        "else"@ != "endif"@,
        "else"@ != "line"@,
        "else"@ != "undef"@,
        "endif"@ != "line"@,
        "endif"@ != "undef"@,
        "line"@ != "undef"@,
{
    reveal_strlit("include");
    reveal_strlit("define");
    reveal_strlit("ifdef");
    reveal_strlit("ifndef");
    reveal_strlit("if");
    reveal_strlit("elif");
    reveal_strlit("else");
    reveal_strlit("endif");
    reveal_strlit("line");
    reveal_strlit("undef");
    assert("include"@.len() != "define"@.len());
    assert("include"@.len() != "ifdef"@.len());
    assert("include"@.len() != "ifndef"@.len());
    assert("include"@.len() != "if"@.len());
    assert("include"@.len() != "elif"@.len());
    assert("include"@.len() != "else"@.len());
    assert("include"@.len() != "endif"@.len());
    assert("include"@.len() != "line"@.len());
    assert("include"@.len() != "undef"@.len());
    assert("define"@.len() != "ifdef"@.len());
    assert("define"@[0] != "ifndef"@[0]);
    assert("define"@.len() != "if"@.len());
    assert("define"@.len() != "elif"@.len());
    assert("define"@.len() != "else"@.len());
    assert("define"@.len() != "endif"@.len());
    assert("define"@.len() != "line"@.len());
    assert("define"@.len() != "undef"@.len());
    assert("ifdef"@.len() != "ifndef"@.len());
    assert("ifdef"@.len() != "if"@.len());
    assert("ifdef"@.len() != "elif"@.len());
    assert("ifdef"@.len() != "else"@.len());
    assert("ifdef"@[0] != "endif"@[0]);
    assert("ifdef"@.len() != "line"@.len());
    assert("ifdef"@[0] != "undef"@[0]);
    assert("ifndef"@.len() != "if"@.len());
    assert("ifndef"@.len() != "elif"@.len());
    assert("ifndef"@.len() != "else"@.len());
    assert("ifndef"@.len() != "endif"@.len());
    assert("ifndef"@.len() != "line"@.len());
    assert("ifndef"@.len() != "undef"@.len());
    assert("if"@.len() != "elif"@.len());
    assert("if"@.len() != "else"@.len());
    assert("if"@.len() != "endif"@.len());
    assert("if"@.len() != "line"@.len());
    assert("if"@.len() != "undef"@.len());
    assert("elif"@[2] != "else"@[2]);
    assert("elif"@.len() != "endif"@.len());
    assert("elif"@[0] != "line"@[0]);
    assert("elif"@.len() != "undef"@.len());
    assert("else"@.len() != "endif"@.len());
    assert("else"@[0] != "line"@[0]);
    assert("else"@.len() != "undef"@.len());
    assert("endif"@.len() != "line"@.len());
    assert("endif"@[0] != "undef"@[0]);
    assert("line"@.len() != "undef"@.len());
}

/// Where `#include` looks for `path` from `current`, in order: `path` itself
/// when absolute (or holding a backslash), else beside `current`; then under each
/// include path.
pub open spec fn include_candidates(current: Seq<char>, include_paths: Seq<Vec<char>>, path: Seq<char>) -> Seq<Seq<char>> {
    let direct = if (path.len() > 0 && path[0] == '/') || path.contains('\\') {
        path
    } else {
        join_path(parent_dir(current), path)
    };
    seq![direct] + include_paths.map_values(|d: Vec<char>| join_path(d@, path))
}

/// The first of `cands` that is stored.
pub open spec fn first_found(cands: Seq<Seq<char>>, stored: Seq<Seq<char>>) -> Option<Seq<char>>
    decreases cands.len(),
{
    if cands.len() == 0 {
        None
    } else if stored.contains(cands[0]) {
        Some(cands[0])
    } else {
        first_found(cands.drop_first(), stored)
    }
}

/// Index of the first newline token at or after `i` (the end of the line).
pub open spec fn line_end(tokens: Seq<Token>, i: int) -> int
    decreases tokens.len() - i,
{
    if i < 0 || i >= tokens.len() {
        i
    } else if is_newline(tokens[i].kind) {
        i
    } else {
        line_end(tokens, i + 1)
    }
}

proof fn lemma_line_end(tokens: Seq<Token>, i: int)
    requires
        0 <= i,
    ensures
        i <= line_end(tokens, i),
        i <= tokens.len() ==> line_end(tokens, i) <= tokens.len(),
    decreases tokens.len() - i,
{
    if i < tokens.len() && !is_newline(tokens[i].kind) {
        lemma_line_end(tokens, i + 1);
    }
}

/// Condition text after writing the replacement tokens of a macro from `j`
/// on: tokens are separated by a space unless one already ends the text.
pub open spec fn rep_text(acc: Seq<char>, rep: Seq<Token>, j: int) -> Seq<char>
    decreases rep.len() - j,
{
    if j < 0 || j >= rep.len() {
        acc
    } else {
        let b = if acc.len() > 0 && acc.last() != ' ' && !is_newline(rep[j].kind) { acc.push(' ') } else { acc };
        rep_text(b + token_text(rep[j].kind), rep, j + 1)
    }
}

/// Condition text after writing token `t`: a separating space, then the
/// replacement of the object-like macro it names, or its own text.
pub open spec fn cond_token_text(acc: Seq<char>, t: Token, macros: MacroTable) -> Seq<char> {
    let a = if acc.len() > 0 { acc.push(' ') } else { acc };
    match t.kind {
        TokenKind::Identifier(n) => if macro_defined(macros, n@) {
            match def_of(macros, n@) {
                MacroDef::Object { replacement } => rep_text(a, replacement@, 0),
                _ => a + n@,
            }
        } else {
            a + n@
        },
        _ => a + token_text(t.kind),
    }
}

/// Condition text of `tokens[k..end]` written after `acc`.
pub open spec fn cond_text(acc: Seq<char>, tokens: Seq<Token>, k: int, end: int, macros: MacroTable) -> Seq<char>
    decreases end - k,
{
    if k < 0 || k >= end || k >= tokens.len() {
        acc
    } else {
        cond_text(cond_token_text(acc, tokens[k], macros), tokens, k + 1, end, macros)
    }
}

/// Value of the `#if` condition that starts at `i`: the rest of the line,
/// object-like macros replaced once, evaluated (false when too long).
pub open spec fn if_condition(tokens: Seq<Token>, i: int, macros: MacroTable) -> bool {
    let text = cond_text(Seq::empty(), tokens, i, line_end(tokens, i), macros);
    if text.len() < 0x7fff_ffff_ffff_ffff { crate::pp_eval::condition_holds(text, macros) } else { false }
}

/// The identifier that is the first non-newline token at or after `i`.
pub open spec fn ident_after(tokens: Seq<Token>, i: int) -> Option<Seq<char>> {
    let q = skip_newlines(tokens, i);
    if 0 <= q < tokens.len() {
        match tokens[q].kind {
            TokenKind::Identifier(s) => Some(s@),
            _ => None,
        }
    } else {
        None
    }
}

proof fn lemma_skip_newlines_idem(tokens: Seq<Token>, i: int)
    ensures
        skip_newlines(tokens, skip_newlines(tokens, i)) == skip_newlines(tokens, i),
    decreases tokens.len() - i,
{
    if i < tokens.len() && 0 <= i && is_newline(tokens[i].kind) {
        lemma_skip_newlines_idem(tokens, i + 1);
    }
}

/// The `#` at `start` introduces the directive named `w`.
pub open spec fn directive_is(tokens: Seq<Token>, start: int, w: Seq<char>) -> bool {
    ident_after(tokens, start + 1) == Some(w)
}

/// The `#` at `start` names a directive this preprocessor does not know.
pub open spec fn unknown_directive(tokens: Seq<Token>, start: int) -> bool {
    match ident_after(tokens, start + 1) {
        Some(w) => w != "include"@ && w != "define"@ && w != "ifdef"@ && w != "ifndef"@ && w != "if"@
            && w != "elif"@ && w != "else"@ && w != "endif"@ && w != "line"@ && w != "undef"@,
        None => false,
    }
}

/// `include file not found, skipping: `.
pub open spec fn include_not_found_prefix() -> Seq<char> {
    seq!['i', 'n', 'c', 'l', 'u', 'd', 'e', ' ', 'f', 'i', 'l', 'e', ' ', 'n', 'o', 't', ' ', 'f', 'o', 'u', 'n', 'd', ',', ' ',
        's', 'k', 'i', 'p', 'p', 'i', 'n', 'g', ':', ' ']
}

/// `unknown directive #`.
pub open spec fn unknown_directive_prefix() -> Seq<char> {
    seq!['u', 'n', 'k', 'n', 'o', 'w', 'n', ' ', 'd', 'i', 'r', 'e', 'c', 't', 'i', 'v', 'e', ' ', '#']
}

/// Index of the directive name of the `#` at `start`.
pub open spec fn directive_name_at(tokens: Seq<Token>, start: int) -> int {
    skip_newlines(tokens, start + 1)
}

/// All conditional entries but the innermost are taken.
pub open spec fn parent_taken(stack: Seq<bool>) -> bool {
    forall|k: int| 0 <= k < stack.len() - 1 ==> #[trigger] stack[k]
}

/// Every enclosing conditional branch of `st` is taken.
pub open spec fn active(st: PreprocessorState) -> bool {
    forall|k: int| 0 <= k < st.conditional_stack@.len() ==> #[trigger] st.conditional_stack@[k]
}

/// `t` is written out as it is: it is no `#`, and no macro name or
/// built-in name (`__FILE__`, `__LINE__`).
pub open spec fn plain_token(t: Token, macros: MacroTable) -> bool {
    match t.kind {
        TokenKind::Hash => false,
        TokenKind::Identifier(n) => !macro_defined(macros, n@) && n@ != "__FILE__"@ && n@ != "__LINE__"@,
        _ => true,
    }
}

/// Every token of `toks` is plain.
pub open spec fn plain_tokens(toks: Seq<Token>, macros: MacroTable) -> bool {
    forall|k: int| 0 <= k < toks.len() ==> plain_token(#[trigger] toks[k], macros)
}

/// `t` is written out as it is inside a macro expansion: it is no `#`, and
/// no identifier naming a macro that is not hidden from it.
pub open spec fn inert_token(t: Token, macros: MacroTable) -> bool {
    match t.kind {
        TokenKind::Hash => false,
        TokenKind::Identifier(n) => hide_set(t).contains(n@) || !macro_defined(macros, n@),
        _ => true,
    }
}

/// Every token of `toks` is inert.
pub open spec fn inert_tokens(toks: Seq<Token>, macros: MacroTable) -> bool {
    forall|k: int| 0 <= k < toks.len() ==> inert_token(#[trigger] toks[k], macros)
}

/// A replacement token of macro `n` that writes out as it is: no `#`, no
/// end of input, and no macro name but `n` itself.
pub open spec fn simple_replacement_token(t: Token, macros: MacroTable, n: Seq<char>) -> bool {
    match t.kind {
        TokenKind::Hash => false,
        TokenKind::Eof => false,
        TokenKind::Identifier(m) => m@ == n || !macro_defined(macros, m@),
        _ => true,
    }
}

/// `n` names an object-like macro whose replacement writes out as it is.
pub open spec fn simple_object(macros: MacroTable, n: Seq<char>) -> bool {
    macro_defined(macros, n) && match def_of(macros, n) {
        MacroDef::Object { replacement } => forall|j: int| 0 <= j < replacement@.len()
            ==> simple_replacement_token(#[trigger] replacement@[j], macros, n),
        _ => false,
    }
}

/// `t` is written as it is or, naming a simple object-like macro, as that
/// macro's replacement: it is no `#`, no built-in name, and no other macro
/// name that is not hidden from it.
pub open spec fn expandable_token(t: Token, macros: MacroTable) -> bool {
    match t.kind {
        TokenKind::Hash => false,
        TokenKind::Identifier(n) => n@ != "__FILE__"@ && n@ != "__LINE__"@
            && (hide_set(t).contains(n@) || !macro_defined(macros, n@) || simple_object(macros, n@)),
        _ => true,
    }
}

/// Every token of `toks` is expandable.
pub open spec fn expandable_tokens(toks: Seq<Token>, macros: MacroTable) -> bool {
    forall|k: int| 0 <= k < toks.len() ==> expandable_token(#[trigger] toks[k], macros)
}

/// Kind views written for `t`: the replacement of the object-like macro it
/// names (when not hidden from it), else its own kind.
pub open spec fn token_views(t: Token, macros: MacroTable) -> Seq<(int, Seq<char>)> {
    match t.kind {
        TokenKind::Identifier(n) => if !hide_set(t).contains(n@) && macro_defined(macros, n@) {
            match def_of(macros, n@) {
                MacroDef::Object { replacement } => views(replacement@),
                _ => seq![kind_view(t.kind)],
            }
        } else {
            seq![kind_view(t.kind)]
        },
        _ => seq![kind_view(t.kind)],
    }
}

/// Kind views written for `toks`, each token in turn.
pub open spec fn expand_views(toks: Seq<Token>, macros: MacroTable) -> Seq<(int, Seq<char>)>
    decreases toks.len(),
{
    if toks.len() == 0 {
        Seq::empty()
    } else {
        expand_views(toks.drop_last(), macros) + token_views(toks.last(), macros)
    }
}

/// The painted replacement of a simple object-like macro writes out as it
/// is, in full.
proof fn lemma_painted_inert(macros: MacroTable, n: Seq<char>, replacement: Seq<Token>, painted: Seq<Token>)
    requires
        simple_object(macros, n),
        def_of(macros, n) matches MacroDef::Object { replacement: r } && views(r@) == views(replacement),
        painted.len() == replacement.len(),
        forall|k: int| 0 <= k < painted.len() ==> hide_set(#[trigger] painted[k]).contains(n)
            && kind_view(painted[k].kind) == kind_view(replacement[k].kind),
    ensures
        inert_tokens(painted, macros),
        first_eof(painted, 0) == painted.len(),
        views(painted).take(painted.len() as int) == token_views_of_def(macros, n),
{
    match def_of(macros, n) {
        MacroDef::Object { replacement: r } => {
            let rep = r@;
            assert(views(replacement).len() == replacement.len());
            assert(views(rep).len() == rep.len());
            assert forall|j: int| 0 <= j < painted.len() implies
                inert_token(#[trigger] painted[j], macros) && !is_eof(painted[j].kind) by {
                assert(views(replacement)[j] == views(rep)[j]);
                assert(views(replacement)[j] == kind_view(replacement[j].kind));
                assert(views(rep)[j] == kind_view(rep[j].kind));
                assert(simple_replacement_token(rep[j], macros, n));
                assert(kind_view(painted[j].kind) == kind_view(rep[j].kind));
                match painted[j].kind {
                    TokenKind::Identifier(m) => {
                        match rep[j].kind {
                            TokenKind::Identifier(m2) => { assert(m2@ == m@); },
                            _ => {},
                        }
                    },
                    TokenKind::Hash => {
                        match rep[j].kind {
                            TokenKind::Hash => {},
                            _ => {},
                        }
                    },
                    TokenKind::Eof => {
                        match rep[j].kind {
                            TokenKind::Eof => {},
                            _ => {},
                        }
                    },
                    _ => {},
                }
            }
            lemma_first_eof_absent(painted, 0);
            assert(views(painted).take(painted.len() as int) =~= views(rep)) by {
                assert forall|j: int| 0 <= j < painted.len() implies views(painted)[j] == views(rep)[j] by {
                    assert(views(replacement)[j] == views(rep)[j]);
                }
            }
        },
        _ => {},
    }
}

/// Kind views of the replacement of object-like macro `n`.
pub open spec fn token_views_of_def(macros: MacroTable, n: Seq<char>) -> Seq<(int, Seq<char>)> {
    match def_of(macros, n) {
        MacroDef::Object { replacement } => views(replacement@),
        _ => Seq::empty(),
    }
}

proof fn lemma_first_eof_absent(toks: Seq<Token>, k: int)
    requires
        0 <= k <= toks.len(),
        forall|j: int| k <= j < toks.len() ==> !is_eof(#[trigger] toks[j].kind),
    ensures
        first_eof(toks, k) == toks.len(),
    decreases toks.len() - k,
{
    if k < toks.len() {
        lemma_first_eof_absent(toks, k + 1);
    }
}

/// No token of `toks` is a `#`.
pub open spec fn hash_free(toks: Seq<Token>) -> bool {
    forall|k: int| 0 <= k < toks.len() ==> !(#[trigger] toks[k].kind is Hash)
}

/// Output after writing the first `n` tokens of `toks` after `out`.
pub open spec fn emit_all(out: Seq<char>, toks: Seq<Token>, n: int) -> Seq<char>
    decreases n,
{
    if n <= 0 || n > toks.len() { out } else { emit_text(emit_all(out, toks, n - 1), toks[n - 1].kind) }
}

/// Index of the first end-of-input token at or after `k`, or the length.
pub open spec fn first_eof(toks: Seq<Token>, k: int) -> int
    decreases toks.len() - k,
{
    if k < 0 || k >= toks.len() {
        toks.len() as int
    } else if is_eof(toks[k].kind) {
        k
    } else {
        first_eof(toks, k + 1)
    }
}

impl<'a> PreprocessorState<'a> {
    /// Runs directives and expands macros over `tokens`, writing the result.
    /// Within taken branches, plain tokens (no `#`, no macro names) are
    /// written out one by one, up to the end of input, and the name of an
    /// object-like macro whose replacement is plain is written as that
    /// replacement; outside taken branches, text without directives writes
    /// nothing.
    #[verifier::rlimit(40)]
    pub fn process_tokens(&mut self, tokens: &[Token]) -> (r: Result<(), PreprocessError>)
        requires
            state_wf(*old(self)),
        ensures
            steps(*old(self), *final(self)),
            (tokens@.len() == 0 || is_eof(tokens@[0].kind)) ==> *final(self) == *old(self) && r is Ok,
            active(*old(self)) && plain_tokens(tokens@, old(self).macros) ==> r is Ok
                && final(self).output@ == emit_all(old(self).output@, tokens@, first_eof(tokens@, 0))
                && final(self).diagnostics == old(self).diagnostics
                && final(self).macros == old(self).macros
                && final(self).conditional_stack == old(self).conditional_stack,
            !active(*old(self)) && hash_free(tokens@) ==> r is Ok && *final(self) == *old(self),
            active(*old(self)) && old(self).expansion_depth < MAX_MACRO_EXPANSION_DEPTH
                && expandable_tokens(tokens@, old(self).macros) ==> r is Ok
                && final(self).output@ == emit_views(old(self).output@, expand_views(tokens@.take(first_eof(tokens@, 0)), old(self).macros))
                && final(self).diagnostics == old(self).diagnostics
                && final(self).macros == old(self).macros
                && final(self).conditional_stack == old(self).conditional_stack,
        decreases files_left(*old(self)), MAX_MACRO_EXPANSION_DEPTH - old(self).expansion_depth, 4nat,
    {
        proof { lemma_steps_refl(*self); }
        let ghost paths = source_paths(self.opts.source_cache@);
        let ghost pass = active(*old(self)) && plain_tokens(tokens@, old(self).macros);
        let ghost xpass = active(*old(self)) && old(self).expansion_depth < MAX_MACRO_EXPANSION_DEPTH
            && expandable_tokens(tokens@, old(self).macros);
        let mut i: usize = 0;
        while i < tokens.len()
            invariant
                i <= tokens@.len() + 1,
                steps(*old(self), *self),
                paths == source_paths(self.opts.source_cache@),
                i == 0 ==> *self == *old(self),
                (tokens@.len() > 0 && is_eof(tokens@[0].kind)) ==> i == 0,
                tokens@.len() == 0 ==> i == 0,
                pass == (active(*old(self)) && plain_tokens(tokens@, old(self).macros)),
                pass ==> i <= tokens@.len()
                    && self.output@ == emit_all(old(self).output@, tokens@, i as int)
                    && self.diagnostics == old(self).diagnostics
                    && self.macros == old(self).macros
                    && self.conditional_stack == old(self).conditional_stack && self.branch_taken == old(self).branch_taken
                    && first_eof(tokens@, 0) == first_eof(tokens@, i as int),
                (!active(*old(self)) && hash_free(tokens@)) ==> *self == *old(self),
                xpass == (active(*old(self)) && old(self).expansion_depth < MAX_MACRO_EXPANSION_DEPTH
                    && expandable_tokens(tokens@, old(self).macros)),
                xpass ==> i <= tokens@.len()
                    && self.output@ == emit_views(old(self).output@, expand_views(tokens@.take(i as int), old(self).macros))
                    && self.diagnostics == old(self).diagnostics
                    && self.macros == old(self).macros
                    && self.conditional_stack == old(self).conditional_stack && self.branch_taken == old(self).branch_taken
                    && first_eof(tokens@, 0) == first_eof(tokens@, i as int),
            ensures
                pass ==> self.output@ == emit_all(old(self).output@, tokens@, first_eof(tokens@, 0))
                    && self.diagnostics == old(self).diagnostics
                    && self.macros == old(self).macros
                    && self.conditional_stack == old(self).conditional_stack,
                (!active(*old(self)) && hash_free(tokens@)) ==> *self == *old(self),
                xpass ==> self.output@ == emit_views(old(self).output@, expand_views(tokens@.take(first_eof(tokens@, 0)), old(self).macros))
                    && self.diagnostics == old(self).diagnostics
                    && self.macros == old(self).macros
                    && self.conditional_stack == old(self).conditional_stack,
            decreases tokens@.len() + 1 - i,
        {
            proof { lemma_unguarded_mono(paths, names_view(old(self).included_guard@), names_view(self.included_guard@)); }
            let tok = &tokens[i];
            if is_eof_kind(&tok.kind) {
                break;
            }
            proof {
                if pass {
                    assert(plain_token(tokens@[i as int], old(self).macros));
                }
                if !active(*old(self)) && hash_free(tokens@) {
                    assert(!(tokens@[i as int].kind is Hash));
                }
                if xpass {
                    let t = tokens@[i as int];
                    assert(expandable_token(t, old(self).macros));
                    lemma_emit_view(self.output@, tok.kind);
                    assert(tokens@.take(i + 1).drop_last() =~= tokens@.take(i as int));
                    assert(tokens@.take(i + 1).last() == t);
                    lemma_emit_views_append(old(self).output@, expand_views(tokens@.take(i as int), old(self).macros),
                        token_views(t, old(self).macros));
                    lemma_emit_views_single(self.output@, kind_view(t.kind));
                }
            }
            match tok.kind {
                TokenKind::Hash => {
                    if at_beginning_of_line(tokens, i) {
                        let ghost before = *self;
                        let next = self.handle_directive(tokens, i);
                        proof { lemma_steps_trans(*old(self), before, *self); }
                        match next {
                            Ok(n) => {
                                i = n;
                                continue;
                            },
                            Err(e) => {
                                return Err(e);
                            },
                        }
                    }
                    if tokens.len() - i > 1 {
                        match &tokens[i + 1].kind {
                            TokenKind::Identifier(name) => {
                                let q: Vec<char> = vec!['"'];
                                let text = concat3(&q, name, &q);
                                let ghost before = *self;
                                self.emit_str(&text, tokens[i + 1].line, tokens[i + 1].col);
                                proof { lemma_steps_trans(*old(self), before, *self); }
                                i = i + 2;
                                continue;
                            },
                            _ => {},
                        }
                    }
                },
                _ => {},
            }
            if self.is_active() {
                match &tok.kind {
                    TokenKind::Identifier(name) => {
                        if word_is(name, "__FILE__") {
                            let q: Vec<char> = vec!['"'];
                            let text = concat3(&q, &self.current_file, &q);
                            let ghost before = *self;
                            self.emit_str(&text, tok.line, tok.col);
                            proof { lemma_steps_trans(*old(self), before, *self); }
                            i = i + 1;
                            continue;
                        }
                        if word_is(name, "__LINE__") {
                            let text = crate::text::u32_decimal(tok.line);
                            let ghost before = *self;
                            self.emit_str(&text, tok.line, tok.col);
                            proof { lemma_steps_trans(*old(self), before, *self); }
                            i = i + 1;
                            continue;
                        }
                        let def: Option<MacroDef> = if tok.is_hidden(name) {
                            None
                        } else {
                            match macro_get(&self.macros, name) {
                                Some(d) => Some(d.duplicate()),
                                None => None,
                            }
                        };
                        match def {
                            Some(MacroDef::Function { params, replacement, variadic }) => {
                                if next_non_newline_is(tokens, i + 1, '(') {
                                    let ghost before = *self;
                                    if !self.push_expansion(tok.line) {
                                        proof {
                                            assert(self.output@.subrange(0, before.output@.len() as int) =~= before.output@);
                                            lemma_steps_trans(*old(self), before, *self);
                                        }
                                        let ghost b2 = *self;
                                        self.emit_token(tok);
                                        proof { lemma_steps_trans(*old(self), b2, *self); }
                                        i = i + 1;
                                        continue;
                                    }
                                    let mut j = i + 1;
                                    let ghost pushed = *self;
                                    let parsed = self.parse_macro_args(tokens, &mut j);
                                    let args = match parsed {
                                        Ok(a) => a,
                                        Err(e) => {
                                            self.pop_expansion();
                                            proof {
                                                assert(self.output@.subrange(0, old(self).output@.len() as int) =~= old(self).output@);
                                                assert(self.diagnostics@.subrange(0, old(self).diagnostics@.len() as int) =~= old(self).diagnostics@);
                                            }
                                            return Err(e);
                                        },
                                    };
                                    let expanded = apply_concatenation(substitute_macro(name, tok, &replacement, &params, &args, variadic));
                                    proof {
                                        lemma_unguarded_mono(paths, names_view(old(self).included_guard@), names_view(self.included_guard@));
                                    }
                                    let ghost mid = *self;
                                    let res = self.process_tokens(&expanded);
                                    self.pop_expansion();
                                    proof {
                                        assert(self.output@.subrange(0, old(self).output@.len() as int) =~= old(self).output@);
                                        assert(self.diagnostics@.subrange(0, old(self).diagnostics@.len() as int) =~= old(self).diagnostics@);
                                    }
                                    match res {
                                        Err(e) => {
                                            return Err(e);
                                        },
                                        Ok(()) => {},
                                    }
                                    i = j;
                                    continue;
                                }
                                let ghost before = *self;
                                self.emit_token(tok);
                                proof { lemma_steps_trans(*old(self), before, *self); }
                            },
                            Some(MacroDef::Object { replacement }) => {
                                let ghost before = *self;
                                if !self.push_expansion(tok.line) {
                                    proof {
                                        assert(self.output@.subrange(0, before.output@.len() as int) =~= before.output@);
                                        lemma_steps_trans(*old(self), before, *self);
                                    }
                                    let ghost b2 = *self;
                                    self.emit_token(tok);
                                    proof { lemma_steps_trans(*old(self), b2, *self); }
                                    i = i + 1;
                                    continue;
                                }
                                let painted = Self::paint_replacement(&replacement, tok, name);
                                proof {
                                    lemma_unguarded_mono(paths, names_view(old(self).included_guard@), names_view(self.included_guard@));
                                    if xpass {
                                        lemma_painted_inert(old(self).macros, name@, replacement@, painted@);
                                    }
                                }
                                let ghost mid = *self;
                                let res = self.expand_tokens_no_directives(&painted);
                                self.pop_expansion();
                                proof {
                                    assert(self.output@.subrange(0, old(self).output@.len() as int) =~= old(self).output@);
                                    assert(self.diagnostics@.subrange(0, old(self).diagnostics@.len() as int) =~= old(self).diagnostics@);
                                }
                                match res {
                                    Err(e) => {
                                        return Err(e);
                                    },
                                    Ok(()) => {},
                                }
                                i = i + 1;
                                continue;
                            },
                            None => {
                                let ghost before = *self;
                                self.emit_token(tok);
                                proof { lemma_steps_trans(*old(self), before, *self); }
                            },
                        }
                    },
                    _ => {
                        let ghost before = *self;
                        self.emit_token(tok);
                        proof { lemma_steps_trans(*old(self), before, *self); }
                    },
                }
            }
            i = i + 1;
        }
        Ok(())
    }

    /// Expands a macro's replacement: no directives; `#x` stringizes;
    /// nested macros are expanded and rescanned.
    pub fn expand_tokens_no_directives(&mut self, tokens: &[Token]) -> (r: Result<(), PreprocessError>)
        requires
            state_wf(*old(self)),
        ensures
            steps(*old(self), *final(self)),
            active(*old(self)) && inert_tokens(tokens@, old(self).macros) ==> r is Ok
                && final(self).output@ == emit_views(old(self).output@, views(tokens@).take(first_eof(tokens@, 0)))
                && final(self).diagnostics == old(self).diagnostics
                && final(self).macros == old(self).macros
                && final(self).conditional_stack == old(self).conditional_stack && final(self).branch_taken == old(self).branch_taken,
            active(*old(self)) && old(self).expansion_depth < MAX_MACRO_EXPANSION_DEPTH
                && expandable_tokens(tokens@, old(self).macros) ==> r is Ok
                && final(self).output@ == emit_views(old(self).output@, expand_views(tokens@.take(first_eof(tokens@, 0)), old(self).macros))
                && final(self).diagnostics == old(self).diagnostics
                && final(self).macros == old(self).macros
                && final(self).conditional_stack == old(self).conditional_stack && final(self).branch_taken == old(self).branch_taken,
        decreases files_left(*old(self)), MAX_MACRO_EXPANSION_DEPTH - old(self).expansion_depth, 4nat,
    {
        proof { lemma_steps_refl(*self); }
        let ghost paths = source_paths(self.opts.source_cache@);
        let ghost pass = active(*old(self)) && inert_tokens(tokens@, old(self).macros);
        let ghost xpass = active(*old(self)) && old(self).expansion_depth < MAX_MACRO_EXPANSION_DEPTH
            && expandable_tokens(tokens@, old(self).macros);
        let mut i: usize = 0;
        while i < tokens.len()
            invariant
                i <= tokens@.len() + 1,
                steps(*old(self), *self),
                paths == source_paths(self.opts.source_cache@),
                pass == (active(*old(self)) && inert_tokens(tokens@, old(self).macros)),
                pass ==> i <= tokens@.len()
                    && self.output@ == emit_views(old(self).output@, views(tokens@).take(i as int))
                    && self.diagnostics == old(self).diagnostics
                    && self.macros == old(self).macros
                    && self.conditional_stack == old(self).conditional_stack && self.branch_taken == old(self).branch_taken
                    && first_eof(tokens@, 0) == first_eof(tokens@, i as int),
                xpass == (active(*old(self)) && old(self).expansion_depth < MAX_MACRO_EXPANSION_DEPTH
                    && expandable_tokens(tokens@, old(self).macros)),
                xpass ==> i <= tokens@.len()
                    && self.output@ == emit_views(old(self).output@, expand_views(tokens@.take(i as int), old(self).macros))
                    && self.diagnostics == old(self).diagnostics
                    && self.macros == old(self).macros
                    && self.expansion_depth == old(self).expansion_depth
                    && self.conditional_stack == old(self).conditional_stack && self.branch_taken == old(self).branch_taken
                    && first_eof(tokens@, 0) == first_eof(tokens@, i as int),
            ensures
                pass ==> self.output@ == emit_views(old(self).output@, views(tokens@).take(first_eof(tokens@, 0)))
                    && self.diagnostics == old(self).diagnostics
                    && self.macros == old(self).macros
                    && self.conditional_stack == old(self).conditional_stack && self.branch_taken == old(self).branch_taken,
                xpass ==> self.output@ == emit_views(old(self).output@, expand_views(tokens@.take(first_eof(tokens@, 0)), old(self).macros))
                    && self.diagnostics == old(self).diagnostics
                    && self.macros == old(self).macros
                    && self.conditional_stack == old(self).conditional_stack && self.branch_taken == old(self).branch_taken,
            decreases tokens@.len() + 1 - i,
        {
            proof { lemma_unguarded_mono(paths, names_view(old(self).included_guard@), names_view(self.included_guard@)); }
            let tok = &tokens[i];
            if is_eof_kind(&tok.kind) {
                break;
            }
            proof {
                if pass {
                    assert(inert_token(tokens@[i as int], old(self).macros));
                    lemma_emit_view(self.output@, tok.kind);
                    assert(views(tokens@).take(i + 1).drop_last() =~= views(tokens@).take(i as int));
                    assert(views(tokens@).take(i + 1).last() == kind_view(tok.kind));
                }
                if xpass {
                    let t = tokens@[i as int];
                    assert(expandable_token(t, old(self).macros));
                    lemma_emit_view(self.output@, tok.kind);
                    assert(tokens@.take(i + 1).drop_last() =~= tokens@.take(i as int));
                    assert(tokens@.take(i + 1).last() == t);
                    lemma_emit_views_append(old(self).output@, expand_views(tokens@.take(i as int), old(self).macros),
                        token_views(t, old(self).macros));
                    lemma_emit_views_single(self.output@, kind_view(t.kind));
                }
            }
            match tok.kind {
                TokenKind::Hash => {
                    if tokens.len() - i > 1 {
                        match &tokens[i + 1].kind {
                            TokenKind::Identifier(name) => {
                                let q: Vec<char> = vec!['"'];
                                let text = concat3(&q, name, &q);
                                let ghost before = *self;
                                self.emit_str(&text, tokens[i + 1].line, tokens[i + 1].col);
                                proof { lemma_steps_trans(*old(self), before, *self); }
                                i = i + 2;
                                continue;
                            },
                            _ => {},
                        }
                    }
                    let ghost before = *self;
                    self.emit_token(tok);
                    proof { lemma_steps_trans(*old(self), before, *self); }
                    i = i + 1;
                    continue;
                },
                _ => {},
            }
            if self.is_active() {
                let mut handled = false;
                match &tok.kind {
                    TokenKind::Identifier(name) => {
                        if !tok.is_hidden(name) {
                            let def: Option<MacroDef> = match macro_get(&self.macros, name) {
                                Some(d) => Some(d.duplicate()),
                                None => None,
                            };
                            match def {
                                Some(MacroDef::Object { replacement }) => {
                                    let ghost before = *self;
                                    if !self.push_expansion(tok.line) {
                                        proof {
                                            assert(self.output@.subrange(0, before.output@.len() as int) =~= before.output@);
                                            lemma_steps_trans(*old(self), before, *self);
                                        }
                                        let ghost b2 = *self;
                                        self.emit_token(tok);
                                        proof { lemma_steps_trans(*old(self), b2, *self); }
                                        i = i + 1;
                                        continue;
                                    }
                                    let painted = Self::paint_replacement(&replacement, tok, name);
                                    proof {
                                        lemma_unguarded_mono(paths, names_view(old(self).included_guard@), names_view(self.included_guard@));
                                        if xpass {
                                            lemma_painted_inert(old(self).macros, name@, replacement@, painted@);
                                        }
                                    }
                                    let res = self.expand_tokens_no_directives(&painted);
                                    self.pop_expansion();
                                    proof {
                                        assert(self.output@.subrange(0, old(self).output@.len() as int) =~= old(self).output@);
                                        assert(self.diagnostics@.subrange(0, old(self).diagnostics@.len() as int) =~= old(self).diagnostics@);
                                    }
                                    match res {
                                        Err(e) => {
                                            return Err(e);
                                        },
                                        Ok(()) => {},
                                    }
                                    i = i + 1;
                                    continue;
                                },
                                Some(MacroDef::Function { params, replacement, variadic }) => {
                                    if next_non_newline_is(tokens, i + 1, '(') {
                                        let ghost before = *self;
                                        if !self.push_expansion(tok.line) {
                                            proof {
                                                assert(self.output@.subrange(0, before.output@.len() as int) =~= before.output@);
                                                lemma_steps_trans(*old(self), before, *self);
                                            }
                                            let ghost b2 = *self;
                                            self.emit_token(tok);
                                            proof { lemma_steps_trans(*old(self), b2, *self); }
                                            i = i + 1;
                                            continue;
                                        }
                                        let mut j = i + 1;
                                        let parsed = self.parse_macro_args(tokens, &mut j);
                                        let args = match parsed {
                                            Ok(a) => a,
                                            Err(e) => {
                                                self.pop_expansion();
                                                proof {
                                                    assert(self.output@.subrange(0, old(self).output@.len() as int) =~= old(self).output@);
                                                    assert(self.diagnostics@.subrange(0, old(self).diagnostics@.len() as int) =~= old(self).diagnostics@);
                                                }
                                                return Err(e);
                                            },
                                        };
                                        let expanded = apply_concatenation(substitute_macro(name, tok, &replacement, &params, &args, variadic));
                                        proof {
                                            lemma_unguarded_mono(paths, names_view(old(self).included_guard@), names_view(self.included_guard@));
                                        }
                                        let res = self.expand_tokens_no_directives(&expanded);
                                        self.pop_expansion();
                                        proof {
                                            assert(self.output@.subrange(0, old(self).output@.len() as int) =~= old(self).output@);
                                            assert(self.diagnostics@.subrange(0, old(self).diagnostics@.len() as int) =~= old(self).diagnostics@);
                                        }
                                        match res {
                                            Err(e) => {
                                                return Err(e);
                                            },
                                            Ok(()) => {},
                                        }
                                        i = j;
                                        continue;
                                    }
                                },
                                None => {},
                            }
                        }
                    },
                    _ => {},
                }
                let ghost before = *self;
                self.emit_token(tok);
                proof { lemma_steps_trans(*old(self), before, *self); }
            }
            i = i + 1;
        }
        Ok(())
    }
}


impl<'a> PreprocessorState<'a> {
    /// Handles the directive whose `#` is at `start`; returns the index
    /// past its line.
    pub fn handle_directive(&mut self, tokens: &[Token], start: usize) -> (r: Result<usize, PreprocessError>)
        requires
            state_wf(*old(self)),
            start < tokens@.len(),
        ensures
            steps(*old(self), *final(self)),
            r matches Ok(n) ==> start < n <= tokens@.len() + 1,
            directive_is(tokens@, start as int, "endif"@) ==> (r is Err <==> old(self).conditional_stack@.len() <= 1)
                && (r is Ok ==> final(self).conditional_stack@ == old(self).conditional_stack@.drop_last()),
            directive_is(tokens@, start as int, "endif"@) && r is Ok
                ==> final(self).branch_taken@ == old(self).branch_taken@.drop_last(),
            directive_is(tokens@, start as int, "else"@) ==> (r is Err <==> old(self).conditional_stack@.len() <= 1)
                && (r is Ok ==> final(self).conditional_stack@ == old(self).conditional_stack@.drop_last().push(
                    parent_taken(old(self).conditional_stack@) && !old(self).branch_taken@.last())
                    && final(self).branch_taken@ == old(self).branch_taken@.drop_last().push(true)),
            directive_is(tokens@, start as int, "elif"@) ==> (r is Err <==> old(self).conditional_stack@.len() <= 1)
                && (r is Ok && !(parent_taken(old(self).conditional_stack@) && !old(self).branch_taken@.last())
                    ==> final(self).conditional_stack@ == old(self).conditional_stack@.drop_last().push(false)
                    && final(self).branch_taken == old(self).branch_taken)
                && (r is Ok && parent_taken(old(self).conditional_stack@) && !old(self).branch_taken@.last()
                    ==> final(self).conditional_stack@ == old(self).conditional_stack@.drop_last().push(
                        if_condition(tokens@, directive_name_at(tokens@, start as int) + 1, old(self).macros))
                    && final(self).branch_taken@ == old(self).branch_taken@.drop_last().push(
                        if_condition(tokens@, directive_name_at(tokens@, start as int) + 1, old(self).macros))),
            directive_is(tokens@, start as int, "if"@) ==> r is Ok
                && final(self).conditional_stack@ == old(self).conditional_stack@.push(active(*old(self))
                    && if_condition(tokens@, directive_name_at(tokens@, start as int) + 1, old(self).macros))
                && final(self).branch_taken@ == old(self).branch_taken@.push(active(*old(self))
                    && if_condition(tokens@, directive_name_at(tokens@, start as int) + 1, old(self).macros)),
            directive_is(tokens@, start as int, "define"@) && active(*old(self)) && r is Ok
                ==> macro_defined(final(self).macros, ident_after(tokens@, directive_name_at(tokens@, start as int) + 1)->0),
            directive_is(tokens@, start as int, "include"@) && active(*old(self)) ==>
                match include_target(tokens@, directive_name_at(tokens@, start as int) + 1) {
                    Some(t) => r is Ok && match first_found(include_candidates(old(self).current_file@, old(self).opts.include_paths@, t),
                        source_paths(old(self).opts.source_cache@)) {
                        Some(p) => names_view(final(self).included_guard@).contains(p),
                        None => final(self).output == old(self).output
                            && final(self).diagnostics@.len() == old(self).diagnostics@.len() + 1
                            && final(self).diagnostics@.last().severity == DiagnosticSeverity::Error
                            && final(self).diagnostics@.last().message@ == include_not_found_prefix() + t,
                    },
                    None => r is Err,
                },
            directive_is(tokens@, start as int, "include"@) && active(*old(self)) ==>
                match include_target(tokens@, directive_name_at(tokens@, start as int) + 1) {
                    Some(t) => match first_found(include_candidates(old(self).current_file@, old(self).opts.include_paths@, t),
                        source_paths(old(self).opts.source_cache@)) {
                        Some(p) => forall|k: int| 0 <= k < old(self).opts.source_cache@.len()
                            && (#[trigger] old(self).opts.source_cache@[k]).path@ == p
                            && (forall|j: int| 0 <= j < k ==> old(self).opts.source_cache@[j].path@ != p)
                            && !names_view(old(self).included_guard@).contains(p)
                            && macro_entries(old(self).macros).len() == 0
                            && old(self).expansion_depth < MAX_MACRO_EXPANSION_DEPTH
                            && lex_plain(crate::lexer::lex_views(old(self).opts.source_cache@[k].text@, 0))
                            ==> final(self).output@ == emit_views(old(self).output@,
                                    crate::lexer::lex_views(old(self).opts.source_cache@[k].text@, 0))
                                && final(self).diagnostics == old(self).diagnostics,
                        None => true,
                    },
                    None => true,
                },
            directive_is(tokens@, start as int, "define"@) && active(*old(self))
                && ident_after(tokens@, directive_name_at(tokens@, start as int) + 1) is Some
                && !function_define(tokens@, skip_newlines(tokens@, directive_name_at(tokens@, start as int) + 1))
                ==> r is Ok && object_define_ok(tokens@, directive_name_at(tokens@, start as int) + 1, final(self).macros),
            directive_is(tokens@, start as int, "define"@) && !active(*old(self)) ==> r is Ok
                && final(self).macros == old(self).macros && final(self).conditional_stack == old(self).conditional_stack && final(self).branch_taken == old(self).branch_taken,
            unknown_directive(tokens@, start as int) ==> r == Ok::<usize, PreprocessError>(past_line(tokens@, directive_name_at(tokens@, start as int) + 1) as usize)
                && final(self).diagnostics@.len() == old(self).diagnostics@.len() + 1
                && final(self).diagnostics@.last().severity == DiagnosticSeverity::Warning
                && final(self).diagnostics@.last().message@ == unknown_directive_prefix() + ident_after(tokens@, start + 1)->0
                && final(self).macros == old(self).macros && final(self).conditional_stack == old(self).conditional_stack
                && final(self).output == old(self).output,
            (directive_is(tokens@, start as int, "else"@) || directive_is(tokens@, start as int, "endif"@)) && r is Ok
                ==> r == Ok::<usize, PreprocessError>(past_line(tokens@, directive_name_at(tokens@, start as int) + 1) as usize),
            directive_is(tokens@, start as int, "line"@) ==> r == Ok::<usize, PreprocessError>(past_line(tokens@, directive_name_at(tokens@, start as int) + 1) as usize)
                && *final(self) == *old(self),
            directive_is(tokens@, start as int, "undef"@) && active(*old(self)) && r is Ok
                ==> !macro_defined(final(self).macros, ident_after(tokens@, directive_name_at(tokens@, start as int) + 1)->0),
            directive_is(tokens@, start as int, "ifdef"@) ==> (r is Ok <==> ident_after(tokens@, directive_name_at(tokens@, start as int) + 1) is Some)
                && (r is Ok ==> final(self).conditional_stack@ == old(self).conditional_stack@.push(active(*old(self))
                    && macro_defined(old(self).macros, ident_after(tokens@, directive_name_at(tokens@, start as int) + 1)->0))
                    && final(self).branch_taken@ == old(self).branch_taken@.push(active(*old(self))
                    && macro_defined(old(self).macros, ident_after(tokens@, directive_name_at(tokens@, start as int) + 1)->0))),
            directive_is(tokens@, start as int, "ifndef"@) ==> (r is Ok <==> ident_after(tokens@, directive_name_at(tokens@, start as int) + 1) is Some)
                && (r is Ok ==> final(self).conditional_stack@ == old(self).conditional_stack@.push(active(*old(self))
                    && !macro_defined(old(self).macros, ident_after(tokens@, directive_name_at(tokens@, start as int) + 1)->0))
                    && final(self).branch_taken@ == old(self).branch_taken@.push(active(*old(self))
                    && !macro_defined(old(self).macros, ident_after(tokens@, directive_name_at(tokens@, start as int) + 1)->0))),
        decreases files_left(*old(self)), MAX_MACRO_EXPANSION_DEPTH - old(self).expansion_depth, 3nat,
    {
        proof {
            lemma_steps_refl(*self);
            lemma_directive_names_differ();
        }
        let n = tokens.len();
        let mut i = skip_newlines_exec(tokens, start + 1);
        if i >= tokens.len() {
            return Ok(i);
        }
        let directive: Vec<char> = match &tokens[i].kind {
            TokenKind::Identifier(s) => copy_chars(s),
            _ => {
                let msg = str_chars("expected directive name after #");
                let ghost before = *self;
                let e = self.error(tokens[i].line, &msg);
                proof { lemma_quiet_steps(before, *self, false); lemma_steps_trans(*old(self), before, *self); }
                return Err(e);
            },
        };
        assert(ident_after(tokens@, start + 1) == Some(directive@));
        i = i + 1;
        let active = self.is_active();
        let ghost before = *self;
        if word_is(&directive, "include") {
            if active {
                let res = self.handle_include(tokens, i);
                proof { lemma_steps_trans(*old(self), before, *self); }
                match res {
                    Ok(n) => { i = n; },
                    Err(e) => { return Err(e); },
                }
            }
        } else if word_is(&directive, "define") {
            if active {
                let res = self.handle_define(tokens, i);
                proof { lemma_quiet_steps(before, *self, true); lemma_steps_trans(*old(self), before, *self); }
                match res {
                    Ok(n) => { i = n; },
                    Err(e) => { return Err(e); },
                }
            }
        } else if word_is(&directive, "ifdef") || word_is(&directive, "ifndef") {
            let want_defined = word_is(&directive, "ifdef");
            let got = self.read_directive_ident(tokens, &mut i);
            proof { lemma_quiet_steps(before, *self, false); lemma_steps_trans(*old(self), before, *self); }
            let name = match got {
                Ok(n) => n,
                Err(e) => { return Err(e); },
            };
            let defined = macro_contains(&self.macros, &name);
            let ghost b2 = *self;
            self.conditional_stack.push(active && (defined == want_defined));
            self.branch_taken.push(active && (defined == want_defined));
            proof { lemma_steps_refl(b2); lemma_steps_trans(*old(self), b2, *self); }
        } else if word_is(&directive, "if") {
            let cond = self.expand_and_eval_condition(tokens, &mut i);
            let ghost b2 = *self;
            self.conditional_stack.push(active && cond);
            self.branch_taken.push(active && cond);
            proof { lemma_steps_refl(b2); lemma_steps_trans(*old(self), b2, *self); }
        } else if word_is(&directive, "elif") || word_is(&directive, "else") || word_is(&directive, "endif") {
            if self.conditional_stack.len() <= 1 {
                let msg = if word_is(&directive, "elif") {
                    str_chars("#elif without #if")
                } else if word_is(&directive, "else") {
                    str_chars("#else without #if")
                } else {
                    str_chars("#endif without #if")
                };
                let e = self.error(tokens[i - 1].line, &msg);
                proof { lemma_quiet_steps(before, *self, false); lemma_steps_trans(*old(self), before, *self); }
                return Err(e);
            }
            let top = self.conditional_stack.len() - 1;
            let mut parent_active = true;
            let mut k: usize = 0;
            while k < top
                invariant
                    top == self.conditional_stack@.len() - 1,
                    k <= top,
                    parent_active == forall|j: int| 0 <= j < k ==> #[trigger] self.conditional_stack@[j],
                decreases top - k,
            {
                if !self.conditional_stack[k] {
                    parent_active = false;
                }
                k = k + 1;
            }
            let taken = self.branch_taken[top];
            let ghost b2 = *self;
            if word_is(&directive, "endif") {
                self.conditional_stack.pop();
                self.branch_taken.pop();
            } else if word_is(&directive, "else") {
                self.conditional_stack.set(top, parent_active && !taken);
                self.branch_taken.set(top, true);
            } else if !parent_active || taken {
                self.conditional_stack.set(top, false);
            } else {
                self.conditional_stack.pop();
                self.branch_taken.pop();
                let cond = self.expand_and_eval_condition(tokens, &mut i);
                self.conditional_stack.push(cond);
                self.branch_taken.push(cond);
            }
            proof {
                assert(self.output@.subrange(0, b2.output@.len() as int) =~= b2.output@);
                assert(self.diagnostics@.subrange(0, b2.diagnostics@.len() as int) =~= b2.diagnostics@);
                lemma_steps_trans(*old(self), b2, *self);
            }
        } else if word_is(&directive, "line") {
        } else if word_is(&directive, "undef") {
            if active {
                let got = self.read_directive_ident(tokens, &mut i);
                proof { lemma_quiet_steps(before, *self, false); lemma_steps_trans(*old(self), before, *self); }
                let name = match got {
                    Ok(n) => n,
                    Err(e) => { return Err(e); },
                };
                let ghost b2 = *self;
                self.remove_macro(&name);
                proof { lemma_steps_refl(b2); lemma_steps_trans(*old(self), b2, *self); }
            }
        } else {
            let head = str_chars("unknown directive #");
            proof {
                reveal_strlit("unknown directive #");
                assert(head@ =~= unknown_directive_prefix());
            }
            let msg = concat3(&head, &directive, &[]);
            proof { assert(msg@ =~= unknown_directive_prefix() + directive@); }
            self.warn(tokens[i - 1].line, &msg);
            proof { lemma_quiet_steps(before, *self, false); lemma_steps_trans(*old(self), before, *self); }
        }
        i = skip_to_newline(tokens, i);
        Ok(i)
    }

    /// `#include "file"` or `#include <file>`: expands the file where it
    /// resolves, warns where it does not.
    fn handle_include(&mut self, tokens: &[Token], i0: usize) -> (r: Result<usize, PreprocessError>)
        requires
            state_wf(*old(self)),
            i0 <= tokens@.len(),
        ensures
            steps(*old(self), *final(self)),
            r matches Ok(n) ==> i0 < n <= tokens@.len() + 1,
            match include_target(tokens@, i0 as int) {
                Some(t) => r is Ok && match first_found(include_candidates(old(self).current_file@, old(self).opts.include_paths@, t),
                    source_paths(old(self).opts.source_cache@)) {
                    Some(p) => names_view(final(self).included_guard@).contains(p),
                    None => final(self).output == old(self).output
                        && final(self).diagnostics@.len() == old(self).diagnostics@.len() + 1
                        && final(self).diagnostics@.last().severity == DiagnosticSeverity::Error
                        && final(self).diagnostics@.last().message@ == include_not_found_prefix() + t,
                },
                None => r is Err,
            },
            match include_target(tokens@, i0 as int) {
                Some(t) => match first_found(include_candidates(old(self).current_file@, old(self).opts.include_paths@, t),
                    source_paths(old(self).opts.source_cache@)) {
                    Some(p) => forall|k: int| 0 <= k < old(self).opts.source_cache@.len()
                        && (#[trigger] old(self).opts.source_cache@[k]).path@ == p
                        && (forall|j: int| 0 <= j < k ==> old(self).opts.source_cache@[j].path@ != p)
                        && !names_view(old(self).included_guard@).contains(p)
                        && macro_entries(old(self).macros).len() == 0 && active(*old(self))
                        && old(self).expansion_depth < MAX_MACRO_EXPANSION_DEPTH
                        && lex_plain(crate::lexer::lex_views(old(self).opts.source_cache@[k].text@, 0))
                        ==> final(self).output@ == emit_views(old(self).output@,
                                crate::lexer::lex_views(old(self).opts.source_cache@[k].text@, 0))
                            && final(self).diagnostics == old(self).diagnostics,
                    None => true,
                },
                None => true,
            },
        decreases files_left(*old(self)), MAX_MACRO_EXPANSION_DEPTH - old(self).expansion_depth, 2nat,
    {
        proof { lemma_steps_refl(*self); }
        let mut i = skip_newlines_exec(tokens, i0);
        let mut path: Vec<char> = Vec::new();
        let mut ok = false;
        if i < tokens.len() {
            match &tokens[i].kind {
                TokenKind::String(s) => {
                    path = copy_chars(s);
                    ok = true;
                },
                _ => {
                    if punct_is(&tokens[i].kind, '<') {
                        ok = true;
                        i = i + 1;
                        let ghost start = i as int;
                        assert(path@ =~= Seq::<char>::empty());
                        while i < tokens.len()
                            invariant
                                i0 < i <= tokens@.len(),
                                path@ + angle_path(tokens@, i as int) == angle_path(tokens@, start),
                            ensures
                                path@ == angle_path(tokens@, start),
                            decreases tokens@.len() - i,
                        {
                            if punct_is(&tokens[i].kind, '>') {
                                proof { assert(path@ =~= path@ + angle_path(tokens@, i as int)); }
                                break;
                            }
                            let ghost p0 = path@;
                            match &tokens[i].kind {
                                TokenKind::Identifier(s) => push_all(&mut path, s),
                                TokenKind::Punct(s) => push_all(&mut path, s),
                                _ => {
                                    proof { assert(path@ =~= path@ + angle_path(tokens@, i as int)); }
                                    break;
                                },
                            }
                            proof { assert(p0 + angle_path(tokens@, i as int) =~= path@ + angle_path(tokens@, i + 1)); }
                            i = i + 1;
                        }
                    }
                },
            }
        }
        proof {
            if ok {
                assert(include_target(tokens@, i0 as int) == Some(path@));
            } else {
                assert(include_target(tokens@, i0 as int) is None);
            }
        }
        let line = if i < tokens.len() { tokens[i].line } else { 1 };
        if !ok {
            let msg = str_chars("expected string or <...> after #include");
            let ghost before = *self;
            let e = self.error(line, &msg);
            proof { lemma_quiet_steps(before, *self, false); lemma_steps_trans(*old(self), before, *self); }
            return Err(e);
        }
        match self.resolve_include(&path) {
            None => {
                let head = str_chars("include file not found, skipping: ");
                proof {
                    reveal_strlit("include file not found, skipping: ");
                    assert(head@ =~= include_not_found_prefix());
                }
                let msg = concat3(&head, &path, &[]);
                proof { assert(msg@ =~= include_not_found_prefix() + path@); }
                let ghost before = *self;
                let _e = self.error(line, &msg);
                proof { lemma_quiet_steps(before, *self, false); lemma_steps_trans(*old(self), before, *self); }
            },
            Some(include_path) => {
                let ghost before = *self;
                proof {
                    lemma_unguarded_mono(source_paths(self.opts.source_cache@), names_view(old(self).included_guard@), names_view(self.included_guard@));
                }
                let res = self.process_file(&include_path);
                proof { lemma_steps_trans(*old(self), before, *self); }
                match res {
                    Err(e) => {
                        let head = str_chars("include preprocessing failed for ");
                        let sep = str_chars(": ");
                        let et = e.text();
                        let msg0 = concat3(&head, &path, &sep);
                        let msg = concat3(&msg0, &et, &[]);
                        let ghost b2 = *self;
                        self.warn(line, &msg);
                        proof { lemma_quiet_steps(b2, *self, false); lemma_steps_trans(*old(self), b2, *self); }
                    },
                    Ok(()) => {},
                }
            },
        }
        if i < tokens.len() {
            Ok(i + 1)
        } else {
            Ok(i)
        }
    }

    /// `#define NAME replacement` or `#define NAME(params) replacement`.
    fn handle_define(&mut self, tokens: &[Token], i0: usize) -> (r: Result<usize, PreprocessError>)
        requires
            i0 <= tokens@.len(),
            names_distinct(macro_entries(old(self).macros)),
        ensures
            quiet(*old(self), *final(self), true),
            r matches Ok(n) ==> i0 <= n <= tokens@.len(),
            ident_after(tokens@, i0 as int) is None ==> r is Err,
            r is Ok ==> macro_defined(final(self).macros, ident_after(tokens@, i0 as int)->0),
            ident_after(tokens@, i0 as int) is Some && !function_define(tokens@, skip_newlines(tokens@, i0 as int))
                ==> r is Ok && object_define_ok(tokens@, i0 as int, final(self).macros),
            function_define(tokens@, skip_newlines(tokens@, i0 as int)) && r is Ok
                ==> def_of(final(self).macros, ident_after(tokens@, i0 as int)->0) is Function,
    {
        proof { lemma_skip_newlines_idem(tokens@, i0 as int); }
        let mut i = skip_newlines_exec(tokens, i0);
        let ghost before = *self;
        let ghost k = i;
        let got = self.read_directive_ident(tokens, &mut i);
        let name = match got {
            Ok(n) => n,
            Err(e) => {
                proof { lemma_quiet_weaken(*old(self), *self); }
                return Err(e);
            },
        };
        let paren_start = i;
        proof { lemma_skip_newlines_idem(tokens@, i0 as int); }
        if i < tokens.len() && punct_is(&tokens[i].kind, '(') && abuts_exec(&tokens[i - 1], name.len(), &tokens[i])
            && looks_like_function_macro_params(tokens, i + 1) {
            i = i + 1;
            let ghost b2 = *self;
            let parsed = self.parse_macro_param_list(tokens, &mut i);
            proof { lemma_quiet_trans(*old(self), b2, *self, false); }
            let (params, variadic) = match parsed {
                Ok(pv) => pv,
                Err(e) => {
                    proof { lemma_quiet_weaken(*old(self), *self); }
                    return Err(e);
                },
            };
            let (replacement, end) = read_replacement(tokens, i);
            let ghost b3 = *self;
            self.insert_macro(name, MacroDef::Function { params, replacement, variadic });
            proof {
                lemma_quiet_weaken(*old(self), b3);
                assert(self.diagnostics@.subrange(0, old(self).diagnostics@.len() as int) =~= old(self).diagnostics@);
            }
            return Ok(end);
        }
        i = paren_start;
        let (replacement, end) = read_replacement(tokens, i);
        let ghost b3 = *self;
        self.insert_macro(name, MacroDef::Object { replacement });
        proof {
            lemma_quiet_weaken(*old(self), b3);
            assert(self.diagnostics@.subrange(0, old(self).diagnostics@.len() as int) =~= old(self).diagnostics@);
        }
        Ok(end)
    }

    /// At the end of a translation unit: an error for each conditional
    /// (`#if`, `#ifdef`, `#ifndef`) still open.
    pub fn report_unterminated(&mut self)
        requires
            state_wf(*old(self)),
        ensures
            steps(*old(self), *final(self)),
            final(self).output == old(self).output,
            old(self).conditional_stack@.len() <= 1 ==> *final(self) == *old(self),
            old(self).conditional_stack@.len() > 1 ==> final(self).diagnostics@.len() == old(self).diagnostics@.len() + 1
                && final(self).diagnostics@.last().severity == DiagnosticSeverity::Error,
    {
        proof { lemma_steps_refl(*self); }
        if self.conditional_stack.len() > 1 {
            let msg = str_chars("unterminated #if at end of input");
            let ghost before = *self;
            let _e = self.error(self.current_line, &msg);
            proof { lemma_quiet_steps(before, *self, false); }
        }
    }

    /// The run's output, position map and messages.
    pub fn finish(self) -> (r: PreprocessResult)
        requires
            state_wf(self),
        ensures
            r.output@ == self.output@,
            r.diagnostics == self.diagnostics,
            line_map_ok(r.line_map.entries@, capped(utf8_len(r.output@))),
    {
        PreprocessResult { output: chars_to_string(&self.output), line_map: self.line_map, diagnostics: self.diagnostics }
    }
}

/// Preprocesses the source stored under `path`; an error when no source is
/// stored under it.
pub fn preprocess_file(path: &str, opts: &PreprocessOptions) -> (r: Result<PreprocessResult, PreprocessError>)
    ensures
        r is Err <==> !source_paths(opts.source_cache@).contains(path@),
        r is Err ==> r->Err_0 is Io && r->Err_0->path@ == path@,
        r is Ok ==> line_map_ok(r->Ok_0.line_map.entries@, capped(utf8_len(r->Ok_0.output@))),
        forall|k: int| 0 <= k < opts.source_cache@.len() && (#[trigger] opts.source_cache@[k]).path@ == path@
            && (forall|j: int| 0 <= j < k ==> opts.source_cache@[j].path@ != path@)
            && crate::options::define_entries(opts.defines).len() == 0
            && lex_plain(crate::lexer::lex_views(opts.source_cache@[k].text@, 0))
            ==> r is Ok && r->Ok_0.output@ == emit_views(Seq::empty(), crate::lexer::lex_views(opts.source_cache@[k].text@, 0))
                && r->Ok_0.diagnostics@.len() == 0,
{
    let p = str_chars(path);
    let mut state = PreprocessorState::new(opts, &p);
    proof {
        assert(active(state)) by {
            assert forall|k: int| 0 <= k < state.conditional_stack@.len() implies #[trigger] state.conditional_stack@[k] by {
                assert(state.conditional_stack@ == seq![true]);
            }
        }
        assert(names_view(state.included_guard@) =~= Seq::<Seq<char>>::empty());
        assert(state.output@ =~= Seq::<char>::empty());
    }
    match state.process_file(&p) {
        Ok(()) => {
            state.report_unterminated();
            Ok(state.finish())
        },
        Err(e) => Err(e),
    }
}

/// A character that the first token it starts writes out first: a digit,
/// a newline or a quote.
pub open spec fn echoes_first(c: char) -> bool {
    is_digit(c) || c == '\n' || c == '"' || c == '\''
}

/// The end-of-input search from `k` stops at `k` or later.
proof fn lemma_first_eof_from(toks: Seq<Token>, k: int)
    requires
        0 <= k <= toks.len(),
    ensures
        k <= first_eof(toks, k) <= toks.len(),
    decreases toks.len() - k,
{
    if k < toks.len() && !is_eof(toks[k].kind) {
        lemma_first_eof_from(toks, k + 1);
    }
}

/// Writing more tokens only extends what the first one wrote.
proof fn lemma_emit_all_extends(out: Seq<char>, toks: Seq<Token>, n: int)
    requires
        1 <= n <= toks.len(),
    ensures
        emit_all(out, toks, 1).is_prefix_of(emit_all(out, toks, n)),
    decreases n,
{
    if n > 1 {
        lemma_emit_all_extends(out, toks, n - 1);
        let a = emit_all(out, toks, n - 1);
        assert(a.is_prefix_of(emit_text(a, toks[n - 1].kind)));
    }
}

/// The lexed source has no `#` and names neither `__FILE__` nor
/// `__LINE__`.
pub open spec fn lex_plain(vs: Seq<(int, Seq<char>)>) -> bool {
    forall|k: int| 0 <= k < vs.len() ==> (#[trigger] vs[k]).0 != 5
        && (vs[k].0 == 0 ==> vs[k].1 != "__FILE__"@ && vs[k].1 != "__LINE__"@)
}

/// With no macro defined, every token writes out as it is.
proof fn lemma_expand_views_undefined(toks: Seq<Token>, macros: MacroTable)
    requires
        macro_entries(macros).len() == 0,
    ensures
        expand_views(toks, macros) == crate::lexer::kinds_of(toks),
    decreases toks.len(),
{
    if toks.len() > 0 {
        lemma_expand_views_undefined(toks.drop_last(), macros);
        assert(crate::lexer::kinds_of(toks) =~= crate::lexer::kinds_of(toks.drop_last()).push(kind_view(toks.last().kind)));
        match toks.last().kind {
            TokenKind::Identifier(n) => {
                assert(!macro_defined(macros, n@));
            },
            _ => {},
        }
        assert(token_views(toks.last(), macros) =~= seq![kind_view(toks.last().kind)]);
    }
}

/// In a well-formed token sequence the end of input comes last.
proof fn lemma_first_eof_last(toks: Seq<Token>, k: int)
    requires
        crate::lexer::well_formed_tokens(toks),
        0 <= k <= toks.len() - 1,
    ensures
        first_eof(toks, k) == toks.len() - 1,
    decreases toks.len() - k,
{
    if k < toks.len() - 1 {
        assert(!is_eof(toks[k].kind));
        lemma_first_eof_last(toks, k + 1);
    }
}

/// Lexed tokens of a plain source expand, with no macro defined, to their
/// own kinds.
proof fn lemma_lexed_plain(toks: Seq<Token>, vs: Seq<(int, Seq<char>)>, macros: MacroTable)
    requires
        crate::lexer::well_formed_tokens(toks),
        crate::lexer::kinds_of(toks) == vs.push((7int, Seq::<char>::empty())),
        lex_plain(vs),
        macro_entries(macros).len() == 0,
    ensures
        expandable_tokens(toks, macros),
        expand_views(toks.take(first_eof(toks, 0)), macros) == vs,
{
    assert(crate::lexer::kinds_of(toks).len() == toks.len());
    assert(vs.len() == toks.len() - 1);
    assert forall|k: int| 0 <= k < toks.len() implies expandable_token(#[trigger] toks[k], macros) by {
        assert(crate::lexer::kinds_of(toks)[k] == kind_view(toks[k].kind));
        if k < toks.len() - 1 {
            assert(vs.push((7int, Seq::<char>::empty()))[k] == vs[k]);
            assert(vs[k] == kind_view(toks[k].kind));
        }
        match toks[k].kind {
            TokenKind::Identifier(n) => {
                assert(!macro_defined(macros, n@));
            },
            _ => {},
        }
    }
    lemma_first_eof_last(toks, 0);
    lemma_expand_views_undefined(toks.take(toks.len() - 1), macros);
    assert(crate::lexer::kinds_of(toks.take(toks.len() - 1)) =~= vs) by {
        assert forall|k: int| 0 <= k < vs.len() implies crate::lexer::kinds_of(toks.take(toks.len() - 1))[k] == vs[k] by {
            assert(toks.take(toks.len() - 1)[k] == toks[k]);
            assert(crate::lexer::kinds_of(toks)[k] == kind_view(toks[k].kind));
            assert(vs.push((7int, Seq::<char>::empty()))[k] == vs[k]);
        }
    }
}

/// Preprocesses `source` as the contents of `file`; problems become
/// diagnostics. With no defines, a source that has no `#` and does not
/// name `__FILE__` or `__LINE__` is written out token by token, as the
/// lexer splits it.
pub fn preprocess_string(source: &str, file: &str, opts: &PreprocessOptions) -> (r: PreprocessResult)
    ensures
        crate::options::define_entries(opts.defines).len() == 0 && lex_plain(crate::lexer::lex_views(source@, 0))
            ==> r.output@ == emit_views(Seq::empty(), crate::lexer::lex_views(source@, 0)) && r.diagnostics@.len() == 0,
        source@.len() == 0 ==> r.output@.len() == 0,
        line_map_ok(r.line_map.entries@, capped(utf8_len(r.output@))),
        plain_text(source@) ==> r.diagnostics@.len() == 0,
        plain_text(source@) && opens_token(source@) && echoes_first(source@[0])
            ==> r.output@.len() > 0 && r.output@[0] == source@[0],
{
    let f = str_chars(file);
    let mut state = PreprocessorState::new(opts, &f);
    let tokens = Lexer::new(source).tokenize();
    let ghost s0 = state;
    proof {
        assert(active(state)) by {
            assert forall|k: int| 0 <= k < state.conditional_stack@.len() implies #[trigger] state.conditional_stack@[k] by {
                assert(state.conditional_stack@ == seq![true]);
            }
        }
        if plain_text(source@) {
            assert forall|k: int| 0 <= k < tokens@.len() implies plain_token(#[trigger] tokens@[k], state.macros) by {
                assert(!(tokens@[k].kind is Hash) && !(tokens@[k].kind is Identifier));
            }
        }
    }
    proof {
        if crate::options::define_entries(opts.defines).len() == 0 && lex_plain(crate::lexer::lex_views(source@, 0)) {
            lemma_lexed_plain(tokens@, crate::lexer::lex_views(source@, 0), state.macros);
            assert(state.output@ =~= Seq::<char>::empty());
        }
    }
    let res = state.process_tokens(&tokens);
    proof {
        if plain_text(source@) && opens_token(source@) && echoes_first(source@[0]) {
            let toks = tokens@;
            assert(!is_eof(toks[0].kind));
            lemma_first_eof_from(toks, 1);
            assert(first_eof(toks, 0) == first_eof(toks, 1));
            let n = first_eof(toks, 0);
            lemma_emit_all_extends(s0.output@, toks, n);
            assert(s0.output@ =~= Seq::<char>::empty());
            assert(emit_all(s0.output@, toks, 0) == s0.output@);
            assert(emit_all(s0.output@, toks, 1) == token_text(toks[0].kind));
            assert(token_text(toks[0].kind).len() > 0 && token_text(toks[0].kind)[0] == source@[0]);
        }
    }
    match res {
        Err(e) => {
            let head = str_chars("preprocess stopped: ");
            let et = e.text();
            let msg = concat3(&head, &et, &[]);
            state.warn(1, &msg);
        },
        Ok(()) => {},
    }
    state.report_unterminated();
    state.finish()
}

/// Object-like macros for the given defines, in order.
pub fn macro_table_from_defines(defines: &IndexMap<String, String>) -> (t: MacroTable)
    ensures
        forall|k: int| 0 <= k < crate::options::define_entries(*defines).len()
            ==> macro_defined(t, #[trigger] crate::options::define_entries(*defines)[k].0),
{
    let list = defines_list(defines);
    let mut t = macro_table_new();
    let mut k: usize = 0;
    while k < list.len()
        invariant
            k <= list@.len(),
            list@.len() == crate::options::define_entries(*defines).len(),
            forall|j: int| 0 <= j < list@.len() ==> (#[trigger] list@[j]).0@ == crate::options::define_entries(*defines)[j].0,
            forall|j: int| 0 <= j < k ==> macro_defined(t, #[trigger] list@[j].0@),
        decreases list@.len() - k,
    {
        let name = copy_chars(&list[k].0);
        let ghost n = name@;
        let ghost t0 = t;
        let toks = object_tokens(&list[k].1);
        macro_insert(&mut t, name, MacroDef::Object { replacement: toks });
        proof {
            crate::macros::lemma_entry_index(macro_entries(t0), n);
            crate::macros::lemma_entry_index(macro_entries(t), n);
            assert forall|j: int| 0 <= j < k + 1 implies macro_defined(t, #[trigger] list@[j].0@) by {
                let q = list@[j].0@;
                crate::macros::lemma_entry_index(macro_entries(t0), q);
                crate::macros::lemma_entry_index(macro_entries(t), q);
                let e0 = macro_entries(t0);
                let e1 = macro_entries(t);
                if q == n {
                    if entry_index(e0, n) == -1 {
                        assert(e1[e1.len() - 1].0 == n);
                    } else {
                        assert(e1[entry_index(e0, n)].0 == n);
                    }
                } else {
                    let x = entry_index(e0, q);
                    assert(e1[x].0 == q);
                }
            }
        }
        k = k + 1;
    }
    assert forall|k: int| 0 <= k < crate::options::define_entries(*defines).len()
        implies macro_defined(t, #[trigger] crate::options::define_entries(*defines)[k].0) by {
        assert(list@[k].0@ == crate::options::define_entries(*defines)[k].0);
    }
    t
}

} // verus!
