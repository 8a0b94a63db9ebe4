//! Tokenizer for C source text, feeding the preprocessor.

use vstd::prelude::*;
use crate::text::{copy_chars, str_chars};

verus! {

/// Lexical class of a token, with its spelling where it has one.
#[derive(Debug, Clone)]
pub enum TokenKind {
    Identifier(Vec<char>),
    Number(Vec<char>),
    /// String literal contents, without the surrounding quotes.
    String(Vec<char>),
    /// Character literal contents, without the surrounding quotes.
    Char(Vec<char>),
    Punct(Vec<char>),
    Hash,
    Newline,
    Eof,
}

/// A token with its source position and its macro hide set (the names of
/// the macros whose expansion produced it, which must not re-expand it).
#[derive(Debug, Clone)]
pub struct Token {
    pub kind: TokenKind,
    pub line: u32,
    pub col: u32,
    pub hidden: Vec<Vec<char>>,
}

/// `kind` is the punctuator spelled `s`.
pub open spec fn is_punct(kind: TokenKind, s: Seq<char>) -> bool {
    kind matches TokenKind::Punct(p) && p@ == s
}

pub open spec fn is_newline(kind: TokenKind) -> bool {
    kind matches TokenKind::Newline
}

pub open spec fn is_eof(kind: TokenKind) -> bool {
    kind matches TokenKind::Eof
}

/// Spellings of a list of names.
pub open spec fn names_view(v: Seq<Vec<char>>) -> Seq<Seq<char>> {
    v.map_values(|h: Vec<char>| h@)
}

/// Names in the hide set of `t`.
pub open spec fn hide_set(t: Token) -> Seq<Seq<char>> {
    names_view(t.hidden@)
}

/// Whether `kind` is the single-character punctuator `c`.
pub fn punct_is(kind: &TokenKind, c: char) -> (r: bool)
    ensures
        r == is_punct(*kind, seq![c]),
{
    match kind {
        TokenKind::Punct(p) => {
            if p.len() == 1 && p[0] == c {
                assert(p@ =~= seq![c]);
                true
            } else {
                false
            }
        },
        _ => false,
    }
}

/// Whether `kind` is the two-character punctuator `c1 c2`.
pub fn punct_is2(kind: &TokenKind, c1: char, c2: char) -> (r: bool)
    ensures
        r == is_punct(*kind, seq![c1, c2]),
{
    match kind {
        TokenKind::Punct(p) => {
            if p.len() == 2 && p[0] == c1 && p[1] == c2 {
                assert(p@ =~= seq![c1, c2]);
                true
            } else {
                false
            }
        },
        _ => false,
    }
}

/// Whether `kind` is the three-character punctuator `c1 c2 c3`.
pub fn punct_is3(kind: &TokenKind, c1: char, c2: char, c3: char) -> (r: bool)
    ensures
        r == is_punct(*kind, seq![c1, c2, c3]),
{
    match kind {
        TokenKind::Punct(p) => {
            if p.len() == 3 && p[0] == c1 && p[1] == c2 && p[2] == c3 {
                assert(p@ =~= seq![c1, c2, c3]);
                true
            } else {
                false
            }
        },
        _ => false,
    }
}

pub fn is_newline_kind(kind: &TokenKind) -> (r: bool)
    ensures
        r == is_newline(*kind),
{
    match kind {
        TokenKind::Newline => true,
        _ => false,
    }
}

pub fn is_eof_kind(kind: &TokenKind) -> (r: bool)
    ensures
        r == is_eof(*kind),
{
    match kind {
        TokenKind::Eof => true,
        _ => false,
    }
}

/// Deep copy of a list of names.
pub fn copy_names(v: &Vec<Vec<char>>) -> (r: Vec<Vec<char>>)
    ensures
        names_view(r@) == names_view(v@),
{
    let mut r: Vec<Vec<char>> = Vec::new();
    let mut i: usize = 0;
    while i < v.len()
        invariant
            i <= v@.len(),
            r@.len() == i,
            forall|k: int| 0 <= k < i ==> #[trigger] r@[k]@ == v@[k]@,
        decreases v@.len() - i,
    {
        r.push(copy_chars(&v[i]));
        i = i + 1;
    }
    assert(names_view(r@) =~= names_view(v@));
    r
}

/// Whether `names` holds `name`.
pub fn names_contain(names: &Vec<Vec<char>>, name: &[char]) -> (r: bool)
    ensures
        r == names_view(names@).contains(name@),
{
    let ghost view = names_view(names@);
    let mut i: usize = 0;
    while i < names.len()
        invariant
            i <= names@.len(),
            view == names_view(names@),
            forall|k: int| 0 <= k < i ==> view[k] != name@,
        decreases names@.len() - i,
    {
        if crate::text::chars_eq(&names[i], name) {
            assert(view[i as int] == name@);
            return true;
        }
        i = i + 1;
    }
    false
}

impl TokenKind {
    /// A copy of this kind with the same spelling.
    pub fn duplicate(&self) -> (r: TokenKind)
        ensures
            kind_view(r) == kind_view(*self),
    {
        match self {
            TokenKind::Identifier(s) => TokenKind::Identifier(copy_chars(s)),
            TokenKind::Number(s) => TokenKind::Number(copy_chars(s)),
            TokenKind::String(s) => TokenKind::String(copy_chars(s)),
            TokenKind::Char(s) => TokenKind::Char(copy_chars(s)),
            TokenKind::Punct(s) => TokenKind::Punct(copy_chars(s)),
            TokenKind::Hash => TokenKind::Hash,
            TokenKind::Newline => TokenKind::Newline,
            TokenKind::Eof => TokenKind::Eof,
        }
    }
}

/// Abstract value of a token kind: its class (0..7) and its spelling.
pub open spec fn kind_view(k: TokenKind) -> (int, Seq<char>) {
    match k {
        TokenKind::Identifier(s) => (0, s@),
        TokenKind::Number(s) => (1, s@),
        TokenKind::String(s) => (2, s@),
        TokenKind::Char(s) => (3, s@),
        TokenKind::Punct(s) => (4, s@),
        TokenKind::Hash => (5, Seq::empty()),
        TokenKind::Newline => (6, Seq::empty()),
        TokenKind::Eof => (7, Seq::empty()),
    }
}

impl Token {
    pub fn new(kind: TokenKind, line: u32, col: u32) -> (r: Token)
        ensures
            r.kind == kind,
            r.line == line,
            r.col == col,
            r.hidden@.len() == 0,
    {
        Token { kind, line, col, hidden: Vec::new() }
    }

    /// A copy of this token: same kind, position and hide set.
    pub fn duplicate(&self) -> (r: Token)
        ensures
            kind_view(r.kind) == kind_view(self.kind),
            r.line == self.line,
            r.col == self.col,
            hide_set(r) == hide_set(*self),
    {
        Token { kind: self.kind.duplicate(), line: self.line, col: self.col, hidden: copy_names(&self.hidden) }
    }

    /// Whether `name` is in this token's hide set.
    pub fn is_hidden(&self, name: &[char]) -> (r: bool)
        ensures
            r == hide_set(*self).contains(name@),
    {
        names_contain(&self.hidden, name)
    }

    /// This token produced by expanding macro `name` invoked at `origin`: its
    /// hide set gains `name` and the origin's hide set.
    pub fn with_macro_hide(&self, origin: &Token, name: &[char]) -> (r: Token)
        ensures
            kind_view(r.kind) == kind_view(self.kind),
            r.line == self.line,
            r.col == self.col,
            hide_set(r).contains(name@),
            forall|h: Seq<char>| hide_set(*self).contains(h) ==> #[trigger] hide_set(r).contains(h),
            forall|h: Seq<char>| hide_set(*origin).contains(h) ==> #[trigger] hide_set(r).contains(h),
            forall|h: Seq<char>| #[trigger] hide_set(r).contains(h) ==> hide_set(*self).contains(h)
                || hide_set(*origin).contains(h) || h == name@,
    {
        let mut t = self.duplicate();
        let mut hidden = copy_names(&self.hidden);
        union_into(&mut hidden, &origin.hidden);
        add_name(&mut hidden, name);
        t.hidden = hidden;
        t
    }

    /// Hide set of a token pasted from `left` and `right`: the union of both.
    pub fn union_hidden(left: &Token, right: &Token) -> (r: Vec<Vec<char>>)
        ensures
            forall|h: Seq<char>| #[trigger] names_view(r@).contains(h)
                <==> (hide_set(*left).contains(h) || hide_set(*right).contains(h)),
    {
        let mut hidden = copy_names(&left.hidden);
        union_into(&mut hidden, &right.hidden);
        hidden
    }
}

/// Adds `name` to `names` unless present.
pub fn add_name(names: &mut Vec<Vec<char>>, name: &[char])
    ensures
        forall|h: Seq<char>| #[trigger] names_view(final(names)@).contains(h)
            <==> (names_view(old(names)@).contains(h) || h == name@),
{
    let ghost before = names_view(names@);
    if !names_contain(names, name) {
        names.push(copy_chars(name));
        assert(names_view(names@) =~= before.push(name@));
    } else {
        assert(names_view(names@) =~= before);
    }
    assert forall|h: Seq<char>| #[trigger] names_view(names@).contains(h)
        <==> (before.contains(h) || h == name@) by {
        let after = names_view(names@);
        if h == name@ {
            if !before.contains(h) {
                assert(after[after.len() - 1] == h);
            }
        }
        if before.contains(h) && after != before {
            let k = choose|k: int| 0 <= k < before.len() && #[trigger] before[k] == h;
            assert(after[k] == h);
        }
    }
}

/// Adds every name of `more` to `names`.
pub fn union_into(names: &mut Vec<Vec<char>>, more: &Vec<Vec<char>>)
    ensures
        forall|h: Seq<char>| #[trigger] names_view(final(names)@).contains(h)
            <==> (names_view(old(names)@).contains(h)
                || names_view(more@).contains(h)),
{
    let ghost start = names_view(names@);
    let ghost mv = names_view(more@);
    let mut i: usize = 0;
    while i < more.len()
        invariant
            i <= more@.len(),
            mv == names_view(more@),
            forall|h: Seq<char>| #[trigger] names_view(names@).contains(h)
                <==> (start.contains(h) || mv.subrange(0, i as int).contains(h)),
        decreases more@.len() - i,
    {
        add_name(names, &more[i]);
        i = i + 1;
        assert forall|h: Seq<char>| mv.subrange(0, i as int).contains(h)
            <==> (mv.subrange(0, i - 1).contains(h) || h == mv[i - 1]) by {
            if mv.subrange(0, i as int).contains(h) {
                let k = choose|k: int| 0 <= k < i && #[trigger] mv.subrange(0, i as int)[k] == h;
                if k < i - 1 {
                    assert(mv.subrange(0, i - 1)[k] == h);
                }
            }
            if mv.subrange(0, i - 1).contains(h) {
                let k = choose|k: int| 0 <= k < i - 1 && #[trigger] mv.subrange(0, i - 1)[k] == h;
                assert(mv.subrange(0, i as int)[k] == h);
            }
            if h == mv[i - 1] {
                assert(mv.subrange(0, i as int)[i - 1] == h);
            }
        }
    }
    assert(mv.subrange(0, more@.len() as int) =~= mv);
}

/// Whether `c` may start an identifier.
pub open spec fn ident_start(c: char) -> bool {
    ('a' <= c && c <= 'z') || ('A' <= c && c <= 'Z') || c == '_' || c == '$'
}

/// Whether `c` may continue an identifier.
pub open spec fn ident_char(c: char) -> bool {
    ident_start(c) || ('0' <= c && c <= '9')
}

pub open spec fn is_digit(c: char) -> bool {
    '0' <= c && c <= '9'
}

/// Blanks between tokens: space, tab, carriage return, form feed, vertical
/// tab.
pub open spec fn lex_blank(c: char) -> bool {
    c == ' ' || c == '\t' || c == '\r' || c == '\x0c' || c == '\x0b'
}

/// End of a `//` comment whose text starts at `j`: the next newline.
pub open spec fn line_end_from(s: Seq<char>, j: int) -> int
    decreases s.len() - j,
{
    if 0 <= j < s.len() && s[j] != '\n' { line_end_from(s, j + 1) } else { j }
}

/// End of a `/*` comment whose text starts at `j`: past its `*/`, or the
/// end of the source.
pub open spec fn comment_end_from(s: Seq<char>, j: int) -> int
    decreases s.len() - j,
{
    if 0 <= j < s.len() {
        if s[j] == '*' && j + 1 < s.len() && s[j + 1] == '/' { j + 2 } else { comment_end_from(s, j + 1) }
    } else {
        j
    }
}

/// End of the identifier characters from `j`.
pub open spec fn ident_end_from(s: Seq<char>, j: int) -> int
    decreases s.len() - j,
{
    if 0 <= j < s.len() && ident_char(s[j]) { ident_end_from(s, j + 1) } else { j }
}

/// Character `j` continues a number: a name character, a dot, or a sign
/// after an exponent letter.
pub open spec fn number_char_at(s: Seq<char>, j: int) -> bool {
    ident_char(s[j]) || s[j] == '.'
        || ((s[j] == '+' || s[j] == '-') && (s[j - 1] == 'e' || s[j - 1] == 'E' || s[j - 1] == 'p' || s[j - 1] == 'P'))
}

/// End of the number characters from `j`.
pub open spec fn number_end_from(s: Seq<char>, j: int) -> int
    decreases s.len() - j,
{
    if 1 <= j < s.len() && number_char_at(s, j) { number_end_from(s, j + 1) } else { j }
}

/// Body of a literal quoted by `q` from `j`: up to the closing quote or the
/// line's end, a backslash keeping the character after it.
pub open spec fn quote_body(s: Seq<char>, j: int, q: char) -> Seq<char>
    decreases s.len() - j,
{
    if 0 <= j < s.len() && s[j] != q && s[j] != '\n' {
        if s[j] == '\\' && j + 1 < s.len() && s[j + 1] != '\n' {
            seq![s[j], s[j + 1]] + quote_body(s, j + 2, q)
        } else {
            seq![s[j]] + quote_body(s, j + 1, q)
        }
    } else {
        Seq::empty()
    }
}

/// Where the body of a literal quoted by `q` from `j` ends.
pub open spec fn quote_end(s: Seq<char>, j: int, q: char) -> int
    decreases s.len() - j,
{
    if 0 <= j < s.len() && s[j] != q && s[j] != '\n' {
        if s[j] == '\\' && j + 1 < s.len() && s[j + 1] != '\n' { quote_end(s, j + 2, q) } else { quote_end(s, j + 1, q) }
    } else {
        j
    }
}

/// Past the closing quote `q` at `e`, if there is one.
pub open spec fn past_quote(s: Seq<char>, e: int, q: char) -> int {
    if 0 <= e < s.len() && s[e] == q { e + 1 } else { e }
}

/// Kind views of the tokens of `s` from position `i` on (the final end of
/// input left out).
pub open spec fn lex_views(s: Seq<char>, i: int) -> Seq<(int, Seq<char>)>
    decreases s.len() - i,
{
    if i < 0 || i >= s.len() {
        Seq::empty()
    } else {
        let c = s[i];
        if c == '\n' {
            seq![(6int, Seq::<char>::empty())] + lex_views(s, i + 1)
        } else if lex_blank(c) {
            lex_views(s, i + 1)
        } else if c == '/' && i + 1 < s.len() && s[i + 1] == '/' {
            let e = line_end_from(s, i + 2);
            if i < e <= s.len() { lex_views(s, e) } else { Seq::empty() }
        } else if c == '/' && i + 1 < s.len() && s[i + 1] == '*' {
            let e = comment_end_from(s, i + 2);
            if i < e <= s.len() { lex_views(s, e) } else { Seq::empty() }
        } else if ident_start(c) {
            let e = ident_end_from(s, i + 1);
            if i < e <= s.len() { seq![(0int, s.subrange(i, e))] + lex_views(s, e) } else { Seq::empty() }
        } else if is_digit(c) || (c == '.' && i + 1 < s.len() && is_digit(s[i + 1])) {
            let e = number_end_from(s, i + 1);
            if i < e <= s.len() { seq![(1int, s.subrange(i, e))] + lex_views(s, e) } else { Seq::empty() }
        } else if c == '"' || c == '\'' {
            let e = past_quote(s, quote_end(s, i + 1, c), c);
            let v = (if c == '"' { 2int } else { 3int }, quote_body(s, i + 1, c));
            if i < e <= s.len() { seq![v] + lex_views(s, e) } else { Seq::empty() }
        } else if c == '#' {
            if i + 1 < s.len() && s[i + 1] == '#' {
                seq![(4int, seq!['#', '#'])] + lex_views(s, i + 2)
            } else {
                seq![(5int, Seq::<char>::empty())] + lex_views(s, i + 1)
            }
        } else {
            let e = i + punct_len_spec(s, i);
            if i < e <= s.len() { seq![(4int, s.subrange(i, e))] + lex_views(s, e) } else { Seq::empty() }
        }
    }
}

/// Kind views of a token sequence.
pub open spec fn kinds_of(toks: Seq<Token>) -> Seq<(int, Seq<char>)> {
    toks.map_values(|t: Token| kind_view(t.kind))
}

/// Tokenizer over a character buffer.
pub struct Lexer {
    pub src: Vec<char>,
}

/// The source has no `#` and no character that starts a name: nothing in
/// it can be a directive or a macro use.
pub open spec fn plain_text(src: Seq<char>) -> bool {
    forall|j: int| 0 <= j < src.len() ==> #[trigger] src[j] != '#' && !ident_start(src[j])
}

/// Whether the source begins with a token: its first character is neither
/// white space other than a newline nor the start of a comment.
pub open spec fn opens_token(src: Seq<char>) -> bool {
    &&& src.len() > 0
    &&& src[0] != ' ' && src[0] != '\t' && src[0] != '\r' && src[0] != '\x0c' && src[0] != '\x0b'
    &&& !(src[0] == '/' && src.len() > 1 && (src[1] == '/' || src[1] == '*'))
}

/// The token `tok` is what the first character of `src` starts: it stands
/// at line 1, column 1, and its kind follows from that character.
pub open spec fn first_token_fits(src: Seq<char>, tok: Token) -> bool {
    let k = kind_view(tok.kind);
    &&& tok.line == 1 && tok.col == 1
    &&& src[0] == '\n' ==> k == (6int, Seq::<char>::empty())
    &&& ident_start(src[0]) ==> k.0 == 0 && k.1.len() > 0 && k.1[0] == src[0]
    &&& is_digit(src[0]) ==> k.0 == 1 && k.1.len() > 0 && k.1[0] == src[0]
    &&& src[0] == '"' ==> k.0 == 2
    &&& src[0] == '\'' ==> k.0 == 3
    &&& src[0] == '#' ==> k.0 == 5 || k == (4int, seq!['#', '#'])
}

/// A tokenization is well formed: it ends with the single end-of-input
/// token, and each identifier is spelled with identifier characters.
pub open spec fn well_formed_tokens(toks: Seq<Token>) -> bool {
    &&& toks.len() >= 1
    &&& is_eof(toks.last().kind)
    &&& forall|k: int| 0 <= k < toks.len() - 1 ==> !is_eof(#[trigger] toks[k].kind)
    &&& forall|k: int| 0 <= k < toks.len() ==> (#[trigger] toks[k]).line >= 1
    &&& forall|k: int| 0 <= k < toks.len() ==> (#[trigger] toks[k]).hidden@.len() == 0
    &&& forall|k: int| 0 <= k < toks.len() ==> match (#[trigger] toks[k]).kind {
        TokenKind::Identifier(s) => s@.len() > 0 && ident_start(s@[0]) && forall|j: int|
            0 <= j < s@.len() ==> ident_char(#[trigger] s@[j]),
        _ => true,
    }
}

/// Number of newline characters in `s`.
pub open spec fn count_newlines(s: Seq<char>) -> nat
    decreases s.len(),
{
    if s.len() == 0 {
        0
    } else {
        count_newlines(s.drop_last()) + if s.last() == '\n' { 1nat } else { 0nat }
    }
}

impl Lexer {
    pub fn new(src: &str) -> (r: Lexer)
        ensures
            r.src@ == src@,
    {
        Lexer { src: str_chars(src) }
    }

    pub fn from_chars(src: &[char]) -> (r: Lexer)
        ensures
            r.src@ == src@,
    {
        Lexer { src: copy_chars(src) }
    }

    /// Splits the source into tokens, ending with a single `Eof`.
    #[verifier::rlimit(100)]
    pub fn tokenize(&self) -> (toks: Vec<Token>)
        ensures
            well_formed_tokens(toks@),
            self.src@.len() == 0 ==> toks@.len() == 1,
            opens_token(self.src@) ==> toks@.len() >= 2 && first_token_fits(self.src@, toks@[0]),
            plain_text(self.src@) ==> forall|k: int| 0 <= k < toks@.len()
                ==> !(#[trigger] toks@[k].kind is Hash) && !(toks@[k].kind is Identifier),
            kinds_of(toks@) == lex_views(self.src@, 0).push((7int, Seq::<char>::empty())),
    {
        let src = &self.src;
        let n = src.len();
        let mut toks: Vec<Token> = Vec::new();
        let mut i: usize = 0;
        let mut line: u32 = 1;
        let mut line_start: usize = 0;
        while i < n
            invariant
                n == src@.len(),
                i <= n,
                line >= 1,
                line_start <= i,
                kinds_of(toks@) + lex_views(src@, i as int) == lex_views(src@, 0),
                i == 0 ==> toks@.len() == 0 && line == 1 && line_start == 0,
                i > 0 && opens_token(src@) ==> toks@.len() >= 1 && first_token_fits(src@, toks@[0]),
                plain_text(src@) ==> forall|k: int| 0 <= k < toks@.len()
                    ==> !(#[trigger] toks@[k].kind is Hash) && !(toks@[k].kind is Identifier),
                forall|k: int| 0 <= k < toks@.len() ==> !is_eof(#[trigger] toks@[k].kind),
                forall|k: int| 0 <= k < toks@.len() ==> (#[trigger] toks@[k]).line >= 1,
                forall|k: int| 0 <= k < toks@.len() ==> (#[trigger] toks@[k]).hidden@.len() == 0,
                forall|k: int| 0 <= k < toks@.len() ==> match (#[trigger] toks@[k]).kind {
                    TokenKind::Identifier(s) => s@.len() > 0 && ident_start(s@[0]) && forall|j: int|
                        0 <= j < s@.len() ==> ident_char(#[trigger] s@[j]),
                    _ => true,
                },
            decreases n - i,
        {
            let c = src[i];
            let col = col_of(i, line_start);
            let ghost k0 = kinds_of(toks@);
            if c == '\n' {
                toks.push(Token::new(TokenKind::Newline, line, col));
                proof {
                    assert(kinds_of(toks@) =~= k0.push((6int, Seq::<char>::empty())));
                    assert(lex_views(src@, i as int) == seq![(6int, Seq::<char>::empty())] + lex_views(src@, i + 1));
                    assert(kinds_of(toks@) + lex_views(src@, i + 1) =~= k0 + lex_views(src@, i as int));
                }
                line = if line < u32::MAX { line + 1 } else { line };
                i = i + 1;
                line_start = i;
            } else if c == ' ' || c == '\t' || c == '\r' || c == '\x0c' || c == '\x0b' {
                proof { assert(lex_views(src@, i as int) == lex_views(src@, i + 1)); }
                i = i + 1;
            } else if c == '/' && i + 1 < n && src[i + 1] == '/' {
                let mut j = i + 2;
                while j < n && src[j] != '\n'
                    invariant
                        n == src@.len(),
                        i < j <= n,
                        line_end_from(src@, j as int) == line_end_from(src@, i + 2),
                    decreases n - j,
                {
                    j = j + 1;
                }
                proof {
                    assert(line_end_from(src@, j as int) == j);
                    assert(lex_views(src@, i as int) == lex_views(src@, j as int));
                }
                i = j;
            } else if c == '/' && i + 1 < n && src[i + 1] == '*' {
                let mut j = i + 2;
                let mut closed = false;
                while j < n && !closed
                    invariant
                        n == src@.len(),
                        i < j <= n,
                        line >= 1,
                        line_start <= j,
                        !closed ==> comment_end_from(src@, j as int) == comment_end_from(src@, i + 2),
                        closed ==> j == comment_end_from(src@, i + 2),
                    decreases n - j,
                {
                    if src[j] == '*' && j + 1 < n && src[j + 1] == '/' {
                        closed = true;
                        j = j + 2;
                    } else {
                        if src[j] == '\n' {
                            line = if line < u32::MAX { line + 1 } else { line };
                            line_start = j + 1;
                        }
                        j = j + 1;
                    }
                }
                proof {
                    if !closed {
                        assert(comment_end_from(src@, j as int) == j);
                    }
                    assert(lex_views(src@, i as int) == lex_views(src@, j as int));
                }
                i = j;
            } else if ident_start_exec(c) {
                let mut word: Vec<char> = Vec::new();
                word.push(c);
                let mut j = i + 1;
                proof { assert(word@ =~= src@.subrange(i as int, i + 1)); }
                while j < n && ident_char_exec(src[j])
                    invariant
                        n == src@.len(),
                        i < j <= n,
                        word@.len() > 0,
                        word@[0] == c,
                        ident_start(word@[0]),
                        forall|t: int| 0 <= t < word@.len() ==> ident_char(#[trigger] word@[t]),
                        word@ == src@.subrange(i as int, j as int),
                        ident_end_from(src@, j as int) == ident_end_from(src@, i + 1),
                    decreases n - j,
                {
                    word.push(src[j]);
                    j = j + 1;
                    proof { assert(word@ =~= src@.subrange(i as int, j as int)); }
                }
                proof {
                    assert(ident_end_from(src@, j as int) == j);
                    assert(lex_views(src@, i as int) == seq![(0int, src@.subrange(i as int, j as int))] + lex_views(src@, j as int));
                }
                let ghost wv = word@;
                toks.push(Token::new(TokenKind::Identifier(word), line, col));
                proof {
                    assert(kinds_of(toks@) =~= k0.push((0int, wv)));
                    assert(kinds_of(toks@) + lex_views(src@, j as int) =~= k0 + lex_views(src@, i as int));
                }
                i = j;
            } else if is_digit_exec(c) || (c == '.' && i + 1 < n && is_digit_exec(src[i + 1])) {
                let mut word: Vec<char> = Vec::new();
                word.push(c);
                let mut j = i + 1;
                proof { assert(word@ =~= src@.subrange(i as int, i + 1)); }
                while j < n && (ident_char_exec(src[j]) || src[j] == '.' || ((src[j] == '+' || src[j] == '-')
                    && (src[j - 1] == 'e' || src[j - 1] == 'E' || src[j - 1] == 'p' || src[j - 1] == 'P')))
                    invariant
                        n == src@.len(),
                        i < j <= n,
                        word@.len() > 0,
                        word@[0] == c,
                        word@ == src@.subrange(i as int, j as int),
                        number_end_from(src@, j as int) == number_end_from(src@, i + 1),
                    decreases n - j,
                {
                    word.push(src[j]);
                    j = j + 1;
                    proof { assert(word@ =~= src@.subrange(i as int, j as int)); }
                }
                proof {
                    assert(number_end_from(src@, j as int) == j);
                    assert(lex_views(src@, i as int) == seq![(1int, src@.subrange(i as int, j as int))] + lex_views(src@, j as int));
                }
                let ghost wv = word@;
                toks.push(Token::new(TokenKind::Number(word), line, col));
                proof {
                    assert(kinds_of(toks@) =~= k0.push((1int, wv)));
                    assert(kinds_of(toks@) + lex_views(src@, j as int) =~= k0 + lex_views(src@, i as int));
                }
                i = j;
            } else if c == '"' || c == '\'' {
                let quote = c;
                let mut body: Vec<char> = Vec::new();
                let mut j = i + 1;
                while j < n && src[j] != quote && src[j] != '\n'
                    invariant
                        n == src@.len(),
                        i < j <= n,
                        quote == src@[i as int],
                        body@ + quote_body(src@, j as int, quote) == quote_body(src@, i + 1, quote),
                        quote_end(src@, j as int, quote) == quote_end(src@, i + 1, quote),
                    decreases n - j,
                {
                    let ghost b0 = body@;
                    let ghost j0 = j as int;
                    if src[j] == '\\' && j + 1 < n && src[j + 1] != '\n' {
                        body.push(src[j]);
                        body.push(src[j + 1]);
                        j = j + 2;
                        proof {
                            assert(body@ =~= b0 + seq![src@[j0], src@[j0 + 1]]);
                            assert(quote_body(src@, j0, quote) == seq![src@[j0], src@[j0 + 1]] + quote_body(src@, j as int, quote));
                            assert(body@ + quote_body(src@, j as int, quote) =~= b0 + quote_body(src@, j0, quote));
                        }
                    } else {
                        body.push(src[j]);
                        j = j + 1;
                        proof {
                            assert(body@ =~= b0 + seq![src@[j0]]);
                            assert(quote_body(src@, j0, quote) == seq![src@[j0]] + quote_body(src@, j as int, quote));
                            assert(body@ + quote_body(src@, j as int, quote) =~= b0 + quote_body(src@, j0, quote));
                        }
                    }
                }
                proof {
                    assert(quote_end(src@, j as int, quote) == j);
                    assert(quote_body(src@, j as int, quote) =~= Seq::<char>::empty());
                    assert(body@ =~= quote_body(src@, i + 1, quote));
                }
                let ghost je = j as int;
                if j < n && src[j] == quote {
                    j = j + 1;
                }
                let ghost bv = body@;
                if quote == '"' {
                    toks.push(Token::new(TokenKind::String(body), line, col));
                } else {
                    toks.push(Token::new(TokenKind::Char(body), line, col));
                }
                proof {
                    assert(j == past_quote(src@, je, quote));
                    let v = (if quote == '"' { 2int } else { 3int }, bv);
                    assert(lex_views(src@, i as int) == seq![v] + lex_views(src@, j as int));
                    assert(kinds_of(toks@) =~= k0.push(v));
                    assert(kinds_of(toks@) + lex_views(src@, j as int) =~= k0 + lex_views(src@, i as int));
                }
                i = j;
            } else if c == '#' {
                if i + 1 < n && src[i + 1] == '#' {
                    let mut p: Vec<char> = Vec::new();
                    p.push('#');
                    p.push('#');
                    proof { assert(p@ =~= seq!['#', '#']); }
                    toks.push(Token::new(TokenKind::Punct(p), line, col));
                    proof {
                        assert(kinds_of(toks@) =~= k0.push((4int, seq!['#', '#'])));
                        assert(lex_views(src@, i as int) == seq![(4int, seq!['#', '#'])] + lex_views(src@, i + 2));
                        assert(kinds_of(toks@) + lex_views(src@, i + 2) =~= k0 + lex_views(src@, i as int));
                    }
                    i = i + 2;
                } else {
                    toks.push(Token::new(TokenKind::Hash, line, col));
                    proof {
                        assert(kinds_of(toks@) =~= k0.push((5int, Seq::<char>::empty())));
                        assert(lex_views(src@, i as int) == seq![(5int, Seq::<char>::empty())] + lex_views(src@, i + 1));
                        assert(kinds_of(toks@) + lex_views(src@, i + 1) =~= k0 + lex_views(src@, i as int));
                    }
                    i = i + 1;
                }
            } else {
                let len = punct_len(src, i);
                let mut p: Vec<char> = Vec::new();
                let mut j = i;
                proof { assert(p@ =~= src@.subrange(i as int, i as int)); }
                while j < i + len
                    invariant
                        n == src@.len(),
                        i < n,
                        1 <= len <= 3,
                        i + len <= n,
                        i <= j <= i + len,
                        p@ == src@.subrange(i as int, j as int),
                    decreases i + len - j,
                {
                    p.push(src[j]);
                    j = j + 1;
                    proof { assert(p@ =~= src@.subrange(i as int, j as int)); }
                }
                let ghost pv = p@;
                toks.push(Token::new(TokenKind::Punct(p), line, col));
                proof {
                    assert(lex_views(src@, i as int) == seq![(4int, src@.subrange(i as int, i + len))] + lex_views(src@, i + len));
                    assert(kinds_of(toks@) =~= k0.push((4int, pv)));
                    assert(kinds_of(toks@) + lex_views(src@, i + len) =~= k0 + lex_views(src@, i as int));
                }
                i = i + len;
            }
        }
        let col = col_of(i, line_start);
        let ghost k0 = kinds_of(toks@);
        toks.push(Token::new(TokenKind::Eof, line, col));
        proof {
            assert(lex_views(src@, i as int) =~= Seq::<(int, Seq<char>)>::empty());
            assert(k0 =~= lex_views(src@, 0));
            assert(kinds_of(toks@) =~= k0.push((7int, Seq::<char>::empty())));
        }
        toks
    }
}

/// One-based column of offset `i` on a line starting at `line_start`.
fn col_of(i: usize, line_start: usize) -> (c: u32)
    requires
        line_start <= i,
    ensures
        c >= 1,
        c == if i - line_start < 0xffff_fffe { i - line_start + 1 } else { u32::MAX as int },
{
    let d = i - line_start;
    if d < 0xffff_fffe { (d + 1) as u32 } else { u32::MAX }
}

fn ident_start_exec(c: char) -> (r: bool)
    ensures
        r == ident_start(c),
{
    ('a' <= c && c <= 'z') || ('A' <= c && c <= 'Z') || c == '_' || c == '$'
}

fn ident_char_exec(c: char) -> (r: bool)
    ensures
        r == ident_char(c),
{
    ident_start_exec(c) || ('0' <= c && c <= '9')
}

fn is_digit_exec(c: char) -> (r: bool)
    ensures
        r == is_digit(c),
{
    '0' <= c && c <= '9'
}

/// Length of the punctuator that starts at `i`: three for `...`, `<<=`
/// and `>>=`, two for the two-character operators, else one.
pub open spec fn punct_len_spec(s: Seq<char>, i: int) -> int {
    let c = s[i];
    if s.len() - i > 2 && ((c == '.' && s[i + 1] == '.' && s[i + 2] == '.')
        || (c == '<' && s[i + 1] == '<' && s[i + 2] == '=') || (c == '>' && s[i + 1] == '>' && s[i + 2] == '=')) {
        3
    } else if s.len() - i > 1 && {
        let d = s[i + 1];
        (c == '-' && (d == '>' || d == '-' || d == '='))
            || (c == '+' && (d == '+' || d == '='))
            || (c == '<' && (d == '<' || d == '='))
            || (c == '>' && (d == '>' || d == '='))
            || (c == '=' && d == '=')
            || (c == '!' && d == '=')
            || (c == '&' && (d == '&' || d == '='))
            || (c == '|' && (d == '|' || d == '='))
            || ((c == '*' || c == '/' || c == '%' || c == '^') && d == '=')
            || (c == ':' && d == ':')
    } {
        2
    } else {
        1
    }
}

/// Length (1 to 3) of the punctuator that starts at `i`.
fn punct_len(src: &Vec<char>, i: usize) -> (len: usize)
    requires
        i < src@.len(),
    ensures
        1 <= len <= 3,
        i + len <= src@.len(),
        len == punct_len_spec(src@, i as int),
{
    let n = src.len();
    let c = src[i];
    if n - i > 2 {
        let d = src[i + 1];
        let e = src[i + 2];
        if (c == '.' && d == '.' && e == '.') || (c == '<' && d == '<' && e == '=')
            || (c == '>' && d == '>' && e == '=') {
            return 3;
        }
    }
    if n - i > 1 {
        let d = src[i + 1];
        if (c == '-' && (d == '>' || d == '-' || d == '='))
            || (c == '+' && (d == '+' || d == '='))
            || (c == '<' && (d == '<' || d == '='))
            || (c == '>' && (d == '>' || d == '='))
            || (c == '=' && d == '=')
            || (c == '!' && d == '=')
            || (c == '&' && (d == '&' || d == '='))
            || (c == '|' && (d == '|' || d == '='))
            || ((c == '*' || c == '/' || c == '%' || c == '^') && d == '=')
            || (c == ':' && d == ':') {
            return 2;
        }
    }
    1
}

/// Newline characters of `s` from position `i` on.
pub open spec fn newlines_from(s: Seq<char>, i: int) -> nat
    decreases s.len() - i,
{
    if 0 <= i < s.len() {
        (if s[i] == '\n' { 1nat } else { 0nat }) + newlines_from(s, i + 1)
    } else {
        0
    }
}

/// Newline tokens among kind views.
pub open spec fn newline_count(vs: Seq<(int, Seq<char>)>) -> nat
    decreases vs.len(),
{
    if vs.len() == 0 {
        0
    } else {
        (if vs[0].0 == 6 { 1nat } else { 0nat }) + newline_count(vs.drop_first())
    }
}

/// No `/*` occurs in `s`.
pub open spec fn no_block_comment(s: Seq<char>) -> bool {
    forall|j: int| 0 <= j && j + 1 < s.len() ==> !(#[trigger] s[j] == '/' && s[j + 1] == '*')
}

/// No newline lies in `s[a..b]`.
pub open spec fn no_newline_in(s: Seq<char>, a: int, b: int) -> bool {
    forall|k: int| a <= k < b ==> #[trigger] s[k] != '\n'
}

proof fn lemma_newlines_skip(s: Seq<char>, a: int, b: int)
    requires
        0 <= a <= b <= s.len(),
        no_newline_in(s, a, b),
    ensures
        newlines_from(s, a) == newlines_from(s, b),
    decreases b - a,
{
    if a < b {
        assert(s[a] != '\n');
        lemma_newlines_skip(s, a + 1, b);
    }
}

proof fn lemma_newline_count_cons(v: (int, Seq<char>), rest: Seq<(int, Seq<char>)>)
    ensures
        newline_count(seq![v] + rest) == (if v.0 == 6 { 1nat } else { 0nat }) + newline_count(rest),
{
    assert((seq![v] + rest)[0] == v);
    assert((seq![v] + rest).drop_first() =~= rest);
}

proof fn lemma_line_end(s: Seq<char>, j: int)
    requires
        0 <= j <= s.len(),
    ensures
        j <= line_end_from(s, j) <= s.len(),
        no_newline_in(s, j, line_end_from(s, j)),
    decreases s.len() - j,
{
    if j < s.len() && s[j] != '\n' {
        lemma_line_end(s, j + 1);
    }
}

proof fn lemma_ident_end(s: Seq<char>, j: int)
    requires
        0 <= j <= s.len(),
    ensures
        j <= ident_end_from(s, j) <= s.len(),
        no_newline_in(s, j, ident_end_from(s, j)),
    decreases s.len() - j,
{
    if j < s.len() && ident_char(s[j]) {
        lemma_ident_end(s, j + 1);
    }
}

proof fn lemma_number_end(s: Seq<char>, j: int)
    requires
        1 <= j <= s.len(),
    ensures
        j <= number_end_from(s, j) <= s.len(),
        no_newline_in(s, j, number_end_from(s, j)),
    decreases s.len() - j,
{
    if j < s.len() && number_char_at(s, j) {
        lemma_number_end(s, j + 1);
    }
}

proof fn lemma_quote_end(s: Seq<char>, j: int, q: char)
    requires
        0 <= j <= s.len(),
    ensures
        j <= quote_end(s, j, q) <= s.len(),
        no_newline_in(s, j, quote_end(s, j, q)),
    decreases s.len() - j,
{
    if 0 <= j < s.len() && s[j] != q && s[j] != '\n' {
        if s[j] == '\\' && j + 1 < s.len() && s[j + 1] != '\n' {
            lemma_quote_end(s, j + 2, q);
        } else {
            lemma_quote_end(s, j + 1, q);
        }
    }
}

/// Outside block comments, every newline of the source is a newline
/// token: a source with no `/*` lexes into exactly as many newline tokens
/// as it has newline characters (a `//` comment ends before its newline,
/// and a literal stops at the line's end).
pub proof fn lemma_newline_tokens(s: Seq<char>, i: int)
    requires
        0 <= i <= s.len(),
        no_block_comment(s),
    ensures
        newline_count(lex_views(s, i)) == newlines_from(s, i),
    decreases s.len() - i,
{
    if i >= s.len() {
        assert(lex_views(s, i).len() == 0);
        assert(newlines_from(s, i) == 0);
    } else {
        let c = s[i];
        if c == '\n' {
            lemma_newline_tokens(s, i + 1);
            lemma_newline_count_cons((6int, Seq::<char>::empty()), lex_views(s, i + 1));
            assert(lex_views(s, i) == seq![(6int, Seq::<char>::empty())] + lex_views(s, i + 1));
        } else if lex_blank(c) {
            lemma_newline_tokens(s, i + 1);
            assert(lex_views(s, i) == lex_views(s, i + 1));
        } else if c == '/' && i + 1 < s.len() && s[i + 1] == '/' {
            lemma_line_end(s, i + 2);
            let e = line_end_from(s, i + 2);
            lemma_newline_tokens(s, e);
            assert(no_newline_in(s, i, e)) by {
                assert forall|k: int| i <= k < e implies #[trigger] s[k] != '\n' by {
                    if k >= i + 2 {
                        assert(no_newline_in(s, i + 2, e));
                    }
                }
            }
            lemma_newlines_skip(s, i, e);
            assert(lex_views(s, i) == lex_views(s, e));
        } else if c == '/' && i + 1 < s.len() && s[i + 1] == '*' {
            assert(!(s[i] == '/' && s[i + 1] == '*'));
        } else if ident_start(c) {
            lemma_ident_end(s, i + 1);
            let e = ident_end_from(s, i + 1);
            lemma_newline_tokens(s, e);
            assert(no_newline_in(s, i, e)) by {
                assert forall|k: int| i <= k < e implies #[trigger] s[k] != '\n' by {
                    if k > i {
                        assert(no_newline_in(s, i + 1, e));
                    }
                }
            }
            lemma_newlines_skip(s, i, e);
            lemma_newline_count_cons((0int, s.subrange(i, e)), lex_views(s, e));
            assert(lex_views(s, i) == seq![(0int, s.subrange(i, e))] + lex_views(s, e));
        } else if is_digit(c) || (c == '.' && i + 1 < s.len() && is_digit(s[i + 1])) {
            lemma_number_end(s, i + 1);
            let e = number_end_from(s, i + 1);
            lemma_newline_tokens(s, e);
            assert(no_newline_in(s, i, e)) by {
                assert forall|k: int| i <= k < e implies #[trigger] s[k] != '\n' by {
                    if k > i {
                        assert(no_newline_in(s, i + 1, e));
                    }
                }
            }
            lemma_newlines_skip(s, i, e);
            lemma_newline_count_cons((1int, s.subrange(i, e)), lex_views(s, e));
            assert(lex_views(s, i) == seq![(1int, s.subrange(i, e))] + lex_views(s, e));
        } else if c == '"' || c == '\'' {
            lemma_quote_end(s, i + 1, c);
            let qe = quote_end(s, i + 1, c);
            let e = past_quote(s, qe, c);
            assert(no_newline_in(s, i, e)) by {
                assert forall|k: int| i <= k < e implies #[trigger] s[k] != '\n' by {
                    if k > i && k < qe {
                        assert(no_newline_in(s, i + 1, qe));
                    }
                }
            }
            lemma_newline_tokens(s, e);
            lemma_newlines_skip(s, i, e);
            let v = (if c == '"' { 2int } else { 3int }, quote_body(s, i + 1, c));
            lemma_newline_count_cons(v, lex_views(s, e));
            assert(lex_views(s, i) == seq![v] + lex_views(s, e));
        } else if c == '#' {
            if i + 1 < s.len() && s[i + 1] == '#' {
                lemma_newline_tokens(s, i + 2);
                lemma_newlines_skip(s, i, i + 2);
                lemma_newline_count_cons((4int, seq!['#', '#']), lex_views(s, i + 2));
                assert(lex_views(s, i) == seq![(4int, seq!['#', '#'])] + lex_views(s, i + 2));
            } else {
                lemma_newline_tokens(s, i + 1);
                lemma_newline_count_cons((5int, Seq::<char>::empty()), lex_views(s, i + 1));
                assert(lex_views(s, i) == seq![(5int, Seq::<char>::empty())] + lex_views(s, i + 1));
            }
        } else {
            let e = i + punct_len_spec(s, i);
            assert(i < e <= s.len());
            assert(no_newline_in(s, i, e));
            lemma_newline_tokens(s, e);
            lemma_newlines_skip(s, i, e);
            lemma_newline_count_cons((4int, s.subrange(i, e)), lex_views(s, e));
            assert(lex_views(s, i) == seq![(4int, s.subrange(i, e))] + lex_views(s, e));
        }
    }
}

/// Counting newlines from the front or from the back gives the same.
proof fn lemma_newlines_from_count(s: Seq<char>)
    ensures
        newlines_from(s, 0) == count_newlines(s),
    decreases s.len(),
{
    if s.len() > 0 {
        let p = s.drop_last();
        lemma_newlines_from_count(p);
        lemma_newlines_drop_last(s, 0);
    }
}

proof fn lemma_newlines_drop_last(s: Seq<char>, i: int)
    requires
        s.len() > 0,
        0 <= i <= s.len() - 1,
    ensures
        newlines_from(s, i) == newlines_from(s.drop_last(), i) + (if s.last() == '\n' { 1nat } else { 0nat }),
    decreases s.len() - i,
{
    if i < s.len() - 1 {
        lemma_newlines_drop_last(s, i + 1);
        assert(s.drop_last()[i] == s[i]);
    } else {
        assert(newlines_from(s, i + 1) == 0);
        assert(newlines_from(s.drop_last(), i) == 0);
    }
}

/// A source with no `/*` lexes into as many newline tokens as it has
/// newline characters.
pub proof fn lemma_newline_tokens_count(s: Seq<char>)
    requires
        no_block_comment(s),
    ensures
        newline_count(lex_views(s, 0)) == count_newlines(s),
{
    lemma_newline_tokens(s, 0);
    lemma_newlines_from_count(s);
}

} // verus!
