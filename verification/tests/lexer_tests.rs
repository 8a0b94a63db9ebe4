use trace::lexer::{Token, TokenKind};
use trace::preprocessor::apply_concatenation;
use trace::macros::replacement_tokens;

#[test]
fn replacement_tokens_start_at_first_column() {
    let toks = replacement_tokens("foo + 1");
    assert_eq!(toks.len(), 3);
    assert_eq!((toks[0].line, toks[0].col), (1, 1));
    assert!(matches!(&toks[0].kind, TokenKind::Identifier(s) if s == &vec!['f', 'o', 'o']));
    assert!(matches!(&toks[1].kind, TokenKind::Punct(s) if s == &vec!['+']));
    assert!(matches!(&toks[2].kind, TokenKind::Number(s) if s == &vec!['1']));
    assert_eq!(toks[2].col, 7);
}

#[test]
fn replacement_tokens_drop_end_of_input() {
    assert!(replacement_tokens("").is_empty());
    assert!(replacement_tokens("  /* only a comment */ ").is_empty());
    let toks = replacement_tokens("##x");
    assert!(matches!(&toks[0].kind, TokenKind::Punct(s) if s == &vec!['#', '#']));
    assert!(toks.iter().all(|t| !matches!(t.kind, TokenKind::Eof)));
}

#[test]
fn replacement_tokens_first_newline_and_string() {
    let toks = replacement_tokens("\n\"s\"");
    assert!(matches!(toks[0].kind, TokenKind::Newline));
    assert!(matches!(&toks[1].kind, TokenKind::String(s) if s == &vec!['s']));
    assert_eq!((toks[1].line, toks[1].col), (2, 1));
}

#[test]
fn chained_paste_spells_all_operands() {
    let t = |k: TokenKind| Token::new(k, 1, 1);
    let tokens = vec![
        t(TokenKind::Identifier(vec!['a'])),
        t(TokenKind::Punct(vec!['#', '#'])),
        t(TokenKind::Identifier(vec!['b'])),
        t(TokenKind::Punct(vec!['#', '#'])),
        t(TokenKind::Identifier(vec!['c'])),
    ];
    let r = apply_concatenation(tokens);
    assert_eq!(r.len(), 1);
    assert!(matches!(&r[0].kind, TokenKind::Identifier(s) if s == &vec!['a', 'b', 'c']));
}

#[test]
fn concatenation_without_paste_keeps_every_token() {
    let mut toks = replacement_tokens("a + b");
    toks[0].hidden.push(vec!['M']);
    let out = apply_concatenation(toks.clone());
    assert_eq!(out.len(), toks.len());
    for (o, t) in out.iter().zip(toks.iter()) {
        assert_eq!((o.line, o.col), (t.line, t.col));
        assert_eq!(o.hidden, t.hidden);
        assert_eq!(format!("{:?}", o.kind), format!("{:?}", t.kind));
    }
}

#[test]
fn duplicated_tokens_keep_positions_and_hide_sets() {
    let mut toks = replacement_tokens("x y");
    toks[1].hidden.push(vec!['N']);
    let copy = trace::macros::duplicate_tokens(&toks);
    assert_eq!(copy.len(), 2);
    assert_eq!((copy[1].line, copy[1].col), (toks[1].line, toks[1].col));
    assert_eq!(copy[1].hidden, vec![vec!['N']]);
}

#[test]
fn lexer_splits_names_numbers_literals_and_punctuators() {
    let toks = trace::lexer::Lexer::new("a1 += 0x1F \"s\\\"t\" 'c' ... /* x */ #").tokenize();
    let kinds: Vec<String> = toks.iter().map(|t| format!("{:?}", t.kind)).collect();
    assert_eq!(kinds.len(), 8, "{:?}", kinds);
    assert!(matches!(&toks[0].kind, TokenKind::Identifier(s) if s == &vec!['a', '1']));
    assert!(matches!(&toks[1].kind, TokenKind::Punct(s) if s == &vec!['+', '=']));
    assert!(matches!(&toks[2].kind, TokenKind::Number(s) if s == &vec!['0', 'x', '1', 'F']));
    assert!(matches!(&toks[3].kind, TokenKind::String(s) if s == &vec!['s', '\\', '"', 't']));
    assert!(matches!(&toks[4].kind, TokenKind::Char(s) if s == &vec!['c']));
    assert!(matches!(&toks[5].kind, TokenKind::Punct(s) if s == &vec!['.', '.', '.']));
    assert!(matches!(toks[6].kind, TokenKind::Hash));
    assert!(matches!(toks[7].kind, TokenKind::Eof));
}
