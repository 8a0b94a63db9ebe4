use trace::options::PreprocessOptions;
use trace::preprocessor::{preprocess_file, preprocess_string, PreprocessError};

#[test]
fn expands_function_like_macro() {
    let src = "#define SQUARE(x) ((x) * (x))\nint y = SQUARE(n);\n";
    let result = preprocess_string(src, "t.c", &PreprocessOptions::new());
    assert!(
        result.output.contains("((n") && result.output.contains("*"),
        "{}",
        result.output
    );
    assert!(!result.output.contains("SQUARE"));
}

#[test]
fn expands_function_like_field_macro() {
    let src = "#define FIELD_P(o) ((o)->inner.p)\nFIELD_P(obj);\n";
    let result = preprocess_string(src, "t.c", &PreprocessOptions::new());
    assert!(
        result.output.contains("inner") && result.output.contains("obj"),
        "{}",
        result.output
    );
    assert!(!result.output.contains("FIELD_P"));
}

#[test]
fn expands_token_paste_concat() {
    let src = "#define CAT(a,b) a ## b\nint CAT(x, y);\n";
    let result = preprocess_string(src, "t.c", &PreprocessOptions::new());
    assert!(
        result.output.contains("xy") || result.output.contains("x y"),
        "{}",
        result.output
    );
    assert!(!result.output.contains("CAT"));
}

#[test]
fn expands_object_macro() {
    let opts = PreprocessOptions::new().with_define("NULL", "0");
    let result = preprocess_string("int *p = NULL;", "test.c", &opts);
    assert!(result.output.contains("int") && result.output.contains("0"));
    assert!(!result.output.contains("NULL"));
}

#[test]
fn preproc_if0_skips_define_in_dead_branch() {
    let src = "#if 0\n#define HIDDEN 42\n#endif\nint x = 1;\n";
    let result = preprocess_string(src, "t.c", &PreprocessOptions::new());
    assert!(!result.output.contains("42"));
    assert!(result.output.contains("x = 1") || result.output.contains("int x"));
}

#[test]
fn handles_ifdef() {
    let opts = PreprocessOptions::new().with_define("FEATURE", "1");
    let src = "#ifdef FEATURE\nint x;\n#else\nint y;\n#endif\n";
    let result = preprocess_string(src, "test.c", &opts);
    assert!(result.output.contains("int x") || result.output.contains("int  x"));
    assert!(!result.output.contains("int y"));
}

#[test]
fn if_macro_value_expands_in_condition() {
    let src = "#define OUTER 1\n#if OUTER\nint on;\n#else\nint off;\n#endif\n";
    let result = preprocess_string(src, "t.c", &PreprocessOptions::new());
    assert!(result.output.contains("on"), "{}", result.output);
    assert!(!result.output.contains("off"), "{}", result.output);
}

#[test]
fn self_referential_object_macro_is_not_reexpanded() {
    let src = "\
#define PRIVATE_MESSAGE_TYPE \\\n\
        PRIVATE_MESSAGE_TYPE, \\\n\
        ENGINE_UPLOAD_READY_MSG\n\
enum { PRIVATE_MESSAGE_TYPE };\n";
    let result = preprocess_string(src, "t.c", &PreprocessOptions::new());
    assert!(
        result.output.contains("PRIVATE_MESSAGE_TYPE")
            && result.output.contains("ENGINE_UPLOAD_READY_MSG"),
        "{}",
        result.output
    );
    assert!(
        !result
            .diagnostics
            .iter()
            .any(|d| d.message.contains("expansion depth exceeded")),
        "{:?}",
        result.diagnostics
    );
}

#[test]
fn mutual_object_macros_terminate() {
    let src = "#define A B+B\n#define B A\nint x = A;\n";
    let result = preprocess_string(src, "t.c", &PreprocessOptions::new());
    let compact: String = result
        .output
        .chars()
        .filter(|c| !c.is_whitespace())
        .collect();
    assert!(
        compact.contains("A+A") || compact.contains("x=A+A"),
        "{}",
        result.output
    );
    assert!(
        !result
            .diagnostics
            .iter()
            .any(|d| d.message.contains("expansion depth exceeded")),
        "{:?}",
        result.diagnostics
    );
}

#[test]
fn nested_same_function_macro_still_expands() {
    let src = "#define MIN(a, b) ((a) < (b) ? (a) : (b))\nint x = MIN(MIN(1, 2), 3);\n";
    let result = preprocess_string(src, "t.c", &PreprocessOptions::new());
    assert!(
        !result.output.contains("MIN"),
        "nested MIN must fully expand: {}",
        result.output
    );
    assert!(
        result.output.contains("1") && result.output.contains("3"),
        "{}",
        result.output
    );
}

#[test]
fn self_referential_function_macro_terminates() {
    let src = "#define F(x) F(x)\nint y = F(1);\n";
    let result = preprocess_string(src, "t.c", &PreprocessOptions::new());
    assert!(
        result.output.contains("F") && result.output.contains("1"),
        "{}",
        result.output
    );
    assert!(
        !result
            .diagnostics
            .iter()
            .any(|d| d.message.contains("expansion depth exceeded")),
        "{:?}",
        result.diagnostics
    );
}

#[test]
fn object_macro_with_parenthesized_value() {
    let src = "#define START (-100)\nint x = START;\n";
    let result = preprocess_string(src, "t.c", &PreprocessOptions::new());
    assert!(
        result.output.contains("(-100)")
            || result.output.contains("-100")
            || result.output.contains("- 100"),
        "{}",
        result.output
    );
    assert!(!result.output.contains("START"));
}

#[test]
fn variadic_macro_empty_args_strips_hash_hash() {
    let src = "#define WRAP(fmt, arg...) BASE(fmt, ##arg)\nWRAP(\"x\");\n";
    let result = preprocess_string(src, "t.c", &PreprocessOptions::new());
    assert!(
        result.output.contains("BASE") && result.output.contains("\"x\""),
        "{}",
        result.output
    );
    assert!(
        !result.output.contains(", ,"),
        "should not leave dangling comma: {}",
        result.output
    );
}

#[test]
fn enum_body_define_does_not_break_preproc() {
    let src = "typedef enum {\n    A = 1,\n#define OFF (-100)\n    B = OFF,\n} E;\n";
    let result = preprocess_string(src, "t.c", &PreprocessOptions::new());
    assert!(!result
        .diagnostics
        .iter()
        .any(|d| { d.message.contains("expected identifier in directive") }));
}

#[test]
fn include_expands_header_once_from_source_set() {
    let opts = PreprocessOptions::new()
        .with_source("/p/main.c", "#include \"a.h\"\n#include \"a.h\"\nint main_fn;\n")
        .with_source("/p/a.h", "int from_header;\n");
    let result = preprocess_file("/p/main.c", &opts).unwrap();
    assert_eq!(result.output.matches("from_header").count(), 1, "{}", result.output);
    assert!(result.output.contains("main_fn"));
}

#[test]
fn include_resolves_through_include_path() {
    let opts = PreprocessOptions::new()
        .with_include("/inc")
        .with_source("/p/main.c", "#include <lib.h>\nint x = LIBVAL;\n")
        .with_source("/inc/lib.h", "#define LIBVAL 7\n");
    let result = preprocess_file("/p/main.c", &opts).unwrap();
    assert!(result.output.contains("x= 7"), "{}", result.output);
}

#[test]
fn missing_include_warns_and_continues() {
    let opts = PreprocessOptions::new().with_source("/p/m.c", "#include \"nope.h\"\nint kept;\n");
    let result = preprocess_file("/p/m.c", &opts).unwrap();
    assert!(result.output.contains("kept"));
    assert!(result
        .diagnostics
        .iter()
        .any(|d| d.message.contains("include file not found, skipping: nope.h")));
}

#[test]
fn missing_file_is_an_io_error() {
    let opts = PreprocessOptions::new();
    match preprocess_file("/nowhere.c", &opts) {
        Err(PreprocessError::Io { path }) => assert_eq!(path.iter().collect::<String>(), "/nowhere.c"),
        _ => panic!("expected an io error"),
    }
}

#[test]
fn empty_source_gives_empty_output() {
    let result = preprocess_string("", "t.c", &PreprocessOptions::new());
    assert_eq!(result.output, "");
}

#[test]
fn endif_without_if_is_reported() {
    let result = preprocess_string("#endif\nint z;\n", "t.c", &PreprocessOptions::new());
    assert!(result.diagnostics.iter().any(|d| d.message.contains("#endif without #if")));
}

#[test]
fn elif_chooses_first_true_branch() {
    let src = "#if 0\nint a;\n#elif 1\nint b;\n#else\nint c;\n#endif\n";
    let result = preprocess_string(src, "t.c", &PreprocessOptions::new());
    assert!(result.output.contains("int b"), "{}", result.output);
    assert!(!result.output.contains("int a") && !result.output.contains("int c"), "{}", result.output);
}

#[test]
fn line_and_file_builtins() {
    let result = preprocess_string("\n\nint l = __LINE__;\nchar *f = __FILE__;\n", "t.c", &PreprocessOptions::new());
    assert!(result.output.contains("l=3"), "{}", result.output);
    assert!(result.output.contains("\"t.c\""), "{}", result.output);
}

#[test]
fn defined_operator_in_condition() {
    let opts = PreprocessOptions::new().with_define("HAVE_X", "1");
    let src = "#define FN_MACRO() 1\n#if defined(FN_MACRO)\nint yes;\n#endif\n#if defined(HAVE_Y)\nint no;\n#endif\n#if HAVE_X && 1\nint both;\n#endif\n";
    let result = preprocess_string(src, "t.c", &opts);
    assert!(result.output.contains("yes"), "{}", result.output);
    assert!(!result.output.contains("no"), "{}", result.output);
    assert!(result.output.contains("both"), "{}", result.output);
}

#[test]
fn undef_removes_a_definition() {
    let src = "#define GONE 1\n#undef GONE\n#ifdef GONE\nint present;\n#endif\nint after = GONE;\n";
    let result = preprocess_string(src, "t.c", &PreprocessOptions::new());
    assert!(!result.output.contains("present"), "{}", result.output);
    assert!(result.output.contains("GONE"), "{}", result.output);
}

#[test]
fn ifndef_takes_the_branch_of_an_undefined_name() {
    let src = "#ifndef MISSING\nint taken;\n#else\nint skipped;\n#endif\n";
    let result = preprocess_string(src, "t.c", &PreprocessOptions::new());
    assert!(result.output.contains("taken"), "{}", result.output);
    assert!(!result.output.contains("skipped"), "{}", result.output);
}

#[test]
fn else_without_if_stops_with_an_error() {
    let result = preprocess_string("#else\nint z;\n", "t.c", &PreprocessOptions::new());
    assert!(result.diagnostics.iter().any(|d| d.message.contains("#else without #if")));
    assert!(result.diagnostics.iter().any(|d| d.message.contains("preprocess stopped")));
}

#[test]
fn include_paths_are_searched_in_order() {
    let opts = PreprocessOptions::new()
        .with_include("/first")
        .with_include("/second")
        .with_source("/p/main.c", "#include \"cfg.h\"\nint v = CFG;\n")
        .with_source("/first/cfg.h", "#define CFG 1\n")
        .with_source("/second/cfg.h", "#define CFG 2\n");
    let result = preprocess_file("/p/main.c", &opts).unwrap();
    assert!(result.output.contains("v= 1"), "{}", result.output);
}

#[test]
fn file_beside_the_includer_wins_over_include_paths() {
    let opts = PreprocessOptions::new()
        .with_include("/inc")
        .with_source("/p/main.c", "#include \"cfg.h\"\nint v = CFG;\n")
        .with_source("/p/cfg.h", "#define CFG 3\n")
        .with_source("/inc/cfg.h", "#define CFG 4\n");
    let result = preprocess_file("/p/main.c", &opts).unwrap();
    assert!(result.output.contains("v= 3"), "{}", result.output);
}

#[test]
fn line_map_offsets_are_byte_offsets_in_order() {
    let src = "char *s = \"\u{e9}t\u{e9}\";\nint x;\n";
    let result = preprocess_string(src, "t.c", &PreprocessOptions::new());
    let entries = &result.line_map.entries;
    assert!(!entries.is_empty());
    for w in entries.windows(2) {
        assert!(w[0].output_offset <= w[1].output_offset);
    }
    for e in entries {
        assert!(e.output_offset <= result.output.len());
        assert!(result.output.is_char_boundary(e.output_offset));
    }
    let second = entries.iter().find(|e| e.line == 2).expect("entry on line 2");
    assert!(result.output[second.output_offset..].starts_with("int"), "{}", result.output);
}

#[test]
fn plain_text_is_written_token_by_token() {
    let result = preprocess_string("int a = b + c;\n", "t.c", &PreprocessOptions::new());
    assert_eq!(result.output, "int a= b+ c ;\n");
    assert!(result.diagnostics.is_empty());
}

#[test]
fn text_without_directives_or_names_is_written_as_read() {
    let result = preprocess_string("1 + 2;\n\"s\"", "t.c", &PreprocessOptions::new());
    assert!(result.diagnostics.is_empty());
    assert!(result.output.starts_with('1'));
    assert!(result.output.contains("\"s\""));
}

fn pp(src: &str) -> trace::preprocessor::PreprocessResult {
    preprocess_string(src, "t.c", &PreprocessOptions::new())
}

#[test]
fn else_after_taken_branch_is_skipped() {
    let r = pp("#if 1\nA\n#elif 0\nB\n#else\nC\n#endif\n");
    assert!(r.output.contains('A'));
    assert!(!r.output.contains('B'));
    assert!(!r.output.contains('C'));
    let r = pp("#if 0\nA\n#elif 1\nB\n#else\nC\n#endif\n");
    assert!(!r.output.contains('A') && r.output.contains('B') && !r.output.contains('C'));
    let r = pp("#if 0\nA\n#elif 0\nB\n#else\nC\n#endif\n");
    assert!(!r.output.contains('A') && !r.output.contains('B') && r.output.contains('C'));
}

#[test]
fn chained_paste_in_macro_body() {
    let r = pp("#define CAT3(a,b,c) a ## b ## c\nCAT3(x, y, z)\n");
    assert!(r.output.contains("xyz"), "{}", r.output);
}

#[test]
fn unknown_directive_warns_and_skips_one_line() {
    let r = pp("#pragma once\nint kept;\n");
    assert!(r.output.contains("kept"), "{}", r.output);
    assert!(r.diagnostics.iter().any(|d| d.severity == trace::preprocessor::DiagnosticSeverity::Warning));
}

#[test]
fn define_with_space_before_paren_is_object_like() {
    let r = pp("#define N 3\n#define W (N)\nint a = W;\n");
    assert!(r.output.contains("(3") && !r.output.contains('W'), "{}", r.output);
    let r = pp("#define F(x) x\nint b = F(4);\n");
    assert!(r.output.contains('4') && !r.output.contains('F'), "{}", r.output);
}

#[test]
fn missing_include_is_an_error() {
    let r = pp("#include \"absent.h\"\nint x;\n");
    assert!(r.diagnostics.iter().any(|d| d.severity == trace::preprocessor::DiagnosticSeverity::Error));
    assert!(r.output.contains('x'));
}

#[test]
fn unterminated_if_is_an_error_at_end() {
    let r = pp("#if 1\nint x;\n");
    assert!(r.diagnostics.iter().any(|d| d.severity == trace::preprocessor::DiagnosticSeverity::Error));
    let r = pp("#if 1\nint x;\n#endif\n");
    assert!(r.diagnostics.is_empty());
}

// The fixture texts below stand in the source cache under the fixture's
// path, so `preprocess_file` reads them as it reads a file of the tree.

fn fixture(path: &str, text: &str, opts: PreprocessOptions) -> String {
    let opts = opts.with_source(path, text);
    preprocess_file(path, &opts).unwrap().output
}

const IFDEF_C: &str = "#ifdef FEATURE\nint enabled = FEATURE;\n#endif\n";

const IF_ELSE_C: &str = "#define FEATURE 1\n#if FEATURE\nint active;\n#else\nint dead;\n#endif\n#if !FEATURE\nint also_dead;\n#else\nint also_active;\n#endif\n";

const NESTED_IF_C: &str = "#define OUTER 1\n#define INNER 0\n#if OUTER\nint outer_on;\n#if INNER\nint inner_on;\n#else\nint inner_off;\n#endif\n#else\nint outer_off;\n#endif\n";

const IFNDEF_ELSE_C: &str = "#ifndef GUARD\n#define GUARD\nint guarded;\n#else\nint unguarded;\n#endif\n#ifdef GUARD\nint present;\n#else\nint missing;\n#endif\n";

const SELF_REF_MACRO_C: &str = "#define MIN(a, b) ((a) < (b) ? (a) : (b))\n#define PRIVATE_MESSAGE_TYPE \\\n        PRIVATE_MESSAGE_TYPE, \\\n        ENGINE_UPLOAD_READY_MSG\nenum { PRIVATE_MESSAGE_TYPE };\nint limit = MIN(MIN(1, 2), 3);\n";

const NESTED_FN_MACRO_C: &str = "#define WRAP(x) status_##x\n#define SHARED WRAP(Node)\nint SHARED;\nint done;\n";

#[test]
fn handles_ifdef_file() {
    let output = fixture("fixtures/preproc/ifdef.c", IFDEF_C, PreprocessOptions::new().with_define("FEATURE", "1"));
    assert!(output.contains("enabled") && output.contains("1"), "output was: {}", output);
}

#[test]
fn if_else_selects_active_branch_only() {
    let output = fixture("fixtures/preproc/if_else.c", IF_ELSE_C, PreprocessOptions::new());
    assert!(output.contains("active"), "expected #if FEATURE branch, got: {}", output);
    assert!(!output.contains("dead"), "dead branch must not appear: {}", output);
    assert!(!output.contains("also_dead"), "inverse branch must not appear: {}", output);
    assert!(output.contains("also_active"), "expected #else after !FEATURE, got: {}", output);
}

#[test]
fn nested_if_respects_inner_else() {
    let output = fixture("fixtures/preproc/nested_if.c", NESTED_IF_C, PreprocessOptions::new());
    assert!(output.contains("outer_on"), "{}", output);
    assert!(!output.contains("inner_on"), "{}", output);
    assert!(output.contains("inner_off"), "{}", output);
    assert!(!output.contains("outer_off"), "{}", output);
}

#[test]
fn ifndef_and_else_inverse() {
    let output = fixture("fixtures/preproc/ifndef_else.c", IFNDEF_ELSE_C, PreprocessOptions::new());
    assert!(output.contains("guarded"), "{}", output);
    assert!(!output.contains("unguarded"), "{}", output);
    assert!(output.contains("present"), "{}", output);
    assert!(!output.contains("missing"), "{}", output);
}

#[test]
fn self_ref_macro_fixture() {
    let output = fixture("fixtures/preproc/self_ref_macro.c", SELF_REF_MACRO_C, PreprocessOptions::new());
    assert!(output.contains("PRIVATE_MESSAGE_TYPE") && output.contains("ENGINE_UPLOAD_READY_MSG"), "{}", output);
    assert!(!output.contains("MIN"), "nested MIN leaked: {}", output);
}

#[test]
fn function_macro_inside_object_expansion_expands() {
    let output = fixture("fixtures/preproc/nested_fn_macro.c", NESTED_FN_MACRO_C, PreprocessOptions::new());
    assert!(!output.contains("WRAP") && !output.contains("SHARED"), "macro invocations leaked verbatim: {}", output);
    assert!(output.contains("status_Node"), "{}", output);
    assert!(output.contains("done"), "{}", output);
}

#[test]
fn unknown_directive_warning_names_the_directive() {
    let result = preprocess_string("#frob x\nint a;\n", "t.c", &PreprocessOptions::new());
    assert!(result.diagnostics.iter().any(|d| d.message == "unknown directive #frob"), "{:?}", result.diagnostics);
    assert!(result.output.contains("int a"), "{}", result.output);
}

#[test]
fn plain_source_is_written_token_by_token_without_comments() {
    let result = preprocess_string("x /* gone */ y // also gone\nz\n", "t.c", &PreprocessOptions::new());
    assert!(result.diagnostics.is_empty(), "{:?}", result.diagnostics);
    assert!(!result.output.contains("gone"), "{}", result.output);
    let words: Vec<&str> = result.output.split_whitespace().collect();
    assert_eq!(words, vec!["x", "y", "z"]);
}

#[test]
fn plain_file_is_written_token_by_token() {
    let opts = PreprocessOptions::new().with_source("/p/a.c", "int a = 1; // note\n");
    let result = preprocess_file("/p/a.c", &opts).unwrap();
    assert!(result.diagnostics.is_empty(), "{:?}", result.diagnostics);
    assert!(!result.output.contains("note"), "{}", result.output);
    assert!(result.output.contains('a') && result.output.contains('1'), "{}", result.output);
}

#[test]
fn plain_included_file_is_written_where_it_is_included() {
    let opts = PreprocessOptions::new()
        .with_source("/q/main.c", "#include \"h.h\"\nint after;\n")
        .with_source("/q/h.h", "int from_h; // c\n");
    let result = preprocess_file("/q/main.c", &opts).unwrap();
    let h = result.output.find("from_h").expect("included text");
    let m = result.output.find("after").expect("own text");
    assert!(h < m, "{}", result.output);
    assert!(!result.output.contains("// c"), "{}", result.output);
}
