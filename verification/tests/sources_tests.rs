use trace::discover::{discover_c_files, discover_header_files, WalkEntry};
use trace::index_cache::{should_preprocess, IncludeGraph, IndexSourceCache};
use trace::line_map::LineMap;
use trace::options::{PreprocessOptions, SourceFile};

fn entry(path: &str, is_file: bool) -> WalkEntry {
    WalkEntry { path: path.to_string(), is_file }
}

fn chars(s: &str) -> Vec<char> {
    s.chars().collect()
}

#[test]
fn should_preprocess_uses_effective_include_paths() {
    let path = "/proj/main.c";
    let mut graph = IncludeGraph { root: "/proj".to_string(), ..Default::default() };
    graph.needs_preprocess.push(path.to_string());

    let empty = PreprocessOptions::default();
    assert!(should_preprocess(path, &empty, &graph));

    let with_include = PreprocessOptions::default().with_include("/proj/include");
    assert!(should_preprocess(path, &with_include, &graph));
}

#[test]
fn get_or_preprocess_falls_back_when_file_missing() {
    let mut cache = IndexSourceCache::new();
    let graph = IncludeGraph { root: "/nonexistent".to_string(), ..Default::default() };
    let opts = PreprocessOptions::default();
    let missing = "/nonexistent/definitely_missing_trace_file.c";
    assert!(cache.get_or_preprocess(missing, &graph, &opts).is_err());
}

#[test]
fn unmarked_file_without_options_is_not_preprocessed() {
    let graph = IncludeGraph::default();
    assert!(!should_preprocess("/proj/a.c", &PreprocessOptions::default(), &graph));
    assert!(should_preprocess("/proj/a.c", &PreprocessOptions::default().with_define("X", "1"), &graph));
}

#[test]
fn raw_text_comes_from_the_include_scan_first() {
    let mut cache = IndexSourceCache::new();
    let mut graph = IncludeGraph::default();
    graph.source_cache.push(SourceFile { path: chars("/p/a.c"), text: chars("#define X 1\nX;\n") });
    let opts = PreprocessOptions::default().with_source("/p/a.c", "other text");
    let text = cache.get_or_preprocess("/p/a.c", &graph, &opts).unwrap();
    assert_eq!(text, "#define X 1\nX;\n");
    assert_eq!(cache.entries.len(), 1);
}

#[test]
fn marked_file_is_preprocessed_and_then_cached() {
    let mut cache = IndexSourceCache::new();
    let mut graph = IncludeGraph::default();
    graph.needs_preprocess.push("/p/a.c".to_string());
    let opts = PreprocessOptions::default().with_source("/p/a.c", "#define X 41\nint y = X;\n");
    let first = cache.get_or_preprocess("/p/a.c", &graph, &opts).unwrap();
    assert!(first.contains("41"));
    assert!(!first.contains("define"));
    let second = cache.get_or_preprocess("/p/a.c", &graph, &PreprocessOptions::default()).unwrap();
    assert_eq!(first, second);
    assert_eq!(cache.entries.len(), 1);
}

#[test]
fn stopped_preprocessing_keeps_the_prefix_it_wrote() {
    let mut cache = IndexSourceCache::new();
    let mut graph = IncludeGraph::default();
    graph.needs_preprocess.push("/p/a.c".to_string());
    let src = "int x;\n#endif\nint y;\n";
    let opts = PreprocessOptions::default().with_source("/p/a.c", src);
    let text = cache.get_or_preprocess("/p/a.c", &graph, &opts).unwrap();
    assert!(text.contains('x'), "{}", text);
    assert!(!text.contains('y'), "{}", text);
}

#[test]
fn missing_marked_file_is_an_error_and_not_cached() {
    let mut cache = IndexSourceCache::new();
    let mut graph = IncludeGraph::default();
    graph.needs_preprocess.push("/p/gone.c".to_string());
    let err = cache.get_or_preprocess("/p/gone.c", &graph, &PreprocessOptions::default()).unwrap_err();
    assert!(err.contains("/p/gone.c"));
    assert!(cache.entries.is_empty());
}

#[test]
fn c_files_are_picked_and_sorted_in_path_order() {
    let walked = vec![
        entry("/r", false),
        entry("/r/z.c", true),
        entry("/r/a-b.c", true),
        entry("/r/a/b.c", true),
        entry("/r/a", false),
        entry("/r/notes.txt", true),
        entry("/r/x.h", true),
        entry("/r/dir.c", false),
        entry("/r/.c", true),
    ];
    let found = discover_c_files("/r", false, &walked);
    assert_eq!(found, vec!["/r/a/b.c".to_string(), "/r/a-b.c".to_string(), "/r/z.c".to_string()]);
    let headers = discover_header_files("/r", false, &walked);
    assert_eq!(headers, vec!["/r/x.h".to_string()]);
}

#[test]
fn a_file_root_is_taken_alone_when_its_extension_matches() {
    assert_eq!(discover_c_files("/r/main.c", true, &[]), vec!["/r/main.c".to_string()]);
    assert!(discover_c_files("/r/main.h", true, &[]).is_empty());
    assert_eq!(discover_header_files("/r/main.h", true, &[]), vec!["/r/main.h".to_string()]);
    assert!(discover_c_files("/r/main.cc", true, &[]).is_empty());
}

#[test]
fn line_map_lookup_finds_the_last_entry_at_or_before() {
    let mut m = LineMap::new();
    assert!(m.lookup(0).is_none());
    m.push(0, chars("a.c"), 1, 1);
    m.push(10, chars("a.c"), 2, 1);
    m.push(20, chars("b.h"), 7, 3);
    assert_eq!(m.lookup(15).map(|e| e.line), Some(2));
    assert_eq!(m.lookup(20).map(|e| e.line), Some(7));
    assert_eq!(m.lookup(5).map(|e| e.output_offset), Some(0));
    assert_eq!(m.lookup_line(1).map(|e| e.line), Some(7));
}

#[test]
fn include_scan_marks_files_with_an_include_line() {
    let sources = vec![
        SourceFile { path: chars("/p/main.c"), text: chars("int a;\n  #  include \"a.h\"\nint b;\n") },
        SourceFile { path: chars("/p/plain.c"), text: chars("int c; /* #include in a comment line */\n") },
        SourceFile { path: chars("/p/first.c"), text: chars("#include <stdio.h>\n") },
        SourceFile { path: chars("/p/a.h"), text: chars("#define A 1\n") },
    ];
    let graph = trace::index_cache::scan_includes("/p", &sources);
    assert_eq!(graph.root, "/p");
    assert_eq!(graph.needs_preprocess, vec!["/p/main.c".to_string(), "/p/first.c".to_string()]);
    assert_eq!(graph.source_cache.len(), 4);
    assert_eq!(graph.source_cache[3].text, chars("#define A 1\n"));
}

#[test]
fn include_line_needs_the_hash_first_on_its_line() {
    assert!(trace::index_cache::has_include(&chars("#include \"x.h\"")));
    assert!(trace::index_cache::has_include(&chars("int a;\n\t#\tinclude <y.h>\n")));
    assert!(!trace::index_cache::has_include(&chars("int a; #include \"x.h\"\n")));
    assert!(!trace::index_cache::has_include(&chars("#includ\n")));
    assert!(!trace::index_cache::has_include(&chars("")));
}
