use trace::constraints::ResolutionKind;
use trace::flow::{FlowConstraint, ReturnFlow};
use trace::ids::FnId;
use trace::lower::{lower_header_unit, lower_units, process_translation_unit};
use trace::program::{program_is_wf, DiagnosticSeverity, Program};
use trace::solver::analyze;
use trace::symbol::{Linkage, StorageClass};
use trace::syntax::{parse_c_source, SyntaxTree};
use trace::types::TypeDesc;

fn find_kind(t: &SyntaxTree, n: usize, kind: &str) -> Option<usize> {
    if t.nodes[n].kind == kind {
        return Some(n);
    }
    for &c in &t.children[n] {
        if let Some(f) = find_kind(t, c, kind) {
            return Some(f);
        }
    }
    None
}

fn lowered(src: &str) -> Program {
    let mut p = Program::new("/project");
    process_translation_unit(&mut p, "/project/a.c", src).expect("lowering");
    p
}

fn fn_id(p: &Program, name: &str) -> FnId {
    p.symbols.functions.iter().find(|f| f.name == name).map(|f| f.id).expect("function")
}

fn has_edge(p: &Program, caller: &str, callee: &str, kind: ResolutionKind) -> bool {
    assert!(program_is_wf(p));
    let (_pag, result) = analyze(p);
    let (a, b) = (fn_id(p, caller), fn_id(p, callee));
    result.call_edges.iter().any(|e| e.caller == a && e.callee == b && e.resolution == kind)
}

#[test]
fn dump_designated_init_kinds() {
    let src = r#"
static struct Ops { void (*handler)(int *); } g_ops = { .handler = target };
static void target(int *p) { (void)p; }
"#;
    let t = parse_c_source(src).unwrap();
    let init = find_kind(&t, 0, "init_declarator").expect("init_declarator");
    assert!(t.child_by_field(init, "value").is_some(), "value field");
    assert!(t.child_by_field(init, "declarator").is_some(), "declarator field");
}

#[test]
fn dump_net_device_impl_op_field_decl() {
    let src = r#"
struct NetDeviceImplOp {
    int32_t (*setIpAddr)(struct NetDeviceImpl *netDevice, const IpV4Addr *ipAddr);
    int32_t (*init)(struct NetDeviceImpl *netDevice);
};
"#;
    let t = parse_c_source(src).unwrap();
    let fd = find_kind(&t, 0, "field_declaration").expect("field_declaration");
    let struct_node = t.named_child(0, 0).expect("named child");
    assert!(t.child_by_field(struct_node, "body").is_some());
    assert!(t.child_by_field(fd, "declarator").is_some());
    assert!(t.child_by_field(fd, "type").is_some());
}

#[test]
fn syntax_tree_children_come_after_their_parent() {
    let t = parse_c_source("int main(void) { return 0; }").unwrap();
    assert_eq!(t.nodes[0].kind, "translation_unit");
    for (i, kids) in t.children.iter().enumerate() {
        for &c in kids {
            assert!(c > i && c < t.nodes.len());
            assert_eq!(t.nodes[c].parent, Some(i));
        }
    }
}

#[test]
fn direct_call_gives_direct_edge_and_call_site() {
    let p = lowered("void f(void) {}\nvoid g(void) { f(); }\n");
    let g = fn_id(&p, "g");
    assert_eq!(p.symbols.call_sites.len(), 1);
    let cs = &p.symbols.call_sites[0];
    assert_eq!(cs.caller, g);
    assert_eq!(cs.callee_name, "f");
    assert!(cs.is_direct);
    assert_eq!(cs.span.line, 2);
    assert!(has_edge(&p, "g", "f", ResolutionKind::Direct));
}

#[test]
fn fn_ptr_global_init_resolves_indirect_call() {
    let p = lowered("void target(void) {}\nvoid (*fp)(void) = target;\nvoid caller(void) { fp(); }\n");
    let target = fn_id(&p, "target");
    assert!(p.flow.iter().any(|f| matches!(f, FlowConstraint::AddrOfFn { callee, .. } if *callee == target)));
    assert!(has_edge(&p, "caller", "target", ResolutionKind::Indirect));
}

#[test]
fn field_store_emits_gep_and_store() {
    let p = lowered(
        "struct S { void (*cb)(void); };\nvoid t(void) {}\nvoid u(struct S *s) { s->cb = t; }\n",
    );
    assert!(p.flow.iter().any(|f| matches!(f, FlowConstraint::GepField { .. })));
    assert!(p.flow.iter().any(|f| matches!(f, FlowConstraint::Store { .. })));
    let gep = p.symbols.variables.iter().find(|v| v.name.starts_with("_gep")).expect("gep temp");
    assert_eq!(gep.name, format!("_gep{}", gep.id.0));
    assert_eq!(gep.storage, StorageClass::Local);
    assert!(gep.is_pointer);
}

#[test]
fn field_fn_ptr_call_resolves_through_store() {
    let src = "struct Ops { void (*run)(void); };\nvoid impl(void) {}\n\
               void setup(struct Ops *o) { o->run = impl; }\n\
               void go(struct Ops *o) { o->run(); }\n";
    let p = lowered(src);
    let go = fn_id(&p, "go");
    let cs = p.symbols.call_sites.iter().find(|c| c.caller == go).expect("call site");
    assert_eq!(cs.callee_name, "o->run");
    assert!(!cs.is_direct);
    assert!(cs.callee_var.is_some());
    let load = p.symbols.variables[cs.callee_var.unwrap().0 as usize].name.clone();
    assert!(load.starts_with("_load"));
    assert!(has_edge(&p, "go", "impl", ResolutionKind::Indirect));
}

#[test]
fn return_of_address_is_summarized() {
    let p = lowered("int x;\nint *get(void) { return &x; }\nint *again(void) { return get(); }\n");
    let get = fn_id(&p, "get");
    let x = p.symbols.variables.iter().find(|v| v.name == "x").expect("x").id;
    let flows = &p.fn_returns.iter().find(|(f, _)| *f == get).expect("summary").1;
    assert_eq!(flows, &vec![ReturnFlow::AddrOfVar { src: x }]);
    let again = fn_id(&p, "again");
    let flows = &p.fn_returns.iter().find(|(f, _)| *f == again).expect("summary").1;
    assert_eq!(flows, &vec![ReturnFlow::Call { callee_name: "get".to_string() }]);
}

#[test]
fn fn_ptr_table_members_are_recorded() {
    let p = lowered("void a(void) {}\nvoid b(void) {}\nvoid (*tab[])(void) = { a, b };\n");
    let members: Vec<FnId> = p
        .flow
        .iter()
        .filter_map(|f| match f {
            FlowConstraint::ArrayFnMember { callee, .. } => Some(*callee),
            _ => None,
        })
        .collect();
    assert_eq!(members, vec![fn_id(&p, "a"), fn_id(&p, "b")]);
}

#[test]
fn designated_initializer_stores_into_field() {
    let src = "struct Ops { void (*handler)(void); };\nvoid target(void) {}\n\
               struct Ops ops = { .handler = target };\n\
               void run(void) { ops.handler(); }\n";
    let p = lowered(src);
    assert!(p.flow.iter().any(|f| matches!(f, FlowConstraint::GepField { .. })));
    assert!(p.flow.iter().any(|f| matches!(f, FlowConstraint::Store { .. })));
    assert!(has_edge(&p, "run", "target", ResolutionKind::Indirect));
}

#[test]
fn call_return_assignment_records_call_return() {
    let p = lowered("int *mk(void);\nvoid use(void) { int *q; q = mk(); }\n");
    assert!(p
        .flow
        .iter()
        .any(|f| matches!(f, FlowConstraint::CallReturn { callee_name, .. } if callee_name == "mk")));
}

#[test]
fn static_function_has_internal_linkage() {
    let p = lowered("static int helper(int a) { return a; }\nint api(void) { return helper(1); }\n");
    let h = p.symbols.functions.iter().find(|f| f.name == "helper").unwrap();
    assert_eq!(h.linkage, Linkage::Internal);
    assert!(h.is_defined);
    assert_eq!(h.params.len(), 1);
    let param = &p.symbols.variables[h.params[0].0 as usize];
    assert_eq!(param.name, "a");
    assert_eq!(param.storage, StorageClass::Param);
    assert_eq!(param.param_index, Some(0));
    let api = p.symbols.functions.iter().find(|f| f.name == "api").unwrap();
    assert_eq!(api.linkage, Linkage::External);
}

#[test]
fn prototype_then_definition_is_one_function() {
    let p = lowered("void f(int *p);\nvoid f(int *p) { }\n");
    let fs: Vec<_> = p.symbols.functions.iter().filter(|f| f.name == "f").collect();
    assert_eq!(fs.len(), 1);
    assert!(fs[0].is_defined);
    assert!(program_is_wf(&p));
}

#[test]
fn anonymous_struct_is_named_by_counter() {
    let p = lowered("struct { int a; int b; } pair;\n");
    assert_eq!(p.anon_type_counter, 1);
    assert!(p
        .types
        .types
        .iter()
        .any(|t| matches!(&t.desc, TypeDesc::Struct { name, .. } if name == "anon_1")));
}

#[test]
fn header_unit_lowers_typedef_struct() {
    let mut p = Program::new("/project");
    lower_header_unit(&mut p, "/project/a.h", "typedef struct tag { int a; char *b; } alias;\n").unwrap();
    assert_eq!(p.symbols.files.len(), 1);
    assert_eq!(p.symbols.files[0].path, "/project/a.h");
    let t = p
        .types
        .types
        .iter()
        .find(|t| matches!(&t.desc, TypeDesc::Struct { name, .. } if name == "tag"))
        .expect("struct tag");
    assert_eq!(t.layout.fields.len(), 2);
    assert_eq!(t.layout.fields[1].name, "b");
}

#[test]
fn syntax_errors_leave_a_warning() {
    let mut p = Program::new("/project");
    process_translation_unit(&mut p, "/project/bad.c", "int main( {").unwrap();
    assert_eq!(p.diagnostics.len(), 1);
    assert_eq!(p.diagnostics[0].severity, DiagnosticSeverity::Warning);
    assert_eq!(p.diagnostics[0].message, "parse errors in /project/bad.c");
    assert_eq!(p.diagnostics[0].stage, "parse");
}

#[test]
fn units_are_lowered_in_order_into_one_program() {
    let mut p = Program::new("/project");
    let units = vec![
        ("/project/a.c".to_string(), "void f(void) {}\n".to_string()),
        ("/project/b.c".to_string(), "void f(void);\nvoid g(void) { f(); }\n".to_string()),
    ];
    lower_units(&mut p, &units);
    assert_eq!(p.symbols.files.len(), 2);
    assert_eq!(p.symbols.files[1].path, "/project/b.c");
    assert!(has_edge(&p, "g", "f", ResolutionKind::Direct));
}

#[test]
fn macro_like_unknown_callee_is_not_a_call_site() {
    let p = lowered("void g(int x) { ASSERT_OK(x); other(x); }\n");
    let names: Vec<&str> = p.symbols.call_sites.iter().map(|c| c.callee_name.as_str()).collect();
    assert_eq!(names, vec!["other"]);
    assert_eq!(p.symbols.call_sites[0].var_args.len(), 1);
}

#[test]
fn declaration_declares_each_variable() {
    let p = lowered("int a, *b;\n");
    let names: Vec<&str> = p.symbols.variables.iter().map(|v| v.name.as_str()).collect();
    assert!(names.contains(&"a"));
    assert!(names.contains(&"b"));
    assert!(program_is_wf(&p));
}

#[test]
fn designated_initializer_projects_its_field_first() {
    let src = "struct Ops { int (*open)(void); int (*close)(void); };\n\
               int my_close(void) { return 0; }\n\
               struct Ops ops = { .close = my_close };\n";
    let p = lowered(src);
    let ops = p.symbols.variables.iter().find(|v| v.name == "ops").expect("ops").id;
    let first_gep = p.flow.iter().find_map(|f| match f {
        FlowConstraint::GepField { base, field, .. } if *base == ops => Some(field.0),
        _ => None,
    });
    assert_eq!(first_gep, Some(1));
}

#[test]
fn function_body_declarations_become_locals() {
    let p = lowered("void f(void) { int a; int *b; a = 1; }\n");
    let f = fn_id(&p, "f");
    let locals: Vec<&str> = p
        .symbols
        .variables
        .iter()
        .filter(|v| v.fn_id == Some(f))
        .map(|v| v.name.as_str())
        .collect();
    assert!(locals.contains(&"a") && locals.contains(&"b"), "{:?}", locals);
}

#[test]
fn build_program_refuses_a_tree_without_sources() {
    let graph = trace::index_cache::IncludeGraph::default();
    let mut cache = trace::index_cache::IndexSourceCache::new();
    let opts = trace::options::PreprocessOptions::new();
    let r = trace::lower::build_program("/empty", &[], &[], &graph, &mut cache, &opts);
    assert_eq!(r.err(), Some("no .c or .h files found under /empty".to_string()));
}

#[test]
fn build_program_lowers_units_in_order_and_reports_unreadable_ones() {
    let sources = vec![
        trace::options::SourceFile { path: "/p/b.c".chars().collect(), text: "int g; void b(void) {}\n".chars().collect() },
        trace::options::SourceFile { path: "/p/a.c".chars().collect(), text: "#include \"h.h\"\nvoid a(void) { b(); }\n".chars().collect() },
        trace::options::SourceFile { path: "/p/h.h".chars().collect(), text: "void b(void);\n".chars().collect() },
    ];
    let graph = trace::index_cache::scan_includes("/p", &sources);
    let mut opts = trace::options::PreprocessOptions::new().with_include("/p");
    opts = opts.with_define("X", "1");
    for s in &sources {
        let p: String = s.path.iter().collect();
        let t: String = s.text.iter().collect();
        opts = opts.with_source(&p, &t);
    }
    let mut cache = trace::index_cache::IndexSourceCache::new();
    let files = vec!["/p/b.c".to_string(), "/p/missing.c".to_string(), "/p/a.c".to_string()];
    let p = trace::lower::build_program("/p", &files, &[], &graph, &mut cache, &opts).unwrap();
    assert!(program_is_wf(&p));
    assert_eq!(p.root, "/p");
    assert_eq!(p.include_paths, vec!["/p".to_string()]);
    let paths: Vec<&str> = p.symbols.files.iter().map(|f| f.path.as_str()).collect();
    assert_eq!(paths, vec!["/p/b.c", "/p/a.c"]);
    assert_eq!(p.diagnostics.len(), 1);
    assert_eq!(p.diagnostics[0].severity, DiagnosticSeverity::Error);
    assert!(p.diagnostics[0].message.contains("/p/missing.c"), "{}", p.diagnostics[0].message);
    let names: Vec<&str> = p.symbols.functions.iter().map(|f| f.name.as_str()).collect();
    assert!(names.contains(&"a") && names.contains(&"b"), "{:?}", names);
    assert_eq!(cache.entries.len(), 2);
}

#[test]
fn lower_units_records_one_file_per_unit_in_order() {
    let mut p = Program::new("/r");
    let units = vec![
        ("/r/x.c".to_string(), "int x;\n".to_string()),
        ("/r/y.c".to_string(), "int y(\n".to_string()),
    ];
    lower_units(&mut p, &units);
    let paths: Vec<&str> = p.symbols.files.iter().map(|f| f.path.as_str()).collect();
    assert_eq!(paths, vec!["/r/x.c", "/r/y.c"]);
    assert_eq!(p.diagnostics.len(), 1);
    assert_eq!(p.diagnostics[0].severity, DiagnosticSeverity::Warning);
    assert_eq!(p.diagnostics[0].message, "parse errors in /r/y.c");
}

#[test]
fn has_parse_errors_reports_the_root() {
    let good = parse_c_source("int x;\n").unwrap();
    assert!(!trace::syntax::has_parse_errors(&good));
    let bad = parse_c_source("int x(\n").unwrap();
    assert!(trace::syntax::has_parse_errors(&bad));
}
