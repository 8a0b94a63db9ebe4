use trace::callgraph::CallGraph;
use trace::constraints::{CallGraphEdge, ResolutionKind};
use trace::flow::FlowConstraint;
use trace::ids::{CallSiteId, FileId, FnId, VarId};
use trace::pag::Pag;
use trace::program::Program;
use trace::solver::{analyze, analyze_with_budget, analyze_with_options, direct_by_name, AnalyzeOptions};
use trace::span::Span;
use trace::symbol::{CallSite, Function, Linkage, StorageClass, Variable};

fn span() -> Span {
    Span { file: FileId(0), line: 1, col: 1 }
}

fn function(program: &Program, id: u32, name: &str, params: Vec<VarId>) -> Function {
    Function {
        id: FnId(id),
        name: name.to_string(),
        linkage: Linkage::External,
        return_type: program.types.int_type(),
        params,
        locals: Vec::new(),
        span: span(),
        file: FileId(0),
        is_defined: true,
    }
}

fn variable(program: &Program, id: u32, name: &str, storage: StorageClass, fn_id: Option<u32>, param_index: Option<u32>) -> Variable {
    Variable {
        id: VarId(id),
        name: name.to_string(),
        type_id: program.types.int_type(),
        storage,
        fn_id: fn_id.map(FnId),
        param_index,
        span: span(),
        is_pointer: true,
    }
}

fn call(id: u32, caller: u32, callee_name: &str, callee_var: Option<u32>, var_args: Vec<(u32, VarId)>, is_direct: bool) -> CallSite {
    CallSite {
        id: CallSiteId(id),
        caller: FnId(caller),
        callee_name: callee_name.to_string(),
        callee_var: callee_var.map(VarId),
        var_args,
        fn_args: Vec::new(),
        span: span(),
        is_direct,
    }
}

/// `main` calls `target` directly and through `fp = &target; fp();`.
fn direct_and_pointer_program() -> Program {
    let mut p = Program::new("/proj");
    p.symbols.add_file("/proj/main.c".to_string());
    let f0 = function(&p, 0, "main", Vec::new());
    let f1 = function(&p, 1, "target", Vec::new());
    p.symbols.add_function(f0);
    p.symbols.add_function(f1);
    let v0 = variable(&p, 0, "fp", StorageClass::Local, Some(0), None);
    p.symbols.add_variable(v0);
    p.flow.push(FlowConstraint::AddrOfFn { dst: VarId(0), callee: FnId(1) });
    p.symbols.call_sites.push(call(0, 0, "fp", Some(0), Vec::new(), false));
    p.symbols.call_sites.push(call(1, 0, "target", None, Vec::new(), true));
    p
}

fn has_edge(edges: &[CallGraphEdge], site: u32, callee: u32, kind: ResolutionKind) -> bool {
    edges.iter().any(|e| e.call_site == CallSiteId(site) && e.callee == FnId(callee) && e.resolution == kind)
}

#[test]
fn direct_by_name_classifies_plain_identifiers() {
    let mk = |callee_name: &str, callee_var: Option<u32>, is_direct: bool| CallSite {
        id: CallSiteId(0),
        caller: FnId(0),
        callee_name: callee_name.into(),
        callee_var: callee_var.map(VarId),
        var_args: Vec::new(),
        fn_args: Vec::new(),
        span: Span { file: FileId(0), line: 1, col: 1 },
        is_direct,
    };
    assert!(direct_by_name(&mk("OsalMemCalloc", None, false)));
    assert!(direct_by_name(&mk("f", None, true)));
    assert!(!direct_by_name(&mk("ops->Dispatch", None, false)));
    assert!(!direct_by_name(&mk("obj.fn", None, false)));
    assert!(!direct_by_name(&mk("fp", Some(3), false)));
}

#[test]
fn direct_call_gets_a_direct_edge() {
    let p = direct_and_pointer_program();
    let (_, result) = analyze(&p);
    assert!(has_edge(&result.call_edges, 1, 1, ResolutionKind::Direct));
    assert!(result.points_to.is_empty());
}

#[test]
fn function_pointer_call_resolves_through_points_to() {
    let p = direct_and_pointer_program();
    let (_, result) = analyze(&p);
    assert!(has_edge(&result.call_edges, 0, 1, ResolutionKind::Indirect));
    let indirect = result.call_edges.iter().filter(|e| e.resolution == ResolutionKind::Indirect).count();
    assert_eq!(indirect, 1);
}

#[test]
fn retained_points_to_lists_the_function_location() {
    let p = direct_and_pointer_program();
    let (pag, result) = analyze_with_options(&p, AnalyzeOptions { retain_points_to: true });
    assert!(!result.points_to.is_empty());
    assert!(result.points_to.iter().all(|(_, locs)| !locs.is_empty()));
    let fn_loc = pag.fn_locations.get(1).expect("target has a location");
    assert!(result.points_to.iter().any(|(_, locs)| locs.contains(&fn_loc)));
}

#[test]
fn copy_chain_carries_the_target_to_the_call() {
    let mut p = Program::new("/proj");
    p.symbols.add_file("/proj/main.c".to_string());
    let f0 = function(&p, 0, "main", Vec::new());
    let f1 = function(&p, 1, "handler", Vec::new());
    p.symbols.add_function(f0);
    p.symbols.add_function(f1);
    for (id, name) in [(0u32, "a"), (1, "b"), (2, "c")] {
        let v = variable(&p, id, name, StorageClass::Local, Some(0), None);
        p.symbols.add_variable(v);
    }
    p.flow.push(FlowConstraint::AddrOfFn { dst: VarId(0), callee: FnId(1) });
    p.flow.push(FlowConstraint::Copy { dst: VarId(1), src: VarId(0) });
    p.flow.push(FlowConstraint::Copy { dst: VarId(2), src: VarId(1) });
    p.symbols.call_sites.push(call(0, 0, "c", Some(2), Vec::new(), false));
    let (_, result) = analyze(&p);
    assert!(has_edge(&result.call_edges, 0, 1, ResolutionKind::Indirect));
}

#[test]
fn store_then_load_through_a_pointer_reaches_the_call() {
    // slot = &cell; *slot = &handler; fp = *slot; fp();
    let mut p = Program::new("/proj");
    p.symbols.add_file("/proj/main.c".to_string());
    let f0 = function(&p, 0, "main", Vec::new());
    let f1 = function(&p, 1, "handler", Vec::new());
    p.symbols.add_function(f0);
    p.symbols.add_function(f1);
    for (id, name) in [(0u32, "cell"), (1, "slot"), (2, "tmp"), (3, "fp")] {
        let v = variable(&p, id, name, StorageClass::Local, Some(0), None);
        p.symbols.add_variable(v);
    }
    p.flow.push(FlowConstraint::AddrOfVar { dst: VarId(1), src: VarId(0) });
    p.flow.push(FlowConstraint::AddrOfFn { dst: VarId(2), callee: FnId(1) });
    p.flow.push(FlowConstraint::Store { dst: VarId(1), src: VarId(2) });
    p.flow.push(FlowConstraint::Load { dst: VarId(3), src: VarId(1) });
    p.symbols.call_sites.push(call(0, 0, "fp", Some(3), Vec::new(), false));
    let (_, result) = analyze(&p);
    assert!(has_edge(&result.call_edges, 0, 1, ResolutionKind::Indirect));
}

#[test]
fn arguments_flow_into_parameters_of_the_direct_callee() {
    // void sink(void *ctx, void (*cb)(void)) { cb(); }   main: sink(local, handler);
    let mut p = Program::new("/proj");
    p.symbols.add_file("/proj/main.c".to_string());
    let f0 = function(&p, 0, "main", Vec::new());
    let f1 = function(&p, 1, "sink", vec![VarId(1), VarId(2)]);
    let f2 = function(&p, 2, "handler", Vec::new());
    p.symbols.add_function(f0);
    p.symbols.add_function(f1);
    p.symbols.add_function(f2);
    let v0 = variable(&p, 0, "local", StorageClass::Local, Some(0), None);
    let v1 = variable(&p, 1, "ctx", StorageClass::Param, Some(1), Some(0));
    let v2 = variable(&p, 2, "cb", StorageClass::Param, Some(1), Some(1));
    p.symbols.add_variable(v0);
    p.symbols.add_variable(v1);
    p.symbols.add_variable(v2);
    let mut site = call(0, 0, "sink", None, vec![(0, VarId(0))], true);
    site.fn_args.push((1, FnId(2)));
    p.symbols.call_sites.push(site);
    p.symbols.call_sites.push(call(1, 1, "cb", Some(2), Vec::new(), false));
    let (_, result) = analyze(&p);
    assert!(has_edge(&result.call_edges, 0, 1, ResolutionKind::Direct));
    assert!(has_edge(&result.call_edges, 1, 2, ResolutionKind::Indirect));
    assert!(result
        .arg_flow_edges
        .iter()
        .any(|a| a.call_site == CallSiteId(0) && a.arg_index == 0 && a.actual_var == Some(VarId(0)) && a.formal == VarId(1)));
    assert!(result
        .arg_flow_edges
        .iter()
        .any(|a| a.call_site == CallSiteId(0) && a.arg_index == 1 && a.actual_fn == Some(FnId(2)) && a.formal == VarId(2)));
    assert!(result.wired_arg_flow.contains(&(CallSiteId(0), 0, FnId(1))));
    assert!(result.wired_arg_flow.contains(&(CallSiteId(0), 1, FnId(1))));
}

#[test]
fn unknown_direct_callee_has_no_edge() {
    let mut p = Program::new("/proj");
    p.symbols.add_file("/proj/main.c".to_string());
    let f0 = function(&p, 0, "main", Vec::new());
    p.symbols.add_function(f0);
    p.symbols.call_sites.push(call(0, 0, "printf", None, Vec::new(), true));
    let (_, result) = analyze(&p);
    assert!(result.call_edges.is_empty());
}

#[test]
fn zero_pop_budget_stops_before_convergence() {
    let p = direct_and_pointer_program();
    let (_, result, converged) = analyze_with_budget(&p, AnalyzeOptions { retain_points_to: true }, 0);
    assert!(!converged);
    assert!(has_edge(&result.call_edges, 1, 1, ResolutionKind::Direct));
    let (_, _, converged) = analyze_with_budget(&p, AnalyzeOptions { retain_points_to: true }, u64::MAX);
    assert!(converged);
}

#[test]
fn default_options_drop_points_to() {
    let opts = AnalyzeOptions::default();
    assert!(!opts.retain_points_to);
}

#[test]
fn call_graph_queries_follow_the_edges() {
    let edges = vec![
        CallGraphEdge { call_site: CallSiteId(0), caller: FnId(0), callee: FnId(1), resolution: ResolutionKind::Direct },
        CallGraphEdge { call_site: CallSiteId(1), caller: FnId(0), callee: FnId(2), resolution: ResolutionKind::Indirect },
        CallGraphEdge { call_site: CallSiteId(2), caller: FnId(2), callee: FnId(1), resolution: ResolutionKind::Direct },
    ];
    let g = CallGraph { edges };
    assert_eq!(g.callees_of(FnId(0)), vec![FnId(1), FnId(2)]);
    assert_eq!(g.callees_of(FnId(1)), Vec::<FnId>::new());
    assert_eq!(g.callers_of(FnId(1)), vec![(FnId(0), CallSiteId(0)), (FnId(2), CallSiteId(2))]);
    assert_eq!(g.callers_of(FnId(0)), Vec::<(FnId, CallSiteId)>::new());
}

#[test]
fn file_static_definition_shadows_external_same_name() {
    let mut program = Program::new("/p");
    let mut h_int = function(&program, 0, "helper", Vec::new());
    h_int.linkage = Linkage::Internal;
    h_int.file = FileId(0);
    let mut h_ext = function(&program, 1, "helper", Vec::new());
    h_ext.file = FileId(1);
    program.symbols.functions.push(h_int);
    program.symbols.functions.push(h_ext);
    program.symbols.fn_by_name.push(("helper".to_string(), FnId(1)));
    assert_eq!(program.symbols.resolve_function_in_scope("helper", Some(FileId(0))), Some(FnId(0)));
    assert_eq!(program.symbols.resolve_function_in_scope("helper", Some(FileId(1))), Some(FnId(1)));
    assert_eq!(program.symbols.resolve_function_in_scope("helper", Some(FileId(2))), Some(FnId(1)));
    assert_eq!(program.symbols.resolve_function_in_scope("helper", None), Some(FnId(1)));
}

#[test]
fn locations_are_lazy_for_locals_and_eager_for_globals() {
    let mut p = direct_and_pointer_program();
    let g = variable(&p, 1, "g", StorageClass::Global, None, None);
    p.symbols.add_variable(g);
    let taken = variable(&p, 2, "x", StorageClass::Local, Some(0), None);
    p.symbols.add_variable(taken);
    let q = variable(&p, 3, "q", StorageClass::Local, Some(0), None);
    p.symbols.add_variable(q);
    p.flow.push(FlowConstraint::AddrOfVar { dst: VarId(3), src: VarId(2) });
    let pag = Pag::build(&p);
    assert!(pag.var_location.get(0).is_none(), "fp's address is never taken");
    assert!(pag.var_location.get(1).is_some(), "a global has a location");
    assert!(pag.var_location.get(2).is_some(), "x's address is taken");
    assert!(pag.var_location.get(3).is_none());
}

#[test]
fn direct_call_has_exactly_one_edge() {
    let p = direct_and_pointer_program();
    let (_pag, r) = analyze(&p);
    let edges: Vec<_> = r.call_edges.iter().filter(|e| e.call_site == CallSiteId(1)).collect();
    assert_eq!(edges.len(), 1);
    assert_eq!(edges[0].callee, FnId(1));
    assert_eq!(edges[0].resolution, ResolutionKind::Direct);
}

#[test]
fn ensure_var_loc_gives_a_plain_local_a_location_once() {
    let mut p = direct_and_pointer_program();
    let local = variable(&p, 1, "plain", StorageClass::Local, Some(0), None);
    p.symbols.add_variable(local);
    let mut pag = Pag::build(&p);
    assert!(pag.var_location.get(1).is_none());
    let before = pag.locations.len();
    let l = pag.ensure_var_loc(&p, VarId(1)).unwrap();
    assert_eq!(l.0 as usize, before);
    assert_eq!(pag.locations.len(), before + 1);
    assert_eq!(pag.locations[before].var, Some(VarId(1)));
    assert_eq!(pag.locations[before].kind, trace::constraints::LocKind::Local);
    let again = pag.ensure_var_loc(&p, VarId(1));
    assert_eq!(again, Some(l));
    assert_eq!(pag.locations.len(), before + 1);
    assert_eq!(pag.ensure_var_loc(&p, VarId(99)), None);
    assert_eq!(pag.locations.len(), before + 1);
}

#[test]
fn built_graph_holds_only_flow_and_call_target_constraints() {
    let p = direct_and_pointer_program();
    let pag = Pag::build(&p);
    let fp = pag.var_node.get(0).unwrap();
    let target = pag.call_targets.get(0).unwrap();
    let fn_loc = pag.fn_locations.get(1).unwrap();
    let fn_node = pag.loc_node[fn_loc.0 as usize];
    assert_eq!(pag.constraints.len(), 2, "{:?}", pag.constraints);
    let c0 = &pag.constraints[0];
    assert_eq!(c0.kind, trace::constraints::ConstraintKind::AddrOf);
    assert_eq!((c0.dst, c0.src, c0.field), (fp, fn_node, None));
    let c1 = &pag.constraints[1];
    assert_eq!(c1.kind, trace::constraints::ConstraintKind::Load);
    assert_eq!((c1.dst, c1.src), (target, fp));
}
