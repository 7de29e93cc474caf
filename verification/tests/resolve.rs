use lci_codegraph::graph::canon::dedup_colliding_node_ids;
use lci_codegraph::graph::resolve::{pick, resolve, Pick};
use lci_codegraph::graph::{CallSite, Callable, FileSymbols};
use lci_codegraph::model::{FrameworkCallTarget, FrameworkFacts, Graph, GraphEdge, GraphNode};

fn make_fs() -> FileSymbols {
    let mut fs = FileSymbols::default();
    fs.nodes.push(GraphNode {
        node_id: "f.rs".to_string(),
        label: "f.rs".to_string(),
        source_file: "f.rs".to_string(),
        start_line: 1,
    });
    fs.callables.push(callable("helper", "f.rs#1:helper", None));
    fs.calls.push(CallSite {
        caller: "f.rs#2:caller".to_string(),
        name: "helper".to_string(),
        qualifier: None,
    });
    fs
}

fn callable(name: &str, node_id: &str, scope: Option<&str>) -> Callable {
    Callable {
        name: name.to_string(),
        node_id: node_id.to_string(),
        scope: scope.map(str::to_string),
        scope_supers: Vec::new(),
    }
}

fn callable_with_supers(name: &str, node_id: &str, scope: &str, supers: &[&str]) -> Callable {
    Callable {
        name: name.to_string(),
        node_id: node_id.to_string(),
        scope: Some(scope.to_string()),
        scope_supers: supers.iter().map(|s| s.to_string()).collect(),
    }
}

fn resolve_no_framework(files: Vec<FileSymbols>) -> Graph {
    resolve(files, Vec::new())
}

#[test]
fn pick_with_no_candidates_returns_none() {
    assert!(matches!(pick(None, None), Pick::NoMatch));
}

#[test]
fn pick_with_empty_candidate_slice_returns_none() {
    let empty: Vec<&Callable> = Vec::new();
    assert!(matches!(pick(Some(&empty), None), Pick::NoMatch));
}

#[test]
fn pick_single_candidate_with_no_qualifier_resolves() {
    let c = callable("f", "id1", None);
    let cands = [&c];
    assert!(matches!(pick(Some(&cands), None), Pick::One(id) if id == "id1"));
}

#[test]
fn pick_single_candidate_with_matching_type_qualifier_resolves() {
    let c = callable("new", "a.rs#1:new", Some("A"));
    let cands = [&c];
    assert!(matches!(pick(Some(&cands), Some("A")), Pick::One(id) if id == "a.rs#1:new"));
}

#[test]
fn pick_single_candidate_with_mismatched_type_qualifier_is_none() {
    let c = callable("new", "a.rs#1:new", Some("A"));
    let cands = [&c];
    assert!(matches!(pick(Some(&cands), Some("B")), Pick::NoMatch));
}

#[test]
fn pick_single_candidate_with_module_qualifier_and_no_scope_still_resolves() {
    let c = callable("add", "math.rs#1:add", None);
    let cands = [&c];
    assert!(matches!(pick(Some(&cands), Some("math")), Pick::One(id) if id == "math.rs#1:add"));
}

#[test]
fn pick_single_candidate_whose_supers_include_the_qualifier_resolves() {
    let c = callable_with_supers(
        "findById",
        "AccountServiceImpl.java#1:findById",
        "AccountServiceImpl",
        &["AccountService"],
    );
    let cands = [&c];
    assert!(
        matches!(pick(Some(&cands), Some("AccountService")), Pick::One(id) if id == "AccountServiceImpl.java#1:findById")
    );
}

#[test]
fn pick_single_candidate_whose_supers_do_not_include_the_qualifier_is_none() {
    let c = callable_with_supers(
        "findById",
        "AccountServiceImpl.java#1:findById",
        "AccountServiceImpl",
        &["AccountService"],
    );
    let cands = [&c];
    assert!(matches!(
        pick(Some(&cands), Some("SomethingElse")),
        Pick::NoMatch
    ));
}

#[test]
fn pick_multiple_candidates_with_no_qualifier_is_ambiguous() {
    let a = callable("new", "a", Some("A"));
    let b = callable("new", "b", Some("B"));
    let cands = [&a, &b];
    assert!(matches!(pick(Some(&cands), None), Pick::Ambiguous));
}

#[test]
fn pick_multiple_candidates_qualifier_singles_out_exactly_one() {
    let a = callable("new", "a", Some("A"));
    let b = callable("new", "b", Some("B"));
    let cands = [&a, &b];
    assert!(matches!(pick(Some(&cands), Some("A")), Pick::One(id) if id == "a"));
}

#[test]
fn pick_multiple_candidates_qualifier_matching_none_is_ambiguous() {
    let a = callable("new", "a", Some("A"));
    let b = callable("new", "b", Some("B"));
    let cands = [&a, &b];
    assert!(matches!(pick(Some(&cands), Some("C")), Pick::Ambiguous));
}

#[test]
fn pick_multiple_candidates_qualifier_matching_more_than_one_is_still_ambiguous() {
    let a1 = callable("new", "a1", Some("A"));
    let a2 = callable("new", "a2", Some("A"));
    let cands = [&a1, &a2];
    assert!(matches!(pick(Some(&cands), Some("A")), Pick::Ambiguous));
}

#[test]
fn pick_multiple_candidates_qualifier_narrows_via_a_super_to_exactly_one() {
    let a = callable_with_supers("run", "a", "A", &["Task"]);
    let b = callable("run", "b", Some("B"));
    let cands = [&a, &b];
    assert!(matches!(pick(Some(&cands), Some("Task")), Pick::One(id) if id == "a"));
}

#[test]
fn pick_multiple_candidates_qualifier_matching_more_than_one_via_supers_is_still_ambiguous() {
    let a = callable_with_supers("run", "a", "A", &["Task"]);
    let b = callable_with_supers("run", "b", "B", &["Task"]);
    let cands = [&a, &b];
    assert!(matches!(pick(Some(&cands), Some("Task")), Pick::Ambiguous));
}

#[test]
fn resolve_dedups_identical_call_sites_into_a_single_edge() {
    let mut fs = FileSymbols::default();
    fs.nodes.push(GraphNode {
        node_id: "f.rs".to_string(),
        label: "f.rs".to_string(),
        source_file: "f.rs".to_string(),
        start_line: 1,
    });
    fs.callables.push(callable("helper", "f.rs#1:helper", None));
    for _ in 0..2 {
        fs.calls.push(CallSite {
            caller: "f.rs#2:caller".to_string(),
            name: "helper".to_string(),
            qualifier: None,
        });
    }
    let g = resolve_no_framework(vec![fs]);
    let calls: Vec<_> = g.edges.iter().filter(|e| e.relation == "calls").collect();
    assert_eq!(
        calls.len(),
        1,
        "duplicate identical call sites must dedup to one edge; got {calls:?}"
    );
}

#[test]
fn resolve_sorts_and_dedups_nodes_for_deterministic_output() {
    let n_b = GraphNode {
        node_id: "b.rs".to_string(),
        label: "b.rs".to_string(),
        source_file: "b.rs".to_string(),
        start_line: 1,
    };
    let n_a = GraphNode {
        node_id: "a.rs".to_string(),
        label: "a.rs".to_string(),
        source_file: "a.rs".to_string(),
        start_line: 1,
    };
    let mut fs = FileSymbols::default();
    fs.nodes.push(n_b.clone());
    fs.nodes.push(n_a.clone());
    fs.nodes.push(n_b.clone()); // duplicate, out of order
    let g = resolve_no_framework(vec![fs]);
    assert_eq!(
        g.nodes,
        vec![n_a, n_b],
        "nodes must be sorted by node_id and deduped regardless of input order"
    );
}

#[test]
fn resolve_unresolvable_callee_produces_no_edge() {
    let mut fs = FileSymbols::default();
    fs.nodes.push(GraphNode {
        node_id: "f.rs".to_string(),
        label: "f.rs".to_string(),
        source_file: "f.rs".to_string(),
        start_line: 1,
    });
    fs.calls.push(CallSite {
        caller: "f.rs#1:caller".to_string(),
        name: "nowhere_defined".to_string(),
        qualifier: None,
    });
    let g = resolve_no_framework(vec![fs]);
    assert!(
        !g.edges.iter().any(|e| e.relation == "calls"),
        "an unresolvable callee must not produce a calls edge; got {:?}",
        g.edges
    );
}

fn framework_node(id: &str) -> GraphNode {
    GraphNode {
        node_id: id.to_string(),
        label: id.to_string(),
        source_file: "PaymentClient.java".to_string(),
        start_line: 1,
    }
}

#[test]
fn resolve_appends_framework_nodes_and_edges_additively() {
    let facts = FrameworkFacts {
        nodes: vec![framework_node("service:payment-service")],
        edges: vec![GraphEdge {
            source: "AccountServiceImpl.java#1:create".to_string(),
            target: "service:payment-service".to_string(),
            relation: "calls".to_string(),
        }],
        call_targets: vec![],
    };
    let g = resolve(vec![FileSymbols::default()], vec![facts]);
    assert!(
        g.nodes
            .iter()
            .any(|n| n.node_id == "service:payment-service"),
        "framework node must be appended; nodes = {:?}",
        g.nodes
    );
    assert!(
        g.edges.iter().any(|e| e.relation == "calls"
            && e.source == "AccountServiceImpl.java#1:create"
            && e.target == "service:payment-service"),
        "framework edge must be appended; edges = {:?}",
        g.edges
    );
}

#[test]
fn resolve_matches_a_call_site_against_a_framework_call_target_through_the_global_table() {
    let mut fs = FileSymbols::default();
    fs.calls.push(CallSite {
        caller: "AccountServiceImpl.java#1:findByEmail".to_string(),
        name: "findByEmail".to_string(),
        qualifier: None,
    });
    let facts = FrameworkFacts {
        nodes: vec![],
        edges: vec![],
        call_targets: vec![FrameworkCallTarget {
            name: "findByEmail".to_string(),
            node_id: "AccountRepository.java#8:findByEmail".to_string(),
            scope: Some("AccountRepository".to_string()),
            scope_supers: vec!["CrudRepository".to_string()],
        }],
    };
    let g = resolve(vec![fs], vec![facts]);
    assert!(
        g.edges.iter().any(|e| e.relation == "calls"
            && e.source == "AccountServiceImpl.java#1:findByEmail"
            && e.target == "AccountRepository.java#8:findByEmail"),
        "call site must resolve to the framework call target; edges = {:?}",
        g.edges
    );
}

#[test]
fn resolve_never_lets_a_framework_call_target_shadow_a_same_file_local_definition() {
    let mut fs = FileSymbols::default();
    fs.callables.push(callable(
        "findByEmail",
        "AccountServiceImpl.java#1:findByEmail",
        None,
    ));
    fs.calls.push(CallSite {
        caller: "AccountServiceImpl.java#9:caller".to_string(),
        name: "findByEmail".to_string(),
        qualifier: None,
    });
    let facts = FrameworkFacts {
        nodes: vec![],
        edges: vec![],
        call_targets: vec![FrameworkCallTarget {
            name: "findByEmail".to_string(),
            node_id: "AccountRepository.java#8:findByEmail".to_string(),
            scope: Some("AccountRepository".to_string()),
            scope_supers: vec![],
        }],
    };
    let g = resolve(vec![fs], vec![facts]);
    let targets: Vec<_> = g
        .edges
        .iter()
        .filter(|e| e.relation == "calls" && e.source == "AccountServiceImpl.java#9:caller")
        .collect();
    assert_eq!(
        targets.len(),
        1,
        "exactly one target expected; got {targets:?}"
    );
    assert_eq!(
        targets[0].target, "AccountServiceImpl.java#1:findByEmail",
        "the same-file local definition must win over the global-only framework target"
    );
}

#[test]
fn empty_framework_vec_reproduces_pre_framework_behaviour_exactly() {
    assert_eq!(
        resolve_no_framework(vec![make_fs()]),
        resolve(vec![make_fs()], Vec::new())
    );
}

#[test]
fn dedup_colliding_node_ids_keeps_the_lowest_source_file_and_start_line_deterministically() {
    let winner = GraphNode {
        node_id: "service:payment-service".to_string(),
        label: "payment-service".to_string(),
        source_file: "AccountServiceImpl.java".to_string(),
        start_line: 5,
    };
    let loser = GraphNode {
        node_id: "service:payment-service".to_string(),
        label: "payment-service".to_string(),
        source_file: "PaymentClient.java".to_string(),
        start_line: 9,
    };
    let deduped = dedup_colliding_node_ids(vec![loser.clone(), winner.clone()]);
    assert_eq!(
        deduped,
        vec![winner],
        "the node with the lexicographically-lowest (source_file, start_line) must win, \
         regardless of input order; got {deduped:?}"
    );
}

#[test]
fn dedup_colliding_node_ids_is_a_no_op_for_already_unique_ids() {
    let a = framework_node("service:a");
    let mut b = framework_node("service:b");
    b.source_file = "Other.java".to_string();
    let deduped = dedup_colliding_node_ids(vec![a.clone(), b.clone()]);
    assert_eq!(deduped, vec![a, b]);
}

#[test]
fn resolve_collapses_colliding_framework_node_ids_from_two_files_into_one() {
    let facts_a = FrameworkFacts {
        nodes: vec![GraphNode {
            node_id: "service:payment-service".to_string(),
            label: "payment-service".to_string(),
            source_file: "b/PaymentClient.java".to_string(),
            start_line: 1,
        }],
        edges: vec![],
        call_targets: vec![],
    };
    let facts_b = FrameworkFacts {
        nodes: vec![GraphNode {
            node_id: "service:payment-service".to_string(),
            label: "payment-service".to_string(),
            source_file: "a/PaymentClient.java".to_string(),
            start_line: 1,
        }],
        edges: vec![],
        call_targets: vec![],
    };
    let g = resolve(
        vec![FileSymbols::default(), FileSymbols::default()],
        vec![facts_a, facts_b],
    );
    let matches: Vec<_> = g
        .nodes
        .iter()
        .filter(|n| n.node_id == "service:payment-service")
        .collect();
    assert_eq!(
        matches.len(),
        1,
        "colliding framework node_ids must collapse to exactly one node; got {matches:?}"
    );
    assert_eq!(
        matches[0].source_file, "a/PaymentClient.java",
        "the lexicographically-lower source_file must be the deterministic winner"
    );
}
