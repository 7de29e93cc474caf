use lci_codegraph::graph::callee::is_type_like;
use lci_codegraph::graph::canon::{dedup_colliding_node_ids, sorted_edges};
use lci_codegraph::graph::emit::file_label;
use lci_codegraph::graph::resolve::{resolve, resolve_counted, ResolveCounts};
use lci_codegraph::graph::{CallSite, Callable, FileSymbols};
use lci_codegraph::input::{admission_of, is_binary, is_pdf, Admission, IndexOptions, SNIFFED_BYTES};
use lci_codegraph::model::{
    def_node_id, FrameworkCallTarget, FrameworkFacts, Graph, GraphEdge, GraphNode,
};
use lci_codegraph::order::{place_text, Placement};
use lci_codegraph::spring::route::compose_path;
use lci_codegraph::text::{contains_part, same, with_forward_slashes};

fn node(id: &str, label: &str, file: &str, line: i64) -> GraphNode {
    GraphNode {
        node_id: id.to_string(),
        label: label.to_string(),
        source_file: file.to_string(),
        start_line: line,
    }
}

fn edge(source: &str, target: &str, relation: &str) -> GraphEdge {
    GraphEdge {
        source: source.to_string(),
        target: target.to_string(),
        relation: relation.to_string(),
    }
}

fn callable(name: &str, node_id: &str, scope: Option<&str>) -> Callable {
    Callable {
        name: name.to_string(),
        node_id: node_id.to_string(),
        scope: scope.map(str::to_string),
        scope_supers: Vec::new(),
    }
}

fn call(caller: &str, name: &str, qualifier: Option<&str>) -> CallSite {
    CallSite {
        caller: caller.to_string(),
        name: name.to_string(),
        qualifier: qualifier.map(str::to_string),
    }
}

fn target(name: &str, node_id: &str, scope: &str) -> FrameworkCallTarget {
    FrameworkCallTarget {
        name: name.to_string(),
        node_id: node_id.to_string(),
        scope: Some(scope.to_string()),
        scope_supers: Vec::new(),
    }
}

fn with_targets(call_targets: Vec<FrameworkCallTarget>) -> FrameworkFacts {
    FrameworkFacts {
        nodes: Vec::new(),
        edges: Vec::new(),
        call_targets,
    }
}

/// Two files: `a.rs` calls `helper`, which `b.rs` defines.
fn two_files() -> (FileSymbols, FileSymbols) {
    let a = FileSymbols {
        nodes: vec![node("a.rs", "a.rs", "a.rs", 1), node("a.rs#1:run", "run()", "a.rs", 1)],
        contains: vec![edge("a.rs", "a.rs#1:run", "contains")],
        calls: vec![call("a.rs#1:run", "helper", None)],
        callables: vec![callable("run", "a.rs#1:run", None)],
    };
    let b = FileSymbols {
        nodes: vec![node("b.rs", "b.rs", "b.rs", 1), node("b.rs#1:helper", "helper()", "b.rs", 1)],
        contains: vec![edge("b.rs", "b.rs#1:helper", "contains")],
        calls: Vec::new(),
        callables: vec![callable("helper", "b.rs#1:helper", None)],
    };
    (a, b)
}

fn calls_of(graph: &Graph, caller: &str) -> Vec<String> {
    graph
        .edges
        .iter()
        .filter(|e| e.relation == "calls" && e.source == caller)
        .map(|e| e.target.clone())
        .collect()
}

#[test]
fn node_ids_show_negative_and_extreme_lines_in_decimal() {
    assert_eq!(def_node_id("f", 0, "n"), "f#0:n");
    assert_eq!(def_node_id("f", -12, "n"), "f#-12:n");
    assert_eq!(def_node_id("", 1090, ""), "#1090:");
    assert_eq!(def_node_id("f", i64::MAX, "n"), "f#9223372036854775807:n");
    assert_eq!(def_node_id("f", i64::MIN, "n"), "f#-9223372036854775808:n");
}

#[test]
fn node_ids_differ_within_a_file_by_line_or_name() {
    assert_ne!(def_node_id("f.rs", 1, "new"), def_node_id("f.rs", 11, "new"));
    assert_ne!(def_node_id("f.rs", 1, "1:a"), def_node_id("f.rs", 11, "a"));
}

#[test]
fn node_ids_can_collide_across_files_with_a_hash_in_their_names() {
    assert_eq!(def_node_id("a#1:b", 2, "c"), def_node_id("a", 1, "b#2:c"));
}

#[test]
fn text_is_ordered_by_its_bytes() {
    assert_eq!(place_text("Z", "a"), Placement::Before);
    assert_eq!(place_text("a", "Z"), Placement::After);
    assert_eq!(place_text("a", "ab"), Placement::Before);
    assert_eq!(place_text("z", "é"), Placement::Before);
    assert_eq!(place_text("é", "é"), Placement::Same);
    assert_eq!(place_text("", ""), Placement::Same);
}

#[test]
fn edges_are_sorted_by_source_then_target_then_relation_each_once() {
    let edges = vec![
        edge("b", "a", "calls"),
        edge("a", "c", "calls"),
        edge("a", "b", "method"),
        edge("a", "b", "calls"),
        edge("b", "a", "calls"),
    ];
    assert_eq!(
        sorted_edges(&edges),
        vec![
            edge("a", "b", "calls"),
            edge("a", "b", "method"),
            edge("a", "c", "calls"),
            edge("b", "a", "calls"),
        ]
    );
}

#[test]
fn the_first_of_level_nodes_stands_for_their_id() {
    let nodes = vec![
        node("x", "second", "b.rs", 1),
        node("x", "later line", "a.rs", 9),
        node("x", "first", "a.rs", 3),
        node("x", "level", "a.rs", 3),
        node("w", "other", "z.rs", 1),
    ];
    assert_eq!(
        dedup_colliding_node_ids(nodes),
        vec![node("w", "other", "z.rs", 1), node("x", "first", "a.rs", 3)]
    );
}

#[test]
fn a_long_list_is_sorted_like_std_sorts_it() {
    let mut edges = Vec::new();
    let mut x: u32 = 7;
    for _ in 0..500 {
        x = x.wrapping_mul(1_664_525).wrapping_add(1_013_904_223);
        edges.push(edge(&format!("s{}", x % 17), &format!("t{}", (x >> 8) % 13), "calls"));
    }
    let sorted = sorted_edges(&edges);
    edges.sort();
    edges.dedup();
    assert_eq!(sorted, edges);
}

#[test]
fn the_graph_is_the_same_in_any_order_of_the_files() {
    let (a, b) = two_files();
    let forward = resolve(vec![a, b], Vec::new());
    let (a, b) = two_files();
    let backward = resolve(vec![b, a], Vec::new());
    assert_eq!(forward, backward);
    assert_eq!(calls_of(&forward, "a.rs#1:run"), vec!["b.rs#1:helper"]);
}

#[test]
fn every_edge_of_the_graph_joins_two_of_its_nodes() {
    let (a, b) = two_files();
    let graph = resolve(vec![a, b], Vec::new());
    assert_eq!(graph.edges.len(), 3);
    for e in &graph.edges {
        assert!(graph.nodes.iter().any(|n| n.node_id == e.source));
        assert!(graph.nodes.iter().any(|n| n.node_id == e.target));
    }
}

#[test]
fn a_file_pushed_again_adds_no_node() {
    let (a, b) = two_files();
    let once = resolve(vec![a, b], Vec::new());
    let (a, b) = two_files();
    let (again, _) = two_files();
    let twice = resolve(vec![a, b, again], Vec::new());
    assert_eq!(once.nodes, twice.nodes);
}

#[test]
fn a_framework_target_of_the_same_name_makes_a_bare_call_ambiguous_not_rerouted() {
    let (a, b) = two_files();
    let facts = with_targets(vec![target("helper", "R.java#1:helper", "R")]);
    let graph = resolve(vec![a, b], vec![facts]);
    assert!(calls_of(&graph, "a.rs#1:run").is_empty());
}

#[test]
fn a_call_that_names_a_type_leaves_a_definition_outside_all_types_for_the_framework_target() {
    let (mut a, b) = two_files();
    a.calls = vec![call("a.rs#1:run", "helper", Some("R"))];
    let without = resolve(vec![a, b], Vec::new());
    assert_eq!(calls_of(&without, "a.rs#1:run"), vec!["b.rs#1:helper"]);

    let (mut a, b) = two_files();
    a.calls = vec![call("a.rs#1:run", "helper", Some("R"))];
    let facts = with_targets(vec![target("helper", "R.java#1:helper", "R")]);
    let with = resolve(vec![a, b], vec![facts]);
    assert_eq!(calls_of(&with, "a.rs#1:run"), vec!["R.java#1:helper"]);
}

#[test]
fn a_framework_target_of_another_type_leaves_the_call_to_the_definition_outside_all_types() {
    let (mut a, b) = two_files();
    a.calls = vec![call("a.rs#1:run", "helper", Some("R"))];
    let facts = with_targets(vec![target("other", "R.java#1:other", "R")]);
    let graph = resolve(vec![a, b], vec![facts]);
    assert_eq!(calls_of(&graph, "a.rs#1:run"), vec!["b.rs#1:helper"]);
}

#[test]
fn an_edge_that_framework_facts_add_is_theirs_or_leads_to_their_target() {
    let (mut a, b) = two_files();
    a.calls.push(call("a.rs#1:run", "findIt", Some("R")));
    let without = resolve(vec![a, b], Vec::new());

    let (mut a, b) = two_files();
    a.calls.push(call("a.rs#1:run", "findIt", Some("R")));
    let mut facts = with_targets(vec![target("findIt", "R.java#2:findIt", "R")]);
    facts.edges = vec![edge("route:GET:/", "a.rs#1:run", "calls")];
    let with = resolve(vec![a, b], vec![facts]);
    let mut added: Vec<_> = Vec::new();
    for e in with.edges.iter().filter(|e| !without.edges.contains(e)) {
        added.push((e.source.as_str(), e.target.as_str(), e.relation.as_str()));
    }
    added.sort();
    assert_eq!(
        added,
        vec![
            ("a.rs#1:run", "R.java#2:findIt", "calls"),
            ("route:GET:/", "a.rs#1:run", "calls"),
        ]
    );
}

#[test]
fn framework_facts_leave_what_files_contain() {
    let (a, b) = two_files();
    let facts = FrameworkFacts {
        nodes: vec![node("service:pay", "pay", "P.java", 3)],
        edges: vec![edge("route:GET:/", "a.rs#1:run", "calls")],
        call_targets: Vec::new(),
    };
    let graph = resolve(vec![a, b], vec![facts]);
    assert!(graph.nodes.contains(&node("service:pay", "pay", "P.java", 3)));
    assert!(graph.edges.contains(&edge("route:GET:/", "a.rs#1:run", "calls")));
    assert!(graph.edges.contains(&edge("a.rs", "a.rs#1:run", "contains")));
    assert_eq!(calls_of(&graph, "a.rs#1:run"), vec!["b.rs#1:helper"]);
}

#[test]
fn route_paths_have_one_leading_slash_and_none_at_the_end() {
    assert_eq!(compose_path("//api//", "//x/y//"), "/api/x/y");
    assert_eq!(compose_path("/", "/"), "/");
    assert_eq!(compose_path("api", "x"), "/api/x");
    assert_eq!(compose_path("", "a//b/"), "/a//b");
}

#[test]
fn type_like_names_start_with_an_upper_case_letter() {
    assert!(is_type_like("Foo"));
    assert!(is_type_like("A"));
    assert!(is_type_like("Z9"));
    assert!(is_type_like("Éclair"));
    assert!(!is_type_like("éclair"));
    assert!(!is_type_like("中"));
    assert!(!is_type_like("foo"));
    assert!(!is_type_like("_Foo"));
    assert!(!is_type_like("@"));
    assert!(!is_type_like("["));
    assert!(!is_type_like(""));
}

#[test]
fn file_labels_of_odd_paths() {
    assert_eq!(file_label(""), "");
    assert_eq!(file_label("a/"), "");
    assert_eq!(file_label("/é/ü.rs"), "ü.rs");
}

#[test]
fn parts_are_found_wherever_they_stand() {
    assert!(contains_part("import org.springframework.X;", "org.springframework"));
    assert!(contains_part("abc", ""));
    assert!(contains_part("abc", "abc"));
    assert!(contains_part("aab", "ab"));
    assert!(!contains_part("abc", "abcd"));
    assert!(!contains_part("abc", "ac"));
    assert!(contains_part("", ""));
}

#[test]
fn same_text_is_told_from_other_text() {
    assert!(same("é", "é"));
    assert!(same("", ""));
    assert!(!same("é", "e"));
    assert!(!same("ab", "abc"));
    assert!(!same("ab", "ac"));
}

#[test]
fn backslashes_become_slashes() {
    assert_eq!(with_forward_slashes(r"a\b/c\é"), "a/b/c/é");
    assert_eq!(with_forward_slashes(""), "");
}

#[test]
fn pdf_paths_are_told_by_their_extension() {
    for path in ["a.pdf", "docs/A.PDF", "x.y.pDf", "a.pdf/", "a.pdf/.", "a.pdf/.//./", "dir.pdf/a.pdf"] {
        assert!(is_pdf(path), "{path}");
    }
    for path in ["pdf", ".pdf", "docs/.pdf", "a.pdfx", "a.pdf/b", "a.pdf/..", "a.pdf.", "a.txt", "", "/", ".", "apdf"] {
        assert!(!is_pdf(path), "{path}");
    }
}

#[test]
fn only_an_early_nul_makes_text_binary() {
    let at = |n: usize| format!("{}\0{}", "a".repeat(n), "b".repeat(9));
    assert!(is_binary(&at(0)));
    assert!(is_binary(&at(SNIFFED_BYTES - 1)));
    assert!(!is_binary(&at(SNIFFED_BYTES)));
    assert!(!is_binary(""));
    assert!(!is_binary(&format!("{}\0", "é".repeat(SNIFFED_BYTES / 2))));
}

#[test]
fn inputs_are_taken_by_path_then_language_then_size_then_content() {
    let large = vec![b'a'; 5_242_881];
    let fits = vec![b'a'; 5_242_880];
    assert!(matches!(admission_of(false, "a.pdf", None, &large), Admission::Ignored));
    assert!(matches!(admission_of(true, "a.pdf", None, &large), Admission::PdfTooLarge));
    assert!(matches!(admission_of(true, "a.pdf", None, &fits), Admission::Pdf));
    assert!(matches!(admission_of(true, "a", None, &large), Admission::Unsupported));
    assert!(matches!(admission_of(true, "a", Some("rust"), &large), Admission::TooLarge));
    assert!(matches!(admission_of(true, "a", Some("rust"), &[0xff]), Admission::NotUtf8));
    assert!(matches!(admission_of(true, "a", Some("rust"), &[0]), Admission::Binary));
    assert!(matches!(admission_of(true, "a", Some("rust"), &fits), Admission::Source(s) if s.len() == 5_242_880));
    assert!(matches!(admission_of(true, "a", Some("x"), "é".as_bytes()), Admission::Source("é")));
}

#[test]
fn options_start_from_their_defaults() {
    let options = IndexOptions::<u8>::builder().build();
    assert_eq!((options.tuning, options.build_graph, options.extract_pdfs), (0, false, true));
    let options = IndexOptions::<u8>::builder()
        .tuning(3)
        .build_graph(true)
        .extract_pdfs(false)
        .build();
    assert_eq!((options.tuning, options.build_graph, options.extract_pdfs), (3, true, false));
}

#[test]
fn files_and_facts_pushed_again_add_no_node_and_no_edge() {
    let facts = || FrameworkFacts {
        nodes: vec![node("service:pay", "pay", "P.java", 3)],
        edges: vec![edge("service:pay", "a.rs#1:run", "calls")],
        call_targets: vec![target("other", "service:pay", "P")],
    };
    let (a, b) = two_files();
    let once = resolve(vec![a, b], vec![facts()]);
    let (a, b) = two_files();
    let (a2, b2) = two_files();
    let twice = resolve(vec![a, b, a2, b2], vec![facts(), facts()]);
    assert_eq!(once.nodes, twice.nodes);
    assert!(twice.edges.iter().all(|e| once.edges.contains(e)));
    assert_eq!(calls_of(&once, "a.rs#1:run"), vec!["b.rs#1:helper"]);
    assert!(calls_of(&twice, "a.rs#1:run").is_empty());
}

#[test]
fn dropped_calls_are_counted_apart() {
    let (mut a, mut b) = two_files();
    a.calls = vec![
        call("a.rs#1:run", "helper", None),
        call("a.rs#1:run", "nowhere", None),
        call("a.rs#1:run", "twin", None),
        call("a.rs#1:run", "own", Some("Z")),
        call("a.rs#1:run", "own", Some("A")),
        call("a.rs#1:run", "lone", Some("Z")),
    ];
    a.callables.push(callable("own", "a.rs#2:own", Some("A")));
    a.callables.push(callable("own", "a.rs#3:own", Some("B")));
    a.callables.push(callable("lone", "a.rs#4:lone", Some("A")));
    b.callables.push(callable("twin", "b.rs#2:twin", None));
    let facts = FrameworkFacts {
        nodes: vec![node("s", "s", "P.java", 3), node("s", "s", "P.java", 3)],
        edges: vec![edge("s", "a.rs#1:run", "calls")],
        call_targets: vec![target("twin", "s", "P")],
    };
    let (graph, counts) = resolve_counted(vec![a, b], vec![facts]);
    assert_eq!(
        counts,
        ResolveCounts {
            ambiguous_calls: 2,
            unresolved_calls: 2,
            framework_nodes: 2,
            framework_edges: 1,
        }
    );
    assert_eq!(calls_of(&graph, "a.rs#1:run"), vec!["a.rs#2:own", "b.rs#1:helper"]);
}
