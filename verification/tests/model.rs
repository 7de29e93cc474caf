use lci_codegraph::model::{
    def_node_id, FrameworkCallTarget, FrameworkFacts, Graph, GraphEdge, GraphNode,
};

#[test]
fn def_node_id_formats_file_line_and_name() {
    assert_eq!(
        def_node_id("src/lib/math.rs", 9, "add"),
        "src/lib/math.rs#9:add"
    );
}

#[test]
fn def_node_id_treats_the_name_argument_as_opaque() {
    assert_eq!(def_node_id("f.rs", 1, "struct"), "f.rs#1:struct");
}

#[test]
fn def_node_id_is_stable_across_repeated_calls_with_the_same_input() {
    let a = def_node_id("src/n.rs", 3, "f");
    let b = def_node_id("src/n.rs", 3, "f");
    assert_eq!(a, b);
}

fn sample_node(id: &str) -> GraphNode {
    GraphNode {
        node_id: id.to_string(),
        label: id.to_string(),
        source_file: "f.rs".to_string(),
        start_line: 1,
    }
}

fn sample_edge() -> GraphEdge {
    GraphEdge {
        source: "a".to_string(),
        target: "b".to_string(),
        relation: "calls".to_string(),
    }
}

#[test]
fn default_graph_has_no_nodes_or_edges() {
    let graph = Graph::default();
    assert!(graph.nodes.is_empty());
    assert!(graph.edges.is_empty());
}

#[test]
fn default_framework_facts_are_completely_empty() {
    let facts = FrameworkFacts::default();
    assert!(facts.nodes.is_empty());
    assert!(facts.edges.is_empty());
    assert!(facts.call_targets.is_empty());
}

#[test]
fn framework_facts_carries_nodes_edges_and_call_targets_independently() {
    let facts = FrameworkFacts {
        nodes: vec![sample_node("service:payment-service")],
        edges: vec![sample_edge()],
        call_targets: vec![FrameworkCallTarget {
            name: "findByEmail".to_string(),
            node_id: "AccountRepository.java#4:findByEmail".to_string(),
            scope: Some("AccountRepository".to_string()),
            scope_supers: vec!["CrudRepository".to_string()],
        }],
    };
    assert_eq!(facts.nodes.len(), 1);
    assert_eq!(facts.edges.len(), 1);
    assert_eq!(facts.call_targets.len(), 1);
    assert_eq!(facts.call_targets[0].name, "findByEmail");
    assert_eq!(
        facts.call_targets[0].scope_supers,
        vec!["CrudRepository".to_string()]
    );
}

#[test]
fn framework_facts_equality_is_structural() {
    let a = FrameworkFacts {
        nodes: vec![sample_node("n")],
        ..Default::default()
    };
    let b = FrameworkFacts {
        nodes: vec![sample_node("n")],
        ..Default::default()
    };
    assert_eq!(a, b);
}
