//! The graph vocabulary every extractor agrees on: nodes, edges, the definition id format, and the
//! facts a framework-aware extractor hands to the resolver.
use crate::text::{decimal, lemma_decimal_has_no_colon, lemma_decimal_injective, opt_text, push_decimal, texts};
use vstd::prelude::*;
use vstd::string::*;

verus! {

/// One graph node.
#[derive(Debug, Clone, PartialEq, Eq, PartialOrd, Ord)]
pub struct GraphNode {
    pub node_id: String,
    pub label: String,
    pub source_file: String,
    pub start_line: i64,
}

/// One directed edge.
#[derive(Debug, Clone, PartialEq, Eq, PartialOrd, Ord)]
pub struct GraphEdge {
    pub source: String,
    pub target: String,
    pub relation: String,
}

/// A resolved structural graph, with its nodes and edges sorted and without duplicates.
#[derive(Debug, Clone, PartialEq, Eq)]
pub struct Graph {
    pub nodes: Vec<GraphNode>,
    pub edges: Vec<GraphEdge>,
}

/// What a framework-aware extractor contributes for one file, on top of the symbols the language
/// rules found. It can only add: nodes, edges between known ends, and call target candidates.
#[derive(Debug, Clone, PartialEq, Eq)]
pub struct FrameworkFacts {
    /// Nodes such as an HTTP route or the marker of an external service.
    pub nodes: Vec<GraphNode>,
    /// Edges whose two ends are already known.
    pub edges: Vec<GraphEdge>,
    /// Call targets the plain language rules cannot see.
    pub call_targets: Vec<FrameworkCallTarget>,
}

/// A call target that only framework knowledge can justify.
#[derive(Debug, Clone, PartialEq, Eq)]
pub struct FrameworkCallTarget {
    /// The bare callee name that a call site is matched against.
    pub name: String,
    /// The node a call resolves to when this target is picked.
    pub node_id: String,
    /// The simple name of the enclosing type.
    pub scope: Option<String>,
    /// The simple names of what the enclosing type extends or implements.
    pub scope_supers: Vec<String>,
}

/// The mathematical value of a [`GraphNode`].
#[verifier::ext_equal]
pub struct NodeView {
    pub node_id: Seq<char>,
    pub label: Seq<char>,
    pub source_file: Seq<char>,
    pub start_line: int,
}

/// The mathematical value of a [`GraphEdge`].
#[verifier::ext_equal]
pub struct EdgeView {
    pub source: Seq<char>,
    pub target: Seq<char>,
    pub relation: Seq<char>,
}

/// The mathematical value of a [`Graph`].
#[verifier::ext_equal]
pub struct GraphView {
    pub nodes: Seq<NodeView>,
    pub edges: Seq<EdgeView>,
}

/// The mathematical value of a [`FrameworkCallTarget`], and of a callable of the resolver.
#[verifier::ext_equal]
pub struct TargetView {
    pub name: Seq<char>,
    pub node_id: Seq<char>,
    pub scope: Option<Seq<char>>,
    pub scope_supers: Seq<Seq<char>>,
}

/// The mathematical value of [`FrameworkFacts`].
#[verifier::ext_equal]
pub struct FactsView {
    pub nodes: Seq<NodeView>,
    pub edges: Seq<EdgeView>,
    pub call_targets: Seq<TargetView>,
}

impl View for GraphNode {
    type V = NodeView;

    open spec fn view(&self) -> NodeView {
        NodeView {
            node_id: self.node_id@,
            label: self.label@,
            source_file: self.source_file@,
            start_line: self.start_line as int,
        }
    }
}

impl View for GraphEdge {
    type V = EdgeView;

    open spec fn view(&self) -> EdgeView {
        EdgeView { source: self.source@, target: self.target@, relation: self.relation@ }
    }
}

impl View for Graph {
    type V = GraphView;

    open spec fn view(&self) -> GraphView {
        GraphView { nodes: node_views(self.nodes@), edges: edge_views(self.edges@) }
    }
}

impl View for FrameworkCallTarget {
    type V = TargetView;

    open spec fn view(&self) -> TargetView {
        TargetView {
            name: self.name@,
            node_id: self.node_id@,
            scope: opt_text(self.scope),
            scope_supers: texts(self.scope_supers@),
        }
    }
}

impl View for FrameworkFacts {
    type V = FactsView;

    open spec fn view(&self) -> FactsView {
        FactsView {
            nodes: node_views(self.nodes@),
            edges: edge_views(self.edges@),
            call_targets: target_views(self.call_targets@),
        }
    }
}

/// The values of a list of nodes.
pub open spec fn node_views(nodes: Seq<GraphNode>) -> Seq<NodeView> {
    nodes.map_values(|n: GraphNode| n@)
}

/// The values of a list of edges.
pub open spec fn edge_views(edges: Seq<GraphEdge>) -> Seq<EdgeView> {
    edges.map_values(|e: GraphEdge| e@)
}

/// The values of a list of framework call targets.
pub open spec fn target_views(targets: Seq<FrameworkCallTarget>) -> Seq<TargetView> {
    targets.map_values(|t: FrameworkCallTarget| t@)
}

/// The values of a list of framework facts.
pub open spec fn fact_views(facts: Seq<FrameworkFacts>) -> Seq<FactsView> {
    facts.map_values(|f: FrameworkFacts| f@)
}

impl FactsView {
    /// The facts that add nothing.
    pub open spec fn empty() -> FactsView {
        FactsView { nodes: Seq::empty(), edges: Seq::empty(), call_targets: Seq::empty() }
    }

    /// These facts, then `other`.
    pub open spec fn then_add(self, other: FactsView) -> FactsView {
        FactsView {
            nodes: self.nodes + other.nodes,
            edges: self.edges + other.edges,
            call_targets: self.call_targets + other.call_targets,
        }
    }
}

impl GraphView {
    /// The graph without nodes and edges.
    pub open spec fn empty() -> GraphView {
        GraphView { nodes: Seq::empty(), edges: Seq::empty() }
    }
}

impl GraphNode {
    /// A copy of this node.
    pub fn copied(&self) -> (r: GraphNode)
        ensures
            r@ == self@,
    {
        GraphNode {
            node_id: self.node_id.clone(),
            label: self.label.clone(),
            source_file: self.source_file.clone(),
            start_line: self.start_line,
        }
    }
}

impl GraphEdge {
    /// A copy of this edge.
    pub fn copied(&self) -> (r: GraphEdge)
        ensures
            r@ == self@,
    {
        GraphEdge {
            source: self.source.clone(),
            target: self.target.clone(),
            relation: self.relation.clone(),
        }
    }
}

impl Default for Graph {
    fn default() -> (r: Graph)
        ensures
            r@ == GraphView::empty(),
    {
        let r = Graph { nodes: Vec::new(), edges: Vec::new() };
        assert(r@ =~= GraphView::empty());
        r
    }
}

impl Default for FrameworkFacts {
    fn default() -> (r: FrameworkFacts)
        ensures
            r@ == FactsView::empty(),
    {
        let r = FrameworkFacts { nodes: Vec::new(), edges: Vec::new(), call_targets: Vec::new() };
        assert(r@ =~= FactsView::empty());
        r
    }
}

/// The id of a definition: its file, `#`, its line in decimal, `:` and its name.
pub open spec fn node_id_of(source_file: Seq<char>, start_line: int, name: Seq<char>) -> Seq<char> {
    source_file.push('#') + decimal(start_line).push(':') + name
}

/// Node id for a definition: `<file>#<line>:<name>`. The line keeps it unique within a file when two
/// definitions share a name; the name keeps it readable.
#[must_use]
pub fn def_node_id(source_file: &str, start_line: i64, name: &str) -> (id: String)
    ensures
        id@ == node_id_of(source_file@, start_line as int, name@),
{
    let mut id = source_file.to_owned();
    id.push('#');
    push_decimal(&mut id, start_line);
    id.push(':');
    id.append(name);
    assert(id@ =~= node_id_of(source_file@, start_line as int, name@));
    id
}

/// Text before the first colon decides where that colon stands.
proof fn lemma_split_at_colon(a: Seq<char>, x: Seq<char>, b: Seq<char>, y: Seq<char>)
    requires
        !a.contains(':'),
        !b.contains(':'),
        a.push(':') + x == b.push(':') + y,
    ensures
        a == b,
        x == y,
{
    let s = a.push(':') + x;
    let t = b.push(':') + y;
    if a.len() < b.len() {
        assert(s[a.len() as int] == ':');
        assert(t[a.len() as int] == b[a.len() as int]);
        assert(b.contains(':'));
    } else if b.len() < a.len() {
        assert(t[b.len() as int] == ':');
        assert(s[b.len() as int] == a[b.len() as int]);
        assert(a.contains(':'));
    }
    assert(a =~= s.take(a.len() as int));
    assert(b =~= t.take(b.len() as int));
    assert(x =~= s.skip(a.len() as int + 1));
    assert(y =~= t.skip(b.len() as int + 1));
}

/// Within one file, two definitions share an id only when they share both their line and their name.
pub proof fn def_node_id_is_unique_within_a_file(
    source_file: Seq<char>,
    line_a: int,
    name_a: Seq<char>,
    line_b: int,
    name_b: Seq<char>,
)
    requires
        node_id_of(source_file, line_a, name_a) == node_id_of(source_file, line_b, name_b),
    ensures
        line_a == line_b,
        name_a == name_b,
{
    let n = (source_file.len() + 1) as int;
    let tail_a = decimal(line_a).push(':') + name_a;
    let tail_b = decimal(line_b).push(':') + name_b;
    assert(node_id_of(source_file, line_a, name_a).skip(n) =~= tail_a);
    assert(node_id_of(source_file, line_b, name_b).skip(n) =~= tail_b);
    lemma_decimal_has_no_colon(line_a);
    lemma_decimal_has_no_colon(line_b);
    lemma_split_at_colon(decimal(line_a), name_a, decimal(line_b), name_b);
    lemma_decimal_injective(line_a, line_b);
}

/// Across files whose names hold no `#`, two definitions share an id only when they share their file,
/// their line and their name.
pub proof fn def_node_id_is_unique(
    file_a: Seq<char>,
    line_a: int,
    name_a: Seq<char>,
    file_b: Seq<char>,
    line_b: int,
    name_b: Seq<char>,
)
    requires
        !file_a.contains('#'),
        !file_b.contains('#'),
        node_id_of(file_a, line_a, name_a) == node_id_of(file_b, line_b, name_b),
    ensures
        file_a == file_b,
        line_a == line_b,
        name_a == name_b,
{
    let a = node_id_of(file_a, line_a, name_a);
    let b = node_id_of(file_b, line_b, name_b);
    assert(a[file_a.len() as int] == '#');
    assert(b[file_b.len() as int] == '#');
    if file_a.len() < file_b.len() {
        assert(b[file_a.len() as int] == file_b[file_a.len() as int]);
        assert(file_b.contains('#'));
    } else if file_b.len() < file_a.len() {
        assert(a[file_b.len() as int] == file_a[file_b.len() as int]);
        assert(file_a.contains('#'));
    }
    assert(file_a =~= a.take(file_a.len() as int));
    assert(file_b =~= b.take(file_b.len() as int));
    def_node_id_is_unique_within_a_file(file_a, line_a, name_a, line_b, name_b);
}

} // verus!
