//! The canonical form of a graph: its nodes and edges sorted, each once.
use crate::model::{edge_views, node_views, EdgeView, GraphEdge, GraphNode, NodeView};
use crate::order::{
    lemma_text_transitive, lemma_text_trichotomy, orders, place_text, sorted_order, sorts_before,
    text_before, Placement, Ranked,
};
use crate::text::same;
use vstd::prelude::*;
use vstd::string::*;

verus! {

// -------------------------------------------------------------------------------------------------
// Edges
// -------------------------------------------------------------------------------------------------
/// The order of edges: by source, then target, then relation.
pub open spec fn edge_before(a: EdgeView, b: EdgeView) -> bool {
    text_before(a.source, b.source) || (a.source == b.source && (text_before(a.target, b.target) || (
    a.target == b.target && text_before(a.relation, b.relation))))
}

/// Of two edges exactly one comes first, unless they are the same.
pub proof fn lemma_edge_trichotomy(a: EdgeView, b: EdgeView)
    ensures
        edge_before(a, b) ==> !edge_before(b, a) && a != b,
        edge_before(a, b) || a == b || edge_before(b, a),
{
    lemma_text_trichotomy(a.source, b.source);
    lemma_text_trichotomy(a.target, b.target);
    lemma_text_trichotomy(a.relation, b.relation);
    lemma_text_trichotomy(b.source, a.source);
    lemma_text_trichotomy(b.target, a.target);
    lemma_text_trichotomy(b.relation, a.relation);
    if a.source == b.source && a.target == b.target && a.relation == b.relation {
        assert(a =~= b);
    }
}

/// The order of edges is transitive.
pub proof fn lemma_edge_transitive(a: EdgeView, b: EdgeView, c: EdgeView)
    requires
        edge_before(a, b),
        edge_before(b, c),
    ensures
        edge_before(a, c),
{
    if text_before(a.source, b.source) && text_before(b.source, c.source) {
        lemma_text_transitive(a.source, b.source, c.source);
    }
    if text_before(a.target, b.target) && text_before(b.target, c.target) {
        lemma_text_transitive(a.target, b.target, c.target);
    }
    if text_before(a.relation, b.relation) && text_before(b.relation, c.relation) {
        lemma_text_transitive(a.relation, b.relation, c.relation);
    }
}

impl Ranked for GraphEdge {
    open spec fn ranks_before(&self, other: &GraphEdge) -> bool {
        edge_before(self@, other@)
    }

    fn is_before(&self, other: &GraphEdge) -> (r: bool) {
        match place_text(self.source.as_str(), other.source.as_str()) {
            Placement::Before => {
                return true;
            },
            Placement::After => {
                return false;
            },
            Placement::Same => {},
        }
        match place_text(self.target.as_str(), other.target.as_str()) {
            Placement::Before => {
                return true;
            },
            Placement::After => {
                return false;
            },
            Placement::Same => {},
        }
        match place_text(self.relation.as_str(), other.relation.as_str()) {
            Placement::Before => true,
            _ => false,
        }
    }

    proof fn rank_is_asymmetric(a: &GraphEdge, b: &GraphEdge) {
        lemma_edge_trichotomy(a@, b@);
    }

    proof fn rank_is_transitive(a: &GraphEdge, b: &GraphEdge, c: &GraphEdge) {
        lemma_edge_trichotomy(a@, b@);
        lemma_edge_trichotomy(b@, c@);
        lemma_edge_trichotomy(c@, a@);
        if edge_before(c@, a@) {
            if a@ == b@ {
            } else if b@ == c@ {
            } else {
                lemma_edge_transitive(a@, b@, c@);
            }
        }
    }
}

/// Whether `edges` stand in their order, each once.
pub open spec fn edges_sorted(edges: Seq<EdgeView>) -> bool {
    forall|i: int, j: int|
        0 <= i < j < edges.len() ==> edge_before(#[trigger] edges[i], #[trigger] edges[j])
}

/// Whether `out` is the canonical form of `all`: its edges sorted, each once.
pub open spec fn canonical_edges(all: Seq<EdgeView>, out: Seq<EdgeView>) -> bool {
    &&& edges_sorted(out)
    &&& forall|e: EdgeView| #[trigger] out.contains(e) <==> all.contains(e)
}

fn same_edge(a: &GraphEdge, b: &GraphEdge) -> (r: bool)
    ensures
        r == (a@ == b@),
{
    let r = same(a.source.as_str(), b.source.as_str()) && same(a.target.as_str(), b.target.as_str())
        && same(a.relation.as_str(), b.relation.as_str());
    assert(r ==> a@ =~= b@);
    r
}

/// The edges sorted, each once.
pub fn sorted_edges(edges: &Vec<GraphEdge>) -> (out: Vec<GraphEdge>)
    ensures
        canonical_edges(edge_views(edges@), edge_views(out@)),
{
    let ghost all = edge_views(edges@);
    let order = sorted_order(edges);
    let mut out: Vec<GraphEdge> = Vec::new();
    let mut k: usize = 0;
    while k < order.len()
        invariant
            all == edge_views(edges@),
            orders(edges@, order@),
            k <= order@.len(),
            edges_sorted(edge_views(out@)),
            k > 0 ==> out@.len() > 0 && out@[out@.len() - 1]@ == all[order@[k - 1] as int],
            k == 0 ==> out@.len() == 0,
            forall|j: int| 0 <= j < out@.len() ==> all.contains(#[trigger] edge_views(out@)[j]),
            forall|j: int|
                0 <= j < k ==> edge_views(out@).contains(all[#[trigger] order@[j] as int]),
        decreases order.len() - k,
    {
        let i = order[k];
        let ghost before = edge_views(out@);
        let keep = if out.len() == 0 {
            true
        } else {
            !same_edge(&out[out.len() - 1], &edges[i])
        };
        if keep {
            let e = edges[i].copied();
            proof {
                assert(e@ == all[i as int]);
                assert(all.contains(all[i as int]));
                if k > 0 {
                    let last = all[order@[k - 1] as int];
                    assert(sorts_before(edges@, order@[k - 1] as int, order@[k as int] as int));
                    lemma_edge_trichotomy(last, e@);
                    assert(before[before.len() - 1] == last);
                    assert forall|j: int| 0 <= j < before.len() implies edge_before(
                        #[trigger] before[j],
                        e@,
                    ) by {
                        if j < before.len() - 1 {
                            assert(edge_before(before[j], before[before.len() - 1]));
                            lemma_edge_transitive(before[j], last, e@);
                        }
                    }
                }
            }
            out.push(e);
            assert(edge_views(out@) =~= before.push(e@));
        }
        proof {
            let now = edge_views(out@);
            assert(now[now.len() - 1] == all[i as int]);
            assert forall|j: int| 0 <= j < k + 1 implies now.contains(
                all[#[trigger] order@[j] as int],
            ) by {
                if j < k {
                    let w = choose|w: int|
                        0 <= w < before.len() && before[w] == all[order@[j] as int];
                    assert(before.contains(all[order@[j] as int]));
                    assert(now[w] == all[order@[j] as int]);
                } else {
                    assert(now[now.len() - 1] == all[order@[j] as int]);
                }
            }
        }
        k = k + 1;
    }
    proof {
        let now = edge_views(out@);
        assert forall|e: EdgeView| #[trigger] now.contains(e) <==> all.contains(e) by {
            if now.contains(e) {
                let w = choose|w: int| 0 <= w < now.len() && now[w] == e;
                assert(all.contains(now[w]));
            }
            if all.contains(e) {
                let w = choose|w: int| 0 <= w < all.len() && all[w] == e;
                assert(order@.contains(w as usize));
                let j = choose|j: int| 0 <= j < order@.len() && order@[j] == w as usize;
                assert(now.contains(all[order@[j] as int]));
            }
        }
    }
    out
}

// -------------------------------------------------------------------------------------------------
// Nodes
// -------------------------------------------------------------------------------------------------
/// The order of nodes: by id, then file, then line. The label does not count.
pub open spec fn node_before(a: NodeView, b: NodeView) -> bool {
    text_before(a.node_id, b.node_id) || (a.node_id == b.node_id && (text_before(
        a.source_file,
        b.source_file,
    ) || (a.source_file == b.source_file && a.start_line < b.start_line)))
}

/// Whether two nodes stand level in the order of nodes.
pub open spec fn node_level(a: NodeView, b: NodeView) -> bool {
    a.node_id == b.node_id && a.source_file == b.source_file && a.start_line == b.start_line
}

/// Of two nodes exactly one comes first, unless they stand level.
pub proof fn lemma_node_trichotomy(a: NodeView, b: NodeView)
    ensures
        node_before(a, b) ==> !node_before(b, a) && !node_level(a, b),
        node_before(a, b) || node_level(a, b) || node_before(b, a),
{
    lemma_text_trichotomy(a.node_id, b.node_id);
    lemma_text_trichotomy(a.source_file, b.source_file);
    lemma_text_trichotomy(b.node_id, a.node_id);
    lemma_text_trichotomy(b.source_file, a.source_file);
}

/// The order of nodes is transitive.
pub proof fn lemma_node_transitive(a: NodeView, b: NodeView, c: NodeView)
    requires
        node_before(a, b),
        node_before(b, c),
    ensures
        node_before(a, c),
{
    if text_before(a.node_id, b.node_id) && text_before(b.node_id, c.node_id) {
        lemma_text_transitive(a.node_id, b.node_id, c.node_id);
    }
    if text_before(a.source_file, b.source_file) && text_before(b.source_file, c.source_file) {
        lemma_text_transitive(a.source_file, b.source_file, c.source_file);
    }
}

impl Ranked for GraphNode {
    open spec fn ranks_before(&self, other: &GraphNode) -> bool {
        node_before(self@, other@)
    }

    fn is_before(&self, other: &GraphNode) -> (r: bool) {
        match place_text(self.node_id.as_str(), other.node_id.as_str()) {
            Placement::Before => {
                return true;
            },
            Placement::After => {
                return false;
            },
            Placement::Same => {},
        }
        match place_text(self.source_file.as_str(), other.source_file.as_str()) {
            Placement::Before => {
                return true;
            },
            Placement::After => {
                return false;
            },
            Placement::Same => {},
        }
        self.start_line < other.start_line
    }

    proof fn rank_is_asymmetric(a: &GraphNode, b: &GraphNode) {
        lemma_node_trichotomy(a@, b@);
    }

    proof fn rank_is_transitive(a: &GraphNode, b: &GraphNode, c: &GraphNode) {
        lemma_node_trichotomy(a@, b@);
        lemma_node_trichotomy(b@, c@);
        lemma_node_trichotomy(c@, a@);
        if node_before(c@, a@) {
            if node_level(a@, b@) {
            } else if node_level(b@, c@) {
            } else {
                lemma_node_transitive(a@, b@, c@);
            }
        }
    }
}

/// Whether node `w` is the one that stands for its id: no node of that id comes before it, and of
/// those that stand level it is the first of the list.
pub open spec fn stands_for_id(nodes: Seq<NodeView>, w: int) -> bool {
    &&& 0 <= w < nodes.len()
    &&& forall|j: int|
        0 <= j < nodes.len() && (#[trigger] nodes[j]).node_id == nodes[w].node_id ==> node_before(
            nodes[w],
            nodes[j],
        ) || (node_level(nodes[w], nodes[j]) && w <= j)
}

/// Whether `nodes` stand in the order of their ids, each id once.
pub open spec fn ids_sorted(nodes: Seq<NodeView>) -> bool {
    forall|i: int, j: int|
        0 <= i < j < nodes.len() ==> text_before(
            (#[trigger] nodes[i]).node_id,
            (#[trigger] nodes[j]).node_id,
        )
}

/// Whether `nodes` has a node of the id `id`.
pub open spec fn has_id(nodes: Seq<NodeView>, id: Seq<char>) -> bool {
    exists|k: int| 0 <= k < nodes.len() && (#[trigger] nodes[k]).node_id == id
}

/// Whether `node` is the one that stands for its id among `all`.
pub open spec fn is_standing(all: Seq<NodeView>, node: NodeView) -> bool {
    exists|w: int| #[trigger] stands_for_id(all, w) && all[w] == node
}

/// Whether `out` is the canonical form of `all`: sorted by id, for each id the one node that stands
/// for it.
pub open spec fn canonical_nodes(all: Seq<NodeView>, out: Seq<NodeView>) -> bool {
    &&& ids_sorted(out)
    &&& forall|k: int| 0 <= k < out.len() ==> is_standing(all, #[trigger] out[k])
    &&& forall|w: int| 0 <= w < all.len() ==> has_id(out, (#[trigger] all[w]).node_id)
}

proof fn lemma_first_of_its_id(nodes: Seq<GraphNode>, order: Seq<usize>, k: int)
    requires
        orders(nodes, order),
        0 <= k < order.len(),
        k > 0 ==> nodes[order[k - 1] as int]@.node_id != nodes[order[k] as int]@.node_id,
        nodes.len() <= usize::MAX,
    ensures
        stands_for_id(node_views(nodes), order[k] as int),
{
    let all = node_views(nodes);
    let w = order[k] as int;
    assert forall|j: int|
        0 <= j < all.len() && (#[trigger] all[j]).node_id == all[w].node_id implies node_before(
        all[w],
        all[j],
    ) || (node_level(all[w], all[j]) && w <= j) by {
        assert(order.contains(j as usize));
        let l = choose|l: int| 0 <= l < order.len() && order[l] == j as usize;
        if l < k {
            let p = order[k - 1] as int;
            assert(sorts_before(nodes, p, w));
            if l < k - 1 {
                assert(sorts_before(nodes, order[l] as int, p));
            }
            lemma_node_trichotomy(all[p], all[w]);
            lemma_node_trichotomy(all[j], all[p]);
            lemma_text_trichotomy(all[p].node_id, all[w].node_id);
            lemma_text_trichotomy(all[j].node_id, all[p].node_id);
        } else if l > k {
            assert(sorts_before(nodes, order[k] as int, order[l] as int));
            lemma_node_trichotomy(all[w], all[j]);
        } else {
            assert(node_level(all[w], all[j]));
        }
    }
}

/// The nodes sorted by id, each id once. Where several nodes share an id, the one of the first file in
/// order stands for it, and within a file the one of the first line.
pub fn dedup_colliding_node_ids(nodes: Vec<GraphNode>) -> (out: Vec<GraphNode>)
    ensures
        canonical_nodes(node_views(nodes@), node_views(out@)),
{
    let ghost all = node_views(nodes@);
    let order = sorted_order(&nodes);
    let mut out: Vec<GraphNode> = Vec::new();
    let mut k: usize = 0;
    while k < order.len()
        invariant
            all == node_views(nodes@),
            orders(nodes@, order@),
            k <= order@.len(),
            ids_sorted(node_views(out@)),
            k > 0 ==> out@.len() > 0 && out@[out@.len() - 1]@.node_id == all[order@[k
                - 1] as int].node_id,
            k == 0 ==> out@.len() == 0,
            forall|j: int|
                0 <= j < out@.len() ==> is_standing(all, #[trigger] node_views(out@)[j]),
            forall|j: int|
                0 <= j < k ==> has_id(node_views(out@), all[#[trigger] order@[j] as int].node_id),
        decreases order.len() - k,
    {
        let i = order[k];
        let ghost before = node_views(out@);
        let keep = if out.len() == 0 {
            true
        } else {
            !same(out[out.len() - 1].node_id.as_str(), nodes[i].node_id.as_str())
        };
        if keep {
            let n = nodes[i].copied();
            proof {
                assert(n@ == all[i as int]);
                assert(nodes.len() <= usize::MAX);
                lemma_first_of_its_id(nodes@, order@, k as int);
                assert(stands_for_id(all, i as int));
                assert(is_standing(all, n@));
                if k > 0 {
                    let last = all[order@[k - 1] as int];
                    assert(sorts_before(nodes@, order@[k - 1] as int, order@[k as int] as int));
                    lemma_node_trichotomy(last, n@);
                    assert(before[before.len() - 1].node_id == last.node_id);
                    lemma_text_trichotomy(last.node_id, n@.node_id);
                    assert(text_before(last.node_id, n@.node_id));
                    assert forall|j: int| 0 <= j < before.len() implies text_before(
                        (#[trigger] before[j]).node_id,
                        n@.node_id,
                    ) by {
                        if j < before.len() - 1 {
                            assert(text_before(before[j].node_id, before[before.len() - 1].node_id));
                            lemma_text_transitive(before[j].node_id, last.node_id, n@.node_id);
                        }
                    }
                }
            }
            out.push(n);
            assert(node_views(out@) =~= before.push(n@));
        }
        proof {
            let now = node_views(out@);
            assert(now[now.len() - 1].node_id == all[i as int].node_id);
            assert forall|j: int| 0 <= j < k + 1 implies has_id(
                now,
                all[#[trigger] order@[j] as int].node_id,
            ) by {
                let id = all[order@[j] as int].node_id;
                if j < k {
                    assert(has_id(before, id));
                    let w = choose|w: int| 0 <= w < before.len() && (#[trigger] before[w]).node_id == id;
                    assert(now[w].node_id == id);
                }
            }
        }
        k = k + 1;
    }
    proof {
        let now = node_views(out@);
        assert forall|w: int| 0 <= w < all.len() implies has_id(now, (#[trigger] all[w]).node_id) by {
            assert(nodes.len() <= usize::MAX);
            assert(order@.contains(w as usize));
            let j = choose|j: int| 0 <= j < order@.len() && order@[j] == w as usize;
            assert(has_id(now, all[order@[j] as int].node_id));
        }
    }
    out
}

} // verus!
