//! What holds of the symbols of every file and of every resolved graph.
use super::callee::{bound_in, declared_type, names_self, receiver_name_qualifier, type_like};
use super::canon::{
    canonical_nodes, edge_before, edges_sorted, has_id, ids_sorted, is_standing,
    lemma_edge_trichotomy, lemma_node_trichotomy, node_before, node_level, stands_for_id,
};
use super::emit::{
    container_id, definition_id, file_node, needs_body, owner, symbols_of, symbols_of_first, Classifier,
    TaggedSymbols,
};
use super::resolve::{
    all_callables, all_edges, all_nodes, all_targets, ambiguous_among, ambiguous_calls, call_edges,
    counts_of, everywhere, fact_edges, fact_nodes, file_edges, file_nodes, fits_qualifier, fitting, named,
    picked, resolution, resolves_to, unresolved_among, unresolved_calls, PickView, ResolveCounts,
};
use super::{CallView, SymbolsView};
use crate::model::{EdgeView, FactsView, GraphView, NodeView, TargetView};
use crate::syntax::{lemma_parent, TreeView};
use crate::order::{lemma_text_trichotomy, text_before};
use vstd::multiset::*;
use vstd::prelude::*;
use vstd::seq_lib::*;

verus! {

// -------------------------------------------------------------------------------------------------
// One graph
// -------------------------------------------------------------------------------------------------
proof fn lemma_sorted_edges_equal(a: Seq<EdgeView>, b: Seq<EdgeView>)
    requires
        edges_sorted(a),
        edges_sorted(b),
        forall|e: EdgeView| #[trigger] a.contains(e) <==> b.contains(e),
    ensures
        a == b,
    decreases a.len(),
{
    if a.len() == 0 {
        if b.len() > 0 {
            assert(b.contains(b[0]));
            assert(a.contains(b[0]));
        }
        assert(a =~= b);
    } else {
        assert(a.contains(a.last()));
        assert(b.len() > 0);
        assert(b.contains(b.last()));
        assert(a.contains(b.last()));
        let i = choose|i: int| 0 <= i < a.len() && a[i] == b.last();
        let j = choose|j: int| 0 <= j < b.len() && b[j] == a.last();
        if a.last() != b.last() {
            assert(edge_before(a[i], a[a.len() - 1]));
            assert(edge_before(b[j], b[b.len() - 1]));
            lemma_edge_trichotomy(a.last(), b.last());
        }
        let a0 = a.drop_last();
        let b0 = b.drop_last();
        assert forall|e: EdgeView| #[trigger] a0.contains(e) <==> b0.contains(e) by {
            if a0.contains(e) {
                let k = choose|k: int| 0 <= k < a0.len() && a0[k] == e;
                assert(a[k] == e);
                assert(edge_before(a[k], a[a.len() - 1]));
                lemma_edge_trichotomy(e, a.last());
                assert(a.contains(e));
                let l = choose|l: int| 0 <= l < b.len() && b[l] == e;
                assert(b0[l] == e);
            }
            if b0.contains(e) {
                let k = choose|k: int| 0 <= k < b0.len() && b0[k] == e;
                assert(b[k] == e);
                assert(edge_before(b[k], b[b.len() - 1]));
                lemma_edge_trichotomy(e, b.last());
                assert(b.contains(e));
                assert(a.contains(e));
                let l = choose|l: int| 0 <= l < a.len() && a[l] == e;
                assert(a0[l] == e);
            }
        }
        lemma_sorted_edges_equal(a0, b0);
        assert(a =~= a0.push(a.last()));
        assert(b =~= b0.push(b.last()));
    }
}

proof fn lemma_sorted_nodes_equal(a: Seq<NodeView>, b: Seq<NodeView>)
    requires
        ids_sorted(a),
        ids_sorted(b),
        forall|n: NodeView| #[trigger] a.contains(n) <==> b.contains(n),
    ensures
        a == b,
    decreases a.len(),
{
    if a.len() == 0 {
        if b.len() > 0 {
            assert(b.contains(b[0]));
            assert(a.contains(b[0]));
        }
        assert(a =~= b);
    } else {
        assert(a.contains(a.last()));
        assert(b.len() > 0);
        assert(b.contains(b.last()));
        assert(a.contains(b.last()));
        let i = choose|i: int| 0 <= i < a.len() && a[i] == b.last();
        let j = choose|j: int| 0 <= j < b.len() && b[j] == a.last();
        if a.last() != b.last() {
            assert(text_before(a[i].node_id, a[a.len() - 1].node_id));
            assert(text_before(b[j].node_id, b[b.len() - 1].node_id));
            lemma_text_trichotomy(a.last().node_id, b.last().node_id);
        }
        let a0 = a.drop_last();
        let b0 = b.drop_last();
        assert forall|n: NodeView| #[trigger] a0.contains(n) <==> b0.contains(n) by {
            if a0.contains(n) {
                let k = choose|k: int| 0 <= k < a0.len() && a0[k] == n;
                assert(a[k] == n);
                assert(text_before(a[k].node_id, a[a.len() - 1].node_id));
                lemma_text_trichotomy(n.node_id, a.last().node_id);
                assert(a.contains(n));
                let l = choose|l: int| 0 <= l < b.len() && b[l] == n;
                assert(b0[l] == n);
            }
            if b0.contains(n) {
                let k = choose|k: int| 0 <= k < b0.len() && b0[k] == n;
                assert(b[k] == n);
                assert(text_before(b[k].node_id, b[b.len() - 1].node_id));
                lemma_text_trichotomy(n.node_id, b.last().node_id);
                assert(b.contains(n));
                assert(a.contains(n));
                let l = choose|l: int| 0 <= l < a.len() && a[l] == n;
                assert(a0[l] == n);
            }
        }
        lemma_sorted_nodes_equal(a0, b0);
        assert(a =~= a0.push(a.last()));
        assert(b =~= b0.push(b.last()));
    }
}

/// Of one list, one node stands for an id.
proof fn lemma_one_stands(all: Seq<NodeView>, v: int, w: int)
    requires
        stands_for_id(all, v),
        stands_for_id(all, w),
        all[v].node_id == all[w].node_id,
    ensures
        v == w,
{
    lemma_node_trichotomy(all[v], all[w]);
    lemma_node_trichotomy(all[w], all[v]);
}

proof fn lemma_standing_in_both(all: Seq<NodeView>, a: Seq<NodeView>, b: Seq<NodeView>, n: NodeView)
    requires
        canonical_nodes(all, a),
        canonical_nodes(all, b),
        a.contains(n),
    ensures
        b.contains(n),
{
    let k = choose|k: int| 0 <= k < a.len() && a[k] == n;
    assert(is_standing(all, a[k]));
    let v = choose|v: int| #[trigger] stands_for_id(all, v) && all[v] == n;
    assert(has_id(b, all[v].node_id));
    let l = choose|l: int| 0 <= l < b.len() && (#[trigger] b[l]).node_id == n.node_id;
    assert(is_standing(all, b[l]));
    let w = choose|w: int| #[trigger] stands_for_id(all, w) && all[w] == b[l];
    lemma_one_stands(all, v, w);
}

/// What is resolved from the same symbols and facts is the same graph: two runs over the same files
/// give the same nodes and edges in the same order.
pub proof fn graph_is_determined(
    files: Seq<SymbolsView>,
    framework: Seq<FactsView>,
    g: GraphView,
    h: GraphView,
)
    requires
        resolves_to(files, framework, g),
        resolves_to(files, framework, h),
    ensures
        g == h,
{
    let all = all_nodes(files, framework);
    assert forall|n: NodeView| #[trigger] g.nodes.contains(n) <==> h.nodes.contains(n) by {
        if g.nodes.contains(n) {
            lemma_standing_in_both(all, g.nodes, h.nodes, n);
        }
        if h.nodes.contains(n) {
            lemma_standing_in_both(all, h.nodes, g.nodes, n);
        }
    }
    lemma_sorted_nodes_equal(g.nodes, h.nodes);
    assert forall|e: EdgeView| #[trigger] g.edges.contains(e) <==> h.edges.contains(e) by {
        assert(all_edges(files, framework).contains(e) <==> h.edges.contains(e));
    }
    lemma_sorted_edges_equal(g.edges, h.edges);
}

// -------------------------------------------------------------------------------------------------
// Order of the files
// -------------------------------------------------------------------------------------------------
spec fn flat<A, T>(s: Seq<A>, g: spec_fn(A) -> Seq<T>) -> Seq<T>
    decreases s.len(),
{
    if s.len() == 0 {
        Seq::empty()
    } else {
        flat(s.drop_last(), g) + g(s.last())
    }
}

proof fn lemma_flat_remove<A, T>(s: Seq<A>, i: int, g: spec_fn(A) -> Seq<T>)
    requires
        0 <= i < s.len(),
    ensures
        flat(s, g).to_multiset() =~= flat(s.remove(i), g).to_multiset().add(g(s[i]).to_multiset()),
    decreases s.len(),
{
    let last = s.last();
    lemma_multiset_commutative(flat(s.drop_last(), g), g(last));
    if i == s.len() - 1 {
        assert(s.remove(i) =~= s.drop_last());
    } else {
        lemma_flat_remove(s.drop_last(), i, g);
        assert(s.remove(i).drop_last() =~= s.drop_last().remove(i));
        assert(s.remove(i).last() == last);
        lemma_multiset_commutative(flat(s.drop_last().remove(i), g), g(last));
    }
}

proof fn lemma_flat_rearranged<A, T>(a: Seq<A>, b: Seq<A>, g: spec_fn(A) -> Seq<T>)
    requires
        a.to_multiset() == b.to_multiset(),
    ensures
        flat(a, g).to_multiset() == flat(b, g).to_multiset(),
    decreases a.len(),
{
    a.to_multiset_ensures();
    b.to_multiset_ensures();
    if a.len() == 0 {
        assert(b.len() == 0);
        assert(a =~= b);
    } else {
        let x = a.last();
        assert(a.contains(x));
        assert(a.to_multiset().count(x) > 0);
        assert(b.contains(x));
        let i = choose|i: int| 0 <= i < b.len() && b[i] == x;
        assert(a.remove(a.len() - 1) =~= a.drop_last());
        assert(a.drop_last().to_multiset() =~= a.to_multiset().remove(x));
        assert(b.remove(i).to_multiset() =~= b.to_multiset().remove(x));
        lemma_flat_rearranged(a.drop_last(), b.remove(i), g);
        lemma_flat_remove(b, i, g);
        lemma_multiset_commutative(flat(a.drop_last(), g), g(x));
    }
}

proof fn lemma_named_count(s: Seq<TargetView>, name: Seq<char>, c: TargetView)
    ensures
        named(s, name).to_multiset().count(c) == if c.name == name {
            s.to_multiset().count(c)
        } else {
            0
        },
    decreases s.len(),
{
    broadcast use group_to_multiset_ensures;

    if s.len() > 0 {
        lemma_named_count(s.drop_last(), name, c);
        assert(s =~= s.drop_last().push(s.last()));
    } else {
        assert(s =~= Seq::empty());
    }
}

proof fn lemma_fitting_count(s: Seq<TargetView>, q: Seq<char>, c: TargetView)
    ensures
        fitting(s, q).to_multiset().count(c) == if fits_qualifier(c, q) {
            s.to_multiset().count(c)
        } else {
            0
        },
    decreases s.len(),
{
    broadcast use group_to_multiset_ensures;

    if s.len() > 0 {
        lemma_fitting_count(s.drop_last(), q, c);
        assert(s =~= s.drop_last().push(s.last()));
    } else {
        assert(s =~= Seq::empty());
    }
}

proof fn lemma_single_of_multiset<T>(a: Seq<T>, b: Seq<T>)
    requires
        a.to_multiset() == b.to_multiset(),
    ensures
        a.len() == b.len(),
        a.len() == 1 ==> a[0] == b[0],
{
    a.to_multiset_ensures();
    b.to_multiset_ensures();
    if a.len() == 1 {
        assert(a.contains(a[0]));
        assert(a.to_multiset().count(a[0]) > 0);
        assert(b.contains(a[0]));
    }
}

proof fn lemma_picked_rearranged(a: Seq<TargetView>, b: Seq<TargetView>, q: Option<Seq<char>>)
    requires
        a.to_multiset() == b.to_multiset(),
    ensures
        picked(a, q) == picked(b, q),
{
    lemma_single_of_multiset(a, b);
    if let Some(text) = q {
        assert forall|c: TargetView|
            fitting(a, text).to_multiset().count(c) == fitting(b, text).to_multiset().count(c) by {
            lemma_fitting_count(a, text, c);
            lemma_fitting_count(b, text, c);
        }
        assert(fitting(a, text).to_multiset() =~= fitting(b, text).to_multiset());
        lemma_single_of_multiset(fitting(a, text), fitting(b, text));
    }
}

/// What a call resolves to does not depend on the order of the candidates.
pub proof fn resolution_does_not_depend_on_order(
    local: Seq<TargetView>,
    a: Seq<TargetView>,
    b: Seq<TargetView>,
    call: CallView,
)
    requires
        a.to_multiset() == b.to_multiset(),
    ensures
        resolution(local, a, call) == resolution(local, b, call),
{
    let name = call.name;
    assert forall|c: TargetView|
        named(a, name).to_multiset().count(c) == named(b, name).to_multiset().count(c) by {
        lemma_named_count(a, name, c);
        lemma_named_count(b, name, c);
    }
    assert(named(a, name).to_multiset() =~= named(b, name).to_multiset());
    lemma_picked_rearranged(named(a, name), named(b, name), call.qualifier);
}

proof fn lemma_call_edges_rearranged(
    local: Seq<TargetView>,
    a: Seq<TargetView>,
    b: Seq<TargetView>,
    calls: Seq<CallView>,
)
    requires
        a.to_multiset() == b.to_multiset(),
    ensures
        call_edges(local, a, calls) == call_edges(local, b, calls),
    decreases calls.len(),
{
    if calls.len() > 0 {
        lemma_call_edges_rearranged(local, a, b, calls.drop_last());
        resolution_does_not_depend_on_order(local, a, b, calls.last());
    }
}

spec fn edges_of_file(f: SymbolsView, far: Seq<TargetView>) -> Seq<EdgeView> {
    f.contains + call_edges(f.callables, far, f.calls)
}

proof fn lemma_file_edges_flat(files: Seq<SymbolsView>, far: Seq<TargetView>)
    ensures
        file_edges(files, far) == flat(files, |f: SymbolsView| edges_of_file(f, far)),
    decreases files.len(),
{
    if files.len() > 0 {
        lemma_file_edges_flat(files.drop_last(), far);
        let g = |f: SymbolsView| edges_of_file(f, far);
        assert(g(files.last()) == edges_of_file(files.last(), far));
        assert(file_edges(files, far) =~= flat(files, g));
    }
}

proof fn lemma_file_edges_same_far(
    files: Seq<SymbolsView>,
    a: Seq<TargetView>,
    b: Seq<TargetView>,
)
    requires
        a.to_multiset() == b.to_multiset(),
    ensures
        file_edges(files, a) == file_edges(files, b),
    decreases files.len(),
{
    if files.len() > 0 {
        lemma_file_edges_same_far(files.drop_last(), a, b);
        lemma_call_edges_rearranged(files.last().callables, a, b, files.last().calls);
    }
}

proof fn lemma_parts_flat(files: Seq<SymbolsView>, framework: Seq<FactsView>)
    ensures
        all_callables(files) == flat(files, |f: SymbolsView| f.callables),
        file_nodes(files) == flat(files, |f: SymbolsView| f.nodes),
        all_targets(framework) == flat(framework, |f: FactsView| f.call_targets),
        fact_nodes(framework) == flat(framework, |f: FactsView| f.nodes),
        fact_edges(framework) == flat(framework, |f: FactsView| f.edges),
    decreases files.len() + framework.len(),
{
    if files.len() > 0 {
        lemma_parts_flat(files.drop_last(), framework);
    } else if framework.len() > 0 {
        lemma_parts_flat(files, framework.drop_last());
    }
}

proof fn lemma_same_members<T>(a: Seq<T>, b: Seq<T>)
    requires
        a.to_multiset() == b.to_multiset(),
    ensures
        forall|x: T| #[trigger] a.contains(x) <==> b.contains(x),
{
    a.to_multiset_ensures();
    b.to_multiset_ensures();
    assert forall|x: T| #[trigger] a.contains(x) <==> b.contains(x) by {
        assert(a.contains(x) <==> a.to_multiset().count(x) > 0);
        assert(b.contains(x) <==> b.to_multiset().count(x) > 0);
    }
}

/// Whether nodes that share id, file and line are the same node.
pub open spec fn levels_agree(nodes: Seq<NodeView>) -> bool {
    forall|i: int, j: int|
        0 <= i < nodes.len() && 0 <= j < nodes.len() && node_level(
            #[trigger] nodes[i],
            #[trigger] nodes[j],
        ) ==> nodes[i] == nodes[j]
}

proof fn lemma_first_occurrence(s: Seq<NodeView>, n: NodeView) -> (w: int)
    requires
        s.contains(n),
    ensures
        0 <= w < s.len(),
        s[w] == n,
        forall|j: int| 0 <= j < w ==> s[j] != n,
    decreases s.len(),
{
    if s.drop_last().contains(n) {
        let w = lemma_first_occurrence(s.drop_last(), n);
        assert forall|j: int| 0 <= j < w implies s[j] != n by {
            assert(s.drop_last()[j] == s[j]);
        }
        w
    } else {
        let i = choose|i: int| 0 <= i < s.len() && s[i] == n;
        if i < s.len() - 1 {
            assert(s.drop_last()[i] == n);
        }
        assert forall|j: int| 0 <= j < s.len() - 1 implies s[j] != n by {
            assert(s.drop_last()[j] == s[j]);
        }
        s.len() - 1
    }
}

proof fn lemma_standing_moves(a: Seq<NodeView>, b: Seq<NodeView>, n: NodeView)
    requires
        forall|x: NodeView| #[trigger] a.contains(x) <==> b.contains(x),
        levels_agree(a),
        is_standing(a, n),
    ensures
        is_standing(b, n),
{
    let v = choose|v: int| #[trigger] stands_for_id(a, v) && a[v] == n;
    assert(a.contains(n));
    let w = lemma_first_occurrence(b, n);
    assert forall|j: int| 0 <= j < b.len() && (#[trigger] b[j]).node_id == b[w].node_id implies (
    node_before(b[w], b[j]) || (node_level(b[w], b[j]) && w <= j)) by {
        assert(b.contains(b[j]));
        assert(a.contains(b[j]));
        let i = choose|i: int| 0 <= i < a.len() && a[i] == b[j];
        assert(a[i].node_id == a[v].node_id);
        if node_level(a[v], a[i]) {
            assert(a[v] == a[i]);
            assert(b[j] == n);
        }
    }
    assert(stands_for_id(b, w));
}

/// The graph does not depend on the order in which files were pushed or framework facts were
/// collected, where nodes that share id, file and line are the same node.
pub proof fn graph_does_not_depend_on_order(
    files: Seq<SymbolsView>,
    framework: Seq<FactsView>,
    other_files: Seq<SymbolsView>,
    other_framework: Seq<FactsView>,
    g: GraphView,
)
    requires
        files.to_multiset() == other_files.to_multiset(),
        framework.to_multiset() == other_framework.to_multiset(),
        levels_agree(all_nodes(files, framework)),
        resolves_to(files, framework, g),
    ensures
        resolves_to(other_files, other_framework, g),
{
    lemma_parts_flat(files, framework);
    lemma_parts_flat(other_files, other_framework);
    lemma_flat_rearranged(files, other_files, |f: SymbolsView| f.callables);
    lemma_flat_rearranged(files, other_files, |f: SymbolsView| f.nodes);
    lemma_flat_rearranged(framework, other_framework, |f: FactsView| f.call_targets);
    lemma_flat_rearranged(framework, other_framework, |f: FactsView| f.nodes);
    lemma_flat_rearranged(framework, other_framework, |f: FactsView| f.edges);
    let far = everywhere(files, framework);
    let other_far = everywhere(other_files, other_framework);
    lemma_multiset_commutative(all_callables(files), all_targets(framework));
    lemma_multiset_commutative(all_callables(other_files), all_targets(other_framework));
    assert(far.to_multiset() == other_far.to_multiset());

    lemma_file_edges_same_far(files, far, other_far);
    lemma_file_edges_flat(files, other_far);
    lemma_file_edges_flat(other_files, other_far);
    lemma_flat_rearranged(files, other_files, |f: SymbolsView| edges_of_file(f, other_far));
    lemma_multiset_commutative(file_edges(files, far), fact_edges(framework));
    lemma_multiset_commutative(file_edges(other_files, other_far), fact_edges(other_framework));
    let edges = all_edges(files, framework);
    let other_edges = all_edges(other_files, other_framework);
    assert(edges.to_multiset() == other_edges.to_multiset());
    lemma_same_members(edges, other_edges);
    assert forall|e: EdgeView| #[trigger] g.edges.contains(e) <==> other_edges.contains(e) by {
        assert(edges.contains(e) <==> other_edges.contains(e));
    }

    lemma_multiset_commutative(file_nodes(files), fact_nodes(framework));
    lemma_multiset_commutative(file_nodes(other_files), fact_nodes(other_framework));
    let nodes = all_nodes(files, framework);
    let other_nodes = all_nodes(other_files, other_framework);
    assert(nodes.to_multiset() == other_nodes.to_multiset());
    lemma_same_members(nodes, other_nodes);
    assert forall|k: int| 0 <= k < g.nodes.len() implies is_standing(
        other_nodes,
        #[trigger] g.nodes[k],
    ) by {
        lemma_standing_moves(nodes, other_nodes, g.nodes[k]);
    }
    assert forall|w: int| 0 <= w < other_nodes.len() implies has_id(
        g.nodes,
        (#[trigger] other_nodes[w]).node_id,
    ) by {
        assert(other_nodes.contains(other_nodes[w]));
        assert(nodes.contains(other_nodes[w]));
        let v = choose|v: int| 0 <= v < nodes.len() && nodes[v] == other_nodes[w];
        assert(has_id(g.nodes, nodes[v].node_id));
    }
}

// -------------------------------------------------------------------------------------------------
// Calls
// -------------------------------------------------------------------------------------------------
/// A definition of the call's own file wins: where these settle the call, nothing elsewhere counts.
pub proof fn local_definitions_win(
    local: Seq<TargetView>,
    everywhere: Seq<TargetView>,
    call: CallView,
    id: Seq<char>,
)
    requires
        picked(named(local, call.name), call.qualifier) == PickView::One(id),
    ensures
        resolution(local, everywhere, call) == Some(id),
{
}

proof fn lemma_named_members(all: Seq<TargetView>, name: Seq<char>)
    ensures
        forall|k: int|
            0 <= k < named(all, name).len() ==> (#[trigger] named(all, name)[k]).name == name
                && all.contains(named(all, name)[k]),
    decreases all.len(),
{
    if all.len() > 0 {
        let rest = all.drop_last();
        lemma_named_members(rest, name);
        assert forall|k: int| 0 <= k < named(all, name).len() implies (#[trigger] named(
            all,
            name,
        )[k]).name == name && all.contains(named(all, name)[k]) by {
            let c = named(all, name)[k];
            if k < named(rest, name).len() {
                assert(c == named(rest, name)[k]);
                let w = choose|w: int| 0 <= w < rest.len() && rest[w] == c;
                assert(all[w] == c);
            } else {
                assert(all[all.len() - 1] == c);
            }
        }
    }
}

proof fn lemma_fitting_members(all: Seq<TargetView>, q: Seq<char>)
    ensures
        forall|k: int|
            0 <= k < fitting(all, q).len() ==> all.contains(#[trigger] fitting(all, q)[k])
                && fits_qualifier(fitting(all, q)[k], q),
    decreases all.len(),
{
    if all.len() > 0 {
        let rest = all.drop_last();
        lemma_fitting_members(rest, q);
        assert forall|k: int| 0 <= k < fitting(all, q).len() implies all.contains(
            #[trigger] fitting(all, q)[k],
        ) && fits_qualifier(fitting(all, q)[k], q) by {
            let c = fitting(all, q)[k];
            if k < fitting(rest, q).len() {
                assert(c == fitting(rest, q)[k]);
                let w = choose|w: int| 0 <= w < rest.len() && rest[w] == c;
                assert(all[w] == c);
            } else {
                assert(all[all.len() - 1] == c);
            }
        }
    }
}

/// Whether `c` is what a call with the qualifier `q` may resolve to: it has the call's name, and where
/// it lies in a type the qualifier does not name another.
pub open spec fn answers(c: TargetView, call: CallView) -> bool {
    &&& c.name == call.name
    &&& call.qualifier is Some && c.scope is Some ==> fits_qualifier(c, call.qualifier->0)
}

proof fn lemma_picked_answers(all: Seq<TargetView>, call: CallView, id: Seq<char>) -> (c: TargetView)
    requires
        picked(named(all, call.name), call.qualifier) == PickView::One(id),
    ensures
        all.contains(c),
        answers(c, call),
        c.node_id == id,
{
    let candidates = named(all, call.name);
    lemma_named_members(all, call.name);
    if candidates.len() == 1 {
        candidates[0]
    } else {
        lemma_fitting_members(candidates, call.qualifier->0);
        let c = fitting(candidates, call.qualifier->0)[0];
        assert(candidates.contains(c));
        c
    }
}

/// A call resolves only to a definition of its own name, and never to one of another type than its
/// qualifier names.
pub proof fn call_resolves_to_an_answer(
    local: Seq<TargetView>,
    everywhere: Seq<TargetView>,
    call: CallView,
    id: Seq<char>,
)
    requires
        resolution(local, everywhere, call) == Some(id),
    ensures
        exists|c: TargetView|
            (local.contains(c) || everywhere.contains(c)) && #[trigger] answers(c, call) && c.node_id
                == id,
{
    if picked(named(local, call.name), call.qualifier) == PickView::One(id) {
        let c = lemma_picked_answers(local, call, id);
        assert(answers(c, call));
    } else {
        let c = lemma_picked_answers(everywhere, call, id);
        assert(answers(c, call));
    }
}

/// A call that its own file does not settle, and whose name has one definition anywhere, resolves to
/// that definition where it answers the call.
pub proof fn single_answer_resolves(
    local: Seq<TargetView>,
    everywhere: Seq<TargetView>,
    call: CallView,
)
    requires
        !(picked(named(local, call.name), call.qualifier) is One),
        named(everywhere, call.name).len() == 1,
        answers(named(everywhere, call.name)[0], call),
    ensures
        resolution(local, everywhere, call) == Some(named(everywhere, call.name)[0].node_id),
{
}

/// A call without a qualifier that several definitions could answer resolves to none of them.
pub proof fn ambiguous_call_is_dropped(
    local: Seq<TargetView>,
    everywhere: Seq<TargetView>,
    call: CallView,
)
    requires
        call.qualifier is None,
        named(local, call.name).len() != 1,
        named(everywhere, call.name).len() >= 2,
    ensures
        resolution(local, everywhere, call) is None,
{
}

/// Whether `e` is the edge of one of `calls`: from its caller to what it resolves to.
pub open spec fn comes_of_a_call(
    e: EdgeView,
    local: Seq<TargetView>,
    everywhere: Seq<TargetView>,
    calls: Seq<CallView>,
) -> bool {
    exists|c: CallView|
        #![trigger calls.contains(c)]
        calls.contains(c) && resolution(local, everywhere, c) == Some(e.target) && e.source
            == c.caller && e.relation == "calls"@
}

/// A call gives at most one edge, from its caller to what it resolves to.
pub proof fn calls_do_not_fan_out(
    local: Seq<TargetView>,
    everywhere: Seq<TargetView>,
    calls: Seq<CallView>,
)
    ensures
        call_edges(local, everywhere, calls).len() <= calls.len(),
        forall|k: int|
            0 <= k < call_edges(local, everywhere, calls).len() ==> comes_of_a_call(
                #[trigger] call_edges(local, everywhere, calls)[k],
                local,
                everywhere,
                calls,
            ),
    decreases calls.len(),
{
    if calls.len() > 0 {
        let rest = calls.drop_last();
        calls_do_not_fan_out(local, everywhere, rest);
        let now = call_edges(local, everywhere, calls);
        let before = call_edges(local, everywhere, rest);
        assert forall|k: int| 0 <= k < now.len() implies comes_of_a_call(
            #[trigger] now[k],
            local,
            everywhere,
            calls,
        ) by {
            if k < before.len() {
                assert(now[k] == before[k]);
                assert(comes_of_a_call(before[k], local, everywhere, rest));
                let c = choose|c: CallView|
                    #![trigger rest.contains(c)]
                    rest.contains(c) && resolution(local, everywhere, c) == Some(before[k].target)
                        && before[k].source == c.caller && before[k].relation == "calls"@;
                let w = choose|w: int| 0 <= w < rest.len() && rest[w] == c;
                assert(calls[w] == c);
                assert(calls.contains(c));
            } else {
                assert(calls[calls.len() - 1] == calls.last());
                assert(calls.contains(calls.last()));
            }
        }
    }
}

/// No call is lost from sight: each gives its edge, or counts as ambiguous, or counts as unresolved,
/// and only one of these.
pub proof fn every_call_is_resolved_or_counted(
    local: Seq<TargetView>,
    everywhere: Seq<TargetView>,
    calls: Seq<CallView>,
)
    ensures
        call_edges(local, everywhere, calls).len() + ambiguous_among(local, everywhere, calls)
            + unresolved_among(local, everywhere, calls) == calls.len(),
    decreases calls.len(),
{
    if calls.len() > 0 {
        every_call_is_resolved_or_counted(local, everywhere, calls.drop_last());
    }
}

// -------------------------------------------------------------------------------------------------
// Framework facts
// -------------------------------------------------------------------------------------------------
/// Without framework facts the graph is that of the files alone.
pub proof fn no_framework_facts_change_nothing(files: Seq<SymbolsView>)
    ensures
        all_nodes(files, Seq::empty()) == file_nodes(files),
        everywhere(files, Seq::empty()) == all_callables(files),
        all_edges(files, Seq::empty()) == file_edges(files, all_callables(files)),
{
    assert(everywhere(files, Seq::empty()) =~= all_callables(files));
    assert(all_nodes(files, Seq::empty()) =~= file_nodes(files));
    assert(all_edges(files, Seq::empty()) =~= file_edges(files, all_callables(files)));
}

proof fn lemma_file_edges_hold_contains(files: Seq<SymbolsView>, far: Seq<TargetView>, i: int, e: EdgeView)
    requires
        0 <= i < files.len(),
        files[i].contains.contains(e),
    ensures
        file_edges(files, far).contains(e),
    decreases files.len(),
{
    let last = files.last();
    let before = file_edges(files.drop_last(), far);
    let tail = call_edges(last.callables, far, last.calls);
    if i == files.len() - 1 {
        let k = choose|k: int| 0 <= k < last.contains.len() && last.contains[k] == e;
        assert((before + last.contains + tail)[before.len() + k] == e);
    } else {
        assert(files.drop_last()[i] == files[i]);
        lemma_file_edges_hold_contains(files.drop_last(), far, i, e);
        let k = choose|k: int| 0 <= k < before.len() && before[k] == e;
        assert((before + last.contains + tail)[k] == e);
    }
}

proof fn lemma_fact_parts_held(framework: Seq<FactsView>, i: int)
    requires
        0 <= i < framework.len(),
    ensures
        forall|e: EdgeView| #[trigger]
            framework[i].edges.contains(e) ==> fact_edges(framework).contains(e),
        forall|n: NodeView| #[trigger]
            framework[i].nodes.contains(n) ==> fact_nodes(framework).contains(n),
    decreases framework.len(),
{
    let rest = framework.drop_last();
    let last = framework.last();
    if i < framework.len() - 1 {
        lemma_fact_parts_held(rest, i);
        assert(rest[i] == framework[i]);
    }
    assert forall|e: EdgeView| #[trigger] framework[i].edges.contains(e) implies fact_edges(
        framework,
    ).contains(e) by {
        if i == framework.len() - 1 {
            let k = choose|k: int| 0 <= k < last.edges.len() && last.edges[k] == e;
            assert((fact_edges(rest) + last.edges)[fact_edges(rest).len() + k] == e);
        } else {
            let k = choose|k: int| 0 <= k < fact_edges(rest).len() && fact_edges(rest)[k] == e;
            assert((fact_edges(rest) + last.edges)[k] == e);
        }
    }
    assert forall|n: NodeView| #[trigger] framework[i].nodes.contains(n) implies fact_nodes(
        framework,
    ).contains(n) by {
        if i == framework.len() - 1 {
            let k = choose|k: int| 0 <= k < last.nodes.len() && last.nodes[k] == n;
            assert((fact_nodes(rest) + last.nodes)[fact_nodes(rest).len() + k] == n);
        } else {
            let k = choose|k: int| 0 <= k < fact_nodes(rest).len() && fact_nodes(rest)[k] == n;
            assert((fact_nodes(rest) + last.nodes)[k] == n);
        }
    }
}

proof fn lemma_canonical_has_members(all: Seq<NodeView>, out: Seq<NodeView>, n: NodeView)
    requires
        canonical_nodes(all, out),
        all.contains(n),
    ensures
        has_id(out, n.node_id),
{
    let w = choose|w: int| 0 <= w < all.len() && all[w] == n;
    assert(has_id(out, all[w].node_id));
}

/// Framework facts only add: `g`, resolved with them, has a node for every id of `h`, resolved
/// without, and for every id they bring; it has every edge that says what a file contains, and every
/// edge they bring.
pub proof fn framework_facts_only_add(
    files: Seq<SymbolsView>,
    framework: Seq<FactsView>,
    h: GraphView,
    g: GraphView,
)
    requires
        resolves_to(files, Seq::empty(), h),
        resolves_to(files, framework, g),
    ensures
        forall|k: int| 0 <= k < h.nodes.len() ==> has_id(g.nodes, (#[trigger] h.nodes[k]).node_id),
        forall|i: int, n: NodeView|
            0 <= i < framework.len() && #[trigger] framework[i].nodes.contains(n) ==> has_id(
                g.nodes,
                n.node_id,
            ),
        forall|i: int, e: EdgeView|
            0 <= i < framework.len() && #[trigger] framework[i].edges.contains(e)
                ==> g.edges.contains(e),
        forall|i: int, e: EdgeView|
            0 <= i < files.len() && #[trigger] files[i].contains.contains(e) ==> g.edges.contains(e),
{
    no_framework_facts_change_nothing(files);
    let nodes = all_nodes(files, framework);
    let edges = all_edges(files, framework);
    let own = file_nodes(files);
    let own_edges = file_edges(files, everywhere(files, framework));
    assert forall|k: int| 0 <= k < h.nodes.len() implies has_id(
        g.nodes,
        (#[trigger] h.nodes[k]).node_id,
    ) by {
        assert(is_standing(own, h.nodes[k]));
        let w = choose|w: int| #[trigger] stands_for_id(own, w) && own[w] == h.nodes[k];
        assert(nodes[w] == own[w]);
        lemma_canonical_has_members(nodes, g.nodes, nodes[w]);
    }
    assert forall|i: int, n: NodeView|
        0 <= i < framework.len() && #[trigger] framework[i].nodes.contains(n) implies has_id(
        g.nodes,
        n.node_id,
    ) by {
        lemma_fact_parts_held(framework, i);
        let more = fact_nodes(framework);
        assert(more.contains(n));
        let k = choose|k: int| 0 <= k < more.len() && more[k] == n;
        assert(nodes[own.len() + k] == n);
        lemma_canonical_has_members(nodes, g.nodes, n);
    }
    assert forall|i: int, e: EdgeView|
        0 <= i < framework.len() && #[trigger] framework[i].edges.contains(
            e,
        ) implies g.edges.contains(e) by {
        lemma_fact_parts_held(framework, i);
        let more = fact_edges(framework);
        assert(more.contains(e));
        let k = choose|k: int| 0 <= k < more.len() && more[k] == e;
        assert(edges[own_edges.len() + k] == e);
        assert(edges.contains(e));
    }
    assert forall|i: int, e: EdgeView|
        0 <= i < files.len() && #[trigger] files[i].contains.contains(
            e,
        ) implies g.edges.contains(e) by {
        lemma_file_edges_hold_contains(files, everywhere(files, framework), i, e);
        let k = choose|k: int| 0 <= k < own_edges.len() && own_edges[k] == e;
        assert(edges[k] == e);
        assert(edges.contains(e));
    }
}

proof fn lemma_named_sum(a: Seq<TargetView>, b: Seq<TargetView>, name: Seq<char>)
    ensures
        named(a + b, name) == named(a, name) + named(b, name),
    decreases b.len(),
{
    if b.len() == 0 {
        assert(a + b =~= a);
        assert(named(a, name) + named(b, name) =~= named(a, name));
    } else {
        lemma_named_sum(a, b.drop_last(), name);
        assert((a + b).drop_last() =~= a + b.drop_last());
        assert((a + b).last() == b.last());
        assert(named(a + b, name) =~= named(a, name) + named(b, name));
    }
}

proof fn lemma_fitting_sum(a: Seq<TargetView>, b: Seq<TargetView>, q: Seq<char>)
    ensures
        fitting(a + b, q) == fitting(a, q) + fitting(b, q),
    decreases b.len(),
{
    if b.len() == 0 {
        assert(a + b =~= a);
        assert(fitting(a, q) + fitting(b, q) =~= fitting(a, q));
    } else {
        lemma_fitting_sum(a, b.drop_last(), q);
        assert((a + b).drop_last() =~= a + b.drop_last());
        assert((a + b).last() == b.last());
        assert(fitting(a + b, q) =~= fitting(a, q) + fitting(b, q));
    }
}

/// Whether a call names a type while the only definition of its name anywhere lies in no type.
pub open spec fn only_outside_types(all: Seq<TargetView>, call: CallView) -> bool {
    let candidates = named(all, call.name);
    call.qualifier is Some && candidates.len() == 1 && candidates[0].scope is None && !fits_qualifier(
        candidates[0],
        call.qualifier->0,
    )
}

/// Whether one of the targets `added` takes over a call from a definition that lies in no type: the
/// call, which its own file does not settle, names a type, and exactly one of the targets lies there.
pub open spec fn is_taken_over(
    local: Seq<TargetView>,
    all: Seq<TargetView>,
    added: Seq<TargetView>,
    call: CallView,
) -> bool {
    &&& !(picked(named(local, call.name), call.qualifier) is One)
    &&& only_outside_types(all, call)
    &&& fitting(named(added, call.name), call.qualifier->0).len() == 1
}

/// Framework call targets never reroute a call: one that resolved without them resolves to the same
/// node with them, or to none. This leaves out a call that one of them takes over from a definition
/// that lies in no type.
pub proof fn framework_targets_never_reroute(
    local: Seq<TargetView>,
    all: Seq<TargetView>,
    added: Seq<TargetView>,
    call: CallView,
    id: Seq<char>,
    other: Seq<char>,
)
    requires
        resolution(local, all, call) == Some(id),
        resolution(local, all + added, call) == Some(other),
        !is_taken_over(local, all, added, call),
    ensures
        id == other,
{
    lemma_named_sum(all, added, call.name);
    let a = named(all, call.name);
    let b = named(added, call.name);
    if picked(named(local, call.name), call.qualifier) is One {
    } else if b.len() == 0 {
        assert(a + b =~= a);
    } else {
        assert(a.len() > 0);
        assert((a + b).len() >= 2);
        let q = call.qualifier->0;
        lemma_fitting_sum(a, b, q);
        assert(fitting(a + b, q).len() == 1);
        if a.len() == 1 {
            assert(fitting(a.drop_last(), q) =~= Seq::empty());
            if fits_qualifier(a[0], q) {
                assert(fitting(a, q) =~= seq![a[0]]);
            } else {
                assert(fitting(a, q) =~= Seq::empty());
                assert(only_outside_types(all, call));
            }
        }
        assert(fitting(a, q).len() == 1);
        assert(fitting(a + b, q)[0] == fitting(a, q)[0]);
    }
}

/// Framework call targets settle a call only to themselves: what a call resolves to with them, it
/// resolves to without them, or it is one of them that answers the call.
pub proof fn framework_targets_settle_only_to_themselves(
    local: Seq<TargetView>,
    all: Seq<TargetView>,
    added: Seq<TargetView>,
    call: CallView,
    id: Seq<char>,
)
    requires
        resolution(local, all + added, call) == Some(id),
    ensures
        resolution(local, all, call) == Some(id) || exists|c: TargetView| #[trigger]
            added.contains(c) && answers(c, call) && c.node_id == id,
{
    lemma_named_sum(all, added, call.name);
    lemma_named_members(added, call.name);
    let a = named(all, call.name);
    let b = named(added, call.name);
    if picked(named(local, call.name), call.qualifier) is One {
    } else if b.len() == 0 {
        assert(a + b =~= a);
    } else if a.len() == 0 && b.len() == 1 {
        assert((a + b)[0] == b[0]);
        assert(added.contains(b[0]) && answers(b[0], call));
    } else {
        let q = call.qualifier->0;
        lemma_fitting_sum(a, b, q);
        lemma_fitting_members(b, q);
        let fa = fitting(a, q);
        let fb = fitting(b, q);
        assert(fitting(a + b, q).len() == 1);
        if fb.len() == 1 {
            assert((fa + fb)[0] == fb[0]);
            assert(b.contains(fb[0]));
            let k = choose|k: int| 0 <= k < b.len() && b[k] == fb[0];
            assert(added.contains(b[k]) && answers(b[k], call));
        } else {
            assert((fa + fb)[0] == fa[0]);
            if a.len() == 1 {
                assert(fitting(a.drop_last(), q) =~= Seq::empty());
            }
        }
    }
}

proof fn lemma_call_edge_held(
    local: Seq<TargetView>,
    everywhere: Seq<TargetView>,
    calls: Seq<CallView>,
    call: CallView,
    target: Seq<char>,
)
    requires
        calls.contains(call),
        resolution(local, everywhere, call) == Some(target),
    ensures
        call_edges(local, everywhere, calls).contains(
            (EdgeView { source: call.caller, target, relation: "calls"@ }),
        ),
    decreases calls.len(),
{
    let e = EdgeView { source: call.caller, target, relation: "calls"@ };
    let rest = calls.drop_last();
    let before = call_edges(local, everywhere, rest);
    let now = call_edges(local, everywhere, calls);
    let i = choose|i: int| 0 <= i < calls.len() && calls[i] == call;
    if i == calls.len() - 1 {
        assert(now[before.len() as int] == e);
    } else {
        assert(rest[i] == call);
        lemma_call_edge_held(local, everywhere, rest, call, target);
        let k = choose|k: int| 0 <= k < before.len() && before[k] == e;
        assert(now[k] == e);
    }
}

/// Whether `e` is one of the edges that framework facts bring.
pub open spec fn is_fact_edge(framework: Seq<FactsView>, e: EdgeView) -> bool {
    exists|i: int| 0 <= i < framework.len() && (#[trigger] framework[i]).edges.contains(e)
}

/// Whether `id` is what a call target of framework facts leads to.
pub open spec fn is_fact_target(framework: Seq<FactsView>, id: Seq<char>) -> bool {
    exists|i: int, c: TargetView|
        0 <= i < framework.len() && #[trigger] framework[i].call_targets.contains(c) && c.node_id
            == id
}

/// Framework facts add only edges of their own: an edge of `g`, resolved with them, that is not one of
/// `h`, resolved without, is an edge they bring, or a `calls` edge to what one of their call targets
/// leads to. So a call that did not resolve never comes to lead to a definition of a file.
pub proof fn framework_facts_add_only_edges_of_their_own(
    files: Seq<SymbolsView>,
    framework: Seq<FactsView>,
    h: GraphView,
    g: GraphView,
)
    requires
        resolves_to(files, Seq::empty(), h),
        resolves_to(files, framework, g),
    ensures
        forall|e: EdgeView| #[trigger]
            g.edges.contains(e) && !h.edges.contains(e) ==> is_fact_edge(framework, e) || (e.relation
                == "calls"@ && is_fact_target(framework, e.target)),
{
    no_framework_facts_change_nothing(files);
    lemma_parts_flat(files, framework);
    let callables = all_callables(files);
    let targets = all_targets(framework);
    let far = everywhere(files, framework);
    let own = file_edges(files, callables);
    let wide = file_edges(files, far);
    lemma_file_edges_flat(files, callables);
    lemma_file_edges_flat(files, far);
    let own_of = |f: SymbolsView| edges_of_file(f, callables);
    let wide_of = |f: SymbolsView| edges_of_file(f, far);
    let edges_fn = |f: FactsView| f.edges;
    let targets_fn = |f: FactsView| f.call_targets;
    assert forall|e: EdgeView| #[trigger]
        g.edges.contains(e) && !h.edges.contains(e) implies is_fact_edge(framework, e) || (e.relation
        == "calls"@ && is_fact_target(framework, e.target)) by {
        let all = all_edges(files, framework);
        assert(all.contains(e));
        let k = choose|k: int| 0 <= k < all.len() && all[k] == e;
        if k >= wide.len() {
            assert(fact_edges(framework)[k - wide.len()] == e);
            assert(flat(framework, edges_fn).contains(e));
            let i = lemma_flat_member(framework, edges_fn, e);
            assert(framework[i].edges.contains(e));
        } else {
            assert(wide[k] == e);
            assert(flat(files, wide_of).contains(e));
            let n = lemma_flat_member(files, wide_of, e);
            let f = files[n];
            let mine = edges_of_file(f, far);
            assert(mine.contains(e));
            let j = choose|j: int| 0 <= j < mine.len() && mine[j] == e;
            if j < f.contains.len() {
                assert(edges_of_file(f, callables)[j] == e);
                assert(own_of(f).contains(e));
                lemma_flat_holds(files, own_of, n, e);
                assert(own.contains(e));
                assert(h.edges.contains(e));
            } else {
                let made = call_edges(f.callables, far, f.calls);
                calls_do_not_fan_out(f.callables, far, f.calls);
                assert(made[j - f.contains.len()] == e);
                assert(comes_of_a_call(made[j - f.contains.len()], f.callables, far, f.calls));
                let call = choose|c: CallView|
                    #![trigger f.calls.contains(c)]
                    f.calls.contains(c) && resolution(f.callables, far, c) == Some(e.target)
                        && e.source == c.caller && e.relation == "calls"@;
                framework_targets_settle_only_to_themselves(
                    f.callables,
                    callables,
                    targets,
                    call,
                    e.target,
                );
                if resolution(f.callables, callables, call) == Some(e.target) {
                    lemma_call_edge_held(f.callables, callables, f.calls, call, e.target);
                    let kept = call_edges(f.callables, callables, f.calls);
                    assert(e =~= EdgeView { source: call.caller, target: e.target, relation: "calls"@ });
                    let l = choose|l: int| 0 <= l < kept.len() && kept[l] == e;
                    assert(edges_of_file(f, callables)[f.contains.len() + l] == e);
                    assert(own_of(f).contains(e));
                    lemma_flat_holds(files, own_of, n, e);
                    assert(own.contains(e));
                    assert(h.edges.contains(e));
                } else {
                    let c = choose|c: TargetView| #[trigger]
                        targets.contains(c) && answers(c, call) && c.node_id == e.target;
                    assert(flat(framework, targets_fn).contains(c));
                    let i = lemma_flat_member(framework, targets_fn, c);
                    assert(framework[i].call_targets.contains(c));
                }
            }
        }
    }
}

// -------------------------------------------------------------------------------------------------
// The same file again
// -------------------------------------------------------------------------------------------------
/// Nodes that stand earlier in the list already do not change its canonical form.
pub proof fn known_nodes_add_nothing(
    front: Seq<NodeView>,
    again: Seq<NodeView>,
    back: Seq<NodeView>,
    out: Seq<NodeView>,
)
    requires
        canonical_nodes(front + back, out),
        forall|k: int| 0 <= k < again.len() ==> front.contains(#[trigger] again[k]),
    ensures
        canonical_nodes(front + again + back, out),
{
    let all = front + back;
    let more = front + again + back;
    assert forall|k: int| 0 <= k < out.len() implies is_standing(more, #[trigger] out[k]) by {
        assert(is_standing(all, out[k]));
        let v = choose|v: int| #[trigger] stands_for_id(all, v) && all[v] == out[k];
        let w: int = if v < front.len() {
            v
        } else {
            v + again.len()
        };
        assert(more[w] == all[v]);
        assert forall|j: int|
            0 <= j < more.len() && (#[trigger] more[j]).node_id == more[w].node_id implies node_before(
            more[w],
            more[j],
        ) || (node_level(more[w], more[j]) && w <= j) by {
            if j < front.len() {
                assert(more[j] == all[j]);
            } else if j < front.len() + again.len() {
                assert(front.contains(again[j - front.len()]));
                let i = choose|i: int| 0 <= i < front.len() && front[i] == again[j - front.len()];
                assert(all[i] == more[j]);
            } else {
                assert(more[j] == all[j - again.len()]);
            }
        }
        assert(stands_for_id(more, w));
    }
    assert forall|w: int| 0 <= w < more.len() implies has_id(out, (#[trigger] more[w]).node_id) by {
        if w < front.len() {
            assert(has_id(out, all[w].node_id));
        } else if w < front.len() + again.len() {
            assert(front.contains(again[w - front.len()]));
            let i = choose|i: int| 0 <= i < front.len() && front[i] == again[w - front.len()];
            assert(has_id(out, all[i].node_id));
        } else {
            assert(has_id(out, all[w - again.len()].node_id));
        }
    }
}

proof fn lemma_file_nodes_sum(a: Seq<SymbolsView>, b: Seq<SymbolsView>)
    ensures
        file_nodes(a + b) == file_nodes(a) + file_nodes(b),
        all_callables(a + b) == all_callables(a) + all_callables(b),
    decreases b.len(),
{
    if b.len() == 0 {
        assert(a + b =~= a);
        assert(file_nodes(a) + file_nodes(b) =~= file_nodes(a));
        assert(all_callables(a) + all_callables(b) =~= all_callables(a));
    } else {
        lemma_file_nodes_sum(a, b.drop_last());
        assert((a + b).drop_last() =~= a + b.drop_last());
        assert((a + b).last() == b.last());
        assert(file_nodes(a + b) =~= file_nodes(a) + file_nodes(b));
        assert(all_callables(a + b) =~= all_callables(a) + all_callables(b));
    }
}

proof fn lemma_fact_parts_sum(a: Seq<FactsView>, b: Seq<FactsView>)
    ensures
        fact_nodes(a + b) == fact_nodes(a) + fact_nodes(b),
        fact_edges(a + b) == fact_edges(a) + fact_edges(b),
        all_targets(a + b) == all_targets(a) + all_targets(b),
    decreases b.len(),
{
    if b.len() == 0 {
        assert(a + b =~= a);
        assert(fact_nodes(a) + fact_nodes(b) =~= fact_nodes(a));
        assert(fact_edges(a) + fact_edges(b) =~= fact_edges(a));
        assert(all_targets(a) + all_targets(b) =~= all_targets(a));
    } else {
        lemma_fact_parts_sum(a, b.drop_last());
        assert((a + b).drop_last() =~= a + b.drop_last());
        assert((a + b).last() == b.last());
        assert(fact_nodes(a + b) =~= fact_nodes(a) + fact_nodes(b));
        assert(fact_edges(a + b) =~= fact_edges(a) + fact_edges(b));
        assert(all_targets(a + b) =~= all_targets(a) + all_targets(b));
    }
}

/// Whether everything in `again` is in `all`.
pub open spec fn known<T>(all: Seq<T>, again: Seq<T>) -> bool {
    forall|k: int| 0 <= k < again.len() ==> all.contains(#[trigger] again[k])
}

proof fn lemma_flat_member<A, T>(s: Seq<A>, g: spec_fn(A) -> Seq<T>, x: T) -> (i: int)
    requires
        flat(s, g).contains(x),
    ensures
        0 <= i < s.len(),
        g(s[i]).contains(x),
    decreases s.len(),
{
    assert(s.len() > 0);
    let before = flat(s.drop_last(), g);
    let last = g(s.last());
    let k = choose|k: int| 0 <= k < flat(s, g).len() && flat(s, g)[k] == x;
    if k < before.len() {
        assert(before[k] == x);
        lemma_flat_member(s.drop_last(), g, x)
    } else {
        assert(last[k - before.len()] == x);
        s.len() - 1
    }
}

proof fn lemma_flat_holds<A, T>(s: Seq<A>, g: spec_fn(A) -> Seq<T>, i: int, x: T)
    requires
        0 <= i < s.len(),
        g(s[i]).contains(x),
    ensures
        flat(s, g).contains(x),
    decreases s.len(),
{
    let before = flat(s.drop_last(), g);
    let last = g(s.last());
    if i == s.len() - 1 {
        let k = choose|k: int| 0 <= k < last.len() && last[k] == x;
        assert((before + last)[before.len() + k] == x);
    } else {
        assert(s.drop_last()[i] == s[i]);
        lemma_flat_holds(s.drop_last(), g, i, x);
        let k = choose|k: int| 0 <= k < before.len() && before[k] == x;
        assert((before + last)[k] == x);
    }
}

proof fn lemma_flat_known<A, T>(s: Seq<A>, again: Seq<A>, g: spec_fn(A) -> Seq<T>)
    requires
        known(s, again),
    ensures
        known(flat(s, g), flat(again, g)),
{
    assert forall|k: int| 0 <= k < flat(again, g).len() implies flat(s, g).contains(
        #[trigger] flat(again, g)[k],
    ) by {
        let x = flat(again, g)[k];
        assert(flat(again, g).contains(x));
        let i = lemma_flat_member(again, g, x);
        assert(s.contains(again[i]));
        let j = choose|j: int| 0 <= j < s.len() && s[j] == again[i];
        lemma_flat_holds(s, g, j, x);
    }
}

/// Files that are pushed again, with their framework facts, add no node.
pub proof fn pushing_files_again_adds_no_node(
    files: Seq<SymbolsView>,
    framework: Seq<FactsView>,
    again: Seq<SymbolsView>,
    facts_again: Seq<FactsView>,
    g: GraphView,
    h: GraphView,
)
    requires
        known(files, again),
        known(framework, facts_again),
        resolves_to(files, framework, g),
        resolves_to(files + again, framework + facts_again, h),
    ensures
        g.nodes == h.nodes,
{
    let own = file_nodes(files);
    let more = file_nodes(again);
    let facts = fact_nodes(framework);
    let facts_more = fact_nodes(facts_again);
    lemma_file_nodes_sum(files, again);
    lemma_fact_parts_sum(framework, facts_again);
    lemma_parts_flat(files, framework);
    lemma_parts_flat(again, facts_again);
    lemma_flat_known(files, again, |f: SymbolsView| f.nodes);
    lemma_flat_known(framework, facts_again, |f: FactsView| f.nodes);
    known_nodes_add_nothing(own, more, facts, g.nodes);
    let front = own + more + facts;
    assert forall|k: int| 0 <= k < facts_more.len() implies front.contains(
        #[trigger] facts_more[k],
    ) by {
        assert(facts.contains(facts_more[k]));
        let i = choose|i: int| 0 <= i < facts.len() && facts[i] == facts_more[k];
        assert(front[own.len() + more.len() + i] == facts_more[k]);
    }
    assert(front + Seq::empty() =~= front);
    known_nodes_add_nothing(front, facts_more, Seq::empty(), g.nodes);
    let both = all_nodes(files + again, framework + facts_again);
    assert(front + facts_more + Seq::empty() =~= both);
    assert forall|n: NodeView| #[trigger] g.nodes.contains(n) <==> h.nodes.contains(n) by {
        if g.nodes.contains(n) {
            lemma_standing_in_both(both, g.nodes, h.nodes, n);
        }
        if h.nodes.contains(n) {
            lemma_standing_in_both(both, h.nodes, g.nodes, n);
        }
    }
    lemma_sorted_nodes_equal(g.nodes, h.nodes);
}

proof fn lemma_contains_by_count<T>(s: Seq<T>, x: T)
    ensures
        s.contains(x) <==> s.to_multiset().count(x) > 0,
{
    s.to_multiset_ensures();
}

/// A list with fewer of each element than another, but with the same elements, is as long only where
/// it is the same collection.
proof fn lemma_smaller<T>(a: Seq<T>, b: Seq<T>)
    requires
        forall|x: T| #[trigger] a.to_multiset().count(x) <= b.to_multiset().count(x),
        forall|x: T| #[trigger] b.contains(x) ==> a.contains(x),
    ensures
        a.len() <= b.len(),
        b.len() == 1 ==> a.len() == 1 && a[0] == b[0],
        b.len() > 0 ==> a.len() > 0,
{
    a.to_multiset_ensures();
    b.to_multiset_ensures();
    let rest = b.to_multiset().sub(a.to_multiset());
    assert(a.to_multiset().add(rest) =~= b.to_multiset());
    if b.len() > 0 {
        assert(b.contains(b[0]));
        assert(a.contains(b[0]));
    }
}

/// More of the known candidates never settle a call that was not settled, nor settle it otherwise.
proof fn lemma_picked_with_more(
    a: Seq<TargetView>,
    b: Seq<TargetView>,
    q: Option<Seq<char>>,
    id: Seq<char>,
)
    requires
        forall|x: TargetView| #[trigger] a.to_multiset().count(x) <= b.to_multiset().count(x),
        forall|x: TargetView| #[trigger] b.contains(x) ==> a.contains(x),
        picked(b, q) == PickView::One(id),
    ensures
        picked(a, q) == PickView::One(id),
{
    lemma_smaller(a, b);
    if b.len() > 1 {
        let text = q->0;
        let fa = fitting(a, text);
        let fb = fitting(b, text);
        assert forall|x: TargetView| #[trigger] fa.to_multiset().count(x) <= fb.to_multiset().count(
            x,
        ) by {
            lemma_fitting_count(a, text, x);
            lemma_fitting_count(b, text, x);
        }
        assert forall|x: TargetView| #[trigger] fb.contains(x) implies fa.contains(x) by {
            lemma_fitting_count(a, text, x);
            lemma_fitting_count(b, text, x);
            lemma_contains_by_count(fa, x);
            lemma_contains_by_count(fb, x);
            lemma_contains_by_count(a, x);
            lemma_contains_by_count(b, x);
        }
        lemma_smaller(fa, fb);
        if a.len() == 1 {
            // All of `b` would then be the one candidate of `a`, and either all or none would fit.
            lemma_fitting_members(b, text);
            let c = fb[0];
            assert(b.contains(c));
            assert(a[0] == c);
            assert forall|k: int| 0 <= k < b.len() implies b[k] == c by {
                assert(b.contains(b[k]));
                assert(a.contains(b[k]));
            }
            lemma_fitting_all(b, text);
        }
    }
}

proof fn lemma_fitting_all(b: Seq<TargetView>, q: Seq<char>)
    requires
        forall|k: int| 0 <= k < b.len() ==> fits_qualifier(#[trigger] b[k], q),
    ensures
        fitting(b, q).len() == b.len(),
    decreases b.len(),
{
    if b.len() > 0 {
        assert(fits_qualifier(b[b.len() - 1], q));
        lemma_fitting_all(b.drop_last(), q);
    }
}

proof fn lemma_resolution_with_more(
    local: Seq<TargetView>,
    a: Seq<TargetView>,
    b: Seq<TargetView>,
    call: CallView,
    id: Seq<char>,
)
    requires
        forall|x: TargetView| #[trigger] a.to_multiset().count(x) <= b.to_multiset().count(x),
        forall|x: TargetView| #[trigger] b.contains(x) ==> a.contains(x),
        resolution(local, b, call) == Some(id),
    ensures
        resolution(local, a, call) == Some(id),
{
    if !(picked(named(local, call.name), call.qualifier) is One) {
        let na = named(a, call.name);
        let nb = named(b, call.name);
        assert forall|x: TargetView| #[trigger] na.to_multiset().count(x) <= nb.to_multiset().count(
            x,
        ) by {
            lemma_named_count(a, call.name, x);
            lemma_named_count(b, call.name, x);
            assert(a.to_multiset().count(x) <= b.to_multiset().count(x));
        }
        assert forall|x: TargetView| #[trigger] nb.contains(x) implies na.contains(x) by {
            lemma_named_count(a, call.name, x);
            lemma_named_count(b, call.name, x);
            lemma_contains_by_count(na, x);
            lemma_contains_by_count(nb, x);
            lemma_contains_by_count(a, x);
            lemma_contains_by_count(b, x);
        }
        lemma_picked_with_more(na, nb, call.qualifier, id);
    }
}

proof fn lemma_call_edges_with_more(
    local: Seq<TargetView>,
    a: Seq<TargetView>,
    b: Seq<TargetView>,
    calls: Seq<CallView>,
    e: EdgeView,
)
    requires
        forall|x: TargetView| #[trigger] a.to_multiset().count(x) <= b.to_multiset().count(x),
        forall|x: TargetView| #[trigger] b.contains(x) ==> a.contains(x),
        call_edges(local, b, calls).contains(e),
    ensures
        call_edges(local, a, calls).contains(e),
    decreases calls.len(),
{
    assert(calls.len() > 0);
    let rest = calls.drop_last();
    let now = call_edges(local, b, calls);
    let k = choose|k: int| 0 <= k < now.len() && now[k] == e;
    let before = call_edges(local, a, rest);
    if k < call_edges(local, b, rest).len() {
        assert(call_edges(local, b, rest)[k] == e);
        lemma_call_edges_with_more(local, a, b, rest, e);
        let j = choose|j: int| 0 <= j < before.len() && before[j] == e;
        assert(call_edges(local, a, calls)[j] == e);
    } else {
        lemma_resolution_with_more(local, a, b, calls.last(), e.target);
        assert(call_edges(local, a, calls)[before.len() as int] == e);
    }
}

/// Files that are pushed again, with their framework facts, add no edge. A call may lose its edge,
/// where more of its candidates of other files make it ambiguous.
pub proof fn pushing_files_again_adds_no_edge(
    files: Seq<SymbolsView>,
    framework: Seq<FactsView>,
    again: Seq<SymbolsView>,
    facts_again: Seq<FactsView>,
    g: GraphView,
    h: GraphView,
)
    requires
        known(files, again),
        known(framework, facts_again),
        resolves_to(files, framework, g),
        resolves_to(files + again, framework + facts_again, h),
    ensures
        forall|e: EdgeView| #[trigger] h.edges.contains(e) ==> g.edges.contains(e),
{
    let far = everywhere(files, framework);
    let wide = everywhere(files + again, framework + facts_again);
    lemma_file_nodes_sum(files, again);
    lemma_fact_parts_sum(framework, facts_again);
    lemma_parts_flat(files, framework);
    lemma_parts_flat(again, facts_again);
    lemma_flat_known(files, again, |f: SymbolsView| f.callables);
    lemma_flat_known(framework, facts_again, |f: FactsView| f.call_targets);
    lemma_flat_known(framework, facts_again, |f: FactsView| f.edges);
    let (c, c2) = (all_callables(files), all_callables(again));
    let (t, t2) = (all_targets(framework), all_targets(facts_again));
    assert forall|x: TargetView| #[trigger] far.to_multiset().count(x) <= wide.to_multiset().count(
        x,
    ) by {
        lemma_multiset_commutative(c, t);
        lemma_multiset_commutative(c, c2);
        lemma_multiset_commutative(t, t2);
        lemma_multiset_commutative(c + c2, t + t2);
    }
    assert forall|x: TargetView| #[trigger] wide.contains(x) implies far.contains(x) by {
        let k = choose|k: int| 0 <= k < wide.len() && wide[k] == x;
        let m = (c + c2).len();
        if k < c.len() {
            assert(far[k] == x);
        } else if k < m {
            assert(c.contains(c2[k - c.len()]));
            let i = choose|i: int| 0 <= i < c.len() && c[i] == x;
            assert(far[i] == x);
        } else if k < m + t.len() {
            assert(far[c.len() + (k - m)] == x);
        } else {
            assert(t.contains(t2[k - m - t.len()]));
            let i = choose|i: int| 0 <= i < t.len() && t[i] == x;
            assert(far[c.len() + i] == x);
        }
    }
    let edges = all_edges(files, framework);
    let own = file_edges(files, far);
    let wide_edges = all_edges(files + again, framework + facts_again);
    let wide_own = file_edges(files + again, wide);
    lemma_file_edges_flat(files, far);
    lemma_file_edges_flat(files + again, wide);
    let near_edges = |f: SymbolsView| edges_of_file(f, far);
    let wide_of = |f: SymbolsView| edges_of_file(f, wide);
    assert forall|e: EdgeView| #[trigger] h.edges.contains(e) implies g.edges.contains(e) by {
        assert(wide_edges.contains(e));
        let k = choose|k: int| 0 <= k < wide_edges.len() && wide_edges[k] == e;
        if k < wide_own.len() {
            assert(wide_own[k] == e);
            assert(flat(files + again, wide_of).contains(e));
            let i = lemma_flat_member(files + again, wide_of, e);
            let f = (files + again)[i];
            assert(edges_of_file(f, wide).contains(e));
            let j = choose|j: int|
                0 <= j < edges_of_file(f, wide).len() && edges_of_file(f, wide)[j] == e;
            if j < f.contains.len() {
                assert(edges_of_file(f, far)[j] == e);
            } else {
                assert(call_edges(f.callables, wide, f.calls)[j - f.contains.len()] == e);
                lemma_call_edges_with_more(f.callables, far, wide, f.calls, e);
                let tail = call_edges(f.callables, far, f.calls);
                let l = choose|l: int| 0 <= l < tail.len() && tail[l] == e;
                assert(edges_of_file(f, far)[f.contains.len() + l] == e);
            }
            assert(near_edges(f).contains(e));
            assert(files.contains(f)) by {
                if i < files.len() {
                    assert(files[i] == f);
                } else {
                    assert(files.contains(again[i - files.len()]));
                }
            }
            let n = choose|n: int| 0 <= n < files.len() && files[n] == f;
            lemma_flat_holds(files, near_edges, n, e);
            let l = choose|l: int| 0 <= l < own.len() && own[l] == e;
            assert(edges[l] == e);
        } else {
            let fe = fact_edges(framework);
            let fe2 = fact_edges(facts_again);
            let j = k - wide_own.len();
            assert((fe + fe2)[j] == e);
            if j >= fe.len() {
                assert(fe.contains(fe2[j - fe.len()]));
            } else {
                assert(fe[j] == e);
            }
            assert(fe.contains(e));
            let l = choose|l: int| 0 <= l < fe.len() && fe[l] == e;
            assert(edges[own.len() + l] == e);
        }
        assert(edges.contains(e));
    }
}

proof fn lemma_file_nodes_hold(files: Seq<SymbolsView>, i: int)
    requires
        0 <= i < files.len(),
    ensures
        forall|k: int|
            0 <= k < files[i].nodes.len() ==> file_nodes(files).contains(
                #[trigger] files[i].nodes[k],
            ),
    decreases files.len(),
{
    let rest = files.drop_last();
    let last = files.last();
    if i < files.len() - 1 {
        lemma_file_nodes_hold(rest, i);
        assert(rest[i] == files[i]);
    }
    assert forall|k: int| 0 <= k < files[i].nodes.len() implies file_nodes(files).contains(
        #[trigger] files[i].nodes[k],
    ) by {
        let n = files[i].nodes[k];
        if i == files.len() - 1 {
            assert((file_nodes(rest) + last.nodes)[file_nodes(rest).len() + k] == n);
        } else {
            assert(file_nodes(rest).contains(rest[i].nodes[k]));
            let w = choose|w: int| 0 <= w < file_nodes(rest).len() && file_nodes(rest)[w] == n;
            assert((file_nodes(rest) + last.nodes)[w] == n);
        }
    }
}

// -------------------------------------------------------------------------------------------------
// The symbols of one file
// -------------------------------------------------------------------------------------------------
proof fn lemma_owner(c: Classifier<'_>, t: TreeView, i: int)
    ensures
        owner(c, t, i) matches Some(o) ==> 0 < o < i && c.definition(o) is Some,
    decreases i,
{
    lemma_parent(t, i);
    if let Some(p) = t.parent(i) {
        if !(p > 0 && c.definition(p) is Some) {
            lemma_owner(c, t, p);
        }
    }
}

/// Whether `symbols` hang together: a node for the file and one for each definition, each definition
/// with one edge to it from a node of the file, every callable and every caller a node of the file,
/// and every node in the file `file` on a line counted from one.
pub open spec fn hang_together(symbols: SymbolsView, file: Seq<char>) -> bool {
    &&& symbols.nodes.len() == symbols.contains.len() + 1
    &&& symbols.nodes[0] == file_node(file)
    &&& forall|k: int|
        0 <= k < symbols.contains.len() ==> (#[trigger] symbols.contains[k]).target
            == symbols.nodes[k + 1].node_id && has_id(symbols.nodes, symbols.contains[k].source)
    &&& forall|k: int|
        0 <= k < symbols.callables.len() ==> has_id(
            symbols.nodes,
            (#[trigger] symbols.callables[k]).node_id,
        )
    &&& forall|k: int|
        0 <= k < symbols.calls.len() ==> has_id(symbols.nodes, (#[trigger] symbols.calls[k]).caller)
    &&& forall|k: int|
        0 <= k < symbols.nodes.len() ==> (#[trigger] symbols.nodes[k]).source_file == file
            && symbols.nodes[k].start_line >= 1
}

proof fn lemma_has_id_grows(nodes: Seq<NodeView>, more: Seq<NodeView>, id: Seq<char>)
    requires
        has_id(nodes, id),
        nodes.len() <= more.len(),
        forall|k: int| 0 <= k < nodes.len() ==> nodes[k] == more[k],
    ensures
        has_id(more, id),
{
    let k = choose|k: int| 0 <= k < nodes.len() && (#[trigger] nodes[k]).node_id == id;
    assert(more[k].node_id == id);
}

proof fn lemma_symbols_hang_together(c: Classifier<'_>, t: TreeView, file: Seq<char>, n: int)
    requires
        0 <= n <= t.len(),
    ensures
        hang_together(symbols_of_first(c, t, file, n), file),
        forall|o: int|
            0 < o < n && (#[trigger] c.definition(o)) is Some ==> has_id(
                symbols_of_first(c, t, file, n).nodes,
                definition_id(t, file, o, c.definition(o)->0),
            ),
    decreases n,
{
    let now = symbols_of_first(c, t, file, n);
    if n <= 1 {
        assert(now.nodes =~= seq![file_node(file)]);
    } else {
        let i = n - 1;
        let before = symbols_of_first(c, t, file, i);
        lemma_symbols_hang_together(c, t, file, i);
        lemma_owner(c, t, i);
        assert(before.nodes[0].node_id == file);
        assert(has_id(before.nodes, container_id(c, t, file, i)));
        assert forall|id: Seq<char>| #[trigger] has_id(before.nodes, id) implies has_id(
            now.nodes,
            id,
        ) by {
            lemma_has_id_grows(before.nodes, now.nodes, id);
        }
        if let Some(def) = c.definition(i) {
            assert(now.nodes[before.nodes.len() as int].node_id == definition_id(t, file, i, def));
            assert(has_id(now.nodes, definition_id(t, file, i, def)));
            assert forall|k: int| 0 <= k < now.contains.len() implies (#[trigger] now.contains[k]).target
                == now.nodes[k + 1].node_id && has_id(now.nodes, now.contains[k].source) by {
                if k < before.contains.len() {
                    assert(now.contains[k] == before.contains[k]);
                }
            }
            assert forall|k: int| 0 <= k < now.callables.len() implies has_id(
                now.nodes,
                (#[trigger] now.callables[k]).node_id,
            ) by {
                if k < before.callables.len() {
                    assert(now.callables[k] == before.callables[k]);
                }
            }
            assert forall|k: int| 0 <= k < now.nodes.len() implies (#[trigger] now.nodes[k]).source_file
                == file && now.nodes[k].start_line >= 1 by {
                if k < before.nodes.len() {
                    assert(now.nodes[k] == before.nodes[k]);
                }
            }
        } else {
            assert forall|k: int| 0 <= k < now.calls.len() implies has_id(
                now.nodes,
                (#[trigger] now.calls[k]).caller,
            ) by {
                if k < before.calls.len() {
                    assert(now.calls[k] == before.calls[k]);
                }
            }
        }
    }
}

/// The symbols of every file hang together.
pub proof fn symbols_hang_together(c: Classifier<'_>, t: TreeView, file: Seq<char>)
    ensures
        hang_together(symbols_of(c, t, file), file),
{
    lemma_symbols_hang_together(c, t, file, t.len());
}

/// Every definition of a file has a node of its id among the file's symbols.
pub proof fn definitions_are_nodes(c: Classifier<'_>, t: TreeView, file: Seq<char>)
    ensures
        forall|o: int|
            0 < o < t.len() && (#[trigger] c.definition(o)) is Some ==> has_id(
                symbols_of(c, t, file).nodes,
                definition_id(t, file, o, c.definition(o)->0),
            ),
{
    lemma_symbols_hang_together(c, t, file, t.len());
}

// -------------------------------------------------------------------------------------------------
// No loose ends
// -------------------------------------------------------------------------------------------------
/// Whether both ends of `e` are ids of `nodes`.
pub open spec fn joins(nodes: Seq<NodeView>, e: EdgeView) -> bool {
    has_id(nodes, e.source) && has_id(nodes, e.target)
}

/// Whether all that `targets` lead to are ids of `nodes`.
pub open spec fn lead_to(nodes: Seq<NodeView>, targets: Seq<TargetView>) -> bool {
    forall|k: int| 0 <= k < targets.len() ==> has_id(nodes, (#[trigger] targets[k]).node_id)
}

/// Whether the edges and the call targets of `facts` have their ends among `nodes`.
pub open spec fn facts_join(nodes: Seq<NodeView>, facts: FactsView) -> bool {
    &&& forall|k: int| 0 <= k < facts.edges.len() ==> joins(nodes, #[trigger] facts.edges[k])
    &&& lead_to(nodes, facts.call_targets)
}

spec fn file_joins(nodes: Seq<NodeView>, f: SymbolsView) -> bool {
    &&& forall|k: int| 0 <= k < f.contains.len() ==> joins(nodes, #[trigger] f.contains[k])
    &&& forall|k: int| 0 <= k < f.calls.len() ==> has_id(nodes, (#[trigger] f.calls[k]).caller)
    &&& lead_to(nodes, f.callables)
}

proof fn lemma_call_edges_join(
    nodes: Seq<NodeView>,
    f: SymbolsView,
    far: Seq<TargetView>,
    e: EdgeView,
)
    requires
        file_joins(nodes, f),
        lead_to(nodes, far),
        call_edges(f.callables, far, f.calls).contains(e),
    ensures
        joins(nodes, e),
{
    let edges = call_edges(f.callables, far, f.calls);
    calls_do_not_fan_out(f.callables, far, f.calls);
    let k = choose|k: int| 0 <= k < edges.len() && edges[k] == e;
    assert(comes_of_a_call(edges[k], f.callables, far, f.calls));
    let call = choose|c: CallView|
        #![trigger f.calls.contains(c)]
        f.calls.contains(c) && resolution(f.callables, far, c) == Some(e.target) && e.source
            == c.caller && e.relation == "calls"@;
    let j = choose|j: int| 0 <= j < f.calls.len() && f.calls[j] == call;
    assert(has_id(nodes, f.calls[j].caller));
    call_resolves_to_an_answer(f.callables, far, call, e.target);
    let c = choose|c: TargetView|
        (f.callables.contains(c) || far.contains(c)) && #[trigger] answers(c, call) && c.node_id
            == e.target;
    if f.callables.contains(c) {
        let w = choose|w: int| 0 <= w < f.callables.len() && f.callables[w] == c;
        assert(has_id(nodes, f.callables[w].node_id));
    } else {
        let w = choose|w: int| 0 <= w < far.len() && far[w] == c;
        assert(has_id(nodes, far[w].node_id));
    }
}

proof fn lemma_file_edges_join(
    nodes: Seq<NodeView>,
    files: Seq<SymbolsView>,
    far: Seq<TargetView>,
    e: EdgeView,
)
    requires
        forall|i: int| 0 <= i < files.len() ==> file_joins(nodes, #[trigger] files[i]),
        lead_to(nodes, far),
        file_edges(files, far).contains(e),
    ensures
        joins(nodes, e),
    decreases files.len(),
{
    if files.len() > 0 {
        let last = files.last();
        assert(file_joins(nodes, files[files.len() - 1]));
        let before = file_edges(files.drop_last(), far);
        let tail = call_edges(last.callables, far, last.calls);
        let k = choose|k: int|
            0 <= k < file_edges(files, far).len() && file_edges(files, far)[k] == e;
        if k < before.len() {
            assert(before[k] == e);
            assert forall|i: int| 0 <= i < files.drop_last().len() implies file_joins(
                nodes,
                #[trigger] files.drop_last()[i],
            ) by {
                assert(file_joins(nodes, files[i]));
            }
            lemma_file_edges_join(nodes, files.drop_last(), far, e);
        } else if k < before.len() + last.contains.len() {
            assert(last.contains[k - before.len()] == e);
        } else {
            assert(tail[k - before.len() - last.contains.len()] == e);
            lemma_call_edges_join(nodes, last, far, e);
        }
    }
}

proof fn lemma_fact_edges_join(nodes: Seq<NodeView>, framework: Seq<FactsView>, e: EdgeView)
    requires
        forall|i: int| 0 <= i < framework.len() ==> facts_join(nodes, #[trigger] framework[i]),
        fact_edges(framework).contains(e),
    ensures
        joins(nodes, e),
    decreases framework.len(),
{
    if framework.len() > 0 {
        let last = framework.last();
        assert(facts_join(nodes, framework[framework.len() - 1]));
        let before = fact_edges(framework.drop_last());
        let k = choose|k: int| 0 <= k < fact_edges(framework).len() && fact_edges(framework)[k] == e;
        if k < before.len() {
            assert(before[k] == e);
            assert forall|i: int| 0 <= i < framework.drop_last().len() implies facts_join(
                nodes,
                #[trigger] framework.drop_last()[i],
            ) by {
                assert(facts_join(nodes, framework[i]));
            }
            lemma_fact_edges_join(nodes, framework.drop_last(), e);
        } else {
            assert(last.edges[k - before.len()] == e);
        }
    }
}

proof fn lemma_far_leads(
    nodes: Seq<NodeView>,
    files: Seq<SymbolsView>,
    framework: Seq<FactsView>,
)
    requires
        forall|i: int| 0 <= i < files.len() ==> file_joins(nodes, #[trigger] files[i]),
        forall|i: int| 0 <= i < framework.len() ==> facts_join(nodes, #[trigger] framework[i]),
    ensures
        lead_to(nodes, all_callables(files)),
        lead_to(nodes, all_targets(framework)),
    decreases files.len() + framework.len(),
{
    if files.len() > 0 {
        assert forall|i: int| 0 <= i < files.drop_last().len() implies file_joins(
            nodes,
            #[trigger] files.drop_last()[i],
        ) by {
            assert(file_joins(nodes, files[i]));
        }
        assert(file_joins(nodes, files[files.len() - 1]));
        lemma_far_leads(nodes, files.drop_last(), framework);
    } else if framework.len() > 0 {
        assert forall|i: int| 0 <= i < framework.drop_last().len() implies facts_join(
            nodes,
            #[trigger] framework.drop_last()[i],
        ) by {
            assert(facts_join(nodes, framework[i]));
        }
        assert(facts_join(nodes, framework[framework.len() - 1]));
        lemma_far_leads(nodes, files, framework.drop_last());
    }
}

proof fn lemma_file_joins(nodes: Seq<NodeView>, f: SymbolsView, file: Seq<char>)
    requires
        hang_together(f, file),
        forall|k: int| 0 <= k < f.nodes.len() ==> nodes.contains(#[trigger] f.nodes[k]),
    ensures
        file_joins(nodes, f),
{
    assert forall|id: Seq<char>| #[trigger] has_id(f.nodes, id) implies has_id(nodes, id) by {
        let k = choose|k: int| 0 <= k < f.nodes.len() && (#[trigger] f.nodes[k]).node_id == id;
        assert(nodes.contains(f.nodes[k]));
        let w = choose|w: int| 0 <= w < nodes.len() && nodes[w] == f.nodes[k];
        assert(nodes[w].node_id == id);
    }
    assert forall|k: int| 0 <= k < f.contains.len() implies joins(nodes, #[trigger] f.contains[k]) by {
        assert(f.nodes[k + 1].node_id == f.contains[k].target);
        assert(has_id(f.nodes, f.contains[k].target));
    }
}

/// Whether `symbols` are those of some file, or none at all.
pub open spec fn sound(symbols: SymbolsView) -> bool {
    symbols == SymbolsView::empty() || exists|file: Seq<char>| #[trigger]
        hang_together(symbols, file)
}

/// No edge of a graph has a loose end: where the symbols of every file hang together, and the framework
/// facts lead to nodes, both ends of every edge are nodes of the graph.
pub proof fn graph_has_no_loose_ends(
    files: Seq<SymbolsView>,
    framework: Seq<FactsView>,
    g: GraphView,
)
    requires
        forall|i: int| 0 <= i < files.len() ==> sound(#[trigger] files[i]),
        forall|i: int|
            0 <= i < framework.len() ==> facts_join(
                all_nodes(files, framework),
                #[trigger] framework[i],
            ),
        resolves_to(files, framework, g),
    ensures
        forall|k: int| 0 <= k < g.edges.len() ==> joins(g.nodes, #[trigger] g.edges[k]),
{
    let nodes = all_nodes(files, framework);
    let own = file_nodes(files);
    let far = everywhere(files, framework);
    let own_edges = file_edges(files, far);
    let edges = all_edges(files, framework);
    assert forall|i: int| 0 <= i < files.len() implies file_joins(nodes, #[trigger] files[i]) by {
        lemma_file_nodes_hold(files, i);
        assert forall|k: int| 0 <= k < files[i].nodes.len() implies nodes.contains(
            #[trigger] files[i].nodes[k],
        ) by {
            assert(own.contains(files[i].nodes[k]));
            let w = choose|w: int| 0 <= w < own.len() && own[w] == files[i].nodes[k];
            assert(nodes[w] == own[w]);
        }
        assert(sound(files[i]));
        if files[i] != SymbolsView::empty() {
            let file = choose|file: Seq<char>| #[trigger] hang_together(files[i], file);
            lemma_file_joins(nodes, files[i], file);
        }
    }
    lemma_far_leads(nodes, files, framework);
    assert(lead_to(nodes, far));
    assert forall|k: int| 0 <= k < g.edges.len() implies joins(g.nodes, #[trigger] g.edges[k]) by {
        let e = g.edges[k];
        assert(g.edges.contains(e));
        assert(edges.contains(e));
        let j = choose|j: int| 0 <= j < edges.len() && edges[j] == e;
        if j < own_edges.len() {
            assert(own_edges[j] == e);
            lemma_file_edges_join(nodes, files, far, e);
        } else {
            assert(fact_edges(framework)[j - own_edges.len()] == e);
            lemma_fact_edges_join(nodes, framework, e);
        }
        let v = choose|v: int| 0 <= v < nodes.len() && (#[trigger] nodes[v]).node_id == e.source;
        let w = choose|w: int| 0 <= w < nodes.len() && (#[trigger] nodes[w]).node_id == e.target;
        lemma_canonical_has_members(nodes, g.nodes, nodes[v]);
        lemma_canonical_has_members(nodes, g.nodes, nodes[w]);
    }
}

/// A declaration without a body is never a call target, in any language that is told by tags.
pub proof fn bodiless_declarations_are_no_targets(
    tags: &TaggedSymbols,
    t: TreeView,
    i: int,
    kind: Seq<char>,
)
    requires
        needs_body(t.kind(i)),
        t.field_child(i, "body"@) is None,
    ensures
        !Classifier::Tagged(tags).call_target(t, i, kind),
{
}

// -------------------------------------------------------------------------------------------------
// Receivers
// -------------------------------------------------------------------------------------------------
/// The innermost scope that binds a name decides its type: what lies further out, such as a field that
/// a local variable hides, does not count.
pub proof fn innermost_binding_decides(t: TreeView, i: int, p: int, name: Seq<char>)
    requires
        t.parent(i) == Some(p),
        bound_in(t, p, name) is Some,
    ensures
        declared_type(t, i, name) == (bound_in(t, p, name)->0).declared,
{
}

/// The enclosing object and its superclass qualify no call, wherever they are named.
pub proof fn implicit_receivers_do_not_qualify(t: TreeView, i: int, name: Seq<char>)
    requires
        names_self(name),
    ensures
        receiver_name_qualifier(t, i, name) is None,
{
}

/// A receiver without a declared type qualifies a call by its own name where that reads as a type, and
/// not at all where it does not.
pub proof fn undeclared_receiver_qualifies_only_as_a_type(t: TreeView, i: int, name: Seq<char>)
    requires
        !names_self(name),
        declared_type(t, i, name) is None,
    ensures
        receiver_name_qualifier(t, i, name) == if type_like(name) {
            Some(name)
        } else {
            None
        },
{
}

// -------------------------------------------------------------------------------------------------
// What a graph is made of
// -------------------------------------------------------------------------------------------------
/// A call may mean the callables of every file and the call targets of all framework facts, and nothing
/// else.
pub proof fn candidates_are_callables_and_framework_targets(
    files: Seq<SymbolsView>,
    framework: Seq<FactsView>,
    c: TargetView,
)
    ensures
        everywhere(files, framework).contains(c) <==> (exists|i: int|
            0 <= i < files.len() && (#[trigger] files[i]).callables.contains(c)) || (exists|i: int|
            0 <= i < framework.len() && (#[trigger] framework[i]).call_targets.contains(c)),
{
    lemma_parts_flat(files, framework);
    let own = |f: SymbolsView| f.callables;
    let added = |f: FactsView| f.call_targets;
    let a = flat(files, own);
    let b = flat(framework, added);
    let all = everywhere(files, framework);
    if all.contains(c) {
        let k = choose|k: int| 0 <= k < all.len() && all[k] == c;
        if k < a.len() {
            assert(a[k] == c);
            let i = lemma_flat_member(files, own, c);
            assert(files[i].callables.contains(c));
        } else {
            assert(b[k - a.len()] == c);
            let i = lemma_flat_member(framework, added, c);
            assert(framework[i].call_targets.contains(c));
        }
    }
    if exists|i: int| 0 <= i < files.len() && (#[trigger] files[i]).callables.contains(c) {
        let i = choose|i: int| 0 <= i < files.len() && (#[trigger] files[i]).callables.contains(c);
        lemma_flat_holds(files, own, i, c);
        let k = choose|k: int| 0 <= k < a.len() && a[k] == c;
        assert(all[k] == c);
    }
    if exists|i: int| 0 <= i < framework.len() && (#[trigger] framework[i]).call_targets.contains(c) {
        let i = choose|i: int|
            0 <= i < framework.len() && (#[trigger] framework[i]).call_targets.contains(c);
        lemma_flat_holds(framework, added, i, c);
        let k = choose|k: int| 0 <= k < b.len() && b[k] == c;
        assert(all[a.len() + k] == c);
    }
}

/// One file more, or the facts of one more, add exactly their callables and call targets to what calls
/// may mean, each as often as it stands there.
pub proof fn more_files_add_their_candidates(
    files: Seq<SymbolsView>,
    framework: Seq<FactsView>,
    file: SymbolsView,
    facts: FactsView,
)
    ensures
        everywhere(files.push(file), framework).to_multiset() == everywhere(
            files,
            framework,
        ).to_multiset().add(file.callables.to_multiset()),
        everywhere(files, framework.push(facts)).to_multiset() == everywhere(
            files,
            framework,
        ).to_multiset().add(facts.call_targets.to_multiset()),
        everywhere(Seq::empty(), Seq::empty()).len() == 0,
{
    assert(files.push(file).drop_last() =~= files);
    assert(framework.push(facts).drop_last() =~= framework);
    let a = all_callables(files);
    let b = all_targets(framework);
    lemma_multiset_commutative(a, b);
    lemma_multiset_commutative(a, file.callables);
    lemma_multiset_commutative(a + file.callables, b);
    lemma_multiset_commutative(b, facts.call_targets);
    lemma_multiset_commutative(a, b + facts.call_targets);
    assert(everywhere(files.push(file), framework).to_multiset() =~= everywhere(
        files,
        framework,
    ).to_multiset().add(file.callables.to_multiset()));
    assert(everywhere(files, framework.push(facts)).to_multiset() =~= everywhere(
        files,
        framework,
    ).to_multiset().add(facts.call_targets.to_multiset()));
}

/// The edges of a graph are exactly these: what each file contains, for each call of each file that
/// resolves a `calls` edge from its caller to what it resolves to, and what framework facts bring. They
/// stand in the order of their sources, then targets, then relations, each once.
pub proof fn graph_has_exactly_the_edges_of_its_parts(
    files: Seq<SymbolsView>,
    framework: Seq<FactsView>,
    g: GraphView,
)
    requires
        resolves_to(files, framework, g),
    ensures
        forall|e: EdgeView| #[trigger]
            g.edges.contains(e) <==> {
                ||| exists|i: int| 0 <= i < files.len() && (#[trigger] files[i]).contains.contains(e)
                ||| exists|i: int, c: CallView|
                    0 <= i < files.len() && #[trigger] files[i].calls.contains(c) && resolution(
                        files[i].callables,
                        everywhere(files, framework),
                        c,
                    ) == Some(e.target) && e.source == c.caller && e.relation == "calls"@
                ||| exists|i: int|
                    0 <= i < framework.len() && (#[trigger] framework[i]).edges.contains(e)
            },
        forall|i: int, j: int|
            0 <= i < j < g.edges.len() ==> {
                let a = #[trigger] g.edges[i];
                let b = #[trigger] g.edges[j];
                ||| text_before(a.source, b.source)
                ||| a.source == b.source && text_before(a.target, b.target)
                ||| a.source == b.source && a.target == b.target && text_before(
                    a.relation,
                    b.relation,
                )
            },
{
    lemma_parts_flat(files, framework);
    let far = everywhere(files, framework);
    lemma_file_edges_flat(files, far);
    let of = |f: SymbolsView| edges_of_file(f, far);
    let brought = |f: FactsView| f.edges;
    let a = flat(files, of);
    let b = flat(framework, brought);
    let all = all_edges(files, framework);
    assert forall|e: EdgeView| #[trigger] g.edges.contains(e) <==> {
        ||| exists|i: int| 0 <= i < files.len() && (#[trigger] files[i]).contains.contains(e)
        ||| exists|i: int, c: CallView|
            0 <= i < files.len() && #[trigger] files[i].calls.contains(c) && resolution(
                files[i].callables,
                far,
                c,
            ) == Some(e.target) && e.source == c.caller && e.relation == "calls"@
        ||| exists|i: int| 0 <= i < framework.len() && (#[trigger] framework[i]).edges.contains(e)
    } by {
        assert(g.edges.contains(e) <==> all.contains(e));
        if all.contains(e) {
            let k = choose|k: int| 0 <= k < all.len() && all[k] == e;
            if k >= a.len() {
                assert(b[k - a.len()] == e);
                let i = lemma_flat_member(framework, brought, e);
                assert(framework[i].edges.contains(e));
            } else {
                assert(a[k] == e);
                let i = lemma_flat_member(files, of, e);
                let f = files[i];
                let mine = edges_of_file(f, far);
                assert(mine.contains(e));
                let j = choose|j: int| 0 <= j < mine.len() && mine[j] == e;
                if j < f.contains.len() {
                    assert(f.contains[j] == e);
                    assert(files[i].contains.contains(e));
                } else {
                    let made = call_edges(f.callables, far, f.calls);
                    calls_do_not_fan_out(f.callables, far, f.calls);
                    assert(made[j - f.contains.len()] == e);
                    assert(comes_of_a_call(made[j - f.contains.len()], f.callables, far, f.calls));
                    let c = choose|c: CallView|
                        #![trigger f.calls.contains(c)]
                        f.calls.contains(c) && resolution(f.callables, far, c) == Some(e.target)
                            && e.source == c.caller && e.relation == "calls"@;
                    assert(files[i].calls.contains(c));
                }
            }
        }
        if exists|i: int| 0 <= i < files.len() && (#[trigger] files[i]).contains.contains(e) {
            let i = choose|i: int| 0 <= i < files.len() && (#[trigger] files[i]).contains.contains(e);
            let f = files[i];
            let j = choose|j: int| 0 <= j < f.contains.len() && f.contains[j] == e;
            assert(edges_of_file(f, far)[j] == e);
            assert(of(files[i]).contains(e));
            lemma_flat_holds(files, of, i, e);
            let k = choose|k: int| 0 <= k < a.len() && a[k] == e;
            assert(all[k] == e);
        }
        if exists|i: int, c: CallView|
            0 <= i < files.len() && #[trigger] files[i].calls.contains(c) && resolution(
                files[i].callables,
                far,
                c,
            ) == Some(e.target) && e.source == c.caller && e.relation == "calls"@ {
            let (i, c) = choose|i: int, c: CallView|
                0 <= i < files.len() && #[trigger] files[i].calls.contains(c) && resolution(
                    files[i].callables,
                    far,
                    c,
                ) == Some(e.target) && e.source == c.caller && e.relation == "calls"@;
            let f = files[i];
            lemma_call_edge_held(f.callables, far, f.calls, c, e.target);
            let made = call_edges(f.callables, far, f.calls);
            assert(e =~= EdgeView { source: c.caller, target: e.target, relation: "calls"@ });
            let j = choose|j: int| 0 <= j < made.len() && made[j] == e;
            assert(edges_of_file(f, far)[f.contains.len() + j] == e);
            assert(of(files[i]).contains(e));
            lemma_flat_holds(files, of, i, e);
            let k = choose|k: int| 0 <= k < a.len() && a[k] == e;
            assert(all[k] == e);
        }
        if exists|i: int| 0 <= i < framework.len() && (#[trigger] framework[i]).edges.contains(e) {
            let i = choose|i: int|
                0 <= i < framework.len() && (#[trigger] framework[i]).edges.contains(e);
            lemma_flat_holds(framework, brought, i, e);
            let k = choose|k: int| 0 <= k < b.len() && b[k] == e;
            assert(all[a.len() + k] == e);
        }
    }
}

/// The nodes of a graph are nodes of its files and of the framework facts, one for each id among them:
/// of those that share an id, one of the first file in order and there of the first line. They stand in
/// the order of their ids, each id once.
pub proof fn graph_has_one_node_for_each_id(
    files: Seq<SymbolsView>,
    framework: Seq<FactsView>,
    g: GraphView,
)
    requires
        resolves_to(files, framework, g),
    ensures
        forall|n: NodeView| #[trigger]
            g.nodes.contains(n) ==> (exists|i: int|
                0 <= i < files.len() && (#[trigger] files[i]).nodes.contains(n)) || (exists|i: int|
                0 <= i < framework.len() && (#[trigger] framework[i]).nodes.contains(n)),
        forall|i: int, m: NodeView|
            0 <= i < files.len() && #[trigger] files[i].nodes.contains(m) ==> exists|k: int|
                0 <= k < g.nodes.len() && (#[trigger] g.nodes[k]).node_id == m.node_id,
        forall|i: int, m: NodeView|
            0 <= i < framework.len() && #[trigger] framework[i].nodes.contains(m) ==> exists|k: int|
                0 <= k < g.nodes.len() && (#[trigger] g.nodes[k]).node_id == m.node_id,
        forall|k: int, i: int, m: NodeView|
            0 <= k < g.nodes.len() && 0 <= i < files.len() && #[trigger] files[i].nodes.contains(m)
                && (#[trigger] g.nodes[k]).node_id == m.node_id ==> text_before(
                g.nodes[k].source_file,
                m.source_file,
            ) || (g.nodes[k].source_file == m.source_file && g.nodes[k].start_line <= m.start_line),
        forall|k: int, i: int, m: NodeView|
            0 <= k < g.nodes.len() && 0 <= i < framework.len()
                && #[trigger] framework[i].nodes.contains(m) && (#[trigger] g.nodes[k]).node_id
                == m.node_id ==> text_before(g.nodes[k].source_file, m.source_file) || (
            g.nodes[k].source_file == m.source_file && g.nodes[k].start_line <= m.start_line),
        forall|i: int, j: int|
            0 <= i < j < g.nodes.len() ==> text_before(
                (#[trigger] g.nodes[i]).node_id,
                (#[trigger] g.nodes[j]).node_id,
            ),
{
    lemma_parts_flat(files, framework);
    let own = |f: SymbolsView| f.nodes;
    let brought = |f: FactsView| f.nodes;
    let a = flat(files, own);
    let b = flat(framework, brought);
    let all = all_nodes(files, framework);
    assert forall|n: NodeView| #[trigger] g.nodes.contains(n) implies (exists|i: int|
        0 <= i < files.len() && (#[trigger] files[i]).nodes.contains(n)) || (exists|i: int|
        0 <= i < framework.len() && (#[trigger] framework[i]).nodes.contains(n)) by {
        let x = choose|x: int| 0 <= x < g.nodes.len() && g.nodes[x] == n;
        assert(is_standing(all, g.nodes[x]));
        let k = choose|k: int| #[trigger] stands_for_id(all, k) && all[k] == n;
        if k < a.len() {
            assert(a[k] == n);
            let i = lemma_flat_member(files, own, n);
            assert(files[i].nodes.contains(n));
        } else {
            assert(b[k - a.len()] == n);
            let i = lemma_flat_member(framework, brought, n);
            assert(framework[i].nodes.contains(n));
        }
    }
    assert forall|i: int, m: NodeView|
        0 <= i < files.len() && #[trigger] files[i].nodes.contains(m) implies all.contains(m) by {
        lemma_flat_holds(files, own, i, m);
        let k = choose|k: int| 0 <= k < a.len() && a[k] == m;
        assert(all[k] == m);
    }
    assert forall|i: int, m: NodeView|
        0 <= i < framework.len() && #[trigger] framework[i].nodes.contains(m) implies all.contains(
        m,
    ) by {
        lemma_flat_holds(framework, brought, i, m);
        let k = choose|k: int| 0 <= k < b.len() && b[k] == m;
        assert(all[a.len() + k] == m);
    }
    assert forall|m: NodeView| #[trigger] all.contains(m) implies exists|k: int|
        0 <= k < g.nodes.len() && (#[trigger] g.nodes[k]).node_id == m.node_id by {
        let w = choose|w: int| 0 <= w < all.len() && all[w] == m;
        assert(has_id(g.nodes, all[w].node_id));
    }
    assert forall|k: int, m: NodeView|
        0 <= k < g.nodes.len() && #[trigger] all.contains(m) && (#[trigger] g.nodes[k]).node_id
            == m.node_id implies text_before(g.nodes[k].source_file, m.source_file) || (
    g.nodes[k].source_file == m.source_file && g.nodes[k].start_line <= m.start_line) by {
        assert(is_standing(all, g.nodes[k]));
        let w = choose|w: int| #[trigger] stands_for_id(all, w) && all[w] == g.nodes[k];
        let j = choose|j: int| 0 <= j < all.len() && all[j] == m;
        assert(all[j].node_id == all[w].node_id);
        lemma_text_trichotomy(m.node_id, m.node_id);
    }
}

/// Of the nodes that share id, file and line, the one that is listed first stands in the canonical form.
pub proof fn first_listed_of_level_nodes_stands(all: Seq<NodeView>, out: Seq<NodeView>, k: int) -> (w:
    int)
    requires
        canonical_nodes(all, out),
        0 <= k < out.len(),
    ensures
        0 <= w < all.len(),
        out[k] == all[w],
        forall|j: int|
            0 <= j < w ==> !((#[trigger] all[j]).node_id == out[k].node_id && all[j].source_file
                == out[k].source_file && all[j].start_line == out[k].start_line),
{
    assert(is_standing(all, out[k]));
    let w = choose|w: int| #[trigger] stands_for_id(all, w) && all[w] == out[k];
    assert forall|j: int| 0 <= j < w implies !((#[trigger] all[j]).node_id == out[k].node_id
        && all[j].source_file == out[k].source_file && all[j].start_line == out[k].start_line) by {
        lemma_node_trichotomy(all[w], all[j]);
    }
    w
}

/// What a resolution counts adds up file by file: the ambiguous and the unresolved calls of one file more
/// are those of that file, and the nodes and edges of one framework's facts more are theirs.
pub proof fn resolution_counts_add_up(
    files: Seq<SymbolsView>,
    framework: Seq<FactsView>,
    far: Seq<TargetView>,
    file: SymbolsView,
    facts: FactsView,
)
    ensures
        ambiguous_calls(Seq::empty(), far) == 0,
        unresolved_calls(Seq::empty(), far) == 0,
        ambiguous_calls(files.push(file), far) == ambiguous_calls(files, far) + ambiguous_among(
            file.callables,
            far,
            file.calls,
        ),
        unresolved_calls(files.push(file), far) == unresolved_calls(files, far) + unresolved_among(
            file.callables,
            far,
            file.calls,
        ),
        ambiguous_among(file.callables, far, Seq::empty()) == 0,
        unresolved_among(file.callables, far, Seq::empty()) == 0,
        fact_nodes(framework.push(facts)).len() == fact_nodes(framework).len() + facts.nodes.len(),
        fact_edges(framework.push(facts)).len() == fact_edges(framework).len() + facts.edges.len(),
        fact_nodes(Seq::empty()).len() == 0,
        fact_edges(Seq::empty()).len() == 0,
{
    assert(files.push(file).drop_last() =~= files);
    assert(framework.push(facts).drop_last() =~= framework);
}

/// The counts of a resolution are those of all files against all candidates, and of all framework facts.
pub proof fn resolution_counts_are_those_of_all_files(
    files: Seq<SymbolsView>,
    framework: Seq<FactsView>,
    counts: ResolveCounts,
)
    requires
        counts_of(files, framework, counts),
    ensures
        counts.ambiguous_calls == ambiguous_calls(files, everywhere(files, framework)),
        counts.unresolved_calls == unresolved_calls(files, everywhere(files, framework)),
        counts.framework_nodes == fact_nodes(framework).len(),
        counts.framework_edges == fact_edges(framework).len(),
{
}

} // verus!
