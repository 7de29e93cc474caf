//! What holds of the facts Spring adds to any file.
use super::annotation::{annotations, first_annotation};
use super::feign::{client_facts, client_targets, service, service_id};
use super::java_type::extended_names;
use super::repository::{query_targets, repository_facts};
use super::route::{
    class_routes, composed, first_mapping, http_method, marks_controller, method_routes, paths,
    prefix_of, route, routes, routes_among, trimmed,
};
use super::{facts_of_first, node_facts, spring_facts, uses_framework};
use crate::graph::canon::has_id;
use crate::graph::emit::{definition_id, symbols_of, Classifier};
use crate::graph::laws::{definitions_are_nodes, facts_join, joins, lead_to};
use crate::model::{node_id_of, FactsView, NodeView};
use crate::syntax::{lemma_field_child, lemma_named_children, TreeView};
use crate::text::{without_leading_slashes, without_trailing_slashes};
use vstd::prelude::*;

verus! {

/// A file that imports neither Spring nor Jakarta persistence is left as it is.
pub proof fn file_without_spring_adds_nothing(t: TreeView, file: Seq<char>)
    requires
        !uses_framework(t),
    ensures
        spring_facts(t, file) == FactsView::empty(),
{
}

// -------------------------------------------------------------------------------------------------
// Paths
// -------------------------------------------------------------------------------------------------
proof fn lemma_without_leading(s: Seq<char>)
    ensures
        without_leading_slashes(s).len() > 0 ==> without_leading_slashes(s)[0] != '/',
    decreases s.len(),
{
    if s.len() > 0 && s[0] == '/' {
        lemma_without_leading(s.skip(1));
    }
}

proof fn lemma_without_trailing(s: Seq<char>)
    ensures
        without_trailing_slashes(s).len() > 0 ==> without_trailing_slashes(s).last() != '/'
            && without_trailing_slashes(s)[0] == s[0],
        without_trailing_slashes(s).len() <= s.len(),
    decreases s.len(),
{
    if s.len() > 0 && s.last() == '/' {
        lemma_without_trailing(s.drop_last());
    }
}

proof fn lemma_trimmed(s: Seq<char>)
    ensures
        trimmed(s).len() > 0 ==> trimmed(s)[0] != '/' && trimmed(s).last() != '/',
        trimmed(trimmed(s)) == trimmed(s),
{
    lemma_without_leading(s);
    lemma_without_trailing(without_leading_slashes(s));
}

/// A route's path starts with a slash, and a path longer than that one slash neither goes on with
/// another nor ends with one.
pub proof fn route_path_has_one_leading_slash(prefix: Seq<char>, suffix: Seq<char>)
    ensures
        composed(prefix, suffix).len() >= 1,
        composed(prefix, suffix)[0] == '/',
        composed(prefix, suffix).len() > 1 ==> composed(prefix, suffix)[1] != '/' && composed(
            prefix,
            suffix,
        ).last() != '/',
{
    lemma_trimmed(prefix);
    lemma_trimmed(suffix);
    let p = trimmed(prefix);
    let s = trimmed(suffix);
    let path = composed(prefix, suffix);
    if p.len() > 0 {
        assert(path[1] == p[0]);
        if s.len() > 0 {
            assert(path.last() == s.last());
        } else {
            assert(path.last() == p.last());
        }
    } else if s.len() > 0 {
        assert(path[1] == s[0]);
        assert(path.last() == s.last());
    }
}

/// Slashes at the ends of the prefix and the suffix make no difference to a route's path.
pub proof fn outer_slashes_do_not_matter(prefix: Seq<char>, suffix: Seq<char>)
    ensures
        composed(trimmed(prefix), trimmed(suffix)) == composed(prefix, suffix),
{
    lemma_trimmed(prefix);
    lemma_trimmed(suffix);
}

// -------------------------------------------------------------------------------------------------
// Routes
// -------------------------------------------------------------------------------------------------
/// Whether `facts` are routes and nothing else: each node with one edge, from it to its handler.
pub open spec fn only_routes(facts: FactsView) -> bool {
    &&& facts.call_targets.len() == 0
    &&& facts.nodes.len() == facts.edges.len()
    &&& forall|k: int|
        0 <= k < facts.edges.len() ==> (#[trigger] facts.edges[k]).source == facts.nodes[k].node_id
            && facts.edges[k].relation == "calls"@
}

proof fn lemma_only_routes_sum(a: FactsView, b: FactsView)
    requires
        only_routes(a),
        only_routes(b),
    ensures
        only_routes(a.then_add(b)),
{
    let sum = a.then_add(b);
    assert forall|k: int| 0 <= k < sum.edges.len() implies (#[trigger] sum.edges[k]).source
        == sum.nodes[k].node_id && sum.edges[k].relation == "calls"@ by {
        if k < a.edges.len() {
            assert(sum.edges[k] == a.edges[k]);
        } else {
            assert(sum.edges[k] == b.edges[k - a.edges.len()]);
        }
    }
}

proof fn lemma_routes(
    method: Seq<char>,
    prefix: Seq<char>,
    suffixes: Seq<Seq<char>>,
    file: Seq<char>,
    line: int,
    handler: Seq<char>,
)
    ensures
        only_routes(routes(method, prefix, suffixes, file, line, handler)),
    decreases suffixes.len(),
{
    if suffixes.len() > 0 {
        lemma_routes(method, prefix, suffixes.drop_last(), file, line, handler);
        lemma_only_routes_sum(
            routes(method, prefix, suffixes.drop_last(), file, line, handler),
            route(method, composed(prefix, suffixes.last()), file, line, handler),
        );
    }
}

proof fn lemma_method_routes(t: TreeView, i: int, prefix: Seq<char>, file: Seq<char>)
    ensures
        only_routes(method_routes(t, i, prefix, file)),
{
    assert forall|m: Seq<char>, s: Seq<Seq<char>>, h: Seq<char>| only_routes(
        #[trigger] routes(m, prefix, s, file, t.line(i), h),
    ) by {
        lemma_routes(m, prefix, s, file, t.line(i), h);
    }
}

proof fn lemma_routes_among(t: TreeView, members: Seq<int>, prefix: Seq<char>, file: Seq<char>)
    ensures
        only_routes(routes_among(t, members, prefix, file)),
    decreases members.len(),
{
    if members.len() > 0 {
        lemma_routes_among(t, members.drop_last(), prefix, file);
        lemma_method_routes(t, members.last(), prefix, file);
        lemma_only_routes_sum(
            routes_among(t, members.drop_last(), prefix, file),
            method_routes(t, members.last(), prefix, file),
        );
    }
}

/// A class brings routes and nothing else, and every route leads to its handler.
pub proof fn class_brings_only_routes(t: TreeView, i: int, file: Seq<char>)
    ensures
        only_routes(class_routes(t, i, file)),
{
    assert forall|members: Seq<int>, prefix: Seq<char>| only_routes(
        #[trigger] routes_among(t, members, prefix, file),
    ) by {
        lemma_routes_among(t, members, prefix, file);
    }
}

/// An interface brings no edge, so never a route: at most the node of one service, and call targets.
pub proof fn interface_brings_no_route(t: TreeView, i: int, file: Seq<char>)
    requires
        t.kind(i) == "interface_declaration"@,
    ensures
        node_facts(t, i, file).edges.len() == 0,
        node_facts(t, i, file).nodes.len() <= 1,
{
    reveal_strlit("interface_declaration");
    reveal_strlit("class_declaration");
    assert("interface_declaration"@.len() != "class_declaration"@.len());
}

proof fn lemma_edges_start_at_nodes(t: TreeView, file: Seq<char>, n: int)
    ensures
        forall|k: int|
            0 <= k < facts_of_first(t, file, n).edges.len() ==> has_id(
                facts_of_first(t, file, n).nodes,
                (#[trigger] facts_of_first(t, file, n).edges[k]).source,
            ),
    decreases n,
{
    if n > 0 {
        lemma_edges_start_at_nodes(t, file, n - 1);
        class_brings_only_routes(t, n - 1, file);
        let before = facts_of_first(t, file, n - 1);
        let more = node_facts(t, n - 1, file);
        let now = facts_of_first(t, file, n);
        assert forall|k: int| 0 <= k < now.edges.len() implies has_id(
            now.nodes,
            (#[trigger] now.edges[k]).source,
        ) by {
            if k < before.edges.len() {
                assert(now.edges[k] == before.edges[k]);
                let j = choose|j: int|
                    0 <= j < before.nodes.len() && (#[trigger] before.nodes[j]).node_id
                        == before.edges[k].source;
                assert(now.nodes[j] == before.nodes[j]);
            } else {
                let l = k - before.edges.len();
                assert(now.edges[k] == more.edges[l]);
                assert(more.edges[l].source == more.nodes[l].node_id);
                assert(now.nodes[before.nodes.len() + l] == more.nodes[l]);
            }
        }
    }
}

/// Every edge Spring adds to a file starts at a node Spring adds to it.
pub proof fn spring_edges_start_at_spring_nodes(t: TreeView, file: Seq<char>, k: int)
    requires
        0 <= k < spring_facts(t, file).edges.len(),
    ensures
        has_id(spring_facts(t, file).nodes, spring_facts(t, file).edges[k].source),
{
    lemma_edges_start_at_nodes(t, file, t.len());
    assert(facts_of_first(t, file, t.len()).edges[k] == spring_facts(t, file).edges[k]);
}

// -------------------------------------------------------------------------------------------------
// Ends
// -------------------------------------------------------------------------------------------------
/// Whether the classifier `c` defines every named method of a tree by its own name.
pub open spec fn defines_methods(c: Classifier<'_>, t: TreeView) -> bool {
    forall|i: int|
        0 < i < t.len() && t.kind(i) == "method_declaration"@ && t.field_text(i, "name"@) is Some
            ==> (#[trigger] c.definition(i)) is Some && (c.definition(i)->0).name == t.field_text(
            i,
            "name"@,
        )
}

/// Whether `nodes` has the id of every named method of the file `file`.
spec fn has_methods(nodes: Seq<NodeView>, t: TreeView, file: Seq<char>) -> bool {
    forall|i: int|
        0 < i < t.len() && (#[trigger] t.kind(i)) == "method_declaration"@ && t.field_text(
            i,
            "name"@,
        ) is Some ==> has_id(nodes, node_id_of(file, t.line(i), t.field_text(i, "name"@)->0))
}

proof fn lemma_join_sum(nodes: Seq<NodeView>, a: FactsView, b: FactsView)
    requires
        facts_join(nodes, a),
        facts_join(nodes, b),
    ensures
        facts_join(nodes, a.then_add(b)),
{
    let sum = a.then_add(b);
    assert forall|k: int| 0 <= k < sum.edges.len() implies joins(nodes, #[trigger] sum.edges[k]) by {
        if k < a.edges.len() {
            assert(sum.edges[k] == a.edges[k]);
        } else {
            assert(sum.edges[k] == b.edges[k - a.edges.len()]);
        }
    }
    assert forall|k: int| 0 <= k < sum.call_targets.len() implies has_id(
        nodes,
        (#[trigger] sum.call_targets[k]).node_id,
    ) by {
        if k < a.call_targets.len() {
            assert(sum.call_targets[k] == a.call_targets[k]);
        } else {
            assert(sum.call_targets[k] == b.call_targets[k - a.call_targets.len()]);
        }
    }
}

proof fn lemma_holds_parts(nodes: Seq<NodeView>, a: FactsView, b: FactsView)
    requires
        holds_nodes(nodes, a.then_add(b)),
    ensures
        holds_nodes(nodes, a),
        holds_nodes(nodes, b),
{
    let sum = a.then_add(b);
    assert forall|k: int| 0 <= k < a.nodes.len() implies has_id(
        nodes,
        (#[trigger] a.nodes[k]).node_id,
    ) by {
        assert(sum.nodes[k] == a.nodes[k]);
    }
    assert forall|k: int| 0 <= k < b.nodes.len() implies has_id(
        nodes,
        (#[trigger] b.nodes[k]).node_id,
    ) by {
        assert(sum.nodes[a.nodes.len() + k] == b.nodes[k]);
    }
}

/// Whether `nodes` has the id of every node of `facts`.
spec fn holds_nodes(nodes: Seq<NodeView>, facts: FactsView) -> bool {
    forall|k: int| 0 <= k < facts.nodes.len() ==> has_id(nodes, (#[trigger] facts.nodes[k]).node_id)
}

proof fn lemma_routes_join(
    nodes: Seq<NodeView>,
    method: Seq<char>,
    prefix: Seq<char>,
    suffixes: Seq<Seq<char>>,
    file: Seq<char>,
    line: int,
    handler: Seq<char>,
)
    requires
        has_id(nodes, handler),
        holds_nodes(nodes, routes(method, prefix, suffixes, file, line, handler)),
    ensures
        facts_join(nodes, routes(method, prefix, suffixes, file, line, handler)),
    decreases suffixes.len(),
{
    if suffixes.len() > 0 {
        let before = routes(method, prefix, suffixes.drop_last(), file, line, handler);
        let last = route(method, composed(prefix, suffixes.last()), file, line, handler);
        lemma_holds_parts(nodes, before, last);
        lemma_routes_join(nodes, method, prefix, suffixes.drop_last(), file, line, handler);
        assert(has_id(nodes, last.nodes[0].node_id));
        assert(joins(nodes, last.edges[0]));
        lemma_join_sum(nodes, before, last);
    }
}

proof fn lemma_method_routes_join(
    nodes: Seq<NodeView>,
    t: TreeView,
    i: int,
    prefix: Seq<char>,
    file: Seq<char>,
)
    requires
        0 < i < t.len(),
        t.kind(i) == "method_declaration"@,
        has_methods(nodes, t, file),
        holds_nodes(nodes, method_routes(t, i, prefix, file)),
    ensures
        facts_join(nodes, method_routes(t, i, prefix, file)),
{
    if let Some(mapping) = first_mapping(annotations(t, i)) {
        if let Some(method) = http_method(t, mapping) {
            if let Some(handler) = t.field_text(i, "name"@) {
                let suffixes = if paths(t, mapping).len() > 0 {
                    paths(t, mapping)
                } else {
                    seq![Seq::empty()]
                };
                lemma_routes_join(
                    nodes,
                    method,
                    prefix,
                    suffixes,
                    file,
                    t.line(i),
                    node_id_of(file, t.line(i), handler),
                );
            }
        }
    }
}

proof fn lemma_routes_among_join(
    nodes: Seq<NodeView>,
    t: TreeView,
    members: Seq<int>,
    prefix: Seq<char>,
    file: Seq<char>,
)
    requires
        forall|k: int| 0 <= k < members.len() ==> 0 < #[trigger] members[k] < t.len(),
        has_methods(nodes, t, file),
        holds_nodes(nodes, routes_among(t, members, prefix, file)),
    ensures
        facts_join(nodes, routes_among(t, members, prefix, file)),
    decreases members.len(),
{
    if members.len() > 0 {
        let before = routes_among(t, members.drop_last(), prefix, file);
        let last = method_routes(t, members.last(), prefix, file);
        assert(0 < members[members.len() - 1] < t.len());
        assert forall|k: int| 0 <= k < members.drop_last().len() implies 0
            < #[trigger] members.drop_last()[k] < t.len() by {
            assert(0 < members[k] < t.len());
        }
        if t.kind(members.last()) == "method_declaration"@ {
            lemma_holds_parts(nodes, before, last);
            lemma_routes_among_join(nodes, t, members.drop_last(), prefix, file);
            lemma_method_routes_join(nodes, t, members.last(), prefix, file);
            lemma_join_sum(nodes, before, last);
        } else {
            lemma_routes_among_join(nodes, t, members.drop_last(), prefix, file);
        }
    }
}

proof fn lemma_members(t: TreeView, i: int, body: int)
    requires
        0 <= i,
        t.field_child(i, "body"@) == Some(body),
    ensures
        forall|k: int|
            0 <= k < t.named_children(body).len() ==> 0 < #[trigger] t.named_children(body)[k]
                < t.len(),
{
    lemma_field_child(t, i, "body"@);
    lemma_named_children(t, body);
}

proof fn lemma_client_targets_lead(
    nodes: Seq<NodeView>,
    t: TreeView,
    members: Seq<int>,
    id: Seq<char>,
    interface_name: Seq<char>,
)
    requires
        has_id(nodes, id),
    ensures
        lead_to(nodes, client_targets(t, members, id, interface_name)),
    decreases members.len(),
{
    if members.len() > 0 {
        lemma_client_targets_lead(nodes, t, members.drop_last(), id, interface_name);
    }
}

proof fn lemma_query_targets_lead(
    nodes: Seq<NodeView>,
    t: TreeView,
    members: Seq<int>,
    file: Seq<char>,
    interface_name: Seq<char>,
    supers: Seq<Seq<char>>,
)
    requires
        forall|k: int| 0 <= k < members.len() ==> 0 < #[trigger] members[k] < t.len(),
        has_methods(nodes, t, file),
    ensures
        lead_to(nodes, query_targets(t, members, file, interface_name, supers)),
    decreases members.len(),
{
    if members.len() > 0 {
        assert(0 < members[members.len() - 1] < t.len());
        assert forall|k: int| 0 <= k < members.drop_last().len() implies 0
            < #[trigger] members.drop_last()[k] < t.len() by {
            assert(0 < members[k] < t.len());
        }
        lemma_query_targets_lead(nodes, t, members.drop_last(), file, interface_name, supers);
    }
}

proof fn lemma_node_facts_join(nodes: Seq<NodeView>, t: TreeView, i: int, file: Seq<char>)
    requires
        0 <= i < t.len(),
        has_methods(nodes, t, file),
        holds_nodes(nodes, node_facts(t, i, file)),
    ensures
        facts_join(nodes, node_facts(t, i, file)),
{
    if t.kind(i) == "class_declaration"@ {
        if marks_controller(annotations(t, i)) {
            if let Some(body) = t.field_child(i, "body"@) {
                lemma_members(t, i, body);
                lemma_routes_among_join(
                    nodes,
                    t,
                    t.named_children(body),
                    prefix_of(t, annotations(t, i)),
                    file,
                );
            }
        }
    } else if t.kind(i) == "interface_declaration"@ {
        let client = client_facts(t, i, file);
        let repository = repository_facts(t, i, file);
        lemma_holds_parts(nodes, client, repository);
        assert(facts_join(nodes, client)) by {
            if let Some(a) = first_annotation(annotations(t, i), "FeignClient"@) {
                if let Some(name) = service(t, a) {
                    if let Some(interface_name) = t.field_text(i, "name"@) {
                        assert(has_id(nodes, client.nodes[0].node_id));
                        if let Some(body) = t.field_child(i, "body"@) {
                            lemma_client_targets_lead(
                                nodes,
                                t,
                                t.named_children(body),
                                service_id(name),
                                interface_name,
                            );
                        }
                    }
                }
            }
        }
        assert(facts_join(nodes, repository)) by {
            if let Some(interface_name) = t.field_text(i, "name"@) {
                if let Some(body) = t.field_child(i, "body"@) {
                    lemma_members(t, i, body);
                    lemma_query_targets_lead(
                        nodes,
                        t,
                        t.named_children(body),
                        file,
                        interface_name,
                        extended_names(t, i),
                    );
                }
            }
        }
        lemma_join_sum(nodes, client, repository);
    }
}

proof fn lemma_facts_of_first_join(nodes: Seq<NodeView>, t: TreeView, file: Seq<char>, n: int)
    requires
        0 <= n <= t.len(),
        has_methods(nodes, t, file),
        holds_nodes(nodes, facts_of_first(t, file, n)),
    ensures
        facts_join(nodes, facts_of_first(t, file, n)),
    decreases n,
{
    if n > 0 {
        let before = facts_of_first(t, file, n - 1);
        let more = node_facts(t, n - 1, file);
        lemma_holds_parts(nodes, before, more);
        lemma_facts_of_first_join(nodes, t, file, n - 1);
        lemma_node_facts_join(nodes, t, n - 1, file);
        lemma_join_sum(nodes, before, more);
    }
}

/// What Spring adds to a file has no loose ends, where the file's methods are defined by their names:
/// every edge and every call target leads to a node that the file's symbols or Spring bring. So the ids
/// Spring mints for handlers and repository methods are those of their definitions.
pub proof fn spring_facts_have_no_loose_ends(c: Classifier<'_>, t: TreeView, file: Seq<char>)
    requires
        defines_methods(c, t),
    ensures
        facts_join(symbols_of(c, t, file).nodes + spring_facts(t, file).nodes, spring_facts(t, file)),
{
    let own = symbols_of(c, t, file).nodes;
    let facts = spring_facts(t, file);
    let nodes = own + facts.nodes;
    if uses_framework(t) {
        definitions_are_nodes(c, t, file);
        assert forall|i: int|
            0 < i < t.len() && (#[trigger] t.kind(i)) == "method_declaration"@ && t.field_text(
                i,
                "name"@,
            ) is Some implies has_id(
            nodes,
            node_id_of(file, t.line(i), t.field_text(i, "name"@)->0),
        ) by {
            let def = c.definition(i)->0;
            assert(c.definition(i) is Some);
            assert(has_id(own, definition_id(t, file, i, def)));
            let k = choose|k: int|
                0 <= k < own.len() && (#[trigger] own[k]).node_id == definition_id(t, file, i, def);
            assert(nodes[k] == own[k]);
        }
        assert forall|k: int| 0 <= k < facts.nodes.len() implies has_id(
            nodes,
            (#[trigger] facts.nodes[k]).node_id,
        ) by {
            assert(nodes[own.len() + k] == facts.nodes[k]);
        }
        lemma_facts_of_first_join(nodes, t, file, t.len());
    }
}

} // verus!
