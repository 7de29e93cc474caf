//! What Spring brings to a file, said of the declarations in it.
use super::annotation::{annotations, bare_values, first_annotation, named_values, AnnotationView};
use super::feign::{client_facts, client_targets, service};
use super::java_type::extended_names;
use super::reading::{
    annotation_is_found_wherever_it_stands, every_mapping_stands_for_a_method,
    mapping_is_found_wherever_it_stands,
};
use super::repository::{extends_repository, query_targets, repository_facts, repository_marker};
use super::route::{
    class_routes, composed, http_method, mapping_name, marks_controller, method_routes, paths,
    prefix_of, routes, routes_among,
};
use super::{facts_of_first, framework_import, node_facts, spring_facts, uses_framework};
use crate::graph::callee::type_heads;
use crate::model::{EdgeView, FactsView, NodeView, TargetView};
use crate::syntax::{
    children_are_the_nodes_of_that_parent, named_children_are_the_named_nodes_of_that_parent, TreeView,
};
use crate::text::{decimal, holds_part};
use vstd::prelude::*;

verus! {

// -------------------------------------------------------------------------------------------------
// The file
// -------------------------------------------------------------------------------------------------
/// A file uses Spring exactly where one of its imports, whichever it is, names Spring or Jakarta
/// persistence.
pub proof fn file_uses_spring_where_it_imports_it(t: TreeView)
    ensures
        uses_framework(t) <==> exists|c: int|
            0 <= c < t.len() && #[trigger] t.parent(c) == Some(0int) && t.kind(c)
                == "import_declaration"@ && (t.text(c) matches Some(s) && (holds_part(
                s,
                "org.springframework"@,
            ) || holds_part(s, "jakarta.persistence"@))),
{
    let kids = t.children(0);
    children_are_the_nodes_of_that_parent(t, 0);
    if uses_framework(t) {
        let k = choose|k: int| 0 <= k < kids.len() && framework_import(t, #[trigger] kids[k]);
        assert(kids.contains(kids[k]));
        assert(t.parent(kids[k]) == Some(0int));
    }
    if exists|c: int|
        0 <= c < t.len() && #[trigger] t.parent(c) == Some(0int) && t.kind(c) == "import_declaration"@
            && (t.text(c) matches Some(s) && (holds_part(s, "org.springframework"@) || holds_part(
            s,
            "jakarta.persistence"@,
        ))) {
        let c = choose|c: int|
            0 <= c < t.len() && #[trigger] t.parent(c) == Some(0int) && t.kind(c)
                == "import_declaration"@ && (t.text(c) matches Some(s) && (holds_part(
                s,
                "org.springframework"@,
            ) || holds_part(s, "jakarta.persistence"@)));
        assert(kids.contains(c));
        let k = choose|k: int| 0 <= k < kids.len() && kids[k] == c;
        assert(framework_import(t, kids[k]));
    }
}

/// Lists by the numbers below `n`, one after the other.
spec fn joined<T>(n: int, f: spec_fn(int) -> Seq<T>) -> Seq<T> {
    Seq::new(n as nat, f).flatten()
}

proof fn lemma_joined_more<T>(n: int, f: spec_fn(int) -> Seq<T>)
    requires
        n > 0,
    ensures
        joined(n, f) == joined(n - 1, f) + f(n - 1),
{
    let before = Seq::new((n - 1) as nat, f);
    assert(Seq::new(n as nat, f) =~= before.push(f(n - 1)));
    before.lemma_flatten_push(f(n - 1));
}

proof fn lemma_declaration_kinds()
    ensures
        "class_declaration"@.len() == 17,
        "interface_declaration"@.len() == 21,
{
    reveal_strlit("class_declaration");
    reveal_strlit("interface_declaration");
}

proof fn lemma_facts_joined(t: TreeView, file: Seq<char>, n: int)
    requires
        0 <= n,
    ensures
        facts_of_first(t, file, n).nodes == joined(n, |i: int| node_facts(t, i, file).nodes),
        facts_of_first(t, file, n).edges == joined(n, |i: int| node_facts(t, i, file).edges),
        facts_of_first(t, file, n).call_targets == joined(
            n,
            |i: int| node_facts(t, i, file).call_targets,
        ),
    decreases n,
{
    let nodes = |i: int| node_facts(t, i, file).nodes;
    let edges = |i: int| node_facts(t, i, file).edges;
    let targets = |i: int| node_facts(t, i, file).call_targets;
    if n > 0 {
        lemma_facts_joined(t, file, n - 1);
        lemma_joined_more(n, nodes);
        lemma_joined_more(n, edges);
        lemma_joined_more(n, targets);
    } else {
        assert(Seq::new(0, nodes) =~= Seq::empty());
        assert(Seq::new(0, edges) =~= Seq::empty());
        assert(Seq::new(0, targets) =~= Seq::empty());
    }
}

/// What Spring brings to a file that uses it is what each class brings as a controller and each interface
/// as a Feign client and as a repository, wherever in the file they stand, one after the other, and
/// nothing else.
pub proof fn file_brings_what_each_declaration_brings(t: TreeView, file: Seq<char>)
    requires
        uses_framework(t),
    ensures
        spring_facts(t, file).nodes == Seq::new(
            t.rows.len(),
            |i: int|
                if t.kind(i) == "class_declaration"@ {
                    class_routes(t, i, file).nodes
                } else if t.kind(i) == "interface_declaration"@ {
                    client_facts(t, i, file).nodes + repository_facts(t, i, file).nodes
                } else {
                    Seq::<NodeView>::empty()
                },
        ).flatten(),
        spring_facts(t, file).edges == Seq::new(
            t.rows.len(),
            |i: int|
                if t.kind(i) == "class_declaration"@ {
                    class_routes(t, i, file).edges
                } else if t.kind(i) == "interface_declaration"@ {
                    client_facts(t, i, file).edges + repository_facts(t, i, file).edges
                } else {
                    Seq::<EdgeView>::empty()
                },
        ).flatten(),
        spring_facts(t, file).call_targets == Seq::new(
            t.rows.len(),
            |i: int|
                if t.kind(i) == "class_declaration"@ {
                    class_routes(t, i, file).call_targets
                } else if t.kind(i) == "interface_declaration"@ {
                    client_facts(t, i, file).call_targets + repository_facts(t, i, file).call_targets
                } else {
                    Seq::<TargetView>::empty()
                },
        ).flatten(),
{
    lemma_declaration_kinds();
    lemma_facts_joined(t, file, t.len());
    let n = t.rows.len();
    assert(Seq::new(n, |i: int| node_facts(t, i, file).nodes) =~= Seq::new(
        n,
        |i: int|
            if t.kind(i) == "class_declaration"@ {
                class_routes(t, i, file).nodes
            } else if t.kind(i) == "interface_declaration"@ {
                client_facts(t, i, file).nodes + repository_facts(t, i, file).nodes
            } else {
                Seq::<NodeView>::empty()
            },
    ));
    assert(Seq::new(n, |i: int| node_facts(t, i, file).edges) =~= Seq::new(
        n,
        |i: int|
            if t.kind(i) == "class_declaration"@ {
                class_routes(t, i, file).edges
            } else if t.kind(i) == "interface_declaration"@ {
                client_facts(t, i, file).edges + repository_facts(t, i, file).edges
            } else {
                Seq::<EdgeView>::empty()
            },
    ));
    assert(Seq::new(n, |i: int| node_facts(t, i, file).call_targets) =~= Seq::new(
        n,
        |i: int|
            if t.kind(i) == "class_declaration"@ {
                class_routes(t, i, file).call_targets
            } else if t.kind(i) == "interface_declaration"@ {
                client_facts(t, i, file).call_targets + repository_facts(t, i, file).call_targets
            } else {
                Seq::<TargetView>::empty()
            },
    ));
}

proof fn lemma_flatten_holds<T>(lists: Seq<Seq<T>>, i: int, x: T)
    requires
        0 <= i < lists.len(),
        lists[i].contains(x),
    ensures
        lists.flatten().contains(x),
    decreases lists.len(),
{
    let last = lists.last();
    let rest = lists.drop_last();
    assert(lists =~= rest.push(last));
    rest.lemma_flatten_push(last);
    if i == lists.len() - 1 {
        let k = choose|k: int| 0 <= k < last.len() && last[k] == x;
        assert((rest.flatten() + last)[rest.flatten().len() + k] == x);
    } else {
        assert(rest[i] == lists[i]);
        lemma_flatten_holds(rest, i, x);
        let k = choose|k: int| 0 <= k < rest.flatten().len() && rest.flatten()[k] == x;
        assert((rest.flatten() + last)[k] == x);
    }
}

// -------------------------------------------------------------------------------------------------
// Routes
// -------------------------------------------------------------------------------------------------
proof fn lemma_routes_by_path(
    method: Seq<char>,
    prefix: Seq<char>,
    suffixes: Seq<Seq<char>>,
    file: Seq<char>,
    line: int,
    handler: Seq<char>,
)
    ensures
        routes(method, prefix, suffixes, file, line, handler).nodes.len() == suffixes.len(),
        routes(method, prefix, suffixes, file, line, handler).edges.len() == suffixes.len(),
        routes(method, prefix, suffixes, file, line, handler).call_targets.len() == 0,
        forall|k: int|
            0 <= k < suffixes.len() ==> {
                let facts = routes(method, prefix, suffixes, file, line, handler);
                let path = composed(prefix, #[trigger] suffixes[k]);
                &&& facts.nodes[k].node_id == "route:"@ + method + ":"@ + path
                &&& facts.nodes[k].label == method + " "@ + path
                &&& facts.nodes[k].source_file == file
                &&& facts.nodes[k].start_line == line
                &&& facts.edges[k].source == facts.nodes[k].node_id
                &&& facts.edges[k].target == handler
                &&& facts.edges[k].relation == "calls"@
            },
    decreases suffixes.len(),
{
    if suffixes.len() > 0 {
        let rest = suffixes.drop_last();
        lemma_routes_by_path(method, prefix, rest, file, line, handler);
        let was = routes(method, prefix, rest, file, line, handler);
        let now = routes(method, prefix, suffixes, file, line, handler);
        assert forall|k: int| 0 <= k < suffixes.len() implies {
            let path = composed(prefix, #[trigger] suffixes[k]);
            &&& now.nodes[k].node_id == "route:"@ + method + ":"@ + path
            &&& now.nodes[k].label == method + " "@ + path
            &&& now.nodes[k].source_file == file
            &&& now.nodes[k].start_line == line
            &&& now.edges[k].source == now.nodes[k].node_id
            &&& now.edges[k].target == handler
            &&& now.edges[k].relation == "calls"@
        } by {
            if k < rest.len() {
                assert(rest[k] == suffixes[k]);
                assert(now.nodes[k] == was.nodes[k]);
                assert(now.edges[k] == was.edges[k]);
            }
        }
    }
}

/// A method brings one route for each path of its first mapping annotation, wherever that stands among
/// its annotations, or one for the class's prefix alone where it gives no path: a node by the HTTP method
/// and the path, on the method's line, with a `calls` edge to the method.
pub proof fn method_brings_a_route_for_each_path(
    t: TreeView,
    m: int,
    prefix: Seq<char>,
    file: Seq<char>,
    k: int,
    name: Seq<char>,
    suffixes: Seq<Seq<char>>,
)
    requires
        0 <= k < annotations(t, m).len(),
        mapping_name(annotations(t, m)[k].name),
        forall|j: int| 0 <= j < k ==> !mapping_name((#[trigger] annotations(t, m)[j]).name),
        t.field_text(m, "name"@) == Some(name),
        paths(t, annotations(t, m)[k]).len() > 0 ==> suffixes == paths(t, annotations(t, m)[k]),
        paths(t, annotations(t, m)[k]).len() == 0 ==> suffixes == seq![Seq::<char>::empty()],
    ensures
        http_method(t, annotations(t, m)[k]) is Some,
        suffixes.len() >= 1,
        method_routes(t, m, prefix, file).nodes.len() == suffixes.len(),
        method_routes(t, m, prefix, file).edges.len() == suffixes.len(),
        method_routes(t, m, prefix, file).call_targets.len() == 0,
        forall|x: int|
            0 <= x < suffixes.len() ==> {
                let node = method_routes(t, m, prefix, file).nodes[x];
                let edge = method_routes(t, m, prefix, file).edges[x];
                let method = http_method(t, annotations(t, m)[k])->0;
                let path = composed(prefix, #[trigger] suffixes[x]);
                &&& node.node_id == "route:"@ + method + ":"@ + path
                &&& node.label == method + " "@ + path
                &&& node.source_file == file
                &&& node.start_line == t.rows[m].row as int + 1
                &&& edge.source == node.node_id
                &&& edge.target == file.push('#') + decimal(t.rows[m].row as int + 1).push(':') + name
                &&& edge.relation == "calls"@
            },
{
    let a = annotations(t, m)[k];
    mapping_is_found_wherever_it_stands(annotations(t, m));
    every_mapping_stands_for_a_method(t, a);
    lemma_routes_by_path(
        http_method(t, a)->0,
        prefix,
        suffixes,
        file,
        t.line(m),
        file.push('#') + decimal(t.rows[m].row as int + 1).push(':') + name,
    );
}

/// A method without a name, or without a mapping annotation, brings nothing.
pub proof fn method_without_a_mapping_brings_nothing(
    t: TreeView,
    m: int,
    prefix: Seq<char>,
    file: Seq<char>,
)
    requires
        t.field_text(m, "name"@) is None || forall|j: int|
            0 <= j < annotations(t, m).len() ==> !mapping_name((#[trigger] annotations(t, m)[j]).name),
    ensures
        method_routes(t, m, prefix, file) == FactsView::empty(),
{
    mapping_is_found_wherever_it_stands(annotations(t, m));
}

/// A class is a controller exactly where one of its annotations, whichever it is, says so.
pub proof fn controller_is_marked_by_any_annotation(list: Seq<AnnotationView>)
    ensures
        marks_controller(list) <==> exists|k: int|
            0 <= k < list.len() && ((#[trigger] list[k]).name == "RestController"@ || list[k].name
                == "Controller"@),
{
    if exists|k: int|
        0 <= k < list.len() && ((#[trigger] list[k]).name == "RestController"@ || list[k].name
            == "Controller"@) {
        let k = choose|k: int|
            0 <= k < list.len() && ((#[trigger] list[k]).name == "RestController"@ || list[k].name
                == "Controller"@);
        assert(super::route::controller_marker(list[k].name));
    }
}

proof fn lemma_routes_among_joined(
    t: TreeView,
    members: Seq<int>,
    prefix: Seq<char>,
    file: Seq<char>,
)
    ensures
        routes_among(t, members, prefix, file).nodes == members.map_values(
            |m: int|
                if t.kind(m) == "method_declaration"@ {
                    method_routes(t, m, prefix, file).nodes
                } else {
                    Seq::<NodeView>::empty()
                },
        ).flatten(),
        routes_among(t, members, prefix, file).edges == members.map_values(
            |m: int|
                if t.kind(m) == "method_declaration"@ {
                    method_routes(t, m, prefix, file).edges
                } else {
                    Seq::<EdgeView>::empty()
                },
        ).flatten(),
    decreases members.len(),
{
    let nodes = |m: int|
        if t.kind(m) == "method_declaration"@ {
            method_routes(t, m, prefix, file).nodes
        } else {
            Seq::<NodeView>::empty()
        };
    let edges = |m: int|
        if t.kind(m) == "method_declaration"@ {
            method_routes(t, m, prefix, file).edges
        } else {
            Seq::<EdgeView>::empty()
        };
    if members.len() == 0 {
        assert(members.map_values(nodes) =~= Seq::empty());
        assert(members.map_values(edges) =~= Seq::empty());
    } else {
        let rest = members.drop_last();
        let last = members.last();
        lemma_routes_among_joined(t, rest, prefix, file);
        assert(members.map_values(nodes) =~= rest.map_values(nodes).push(nodes(last)));
        assert(members.map_values(edges) =~= rest.map_values(edges).push(edges(last)));
        rest.map_values(nodes).lemma_flatten_push(nodes(last));
        rest.map_values(edges).lemma_flatten_push(edges(last));
        let now = routes_among(t, members, prefix, file);
        let was = routes_among(t, rest, prefix, file);
        assert(now.nodes =~= was.nodes + nodes(last));
        assert(now.edges =~= was.edges + edges(last));
    }
}

/// A controller class brings what each of its methods brings under the class's prefix, wherever in its
/// body they stand, one after the other; any other class brings nothing.
pub proof fn controller_brings_what_each_method_brings(
    t: TreeView,
    i: int,
    body: int,
    file: Seq<char>,
)
    requires
        t.field_child(i, "body"@) == Some(body),
    ensures
        marks_controller(annotations(t, i)) ==> class_routes(t, i, file).nodes == t.named_children(
            body,
        ).map_values(
            |m: int|
                if t.kind(m) == "method_declaration"@ {
                    method_routes(t, m, prefix_of(t, annotations(t, i)), file).nodes
                } else {
                    Seq::<NodeView>::empty()
                },
        ).flatten(),
        marks_controller(annotations(t, i)) ==> class_routes(t, i, file).edges == t.named_children(
            body,
        ).map_values(
            |m: int|
                if t.kind(m) == "method_declaration"@ {
                    method_routes(t, m, prefix_of(t, annotations(t, i)), file).edges
                } else {
                    Seq::<EdgeView>::empty()
                },
        ).flatten(),
        !marks_controller(annotations(t, i)) ==> class_routes(t, i, file) == FactsView::empty(),
{
    lemma_routes_among_joined(t, t.named_children(body), prefix_of(t, annotations(t, i)), file);
}

/// A class without a body brings nothing.
pub proof fn class_without_a_body_brings_nothing(t: TreeView, i: int, file: Seq<char>)
    requires
        t.field_child(i, "body"@) is None,
    ensures
        class_routes(t, i, file) == FactsView::empty(),
{
}

/// A method of a controller class that has a name and a mapping annotation, at whatever place among its
/// annotations and wherever in the class, brings the file a route: a node, and a `calls` edge from it to
/// the method.
pub proof fn mapped_method_of_a_controller_has_a_route(
    t: TreeView,
    file: Seq<char>,
    class: int,
    marker: int,
    body: int,
    m: int,
    name: Seq<char>,
    k: int,
) -> (e: EdgeView)
    requires
        uses_framework(t),
        0 <= class < t.len(),
        t.kind(class) == "class_declaration"@,
        0 <= marker < annotations(t, class).len(),
        annotations(t, class)[marker].name == "RestController"@ || annotations(t, class)[marker].name
            == "Controller"@,
        t.field_child(class, "body"@) == Some(body),
        0 <= m < t.len(),
        t.parent(m) == Some(body),
        t.rows[m].named,
        t.kind(m) == "method_declaration"@,
        t.field_text(m, "name"@) == Some(name),
        0 <= k < annotations(t, m).len(),
        ({
            let mapping = annotations(t, m)[k].name;
            mapping == "RequestMapping"@ || mapping == "GetMapping"@ || mapping == "PostMapping"@
                || mapping == "PutMapping"@ || mapping == "DeleteMapping"@ || mapping
                == "PatchMapping"@
        }),
    ensures
        spring_facts(t, file).edges.contains(e),
        e.relation == "calls"@,
        e.target == file.push('#') + decimal(t.rows[m].row as int + 1).push(':') + name,
        exists|x: int|
            0 <= x < spring_facts(t, file).nodes.len() && (#[trigger] spring_facts(t, file).nodes[x]).node_id
                == e.source,
{
    let prefix = prefix_of(t, annotations(t, class));
    let list = annotations(t, m);
    super::reading::mapping_annotations_and_their_methods(list[k].name);
    let first = lemma_least_mapping(list, k);
    let suffixes = if paths(t, list[first]).len() > 0 {
        paths(t, list[first])
    } else {
        seq![Seq::<char>::empty()]
    };
    method_brings_a_route_for_each_path(t, m, prefix, file, first, name, suffixes);
    let mine = method_routes(t, m, prefix, file);
    assert(suffixes[0] == suffixes[0]);
    let e = mine.edges[0];
    let n = mine.nodes[0];
    assert(mine.edges.contains(e));
    assert(mine.nodes.contains(n));

    controller_is_marked_by_any_annotation(annotations(t, class));
    controller_brings_what_each_method_brings(t, class, body, file);
    named_children_are_the_named_nodes_of_that_parent(t, body);
    let members = t.named_children(body);
    assert(members.contains(m));
    let w = choose|w: int| 0 <= w < members.len() && members[w] == m;
    let nodes_of = |m: int|
        if t.kind(m) == "method_declaration"@ {
            method_routes(t, m, prefix, file).nodes
        } else {
            Seq::<NodeView>::empty()
        };
    let edges_of = |m: int|
        if t.kind(m) == "method_declaration"@ {
            method_routes(t, m, prefix, file).edges
        } else {
            Seq::<EdgeView>::empty()
        };
    lemma_flatten_holds(members.map_values(nodes_of), w, n);
    lemma_flatten_holds(members.map_values(edges_of), w, e);

    lemma_declaration_kinds();
    lemma_facts_joined(t, file, t.len());
    let all_nodes = |i: int| node_facts(t, i, file).nodes;
    let all_edges = |i: int| node_facts(t, i, file).edges;
    lemma_flatten_holds(Seq::new(t.rows.len(), all_nodes), class, n);
    lemma_flatten_holds(Seq::new(t.rows.len(), all_edges), class, e);
    let x = choose|x: int|
        0 <= x < spring_facts(t, file).nodes.len() && spring_facts(t, file).nodes[x] == n;
    assert(spring_facts(t, file).nodes[x].node_id == e.source);
    e
}

proof fn lemma_least_mapping(list: Seq<AnnotationView>, k: int) -> (first: int)
    requires
        0 <= k < list.len(),
        mapping_name(list[k].name),
    ensures
        0 <= first <= k,
        mapping_name(list[first].name),
        forall|j: int| 0 <= j < first ==> !mapping_name((#[trigger] list[j]).name),
    decreases k,
{
    if forall|j: int| 0 <= j < k ==> !mapping_name((#[trigger] list[j]).name) {
        k
    } else {
        let j = choose|j: int| 0 <= j < k && mapping_name((#[trigger] list[j]).name);
        lemma_least_mapping(list, j)
    }
}

// -------------------------------------------------------------------------------------------------
// Feign clients
// -------------------------------------------------------------------------------------------------
/// A Feign client's service is the first string under `name` or `value`, and without one its first bare
/// string; without any it has none.
pub proof fn service_is_the_first_string_given(t: TreeView, a: AnnotationView)
    ensures
        ({
            let named = named_values(t, a.arguments, seq!["name"@, "value"@]);
            let bare = bare_values(t, a.arguments);
            &&& named.len() > 0 ==> service(t, a) == Some(named[0])
            &&& named.len() == 0 && bare.len() > 0 ==> service(t, a) == Some(bare[0])
            &&& named.len() == 0 && bare.len() == 0 ==> service(t, a) is None
        }),
{
}

/// Whether `at` are those of `nodes` that `holds` holds of, in order.
spec fn lists_those(nodes: Seq<int>, at: Seq<int>, holds: spec_fn(int) -> bool) -> bool {
    &&& forall|k: int| 0 <= k < at.len() ==> nodes.contains(#[trigger] at[k]) && holds(at[k])
    &&& forall|j: int, k: int| 0 <= j < k < at.len() ==> #[trigger] at[j] < #[trigger] at[k]
    &&& forall|w: int| 0 <= w < nodes.len() && holds(#[trigger] nodes[w]) ==> at.contains(nodes[w])
}

proof fn lemma_lists_last(nodes: Seq<int>, before: Seq<int>, holds: spec_fn(int) -> bool) -> (at: Seq<
    int,
>)
    requires
        nodes.len() > 0,
        forall|j: int, k: int| 0 <= j < k < nodes.len() ==> #[trigger] nodes[j] < #[trigger] nodes[k],
        lists_those(nodes.drop_last(), before, holds),
    ensures
        lists_those(nodes, at, holds),
        at == if holds(nodes.last()) {
            before.push(nodes.last())
        } else {
            before
        },
{
    let rest = nodes.drop_last();
    let last = nodes.last();
    let at = if holds(last) {
        before.push(last)
    } else {
        before
    };
    assert forall|k: int| 0 <= k < at.len() implies nodes.contains(#[trigger] at[k]) && holds(
        at[k],
    ) by {
        if k < before.len() {
            assert(at[k] == before[k]);
            assert(rest.contains(before[k]));
            let w = choose|w: int| 0 <= w < rest.len() && rest[w] == before[k];
            assert(nodes[w] == at[k]);
        } else {
            assert(nodes[nodes.len() - 1] == at[k]);
        }
    }
    assert forall|j: int, k: int| 0 <= j < k < at.len() implies #[trigger] at[j]
        < #[trigger] at[k] by {
        assert(at[j] == before[j]);
        if k == before.len() {
            assert(rest.contains(before[j]));
            let w = choose|w: int| 0 <= w < rest.len() && rest[w] == before[j];
            assert(nodes[w] < nodes[nodes.len() - 1]);
        } else {
            assert(at[k] == before[k]);
        }
    }
    assert forall|w: int| 0 <= w < nodes.len() && holds(#[trigger] nodes[w]) implies at.contains(
        nodes[w],
    ) by {
        if w < rest.len() {
            assert(rest[w] == nodes[w]);
            assert(before.contains(rest[w]));
            let k = choose|k: int| 0 <= k < before.len() && before[k] == rest[w];
            assert(at[k] == nodes[w]);
        } else {
            assert(at[before.len() as int] == nodes[w]);
        }
    }
    at
}

proof fn lemma_client_targets_listed(
    t: TreeView,
    members: Seq<int>,
    id: Seq<char>,
    interface_name: Seq<char>,
) -> (at: Seq<int>)
    requires
        forall|j: int, k: int|
            0 <= j < k < members.len() ==> #[trigger] members[j] < #[trigger] members[k],
    ensures
        lists_those(
            members,
            at,
            |m: int| t.kind(m) == "method_declaration"@ && t.field_text(m, "name"@) is Some,
        ),
        client_targets(t, members, id, interface_name).len() == at.len(),
        forall|k: int|
            0 <= k < at.len() ==> {
                let x = client_targets(t, members, id, interface_name)[k];
                &&& t.field_text(#[trigger] at[k], "name"@) == Some(x.name)
                &&& x.node_id == id
                &&& x.scope == Some(interface_name)
                &&& x.scope_supers.len() == 0
            },
    decreases members.len(),
{
    let holds = |m: int| t.kind(m) == "method_declaration"@ && t.field_text(m, "name"@) is Some;
    if members.len() == 0 {
        assert(lists_those(members, Seq::empty(), holds));
        Seq::empty()
    } else {
        let rest = members.drop_last();
        assert forall|j: int, k: int| 0 <= j < k < rest.len() implies #[trigger] rest[j]
            < #[trigger] rest[k] by {
            assert(members[j] < members[k]);
        }
        let before = lemma_client_targets_listed(t, rest, id, interface_name);
        let at = lemma_lists_last(members, before, holds);
        let now = client_targets(t, members, id, interface_name);
        let was = client_targets(t, rest, id, interface_name);
        assert forall|k: int| 0 <= k < at.len() implies {
            let x = now[k];
            &&& t.field_text(#[trigger] at[k], "name"@) == Some(x.name)
            &&& x.node_id == id
            &&& x.scope == Some(interface_name)
            &&& x.scope_supers.len() == 0
        } by {
            if k < before.len() {
                assert(at[k] == before[k]);
                assert(now[k] == was[k]);
            }
        }
        at
    }
}

/// A Feign client brings the node of its service, and as call targets that lead there its methods with a
/// name, all of them and each once, whatever modifiers and annotations they carry, in order. It brings no
/// edge. The nodes of the methods are what is returned.
pub proof fn feign_client_brings_its_service_and_methods(
    t: TreeView,
    i: int,
    file: Seq<char>,
    a: int,
    service_name: Seq<char>,
    interface_name: Seq<char>,
    body: int,
) -> (at: Seq<int>)
    requires
        0 <= a < annotations(t, i).len(),
        annotations(t, i)[a].name == "FeignClient"@,
        forall|j: int| 0 <= j < a ==> (#[trigger] annotations(t, i)[j]).name != "FeignClient"@,
        service(t, annotations(t, i)[a]) == Some(service_name),
        t.field_text(i, "name"@) == Some(interface_name),
        t.field_child(i, "body"@) == Some(body),
    ensures
        forall|j: int, k: int| 0 <= j < k < at.len() ==> #[trigger] at[j] < #[trigger] at[k],
        forall|m: int| #[trigger]
            at.contains(m) <==> 0 <= m < t.len() && t.parent(m) == Some(body) && t.rows[m].named
                && t.kind(m) == "method_declaration"@ && t.field_text(m, "name"@) is Some,
        client_facts(t, i, file).nodes.len() == 1,
        client_facts(t, i, file).nodes[0].node_id == "service:"@ + service_name,
        client_facts(t, i, file).nodes[0].label == service_name,
        client_facts(t, i, file).nodes[0].source_file == file,
        client_facts(t, i, file).nodes[0].start_line == t.rows[i].row as int + 1,
        client_facts(t, i, file).edges.len() == 0,
        client_facts(t, i, file).call_targets.len() == at.len(),
        forall|k: int|
            0 <= k < at.len() ==> {
                let x = client_facts(t, i, file).call_targets[k];
                &&& t.field_text(#[trigger] at[k], "name"@) == Some(x.name)
                &&& x.node_id == "service:"@ + service_name
                &&& x.scope == Some(interface_name)
                &&& x.scope_supers.len() == 0
            },
{
    annotation_is_found_wherever_it_stands(annotations(t, i), "FeignClient"@);
    named_children_are_the_named_nodes_of_that_parent(t, body);
    let members = t.named_children(body);
    let holds = |m: int| t.kind(m) == "method_declaration"@ && t.field_text(m, "name"@) is Some;
    let at = lemma_client_targets_listed(t, members, "service:"@ + service_name, interface_name);
    assert forall|m: int| #[trigger]
        at.contains(m) <==> 0 <= m < t.len() && t.parent(m) == Some(body) && t.rows[m].named && t.kind(
            m,
        ) == "method_declaration"@ && t.field_text(m, "name"@) is Some by {
        if at.contains(m) {
            let k = choose|k: int| 0 <= k < at.len() && at[k] == m;
            assert(members.contains(at[k]) && holds(at[k]));
        }
        if 0 <= m < t.len() && t.parent(m) == Some(body) && t.rows[m].named && holds(m) {
            assert(members.contains(m));
            let w = choose|w: int| 0 <= w < members.len() && members[w] == m;
            assert(holds(members[w]));
        }
    }
    at
}

/// A Feign client without a body brings the node of its service alone.
pub proof fn feign_client_without_a_body_brings_its_service(
    t: TreeView,
    i: int,
    file: Seq<char>,
    a: int,
    service_name: Seq<char>,
)
    requires
        0 <= a < annotations(t, i).len(),
        annotations(t, i)[a].name == "FeignClient"@,
        forall|j: int| 0 <= j < a ==> (#[trigger] annotations(t, i)[j]).name != "FeignClient"@,
        service(t, annotations(t, i)[a]) == Some(service_name),
        t.field_text(i, "name"@) is Some,
        t.field_child(i, "body"@) is None,
    ensures
        client_facts(t, i, file).nodes.len() == 1,
        client_facts(t, i, file).nodes[0].node_id == "service:"@ + service_name,
        client_facts(t, i, file).nodes[0].label == service_name,
        client_facts(t, i, file).nodes[0].source_file == file,
        client_facts(t, i, file).nodes[0].start_line == t.rows[i].row as int + 1,
        client_facts(t, i, file).edges.len() == 0,
        client_facts(t, i, file).call_targets.len() == 0,
{
    annotation_is_found_wherever_it_stands(annotations(t, i), "FeignClient"@);
}

/// An interface without the annotation, without a service or without a name brings nothing as a Feign
/// client.
pub proof fn other_interface_is_no_feign_client(t: TreeView, i: int, file: Seq<char>)
    requires
        ({
            ||| forall|j: int|
                0 <= j < annotations(t, i).len() ==> (#[trigger] annotations(t, i)[j]).name
                    != "FeignClient"@
            ||| t.field_text(i, "name"@) is None
            ||| exists|a: int|
                {
                    &&& 0 <= a < annotations(t, i).len()
                    &&& (#[trigger] annotations(t, i)[a]).name == "FeignClient"@
                    &&& forall|j: int|
                        0 <= j < a ==> (#[trigger] annotations(t, i)[j]).name != "FeignClient"@
                    &&& service(t, annotations(t, i)[a]) is None
                }
        }),
    ensures
        client_facts(t, i, file) == FactsView::empty(),
{
    annotation_is_found_wherever_it_stands(annotations(t, i), "FeignClient"@);
}

/// Every method with a name of a Feign client in a file that uses Spring, with or without modifiers, is a
/// call target that leads to the node of the client's service, and that node is there.
pub proof fn feign_method_leads_to_its_service(
    t: TreeView,
    file: Seq<char>,
    i: int,
    a: int,
    service_name: Seq<char>,
    interface_name: Seq<char>,
    body: int,
    m: int,
    name: Seq<char>,
) -> (x: TargetView)
    requires
        uses_framework(t),
        0 <= i < t.len(),
        t.kind(i) == "interface_declaration"@,
        0 <= a < annotations(t, i).len(),
        annotations(t, i)[a].name == "FeignClient"@,
        forall|j: int| 0 <= j < a ==> (#[trigger] annotations(t, i)[j]).name != "FeignClient"@,
        service(t, annotations(t, i)[a]) == Some(service_name),
        t.field_text(i, "name"@) == Some(interface_name),
        t.field_child(i, "body"@) == Some(body),
        0 <= m < t.len(),
        t.parent(m) == Some(body),
        t.rows[m].named,
        t.kind(m) == "method_declaration"@,
        t.field_text(m, "name"@) == Some(name),
    ensures
        spring_facts(t, file).call_targets.contains(x),
        x.name == name,
        x.node_id == "service:"@ + service_name,
        x.scope == Some(interface_name),
        exists|k: int|
            0 <= k < spring_facts(t, file).nodes.len() && (#[trigger] spring_facts(t, file).nodes[k]).node_id
                == "service:"@ + service_name,
{
    let at = feign_client_brings_its_service_and_methods(
        t,
        i,
        file,
        a,
        service_name,
        interface_name,
        body,
    );
    assert(at.contains(m));
    let k = choose|k: int| 0 <= k < at.len() && at[k] == m;
    let client = client_facts(t, i, file);
    let repository = repository_facts(t, i, file);
    let x = client.call_targets[k];
    let n = client.nodes[0];
    assert(t.field_text(at[k], "name"@) == Some(x.name));
    lemma_declaration_kinds();
    lemma_facts_joined(t, file, t.len());
    let all_nodes = |i: int| node_facts(t, i, file).nodes;
    let all_targets = |i: int| node_facts(t, i, file).call_targets;
    assert(node_facts(t, i, file).nodes[0] == n);
    assert(node_facts(t, i, file).call_targets[k] == x);
    assert(all_nodes(i).contains(n));
    assert(all_targets(i).contains(x));
    lemma_flatten_holds(Seq::new(t.rows.len(), all_nodes), i, n);
    lemma_flatten_holds(Seq::new(t.rows.len(), all_targets), i, x);
    let y = choose|y: int|
        0 <= y < spring_facts(t, file).nodes.len() && spring_facts(t, file).nodes[y] == n;
    assert(spring_facts(t, file).nodes[y].node_id == "service:"@ + service_name);
    x
}

// -------------------------------------------------------------------------------------------------
// Repositories
// -------------------------------------------------------------------------------------------------
/// The names an interface extends are what its extended interfaces stand for.
pub proof fn extended_names_are_those_of_the_extended_interfaces(t: TreeView, i: int)
    ensures
        t.kind_child(i, "extends_interfaces"@) matches Some(c) ==> extended_names(t, i) == type_heads(
            t,
            c,
        ),
        t.kind_child(i, "extends_interfaces"@) is None ==> extended_names(t, i).len() == 0,
{
}

/// An interface is a repository exactly where one of the names it extends, whichever it is, is one of
/// Spring Data's own.
pub proof fn repository_extends_one_of_spring_datas_own(supers: Seq<Seq<char>>)
    ensures
        extends_repository(supers) <==> exists|k: int|
            0 <= k < supers.len() && {
                let name = #[trigger] supers[k];
                name == "Repository"@ || name == "CrudRepository"@ || name == "ListCrudRepository"@
                    || name == "PagingAndSortingRepository"@ || name
                    == "ListPagingAndSortingRepository"@ || name == "JpaRepository"@ || name
                    == "ReactiveCrudRepository"@ || name == "ReactiveSortingRepository"@ || name
                    == "RxJava3CrudRepository"@ || name == "MongoRepository"@ || name
                    == "R2dbcRepository"@ || name == "CassandraRepository"@ || name
                    == "ElasticsearchRepository"@
            },
{
    if extends_repository(supers) {
        let k = choose|k: int| 0 <= k < supers.len() && repository_marker(#[trigger] supers[k]);
        assert(repository_marker(supers[k]));
    }
    assert forall|k: int| 0 <= k < supers.len() && repository_marker(
        supers[k],
    ) implies extends_repository(supers) by {}
}

proof fn lemma_query_targets_listed(
    t: TreeView,
    members: Seq<int>,
    file: Seq<char>,
    interface_name: Seq<char>,
    supers: Seq<Seq<char>>,
) -> (at: Seq<int>)
    requires
        forall|j: int, k: int|
            0 <= j < k < members.len() ==> #[trigger] members[j] < #[trigger] members[k],
    ensures
        lists_those(
            members,
            at,
            |m: int|
                t.kind(m) == "method_declaration"@ && t.field_text(m, "name"@) is Some
                    && t.field_child(m, "body"@) is None,
        ),
        query_targets(t, members, file, interface_name, supers).len() == at.len(),
        forall|k: int|
            0 <= k < at.len() ==> {
                let m = #[trigger] at[k];
                let x = query_targets(t, members, file, interface_name, supers)[k];
                &&& t.field_text(m, "name"@) == Some(x.name)
                &&& x.node_id == file.push('#') + decimal(t.rows[m].row as int + 1).push(':') + x.name
                &&& x.scope == Some(interface_name)
                &&& x.scope_supers == supers
            },
    decreases members.len(),
{
    let holds = |m: int|
        t.kind(m) == "method_declaration"@ && t.field_text(m, "name"@) is Some && t.field_child(
            m,
            "body"@,
        ) is None;
    if members.len() == 0 {
        assert(lists_those(members, Seq::empty(), holds));
        Seq::empty()
    } else {
        let rest = members.drop_last();
        assert forall|j: int, k: int| 0 <= j < k < rest.len() implies #[trigger] rest[j]
            < #[trigger] rest[k] by {
            assert(members[j] < members[k]);
        }
        let before = lemma_query_targets_listed(t, rest, file, interface_name, supers);
        let at = lemma_lists_last(members, before, holds);
        let now = query_targets(t, members, file, interface_name, supers);
        let was = query_targets(t, rest, file, interface_name, supers);
        assert forall|k: int| 0 <= k < at.len() implies {
            let m = #[trigger] at[k];
            let x = now[k];
            &&& t.field_text(m, "name"@) == Some(x.name)
            &&& x.node_id == file.push('#') + decimal(t.rows[m].row as int + 1).push(':') + x.name
            &&& x.scope == Some(interface_name)
            &&& x.scope_supers == supers
        } by {
            if k < before.len() {
                assert(at[k] == before[k]);
                assert(now[k] == was[k]);
            }
        }
        at
    }
}

/// A repository brings as call targets its methods with a name and without a body, all of them and each
/// once, whatever modifiers and annotations they carry, in order: each leads to the id of its own
/// definition, in the type of the interface with all that this extends. It brings nothing else. The nodes
/// of the methods are what is returned.
pub proof fn repository_brings_its_methods(
    t: TreeView,
    i: int,
    file: Seq<char>,
    interface_name: Seq<char>,
    body: int,
) -> (at: Seq<int>)
    requires
        extends_repository(extended_names(t, i)),
        t.field_text(i, "name"@) == Some(interface_name),
        t.field_child(i, "body"@) == Some(body),
    ensures
        forall|j: int, k: int| 0 <= j < k < at.len() ==> #[trigger] at[j] < #[trigger] at[k],
        forall|m: int| #[trigger]
            at.contains(m) <==> 0 <= m < t.len() && t.parent(m) == Some(body) && t.rows[m].named
                && t.kind(m) == "method_declaration"@ && t.field_text(m, "name"@) is Some
                && t.field_child(m, "body"@) is None,
        repository_facts(t, i, file).nodes.len() == 0,
        repository_facts(t, i, file).edges.len() == 0,
        repository_facts(t, i, file).call_targets.len() == at.len(),
        forall|k: int|
            0 <= k < at.len() ==> {
                let m = #[trigger] at[k];
                let x = repository_facts(t, i, file).call_targets[k];
                &&& t.field_text(m, "name"@) == Some(x.name)
                &&& x.node_id == file.push('#') + decimal(t.rows[m].row as int + 1).push(':') + x.name
                &&& x.scope == Some(interface_name)
                &&& x.scope_supers == extended_names(t, i)
            },
{
    named_children_are_the_named_nodes_of_that_parent(t, body);
    let members = t.named_children(body);
    let holds = |m: int|
        t.kind(m) == "method_declaration"@ && t.field_text(m, "name"@) is Some && t.field_child(
            m,
            "body"@,
        ) is None;
    let at = lemma_query_targets_listed(t, members, file, interface_name, extended_names(t, i));
    assert forall|m: int| #[trigger]
        at.contains(m) <==> 0 <= m < t.len() && t.parent(m) == Some(body) && t.rows[m].named && t.kind(
            m,
        ) == "method_declaration"@ && t.field_text(m, "name"@) is Some && t.field_child(
            m,
            "body"@,
        ) is None by {
        if at.contains(m) {
            let k = choose|k: int| 0 <= k < at.len() && at[k] == m;
            assert(members.contains(at[k]) && holds(at[k]));
        }
        if 0 <= m < t.len() && t.parent(m) == Some(body) && t.rows[m].named && holds(m) {
            assert(members.contains(m));
            let w = choose|w: int| 0 <= w < members.len() && members[w] == m;
            assert(holds(members[w]));
        }
    }
    at
}

/// An interface that extends none of Spring Data's own, or has no name or no body, brings nothing as a
/// repository.
pub proof fn other_interface_is_no_repository(t: TreeView, i: int, file: Seq<char>)
    requires
        !extends_repository(extended_names(t, i)) || t.field_text(i, "name"@) is None || t.field_child(
            i,
            "body"@,
        ) is None,
    ensures
        repository_facts(t, i, file) == FactsView::empty(),
{
}

/// Every method with a name and without a body of a repository in a file that uses Spring, with or without
/// modifiers, is a call target that leads to the id of its own definition.
pub proof fn repository_method_leads_to_its_definition(
    t: TreeView,
    file: Seq<char>,
    i: int,
    interface_name: Seq<char>,
    body: int,
    m: int,
    name: Seq<char>,
) -> (x: TargetView)
    requires
        uses_framework(t),
        0 <= i < t.len(),
        t.kind(i) == "interface_declaration"@,
        extends_repository(extended_names(t, i)),
        t.field_text(i, "name"@) == Some(interface_name),
        t.field_child(i, "body"@) == Some(body),
        0 <= m < t.len(),
        t.parent(m) == Some(body),
        t.rows[m].named,
        t.kind(m) == "method_declaration"@,
        t.field_child(m, "body"@) is None,
        t.field_text(m, "name"@) == Some(name),
    ensures
        spring_facts(t, file).call_targets.contains(x),
        x.name == name,
        x.node_id == file.push('#') + decimal(t.rows[m].row as int + 1).push(':') + name,
        x.scope == Some(interface_name),
        x.scope_supers == extended_names(t, i),
{
    let at = repository_brings_its_methods(t, i, file, interface_name, body);
    assert(at.contains(m));
    let k = choose|k: int| 0 <= k < at.len() && at[k] == m;
    let client = client_facts(t, i, file);
    let repository = repository_facts(t, i, file);
    let x = repository.call_targets[k];
    assert(t.field_text(at[k], "name"@) == Some(x.name));
    lemma_declaration_kinds();
    lemma_facts_joined(t, file, t.len());
    let all_targets = |i: int| node_facts(t, i, file).call_targets;
    assert(node_facts(t, i, file).call_targets[client.call_targets.len() + k] == x);
    assert(all_targets(i).contains(x));
    lemma_flatten_holds(Seq::new(t.rows.len(), all_targets), i, x);
    x
}

} // verus!
