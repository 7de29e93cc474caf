//! HTTP routes: the mappings of controller classes, as route nodes that call their handlers.
use super::annotation::{
    annotation_views, annotations, annotations_of, arguments_within, bare_string_values, bare_values,
    constant_tail, find_annotation, first_annotation, named_identifier_tail, named_string_values,
    named_values, Annotation, AnnotationView,
};
use crate::model::{
    def_node_id, node_id_of, EdgeView, FactsView, FrameworkFacts, GraphEdge,
    GraphNode, NodeView,
};
use crate::syntax::{same_indices, SyntaxTree, TreeView};
use crate::text::{
    chars_of, opt_text, same, str_texts, texts, without_leading_slashes, without_trailing_slashes,
};
use vstd::prelude::*;
use vstd::string::*;

verus! {

// -------------------------------------------------------------------------------------------------
// Paths
// -------------------------------------------------------------------------------------------------
/// `s` without the slashes at its two ends.
pub open spec fn trimmed(s: Seq<char>) -> Seq<char> {
    without_trailing_slashes(without_leading_slashes(s))
}

/// A route's path: `/`, then what is left of the prefix and the suffix without the slashes at their
/// ends, joined by a slash where both are left.
pub open spec fn composed(prefix: Seq<char>, suffix: Seq<char>) -> Seq<char> {
    let p = trimmed(prefix);
    let s = trimmed(suffix);
    seq!['/'] + p + (if p.len() > 0 && s.len() > 0 {
        seq!['/']
    } else {
        Seq::empty()
    }) + s
}

/// The part of `chars` without the slashes at its ends.
fn trim_bounds(chars: &Vec<char>) -> (r: (usize, usize))
    ensures
        r.0 <= r.1 <= chars@.len(),
        chars@.subrange(r.0 as int, r.1 as int) == trimmed(chars@),
{
    let ghost all = chars@;
    let mut from: usize = 0;
    assert(all.skip(0) =~= all);
    while from < chars.len() && chars[from] == '/'
        invariant
            all == chars@,
            from <= chars@.len(),
            without_leading_slashes(all) == without_leading_slashes(all.skip(from as int)),
        decreases chars.len() - from,
    {
        assert(all.skip(from as int)[0] == all[from as int]);
        assert(all.skip(from as int).skip(1) =~= all.skip(from + 1));
        from = from + 1;
    }
    let ghost rest = all.skip(from as int);
    proof {
        if from < all.len() {
            assert(rest[0] == all[from as int]);
        }
        assert(without_leading_slashes(all) == rest);
    }
    let mut to: usize = chars.len();
    assert(all.subrange(from as int, to as int) =~= rest);
    while to > from && chars[to - 1] == '/'
        invariant
            all == chars@,
            from <= to <= chars@.len(),
            without_trailing_slashes(rest) == without_trailing_slashes(
                all.subrange(from as int, to as int),
            ),
        decreases to,
    {
        let ghost part = all.subrange(from as int, to as int);
        assert(part.last() == all[to - 1]);
        assert(part.drop_last() =~= all.subrange(from as int, to - 1));
        to = to - 1;
    }
    proof {
        let part = all.subrange(from as int, to as int);
        if to > from {
            assert(part.last() == all[to - 1]);
        }
        assert(without_trailing_slashes(rest) == part);
    }
    (from, to)
}

fn push_part(out: &mut String, chars: &Vec<char>, from: usize, to: usize)
    requires
        from <= to <= chars@.len(),
    ensures
        final(out)@ == old(out)@ + chars@.subrange(from as int, to as int),
{
    let ghost before = out@;
    let mut i: usize = from;
    assert(out@ =~= before + chars@.subrange(from as int, from as int));
    while i < to
        invariant
            from <= i <= to,
            to <= chars@.len(),
            out@ == before + chars@.subrange(from as int, i as int),
        decreases to - i,
    {
        out.push(chars[i]);
        assert(out@ =~= before + chars@.subrange(from as int, i + 1));
        i = i + 1;
    }
}

/// A route's path: the class's prefix and the method's suffix joined, with one leading slash and none
/// at the end.
pub fn compose_path(prefix: &str, suffix: &str) -> (path: String)
    ensures
        path@ == composed(prefix@, suffix@),
{
    let p = chars_of(prefix);
    let s = chars_of(suffix);
    let (p_from, p_to) = trim_bounds(&p);
    let (s_from, s_to) = trim_bounds(&s);
    let mut path = String::new();
    path.push('/');
    push_part(&mut path, &p, p_from, p_to);
    if p_from < p_to && s_from < s_to {
        path.push('/');
    }
    push_part(&mut path, &s, s_from, s_to);
    assert(path@ =~= composed(prefix@, suffix@));
    path
}

// -------------------------------------------------------------------------------------------------
// Mappings
// -------------------------------------------------------------------------------------------------
/// Whether `name` marks a controller class.
pub open spec fn controller_marker(name: Seq<char>) -> bool {
    name == "RestController"@ || name == "Controller"@
}

/// Whether one of `list` marks a controller class.
pub open spec fn marks_controller(list: Seq<AnnotationView>) -> bool {
    exists|k: int| 0 <= k < list.len() && controller_marker((#[trigger] list[k]).name)
}

/// The HTTP method that the mapping annotation `name` stands for.
pub open spec fn verb(name: Seq<char>) -> Option<Seq<char>> {
    if name == "GetMapping"@ {
        Some("GET"@)
    } else if name == "PostMapping"@ {
        Some("POST"@)
    } else if name == "PutMapping"@ {
        Some("PUT"@)
    } else if name == "DeleteMapping"@ {
        Some("DELETE"@)
    } else if name == "PatchMapping"@ {
        Some("PATCH"@)
    } else {
        None
    }
}

/// Whether `name` is a mapping annotation.
pub open spec fn mapping_name(name: Seq<char>) -> bool {
    name == "RequestMapping"@ || verb(name) is Some
}

/// The first mapping annotation of `list`.
pub open spec fn first_mapping(list: Seq<AnnotationView>) -> Option<AnnotationView>
    decreases list.len(),
{
    if list.len() == 0 {
        None
    } else if mapping_name(list[0].name) {
        Some(list[0])
    } else {
        first_mapping(list.skip(1))
    }
}

/// The paths a mapping annotation gives: its bare strings, else those of `value` or `path`.
pub open spec fn paths(t: TreeView, a: AnnotationView) -> Seq<Seq<char>> {
    if bare_values(t, a.arguments).len() > 0 {
        bare_values(t, a.arguments)
    } else {
        named_values(t, a.arguments, seq!["value"@, "path"@])
    }
}

/// The HTTP method a mapping annotation stands for. `RequestMapping` says it in `method`, and stands
/// for any where it does not.
pub open spec fn http_method(t: TreeView, a: AnnotationView) -> Option<Seq<char>> {
    if a.name == "RequestMapping"@ {
        match constant_tail(t, a.arguments, "method"@) {
            Some(method) => Some(method),
            None => Some("ANY"@),
        }
    } else {
        verb(a.name)
    }
}

/// The path prefix that a class gives to its routes: the first path of its `RequestMapping`.
pub open spec fn prefix_of(t: TreeView, list: Seq<AnnotationView>) -> Seq<char> {
    match first_annotation(list, "RequestMapping"@) {
        Some(a) => if paths(t, a).len() > 0 {
            paths(t, a)[0]
        } else {
            Seq::empty()
        },
        None => Seq::empty(),
    }
}

/// The route `method path` of the file `file`, and the edge from it to its handler.
pub open spec fn route(
    method: Seq<char>,
    path: Seq<char>,
    file: Seq<char>,
    line: int,
    handler: Seq<char>,
) -> FactsView {
    let id = "route:"@ + method + ":"@ + path;
    FactsView {
        nodes: seq![
            NodeView {
                node_id: id,
                label: method + " "@ + path,
                source_file: file,
                start_line: line,
            },
        ],
        edges: seq![EdgeView { source: id, target: handler, relation: "calls"@ }],
        call_targets: Seq::empty(),
    }
}

/// One route for each of `suffixes`.
pub open spec fn routes(
    method: Seq<char>,
    prefix: Seq<char>,
    suffixes: Seq<Seq<char>>,
    file: Seq<char>,
    line: int,
    handler: Seq<char>,
) -> FactsView
    decreases suffixes.len(),
{
    if suffixes.len() == 0 {
        FactsView::empty()
    } else {
        routes(method, prefix, suffixes.drop_last(), file, line, handler).then_add(
            route(method, composed(prefix, suffixes.last()), file, line, handler),
        )
    }
}

/// The routes of the method at node `i` of a controller class with the path prefix `prefix`: those of
/// its first mapping annotation, one for each path it gives, or one for the prefix alone.
pub open spec fn method_routes(t: TreeView, i: int, prefix: Seq<char>, file: Seq<char>) -> FactsView {
    match first_mapping(annotations(t, i)) {
        Some(mapping) => match (http_method(t, mapping), t.field_text(i, "name"@)) {
            (Some(method), Some(handler)) => routes(
                method,
                prefix,
                if paths(t, mapping).len() > 0 {
                    paths(t, mapping)
                } else {
                    seq![Seq::empty()]
                },
                file,
                t.line(i),
                node_id_of(file, t.line(i), handler),
            ),
            _ => FactsView::empty(),
        },
        None => FactsView::empty(),
    }
}

/// The routes of the methods among `members`.
pub open spec fn routes_among(
    t: TreeView,
    members: Seq<int>,
    prefix: Seq<char>,
    file: Seq<char>,
) -> FactsView
    decreases members.len(),
{
    if members.len() == 0 {
        FactsView::empty()
    } else {
        let before = routes_among(t, members.drop_last(), prefix, file);
        if t.kind(members.last()) == "method_declaration"@ {
            before.then_add(method_routes(t, members.last(), prefix, file))
        } else {
            before
        }
    }
}

/// The routes of the class at node `i`.
pub open spec fn class_routes(t: TreeView, i: int, file: Seq<char>) -> FactsView {
    if marks_controller(annotations(t, i)) {
        match t.field_child(i, "body"@) {
            Some(body) => routes_among(
                t,
                t.named_children(body),
                prefix_of(t, annotations(t, i)),
                file,
            ),
            None => FactsView::empty(),
        }
    } else {
        FactsView::empty()
    }
}

/// Whether `name` is a mapping annotation.
pub fn is_mapping(name: &str) -> (r: bool)
    ensures
        r == mapping_name(name@),
{
    same(name, "RequestMapping") || verb_of(name).is_some()
}

fn verb_of(name: &str) -> (r: Option<&'static str>)
    ensures
        verb(name@) == (match r {
            Some(v) => Some(v@),
            None => None,
        }),
{
    if same(name, "GetMapping") {
        Some("GET")
    } else if same(name, "PostMapping") {
        Some("POST")
    } else if same(name, "PutMapping") {
        Some("PUT")
    } else if same(name, "DeleteMapping") {
        Some("DELETE")
    } else if same(name, "PatchMapping") {
        Some("PATCH")
    } else {
        None
    }
}

fn is_controller(list: &Vec<Annotation>) -> (r: bool)
    ensures
        r == marks_controller(annotation_views(list@)),
{
    let mut k: usize = 0;
    while k < list.len()
        invariant
            k <= list@.len(),
            forall|j: int|
                0 <= j < k ==> !controller_marker((#[trigger] annotation_views(list@)[j]).name),
        decreases list.len() - k,
    {
        let name = list[k].name.as_str();
        if same(name, "RestController") || same(name, "Controller") {
            assert(controller_marker(annotation_views(list@)[k as int].name));
            return true;
        }
        k = k + 1;
    }
    false
}

/// The HTTP method that the mapping annotation `mapping` stands for.
pub fn http_method_of(tree: &SyntaxTree<'_>, mapping: &Annotation) -> (r: Option<String>)
    requires
        mapping.arguments matches Some(a) ==> a < tree@.len(),
    ensures
        opt_text(r) == http_method(tree@, mapping@),
{
    if same(mapping.name.as_str(), "RequestMapping") {
        match named_identifier_tail(tree, mapping.arguments, "method") {
            Some(method) => Some(method),
            None => Some("ANY".to_owned()),
        }
    } else {
        match verb_of(mapping.name.as_str()) {
            Some(v) => Some(v.to_owned()),
            None => None,
        }
    }
}

/// The paths that the mapping annotation `annotation` gives.
pub fn mapping_path(tree: &SyntaxTree<'_>, annotation: &Annotation) -> (r: Vec<String>)
    requires
        annotation.arguments matches Some(a) ==> a < tree@.len(),
    ensures
        texts(r@) == paths(tree@, annotation@),
{
    let bare = bare_string_values(tree, annotation.arguments);
    assert(texts(bare@).len() == bare@.len());
    if bare.len() > 0 {
        return bare;
    }
    let keys = ["value", "path"];
    assert(str_texts(keys@) =~= seq!["value"@, "path"@]);
    named_string_values(tree, annotation.arguments, &keys)
}

/// The path prefix that a class with the annotations `class_annotations` gives to its routes.
pub fn class_prefix(tree: &SyntaxTree<'_>, class_annotations: &Vec<Annotation>) -> (r: String)
    requires
        arguments_within(class_annotations@, tree@.len()),
    ensures
        r@ == prefix_of(tree@, annotation_views(class_annotations@)),
{
    match find_annotation(class_annotations, "RequestMapping") {
        Some(a) => {
            let found = mapping_path(tree, a);
            assert(texts(found@).len() == found@.len());
            if found.len() > 0 {
                assert(texts(found@)[0] == found@[0]@);
                found[0].clone()
            } else {
                String::new()
            }
        },
        None => String::new(),
    }
}

fn find_mapping<'a>(list: &'a Vec<Annotation>) -> (r: Option<&'a Annotation>)
    ensures
        first_mapping(annotation_views(list@)) == (match r {
            Some(a) => Some(a@),
            None => None,
        }),
        r matches Some(a) ==> list@.contains(*a),
{
    let ghost all = annotation_views(list@);
    let mut k: usize = 0;
    assert(all.skip(0) =~= all);
    while k < list.len()
        invariant
            all == annotation_views(list@),
            k <= list@.len(),
            first_mapping(all) == first_mapping(all.skip(k as int)),
        decreases list.len() - k,
    {
        assert(all.skip(k as int)[0] == all[k as int]);
        assert(all.skip(k as int).skip(1) =~= all.skip(k + 1));
        if is_mapping(list[k].name.as_str()) {
            return Some(&list[k]);
        }
        k = k + 1;
    }
    None
}

fn push_route(
    facts: &mut FrameworkFacts,
    method: &str,
    path: &str,
    source_file: &str,
    line: i64,
    handler: &str,
)
    ensures
        final(facts)@ == old(facts)@.then_add(
            route(method@, path@, source_file@, line as int, handler@),
        ),
{
    let ghost before = facts@;
    let node_id = "route:".to_owned().concat(method).concat(":").concat(path);
    let label = method.to_owned().concat(" ").concat(path);
    facts.nodes.push(
        GraphNode {
            node_id: node_id.clone(),
            label,
            source_file: source_file.to_owned(),
            start_line: line,
        },
    );
    facts.edges.push(
        GraphEdge { source: node_id, target: handler.to_owned(), relation: "calls".to_owned() },
    );
    assert(facts@ =~= before.then_add(
        route(method@, path@, source_file@, line as int, handler@),
    ));
}

/// Adds the routes of the method at `method`.
pub fn emit_routes(
    tree: &SyntaxTree<'_>,
    method: usize,
    prefix: &str,
    source_file: &str,
    facts: &mut FrameworkFacts,
)
    requires
        method < tree@.len(),
    ensures
        final(facts)@ == old(facts)@.then_add(
            method_routes(tree@, method as int, prefix@, source_file@),
        ),
{
    let ghost before = facts@;
    assert(before =~= before.then_add(FactsView::empty()));
    let method_annotations = annotations_of(tree, method);
    let mapping = match find_mapping(&method_annotations) {
        Some(mapping) => mapping,
        None => {
            return;
        },
    };
    let http = match http_method_of(tree, mapping) {
        Some(http) => http,
        None => {
            return;
        },
    };
    let handler_name = match tree.field_text(method, "name") {
        Some(name) => name,
        None => {
            return;
        },
    };
    let start_line = tree.line(method);
    let target = def_node_id(source_file, start_line, handler_name.as_str());
    let mut suffixes = mapping_path(tree, mapping);
    assert(texts(suffixes@).len() == suffixes@.len());
    if suffixes.len() == 0 {
        suffixes.push(String::new());
    }
    let ghost all = texts(suffixes@);
    assert(paths(tree@, mapping@).len() == 0 ==> all =~= seq![Seq::<char>::empty()]);
    let mut k: usize = 0;
    assert(routes(http@, prefix@, all.take(0), source_file@, start_line as int, target@)
        == FactsView::empty());
    while k < suffixes.len()
        invariant
            all == texts(suffixes@),
            k <= suffixes@.len(),
            facts@ == before.then_add(
                routes(
                    http@,
                    prefix@,
                    all.take(k as int),
                    source_file@,
                    start_line as int,
                    target@,
                ),
            ),
        decreases suffixes.len() - k,
    {
        let path = compose_path(prefix, suffixes[k].as_str());
        push_route(facts, http.as_str(), path.as_str(), source_file, start_line, target.as_str());
        assert(all.take(k + 1).drop_last() =~= all.take(k as int));
        assert(all.take(k + 1).last() == suffixes@[k as int]@);
        assert(facts@ =~= before.then_add(
            routes(http@, prefix@, all.take(k + 1), source_file@, start_line as int, target@),
        ));
        k = k + 1;
    }
    assert(all.take(k as int) =~= all);
}

/// Adds the routes of the class at `class`.
pub fn extract(
    tree: &SyntaxTree<'_>,
    class: usize,
    source_file: &str,
    facts: &mut FrameworkFacts,
)
    requires
        class < tree@.len(),
    ensures
        final(facts)@ == old(facts)@.then_add(class_routes(tree@, class as int, source_file@)),
{
    let ghost t = tree@;
    let ghost before = facts@;
    assert(before =~= before.then_add(FactsView::empty()));
    let class_annotations = annotations_of(tree, class);
    if !is_controller(&class_annotations) {
        return;
    }
    let prefix = class_prefix(tree, &class_annotations);
    let body = match tree.field_child(class, "body") {
        Some(body) => body,
        None => {
            return;
        },
    };
    let members = tree.named_children(body);
    let ghost all = t.named_children(body as int);
    let mut k: usize = 0;
    assert(routes_among(t, all.take(0), prefix@, source_file@) == FactsView::empty());
    while k < members.len()
        invariant
            t == tree@,
            k <= members@.len(),
            same_indices(members@, all),
            forall|j: int| 0 <= j < members@.len() ==> body < #[trigger] members@[j] < t.len(),
            facts@ == before.then_add(
                routes_among(t, all.take(k as int), prefix@, source_file@),
            ),
        decreases members.len() - k,
    {
        let member = members[k];
        assert(all.take(k + 1).drop_last() =~= all.take(k as int));
        assert(all.take(k + 1).last() == member as int);
        if tree.is_kind(member, "method_declaration") {
            emit_routes(tree, member, prefix.as_str(), source_file, facts);
        }
        assert(facts@ =~= before.then_add(
            routes_among(t, all.take(k + 1), prefix@, source_file@),
        ));
        k = k + 1;
    }
    assert(all.take(k as int) =~= all);
}

} // verus!
