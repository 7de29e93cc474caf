//! Feign clients: interfaces whose methods are calls to an external service.
use super::annotation::{
    annotations, annotations_of, bare_string_values, bare_values, find_annotation,
    first_annotation, named_string_values, named_values, Annotation, AnnotationView,
};
use crate::model::{
    node_views, target_views, FactsView, FrameworkCallTarget, FrameworkFacts, GraphNode, NodeView,
    TargetView,
};
use crate::syntax::{same_indices, SyntaxTree, TreeView};
use crate::text::{opt_text, str_texts, texts};
use vstd::prelude::*;
use vstd::string::*;

verus! {

/// The service a `FeignClient` annotation names: by `name` or `value`, else by its bare argument.
pub open spec fn service(t: TreeView, a: AnnotationView) -> Option<Seq<char>> {
    if named_values(t, a.arguments, seq!["name"@, "value"@]).len() > 0 {
        Some(named_values(t, a.arguments, seq!["name"@, "value"@])[0])
    } else if bare_values(t, a.arguments).len() > 0 {
        Some(bare_values(t, a.arguments)[0])
    } else {
        None
    }
}

/// The methods among `members`, each as a call target that leads to `node_id`.
pub open spec fn client_targets(
    t: TreeView,
    members: Seq<int>,
    node_id: Seq<char>,
    interface_name: Seq<char>,
) -> Seq<TargetView>
    decreases members.len(),
{
    if members.len() == 0 {
        Seq::empty()
    } else {
        let before = client_targets(t, members.drop_last(), node_id, interface_name);
        match t.field_text(members.last(), "name"@) {
            Some(name) => if t.kind(members.last()) == "method_declaration"@ {
                before.push(
                    TargetView {
                        name,
                        node_id,
                        scope: Some(interface_name),
                        scope_supers: Seq::empty(),
                    },
                )
            } else {
                before
            },
            None => before,
        }
    }
}

/// The id of the node that stands for the external service `name`.
pub open spec fn service_id(name: Seq<char>) -> Seq<char> {
    "service:"@ + name
}

/// What the interface at node `i` adds where it is a Feign client: the service as a node, and its
/// methods as call targets that lead there.
pub open spec fn client_facts(t: TreeView, i: int, file: Seq<char>) -> FactsView {
    match first_annotation(annotations(t, i), "FeignClient"@) {
        Some(a) => match (service(t, a), t.field_text(i, "name"@)) {
            (Some(service), Some(interface_name)) => FactsView {
                nodes: seq![
                    NodeView {
                        node_id: service_id(service),
                        label: service,
                        source_file: file,
                        start_line: t.line(i),
                    },
                ],
                edges: Seq::empty(),
                call_targets: match t.field_child(i, "body"@) {
                    Some(body) => client_targets(
                        t,
                        t.named_children(body),
                        service_id(service),
                        interface_name,
                    ),
                    None => Seq::empty(),
                },
            },
            _ => FactsView::empty(),
        },
        None => FactsView::empty(),
    }
}

/// The service that the annotation `feign` names.
pub fn service_name(tree: &SyntaxTree<'_>, feign: &Annotation) -> (r: Option<String>)
    requires
        feign.arguments matches Some(a) ==> a < tree@.len(),
    ensures
        opt_text(r) == service(tree@, feign@),
{
    let keys = ["name", "value"];
    assert(str_texts(keys@) =~= seq!["name"@, "value"@]);
    let found = named_string_values(tree, feign.arguments, &keys);
    assert(texts(found@).len() == found@.len());
    if found.len() > 0 {
        assert(texts(found@)[0] == found@[0]@);
        return Some(found[0].clone());
    }
    let bare = bare_string_values(tree, feign.arguments);
    assert(texts(bare@).len() == bare@.len());
    if bare.len() > 0 {
        assert(texts(bare@)[0] == bare@[0]@);
        return Some(bare[0].clone());
    }
    None
}

/// Adds what the interface at `interface` is as a Feign client.
pub fn extract(
    tree: &SyntaxTree<'_>,
    interface: usize,
    source_file: &str,
    facts: &mut FrameworkFacts,
)
    requires
        interface < tree@.len(),
    ensures
        final(facts)@ == old(facts)@.then_add(client_facts(tree@, interface as int, source_file@)),
{
    let ghost t = tree@;
    let ghost before = facts@;
    assert(before =~= before.then_add(FactsView::empty()));
    let interface_annotations = annotations_of(tree, interface);
    let feign = match find_annotation(&interface_annotations, "FeignClient") {
        Some(a) => a,
        None => {
            return;
        },
    };
    let service_name = match service_name(tree, feign) {
        Some(name) => name,
        None => {
            return;
        },
    };
    let interface_name = match tree.field_text(interface, "name") {
        Some(name) => name,
        None => {
            return;
        },
    };
    let node_id = "service:".to_owned().concat(service_name.as_str());
    facts.nodes.push(
        GraphNode {
            node_id: node_id.clone(),
            label: service_name,
            source_file: source_file.to_owned(),
            start_line: tree.line(interface),
        },
    );
    let ghost nodes = node_views(facts.nodes@);
    assert(nodes =~= before.nodes + client_facts(t, interface as int, source_file@).nodes);
    let body = match tree.field_child(interface, "body") {
        Some(body) => body,
        None => {
            assert(facts@ =~= before.then_add(client_facts(t, interface as int, source_file@)));
            return;
        },
    };
    let members = tree.named_children(body);
    let ghost all = t.named_children(body as int);
    let mut k: usize = 0;
    assert(target_views(facts.call_targets@) =~= before.call_targets + client_targets(
        t,
        all.take(0),
        node_id@,
        interface_name@,
    ));
    while k < members.len()
        invariant
            t == tree@,
            k <= members@.len(),
            same_indices(members@, all),
            forall|j: int| 0 <= j < members@.len() ==> body < #[trigger] members@[j] < t.len(),
            node_views(facts.nodes@) == nodes,
            facts@.edges == before.edges,
            target_views(facts.call_targets@) == before.call_targets + client_targets(
                t,
                all.take(k as int),
                node_id@,
                interface_name@,
            ),
        decreases members.len() - k,
    {
        let member = members[k];
        assert(all.take(k + 1).drop_last() =~= all.take(k as int));
        assert(all.take(k + 1).last() == member as int);
        let ghost so_far = target_views(facts.call_targets@);
        if tree.is_kind(member, "method_declaration") {
            if let Some(name) = tree.field_text(member, "name") {
                let scope_supers: Vec<String> = Vec::new();
                assert(texts(scope_supers@) =~= Seq::empty());
                facts.call_targets.push(
                    FrameworkCallTarget {
                        name,
                        node_id: node_id.clone(),
                        scope: Some(interface_name.clone()),
                        scope_supers,
                    },
                );
                assert(target_views(facts.call_targets@) =~= so_far.push(
                    facts.call_targets@[facts.call_targets@.len() - 1]@,
                ));
            }
        }
        assert(target_views(facts.call_targets@) =~= before.call_targets + client_targets(
            t,
            all.take(k + 1),
            node_id@,
            interface_name@,
        ));
        k = k + 1;
    }
    assert(all.take(k as int) =~= all);
    assert(facts@ =~= before.then_add(client_facts(t, interface as int, source_file@)));
}

} // verus!
