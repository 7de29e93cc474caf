//! Spring Data repositories: interfaces whose methods the framework implements from their names.
use super::java_type::{extended_names, extends_interfaces_names};
use crate::model::{
    def_node_id, node_id_of, target_views, FactsView, FrameworkCallTarget, FrameworkFacts, TargetView,
};
use crate::syntax::{same_indices, SyntaxTree, TreeView};
use crate::text::{copy_texts, same, texts};
use vstd::prelude::*;
use vstd::string::*;

verus! {

/// Whether `name` is one of Spring Data's own repository interfaces.
pub open spec fn repository_marker(name: Seq<char>) -> bool {
    ||| name == "Repository"@
    ||| name == "CrudRepository"@
    ||| name == "ListCrudRepository"@
    ||| name == "PagingAndSortingRepository"@
    ||| name == "ListPagingAndSortingRepository"@
    ||| name == "JpaRepository"@
    ||| name == "ReactiveCrudRepository"@
    ||| name == "ReactiveSortingRepository"@
    ||| name == "RxJava3CrudRepository"@
    ||| name == "MongoRepository"@
    ||| name == "R2dbcRepository"@
    ||| name == "CassandraRepository"@
    ||| name == "ElasticsearchRepository"@
}

/// Whether one of `supers` is one of Spring Data's own repository interfaces.
pub open spec fn extends_repository(supers: Seq<Seq<char>>) -> bool {
    exists|k: int| 0 <= k < supers.len() && repository_marker(#[trigger] supers[k])
}

/// The methods without a body among `members`, each as a call target that leads to its declaration.
pub open spec fn query_targets(
    t: TreeView,
    members: Seq<int>,
    file: Seq<char>,
    interface_name: Seq<char>,
    supers: Seq<Seq<char>>,
) -> Seq<TargetView>
    decreases members.len(),
{
    if members.len() == 0 {
        Seq::empty()
    } else {
        let m = members.last();
        let before = query_targets(t, members.drop_last(), file, interface_name, supers);
        match t.field_text(m, "name"@) {
            Some(name) => if t.kind(m) == "method_declaration"@ && t.field_child(
                m,
                "body"@,
            ) is None {
                before.push(
                    TargetView {
                        name,
                        node_id: node_id_of(file, t.line(m), name),
                        scope: Some(interface_name),
                        scope_supers: supers,
                    },
                )
            } else {
                before
            },
            None => before,
        }
    }
}

/// What the interface at node `i` adds where it extends one of Spring Data's repository interfaces:
/// its methods without a body as call targets.
pub open spec fn repository_facts(t: TreeView, i: int, file: Seq<char>) -> FactsView {
    let supers = extended_names(t, i);
    match (t.field_text(i, "name"@), t.field_child(i, "body"@)) {
        (Some(interface_name), Some(body)) => if extends_repository(supers) {
            FactsView {
                call_targets: query_targets(
                    t,
                    t.named_children(body),
                    file,
                    interface_name,
                    supers,
                ),
                ..FactsView::empty()
            }
        } else {
            FactsView::empty()
        },
        _ => FactsView::empty(),
    }
}

fn is_repository_marker(name: &str) -> (r: bool)
    ensures
        r == repository_marker(name@),
{
    same(name, "Repository") || same(name, "CrudRepository") || same(name, "ListCrudRepository")
        || same(name, "PagingAndSortingRepository") || same(name, "ListPagingAndSortingRepository")
        || same(name, "JpaRepository") || same(name, "ReactiveCrudRepository") || same(
        name,
        "ReactiveSortingRepository",
    ) || same(name, "RxJava3CrudRepository") || same(name, "MongoRepository") || same(
        name,
        "R2dbcRepository",
    ) || same(name, "CassandraRepository") || same(name, "ElasticsearchRepository")
}

fn is_repository(supers: &Vec<String>) -> (r: bool)
    ensures
        r == extends_repository(texts(supers@)),
{
    let mut k: usize = 0;
    while k < supers.len()
        invariant
            k <= supers@.len(),
            forall|j: int| 0 <= j < k ==> !repository_marker(#[trigger] texts(supers@)[j]),
        decreases supers.len() - k,
    {
        if is_repository_marker(supers[k].as_str()) {
            assert(repository_marker(texts(supers@)[k as int]));
            return true;
        }
        k = k + 1;
    }
    false
}

/// Adds what the interface at `interface` is as a Spring Data repository.
pub fn extract(
    tree: &SyntaxTree<'_>,
    interface: usize,
    source_file: &str,
    facts: &mut FrameworkFacts,
)
    requires
        interface < tree@.len(),
    ensures
        final(facts)@ == old(facts)@.then_add(
            repository_facts(tree@, interface as int, source_file@),
        ),
{
    let ghost t = tree@;
    let ghost before = facts@;
    assert(before =~= before.then_add(FactsView::empty()));
    let supers = extends_interfaces_names(tree, interface);
    if !is_repository(&supers) {
        return;
    }
    let interface_name = match tree.field_text(interface, "name") {
        Some(name) => name,
        None => {
            return;
        },
    };
    let body = match tree.field_child(interface, "body") {
        Some(body) => body,
        None => {
            return;
        },
    };
    let members = tree.named_children(body);
    let ghost all = t.named_children(body as int);
    let mut k: usize = 0;
    assert(target_views(facts.call_targets@) =~= before.call_targets + query_targets(
        t,
        all.take(0),
        source_file@,
        interface_name@,
        texts(supers@),
    ));
    while k < members.len()
        invariant
            t == tree@,
            k <= members@.len(),
            same_indices(members@, all),
            forall|j: int| 0 <= j < members@.len() ==> body < #[trigger] members@[j] < t.len(),
            facts@.nodes == before.nodes,
            facts@.edges == before.edges,
            target_views(facts.call_targets@) == before.call_targets + query_targets(
                t,
                all.take(k as int),
                source_file@,
                interface_name@,
                texts(supers@),
            ),
        decreases members.len() - k,
    {
        let member = members[k];
        assert(all.take(k + 1).drop_last() =~= all.take(k as int));
        assert(all.take(k + 1).last() == member as int);
        let ghost so_far = target_views(facts.call_targets@);
        if tree.is_kind(member, "method_declaration") && tree.field_child(member, "body").is_none() {
            if let Some(name) = tree.field_text(member, "name") {
                let node_id = def_node_id(source_file, tree.line(member), name.as_str());
                facts.call_targets.push(
                    FrameworkCallTarget {
                        name,
                        node_id,
                        scope: Some(interface_name.clone()),
                        scope_supers: copy_texts(&supers),
                    },
                );
                assert(target_views(facts.call_targets@) =~= so_far.push(
                    facts.call_targets@[facts.call_targets@.len() - 1]@,
                ));
            }
        }
        assert(target_views(facts.call_targets@) =~= before.call_targets + query_targets(
            t,
            all.take(k + 1),
            source_file@,
            interface_name@,
            texts(supers@),
        ));
        k = k + 1;
    }
    assert(all.take(k as int) =~= all);
    assert(facts@ =~= before.then_add(repository_facts(t, interface as int, source_file@)));
}

} // verus!
