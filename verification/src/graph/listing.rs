//! What the symbols of a file list, said of the nodes of its tree.
use super::callee::{call_qualifier, called, impl_type, supertypes};
use super::emit::{
    extracts, file_name, owner, symbols_of, symbols_of_first, type_container, Classifier, Definition,
    DefinitionView, TaggedSymbols,
};
use super::SymbolsView;
use crate::syntax::{lemma_parent, parent_is_the_nearest_node_less_deep, TreeView};
use crate::text::decimal;
use crate::toolkit::{defines, tags_as, tells_by, GraphStrategy, Toolkit};
use std::collections::HashMap;
use vstd::prelude::*;

verus! {

// -------------------------------------------------------------------------------------------------
// Names and kinds
// -------------------------------------------------------------------------------------------------
/// A file's label is what stands behind the last slash of its path: all of it where it has none.
pub proof fn file_label_is_the_last_part_of_the_path(front: Seq<char>, last: Seq<char>)
    requires
        !last.contains('/'),
    ensures
        file_name(front.push('/') + last) == last,
        file_name(last) == last,
    decreases last.len(),
{
    let path = front.push('/') + last;
    if last.len() == 0 {
        assert(path =~= front.push('/'));
        assert(file_name(path) =~= last);
        assert(file_name(last) =~= last);
    } else {
        let rest = last.drop_last();
        assert forall|k: int| 0 <= k < last.len() implies last[k] != '/' by {
            assert(last.contains(last[k]));
        }
        assert(!rest.contains('/')) by {
            if rest.contains('/') {
                let k = choose|k: int| 0 <= k < rest.len() && rest[k] == '/';
                assert(last[k] == '/');
            }
        }
        file_label_is_the_last_part_of_the_path(front, rest);
        assert(path.drop_last() =~= front.push('/') + rest);
        assert(path.last() == last.last());
        assert(last =~= rest.push(last.last()));
    }
}

/// A call can resolve to functions and methods alone. A Rust signature without a body is none, and where
/// tags tell the definitions a declaration is one only with a body.
pub proof fn only_implementations_can_be_called(
    c: Classifier<'_>,
    t: TreeView,
    i: int,
    kind: Seq<char>,
)
    ensures
        kind != "function"@ && kind != "method"@ ==> !c.call_target(t, i, kind),
        kind == "function"@ || kind == "method"@ ==> (c is Rust ==> (c.call_target(t, i, kind)
            <==> t.kind(i) != "function_signature_item"@)),
        kind == "function"@ || kind == "method"@ ==> (c is Tagged ==> (t.kind(i)
            == "method_declaration"@ || t.kind(i) == "method_signature"@ || t.kind(i)
            == "abstract_method_signature"@ || t.kind(i) == "function_signature"@ ==> (c.call_target(
            t,
            i,
            kind,
        ) <==> t.field_child(i, "body"@) is Some))),
        kind == "function"@ || kind == "method"@ ==> (c is Tagged ==> (t.kind(i)
            != "method_declaration"@ && t.kind(i) != "method_signature"@ && t.kind(i)
            != "abstract_method_signature"@ && t.kind(i) != "function_signature"@ ==> c.call_target(
            t,
            i,
            kind,
        ))),
{
}

/// A type gives its name to the callables directly inside: in Rust an `impl` block that of the type it is
/// for, and traits, structs, enums and classes their own; elsewhere classes, interfaces and enums their
/// own. Nothing else gives one.
pub proof fn types_give_their_names_to_what_they_contain(
    c: Classifier<'_>,
    t: TreeView,
    i: int,
    def: DefinitionView,
)
    ensures
        c is Rust && def.kind == "impl"@ ==> c.scope_name(t, i, def) == impl_type(t, i),
        c is Rust && (def.kind == "trait"@ || def.kind == "struct"@ || def.kind == "enum"@ || def.kind
            == "class"@) ==> c.scope_name(t, i, def) == def.name,
        c is Rust && def.kind != "impl"@ && def.kind != "trait"@ && def.kind != "struct"@ && def.kind
            != "enum"@ && def.kind != "class"@ ==> c.scope_name(t, i, def) is None,
        c is Tagged && (def.kind == "class"@ || def.kind == "interface"@ || def.kind == "enum"@)
            ==> c.scope_name(t, i, def) == def.name,
        c is Tagged && def.kind != "class"@ && def.kind != "interface"@ && def.kind != "enum"@
            ==> c.scope_name(t, i, def) is None,
{
    reveal_strlit("impl");
    reveal_strlit("trait");
    reveal_strlit("struct");
    reveal_strlit("enum");
    reveal_strlit("class");
    assert("impl"@[0] == 'i');
    assert("enum"@[0] == 'e');
}

/// Calls and definitions are those of the tables, node by node; in Rust every call expression is a call.
pub proof fn tables_tell_definitions_and_calls(
    defs: HashMap<usize, Definition>,
    tags: TaggedSymbols,
    t: TreeView,
    i: usize,
)
    ensures
        Classifier::Rust(&defs).definition(i as int) is Some <==> defs@.contains_key(i),
        defs@.contains_key(i) ==> Classifier::Rust(&defs).definition(i as int) == Some(defs@[i]@),
        Classifier::Tagged(&tags).definition(i as int) is Some <==> tags.defs@.contains_key(i),
        tags.defs@.contains_key(i) ==> Classifier::Tagged(&tags).definition(i as int) == Some(
            tags.defs@[i]@,
        ),
        t.kind(i as int) == "call_expression"@ ==> Classifier::Rust(&defs).call(t, i as int) == called(
            t,
            i as int,
        ),
        t.kind(i as int) != "call_expression"@ ==> Classifier::Rust(&defs).call(t, i as int) is None,
        Classifier::Tagged(&tags).call(t, i as int) is Some <==> tags.calls@.contains_key(i),
        tags.calls@.contains_key(i) ==> (Classifier::Tagged(&tags).call(t, i as int)->0).name
            == tags.calls@[i]@ && (Classifier::Tagged(&tags).call(t, i as int)->0).qualifier
            == call_qualifier(t, i as int),
{
}

// -------------------------------------------------------------------------------------------------
// Owners
// -------------------------------------------------------------------------------------------------
/// The innermost definition around a node owns it.
pub proof fn innermost_definition_around_a_node_owns_it(
    c: Classifier<'_>,
    t: TreeView,
    i: int,
    o: int,
)
    requires
        0 < o < i,
        forall|m: int| o < m <= i ==> (#[trigger] t.rows[m]).depth > t.rows[o].depth,
        c.definition(o) is Some,
        forall|k: int|
            o < k < i && (forall|m: int| k < m <= i ==> (#[trigger] t.rows[m]).depth > t.rows[k].depth)
                ==> (#[trigger] c.definition(k)) is None,
    ensures
        owner(c, t, i) == Some(o),
    decreases i,
{
    assert(t.rows[i].depth > t.rows[o].depth);
    lemma_parent(t, i);
    lemma_has_parent(t, i, o);
    let p = t.parent(i)->0;
    parent_is_the_nearest_node_less_deep(t, i, p);
    if p > o {
        assert(c.definition(p) is None);
        assert forall|k: int|
            o < k < p && (forall|m: int| k < m <= p ==> (#[trigger] t.rows[m]).depth
                > t.rows[k].depth) implies (#[trigger] c.definition(k)) is None by {
            assert(t.rows[p].depth > t.rows[k].depth);
        }
        innermost_definition_around_a_node_owns_it(c, t, p, o);
    }
}

proof fn lemma_has_parent(t: TreeView, i: int, o: int)
    requires
        0 <= o < i,
        t.rows[o].depth < t.rows[i].depth,
    ensures
        t.parent(i) is Some,
    decreases i - o,
{
    if forall|k: int| o < k < i ==> (#[trigger] t.rows[k]).depth >= t.rows[i].depth {
        parent_is_the_nearest_node_less_deep(t, i, o);
    } else {
        let k = choose|k: int| o < k < i && (#[trigger] t.rows[k]).depth < t.rows[i].depth;
        lemma_has_parent(t, i, k);
    }
}

/// A node with no definition around it but the root has no owner.
pub proof fn node_outside_all_definitions_has_no_owner(c: Classifier<'_>, t: TreeView, i: int)
    requires
        forall|k: int|
            0 < k < i && (forall|m: int| k < m <= i ==> (#[trigger] t.rows[m]).depth > t.rows[k].depth)
                ==> (#[trigger] c.definition(k)) is None,
    ensures
        owner(c, t, i) is None,
    decreases i,
{
    lemma_parent(t, i);
    if let Some(p) = t.parent(i) {
        parent_is_the_nearest_node_less_deep(t, i, p);
        if p > 0 {
            assert(c.definition(p) is None);
        }
        assert forall|k: int|
            0 < k < p && (forall|m: int| k < m <= p ==> (#[trigger] t.rows[m]).depth
                > t.rows[k].depth) implies (#[trigger] c.definition(k)) is None by {
            assert(t.rows[p].depth > t.rows[k].depth);
        }
        node_outside_all_definitions_has_no_owner(c, t, p);
    }
}

// -------------------------------------------------------------------------------------------------
// Lists
// -------------------------------------------------------------------------------------------------
/// Whether `at` are those nodes behind the root and before `n` that `holds` holds of, in document order.
spec fn lists_nodes(at: Seq<int>, holds: spec_fn(int) -> bool, n: int) -> bool {
    &&& forall|k: int| 0 <= k < at.len() ==> 0 < #[trigger] at[k] < n && holds(at[k])
    &&& forall|j: int, k: int| 0 <= j < k < at.len() ==> #[trigger] at[j] < #[trigger] at[k]
    &&& forall|i: int| 0 < i < n && #[trigger] holds(i) ==> at.contains(i)
}

proof fn lemma_lists_more(at: Seq<int>, holds: spec_fn(int) -> bool, n: int) -> (more: Seq<int>)
    requires
        n >= 1,
        lists_nodes(at, holds, n),
    ensures
        lists_nodes(more, holds, n + 1),
        more == if holds(n) {
            at.push(n)
        } else {
            at
        },
{
    if holds(n) {
        let more = at.push(n);
        assert forall|i: int| 0 < i < n + 1 && #[trigger] holds(i) implies more.contains(i) by {
            if i < n {
                assert(at.contains(i));
                let k = choose|k: int| 0 <= k < at.len() && at[k] == i;
                assert(more[k] == i);
            } else {
                assert(more[at.len() as int] == i);
            }
        }
        more
    } else {
        assert forall|i: int| 0 < i < n + 1 && #[trigger] holds(i) implies at.contains(i) by {
            assert(i != n);
        }
        at
    }
}

/// The id of the definition at node `i`: its file, `#`, its line, `:` and its name, or its kind where it
/// has no name.
spec fn id_at(c: Classifier<'_>, t: TreeView, file: Seq<char>, i: int) -> Seq<char> {
    let def = c.definition(i)->0;
    file.push('#') + decimal(t.rows[i].row as int + 1).push(':') + match def.name {
        Some(name) => name,
        None => def.kind,
    }
}

proof fn lemma_definitions_listed(c: Classifier<'_>, t: TreeView, file: Seq<char>, n: int) -> (at: Seq<
    int,
>)
    requires
        1 <= n <= t.len(),
    ensures
        lists_nodes(at, |i: int| c.definition(i) is Some, n),
        symbols_of_first(c, t, file, n).nodes.len() == at.len() + 1,
        symbols_of_first(c, t, file, n).contains.len() == at.len(),
        symbols_of_first(c, t, file, n).nodes[0].node_id == file,
        symbols_of_first(c, t, file, n).nodes[0].label == file_name(file),
        symbols_of_first(c, t, file, n).nodes[0].source_file == file,
        symbols_of_first(c, t, file, n).nodes[0].start_line == 1,
        forall|k: int|
            0 <= k < at.len() ==> {
                let i = #[trigger] at[k];
                let def = c.definition(i)->0;
                let node = symbols_of_first(c, t, file, n).nodes[k + 1];
                let edge = symbols_of_first(c, t, file, n).contains[k];
                &&& node.node_id == id_at(c, t, file, i)
                &&& node.source_file == file
                &&& node.start_line == t.rows[i].row as int + 1
                &&& node.label == match def.name {
                    Some(name) => if def.kind == "function"@ || def.kind == "method"@ {
                        name + "()"@
                    } else {
                        name
                    },
                    None => def.kind,
                }
                &&& edge.target == node.node_id
                &&& edge.source == match owner(c, t, i) {
                    Some(o) => id_at(c, t, file, o),
                    None => file,
                }
                &&& edge.relation == if (def.kind == "function"@ || def.kind == "method"@) && owner(
                    c,
                    t,
                    i,
                ) is Some && type_container(Some((c.definition(owner(c, t, i)->0)->0).kind)) {
                    "method"@
                } else {
                    "contains"@
                }
            },
    decreases n,
{
    let holds = |i: int| c.definition(i) is Some;
    if n == 1 {
        assert(lists_nodes(Seq::empty(), holds, 1));
        Seq::empty()
    } else {
        let before = lemma_definitions_listed(c, t, file, n - 1);
        let at = lemma_lists_more(before, holds, n - 1);
        assert(lists_nodes(at, holds, n));
        let was = symbols_of_first(c, t, file, n - 1);
        let now = symbols_of_first(c, t, file, n);
        assert forall|k: int| 0 <= k < at.len() implies {
            let i = #[trigger] at[k];
            let def = c.definition(i)->0;
            let node = now.nodes[k + 1];
            let edge = now.contains[k];
            &&& node.node_id == id_at(c, t, file, i)
            &&& node.source_file == file
            &&& node.start_line == t.rows[i].row as int + 1
            &&& node.label == match def.name {
                Some(name) => if def.kind == "function"@ || def.kind == "method"@ {
                    name + "()"@
                } else {
                    name
                },
                None => def.kind,
            }
            &&& edge.target == node.node_id
            &&& edge.source == match owner(c, t, i) {
                Some(o) => id_at(c, t, file, o),
                None => file,
            }
            &&& edge.relation == if (def.kind == "function"@ || def.kind == "method"@) && owner(
                c,
                t,
                i,
            ) is Some && type_container(Some((c.definition(owner(c, t, i)->0)->0).kind)) {
                "method"@
            } else {
                "contains"@
            }
        } by {
            if k < before.len() {
                assert(at[k] == before[k]);
                assert(now.nodes[k + 1] == was.nodes[k + 1]);
                assert(now.contains[k] == was.contains[k]);
            } else {
                assert(at[k] == n - 1);
            }
        }
        at
    }
}

/// The nodes of a file's symbols are the file itself, and then one for each definition, in document
/// order: each with its id, the label by which it shows and its line. To each definition leads one edge,
/// from the innermost definition around it or else from the file: `method` where it can be called and
/// lies directly in a type, `contains` where not. The nodes of the definitions are what is returned.
pub proof fn each_definition_has_one_node_and_one_edge(
    c: Classifier<'_>,
    t: TreeView,
    file: Seq<char>,
) -> (at: Seq<int>)
    requires
        t.len() >= 1,
    ensures
        forall|k: int|
            0 <= k < at.len() ==> 0 < #[trigger] at[k] < t.len() && c.definition(at[k]) is Some,
        forall|j: int, k: int| 0 <= j < k < at.len() ==> #[trigger] at[j] < #[trigger] at[k],
        forall|i: int| 0 < i < t.len() && (#[trigger] c.definition(i)) is Some ==> at.contains(i),
        symbols_of(c, t, file).nodes.len() == at.len() + 1,
        symbols_of(c, t, file).contains.len() == at.len(),
        symbols_of(c, t, file).nodes[0].node_id == file,
        symbols_of(c, t, file).nodes[0].label == file_name(file),
        symbols_of(c, t, file).nodes[0].source_file == file,
        symbols_of(c, t, file).nodes[0].start_line == 1,
        forall|k: int|
            0 <= k < at.len() ==> {
                let i = #[trigger] at[k];
                let def = c.definition(i)->0;
                let node = symbols_of(c, t, file).nodes[k + 1];
                let edge = symbols_of(c, t, file).contains[k];
                let id = file.push('#') + decimal(t.rows[i].row as int + 1).push(':');
                &&& def.name matches Some(name) ==> node.node_id == id + name
                &&& def.name is None ==> node.node_id == id + def.kind && node.label == def.kind
                &&& node.source_file == file
                &&& node.start_line == t.rows[i].row as int + 1
                &&& def.name matches Some(name) ==> (def.kind == "function"@ || def.kind == "method"@
                    ==> node.label == name + "()"@) && (def.kind != "function"@ && def.kind
                    != "method"@ ==> node.label == name)
                &&& edge.target == node.node_id
                &&& owner(c, t, i) is None ==> edge.source == file && edge.relation == "contains"@
                &&& owner(c, t, i) matches Some(o) ==> {
                    let outer = c.definition(o)->0;
                    let outer_id = file.push('#') + decimal(t.rows[o].row as int + 1).push(':');
                    let can_be_called = def.kind == "function"@ || def.kind == "method"@;
                    let is_type = outer.kind == "impl"@ || outer.kind == "trait"@ || outer.kind
                        == "struct"@ || outer.kind == "enum"@ || outer.kind == "class"@ || outer.kind
                        == "interface"@;
                    &&& outer.name matches Some(name) ==> edge.source == outer_id + name
                    &&& outer.name is None ==> edge.source == outer_id + outer.kind
                    &&& can_be_called && is_type ==> edge.relation == "method"@
                    &&& !(can_be_called && is_type) ==> edge.relation == "contains"@
                }
            },
{
    let at = lemma_definitions_listed(c, t, file, t.len());
    let holds = |i: int| c.definition(i) is Some;
    assert forall|i: int| 0 < i < t.len() && (#[trigger] c.definition(i)) is Some implies at.contains(
        i,
    ) by {
        assert(holds(i));
    }
    assert forall|k: int| 0 <= k < at.len() implies 0 < #[trigger] at[k] < t.len() && c.definition(
        at[k],
    ) is Some by {
        assert(holds(at[k]));
    }
    at
}

proof fn lemma_callables_listed(c: Classifier<'_>, t: TreeView, file: Seq<char>, n: int) -> (at: Seq<
    int,
>)
    requires
        1 <= n <= t.len(),
    ensures
        lists_nodes(
            at,
            |i: int|
                c.definition(i) is Some && (c.definition(i)->0).name is Some && c.call_target(
                    t,
                    i,
                    (c.definition(i)->0).kind,
                ),
            n,
        ),
        symbols_of_first(c, t, file, n).callables.len() == at.len(),
        forall|k: int|
            0 <= k < at.len() ==> {
                let i = #[trigger] at[k];
                let x = symbols_of_first(c, t, file, n).callables[k];
                let scope = match owner(c, t, i) {
                    Some(o) => c.scope_name(t, o, c.definition(o)->0),
                    None => None,
                };
                &&& Some(x.name) == (c.definition(i)->0).name
                &&& x.node_id == id_at(c, t, file, i)
                &&& x.scope == scope
                &&& x.scope_supers == if scope is Some {
                    supertypes(t, owner(c, t, i)->0)
                } else {
                    Seq::empty()
                }
            },
    decreases n,
{
    let holds = |i: int|
        c.definition(i) is Some && (c.definition(i)->0).name is Some && c.call_target(
            t,
            i,
            (c.definition(i)->0).kind,
        );
    if n == 1 {
        assert(lists_nodes(Seq::empty(), holds, 1));
        Seq::empty()
    } else {
        let before = lemma_callables_listed(c, t, file, n - 1);
        let at = lemma_lists_more(before, holds, n - 1);
        let was = symbols_of_first(c, t, file, n - 1);
        let now = symbols_of_first(c, t, file, n);
        assert forall|k: int| 0 <= k < at.len() implies {
            let i = #[trigger] at[k];
            let x = now.callables[k];
            let scope = match owner(c, t, i) {
                Some(o) => c.scope_name(t, o, c.definition(o)->0),
                None => None,
            };
            &&& Some(x.name) == (c.definition(i)->0).name
            &&& x.node_id == id_at(c, t, file, i)
            &&& x.scope == scope
            &&& x.scope_supers == if scope is Some {
                supertypes(t, owner(c, t, i)->0)
            } else {
                Seq::empty()
            }
        } by {
            if k < before.len() {
                assert(at[k] == before[k]);
                assert(now.callables[k] == was.callables[k]);
            } else {
                assert(at[k] == n - 1);
            }
        }
        at
    }
}

/// The callables of a file's symbols are its definitions with a name that a call can resolve to, each
/// once, in document order: each of its own name and id, in the type that the innermost definition around
/// it gives, with all that this type extends and implements. Their nodes are what is returned.
pub proof fn each_implementation_is_one_callable(c: Classifier<'_>, t: TreeView, file: Seq<char>) -> (
    at: Seq<int>)
    requires
        t.len() >= 1,
    ensures
        forall|k: int|
            0 <= k < at.len() ==> 0 < #[trigger] at[k] < t.len() && c.definition(at[k]) is Some && (
            c.definition(at[k])->0).name is Some && c.call_target(
                t,
                at[k],
                (c.definition(at[k])->0).kind,
            ),
        forall|j: int, k: int| 0 <= j < k < at.len() ==> #[trigger] at[j] < #[trigger] at[k],
        forall|i: int|
            0 < i < t.len() && (#[trigger] c.definition(i)) is Some && (c.definition(i)->0).name is Some
                && c.call_target(t, i, (c.definition(i)->0).kind) ==> at.contains(i),
        symbols_of(c, t, file).callables.len() == at.len(),
        forall|k: int|
            0 <= k < at.len() ==> {
                let i = #[trigger] at[k];
                let x = symbols_of(c, t, file).callables[k];
                &&& (c.definition(i)->0).name == Some(x.name)
                &&& x.node_id == file.push('#') + decimal(t.rows[i].row as int + 1).push(':') + x.name
                &&& owner(c, t, i) is None ==> x.scope is None && x.scope_supers.len() == 0
                &&& owner(c, t, i) matches Some(o) ==> {
                    &&& x.scope == c.scope_name(t, o, c.definition(o)->0)
                    &&& x.scope is Some ==> x.scope_supers == supertypes(t, o)
                    &&& x.scope is None ==> x.scope_supers.len() == 0
                }
            },
{
    let at = lemma_callables_listed(c, t, file, t.len());
    let holds = |i: int|
        c.definition(i) is Some && (c.definition(i)->0).name is Some && c.call_target(
            t,
            i,
            (c.definition(i)->0).kind,
        );
    assert forall|i: int|
        0 < i < t.len() && (#[trigger] c.definition(i)) is Some && (c.definition(i)->0).name is Some
            && c.call_target(t, i, (c.definition(i)->0).kind) implies at.contains(i) by {
        assert(holds(i));
    }
    assert forall|k: int| 0 <= k < at.len() implies 0 < #[trigger] at[k] < t.len() && c.definition(
        at[k],
    ) is Some && (c.definition(at[k])->0).name is Some && c.call_target(
        t,
        at[k],
        (c.definition(at[k])->0).kind,
    ) by {
        assert(holds(at[k]));
    }
    at
}

proof fn lemma_calls_listed(c: Classifier<'_>, t: TreeView, file: Seq<char>, n: int) -> (at: Seq<int>)
    requires
        1 <= n <= t.len(),
    ensures
        lists_nodes(
            at,
            |i: int| c.definition(i) is None && owner(c, t, i) is Some && c.call(t, i) is Some,
            n,
        ),
        symbols_of_first(c, t, file, n).calls.len() == at.len(),
        forall|k: int|
            0 <= k < at.len() ==> {
                let i = #[trigger] at[k];
                let x = symbols_of_first(c, t, file, n).calls[k];
                &&& x.name == (c.call(t, i)->0).name
                &&& x.qualifier == (c.call(t, i)->0).qualifier
                &&& x.caller == id_at(c, t, file, owner(c, t, i)->0)
            },
    decreases n,
{
    let holds = |i: int| c.definition(i) is None && owner(c, t, i) is Some && c.call(t, i) is Some;
    if n == 1 {
        assert(lists_nodes(Seq::empty(), holds, 1));
        Seq::empty()
    } else {
        let before = lemma_calls_listed(c, t, file, n - 1);
        let at = lemma_lists_more(before, holds, n - 1);
        let was = symbols_of_first(c, t, file, n - 1);
        let now = symbols_of_first(c, t, file, n);
        assert forall|k: int| 0 <= k < at.len() implies {
            let i = #[trigger] at[k];
            let x = now.calls[k];
            &&& x.name == (c.call(t, i)->0).name
            &&& x.qualifier == (c.call(t, i)->0).qualifier
            &&& x.caller == id_at(c, t, file, owner(c, t, i)->0)
        } by {
            if k < before.len() {
                assert(at[k] == before[k]);
                assert(now.calls[k] == was.calls[k]);
            } else {
                assert(at[k] == n - 1);
            }
        }
        at
    }
}

/// The calls of a file's symbols are those of its nodes that stand for a call, inside a definition and
/// not for one themselves, each once, in document order: each from the innermost definition around it.
/// Their nodes are what is returned.
pub proof fn each_call_inside_a_definition_is_listed(c: Classifier<'_>, t: TreeView, file: Seq<char>)
    -> (at: Seq<int>)
    requires
        t.len() >= 1,
    ensures
        forall|k: int|
            0 <= k < at.len() ==> 0 < #[trigger] at[k] < t.len() && c.definition(at[k]) is None && owner(
                c,
                t,
                at[k],
            ) is Some && c.call(t, at[k]) is Some,
        forall|j: int, k: int| 0 <= j < k < at.len() ==> #[trigger] at[j] < #[trigger] at[k],
        forall|i: int|
            0 < i < t.len() && c.definition(i) is None && owner(c, t, i) is Some && (
            #[trigger] c.call(t, i)) is Some ==> at.contains(i),
        symbols_of(c, t, file).calls.len() == at.len(),
        forall|k: int|
            0 <= k < at.len() ==> {
                let i = #[trigger] at[k];
                let x = symbols_of(c, t, file).calls[k];
                let o = owner(c, t, i)->0;
                let outer = c.definition(o)->0;
                let id = file.push('#') + decimal(t.rows[o].row as int + 1).push(':');
                &&& x.name == (c.call(t, i)->0).name
                &&& x.qualifier == (c.call(t, i)->0).qualifier
                &&& outer.name matches Some(name) ==> x.caller == id + name
                &&& outer.name is None ==> x.caller == id + outer.kind
            },
{
    let at = lemma_calls_listed(c, t, file, t.len());
    let holds = |i: int| c.definition(i) is None && owner(c, t, i) is Some && c.call(t, i) is Some;
    assert forall|i: int|
        0 < i < t.len() && c.definition(i) is None && owner(c, t, i) is Some && (#[trigger] c.call(
            t,
            i,
        )) is Some implies at.contains(i) by {
        assert(holds(i));
    }
    assert forall|k: int| 0 <= k < at.len() implies 0 < #[trigger] at[k] < t.len() && c.definition(
        at[k],
    ) is None && owner(c, t, at[k]) is Some && c.call(t, at[k]) is Some by {
        assert(holds(at[k]));
    }
    at
}

// -------------------------------------------------------------------------------------------------
// Languages
// -------------------------------------------------------------------------------------------------
/// Where the toolkit has one way to tell the symbols of a language, a file's symbols are told that way:
/// without a way there are none; for Rust they are those of the definitions the toolkit gives; by tags
/// those of the tags it gives, and none where it gives none.
pub proof fn symbols_are_told_the_toolkits_way<K: Toolkit>(
    k: K,
    tree: tree_sitter::Tree,
    t: TreeView,
    file: Seq<char>,
    source: Seq<char>,
    language: Seq<char>,
    symbols: SymbolsView,
    way: Option<GraphStrategy>,
)
    requires
        extracts(k, tree, t, file, source, language, symbols),
        forall|s: Option<GraphStrategy>| #[trigger] tells_by(k, language, s) ==> s == way,
    ensures
        way is None ==> symbols.nodes.len() == 0 && symbols.contains.len() == 0 && symbols.calls.len()
            == 0 && symbols.callables.len() == 0,
        way == Some(GraphStrategy::RustNative) ==> exists|defs: HashMap<usize, Definition>| #[trigger]
            defines(k, tree, source, defs) && symbols == symbols_of(Classifier::Rust(&defs), t, file),
        way == Some(GraphStrategy::Tags) ==> exists|tags: Option<TaggedSymbols>| #[trigger]
            tags_as(k, language, tree, source, tags) && match tags {
                Some(tags) => symbols == symbols_of(Classifier::Tagged(&tags), t, file),
                None => symbols.nodes.len() == 0 && symbols.contains.len() == 0
                    && symbols.calls.len() == 0 && symbols.callables.len() == 0,
            },
{
}

} // verus!
