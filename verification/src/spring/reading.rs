//! What is read of annotations, said of the nodes of a tree.
use super::annotation::{
    annotation_at, annotations, annotations_among, bare_values, constant_tail, first_annotation,
    is_pair_of, literal_text, named_pair, named_values, pair_among, pair_of_first_key, pair_strings,
    string_values, string_values_of_children, AnnotationView,
};
use super::route::{composed, first_mapping, http_method, mapping_name, paths, prefix_of, trimmed, verb};
use crate::graph::callee::path_end;
use crate::syntax::{
    children_are_the_nodes_of_that_parent, named_children_are_the_named_nodes_of_that_parent, TreeView,
};
use crate::text::{holds_part, stands_at, without_leading_slashes, without_trailing_slashes};
use vstd::prelude::*;

verus! {

// -------------------------------------------------------------------------------------------------
// Annotations
// -------------------------------------------------------------------------------------------------
proof fn lemma_annotation_kinds()
    ensures
        "marker_annotation"@.len() == 17,
        "annotation"@.len() == 10,
{
    reveal_strlit("marker_annotation");
    reveal_strlit("annotation");
}

proof fn lemma_annotations_listed(t: TreeView, nodes: Seq<int>) -> (at: Seq<int>)
    requires
        forall|j: int, k: int| 0 <= j < k < nodes.len() ==> #[trigger] nodes[j] < #[trigger] nodes[k],
    ensures
        at.len() == annotations_among(t, nodes).len(),
        forall|k: int|
            0 <= k < at.len() ==> nodes.contains(#[trigger] at[k]) && annotation_at(t, at[k]) == Some(
                annotations_among(t, nodes)[k],
            ),
        forall|j: int, k: int| 0 <= j < k < at.len() ==> #[trigger] at[j] < #[trigger] at[k],
        forall|w: int|
            0 <= w < nodes.len() && annotation_at(t, #[trigger] nodes[w]) is Some ==> at.contains(
                nodes[w],
            ),
    decreases nodes.len(),
{
    if nodes.len() == 0 {
        Seq::empty()
    } else {
        let rest = nodes.drop_last();
        let last = nodes.last();
        assert forall|j: int, k: int| 0 <= j < k < rest.len() implies #[trigger] rest[j]
            < #[trigger] rest[k] by {
            assert(nodes[j] < nodes[k]);
        }
        let before = lemma_annotations_listed(t, rest);
        let at = if annotation_at(t, last) is Some {
            before.push(last)
        } else {
            before
        };
        let now = annotations_among(t, nodes);
        let was = annotations_among(t, rest);
        assert forall|k: int| 0 <= k < at.len() implies nodes.contains(#[trigger] at[k])
            && annotation_at(t, at[k]) == Some(now[k]) by {
            if k < before.len() {
                assert(at[k] == before[k]);
                assert(rest.contains(before[k]));
                let w = choose|w: int| 0 <= w < rest.len() && rest[w] == before[k];
                assert(nodes[w] == at[k]);
                assert(now[k] == was[k]);
            } else {
                assert(nodes[nodes.len() - 1] == at[k]);
            }
        }
        assert forall|j: int, k: int| 0 <= j < k < at.len() implies #[trigger] at[j]
            < #[trigger] at[k] by {
            assert(at[j] == before[j]);
            if k == before.len() {
                assert(rest.contains(before[j]));
                let w = choose|w: int| 0 <= w < rest.len() && rest[w] == before[j];
                assert(nodes[w] < nodes[nodes.len() - 1]);
            } else {
                assert(at[k] == before[k]);
            }
        }
        assert forall|w: int|
            0 <= w < nodes.len() && annotation_at(t, #[trigger] nodes[w]) is Some implies at.contains(
            nodes[w],
        ) by {
            if w < rest.len() {
                assert(rest[w] == nodes[w]);
                assert(before.contains(rest[w]));
                let k = choose|k: int| 0 <= k < before.len() && before[k] == rest[w];
                assert(at[k] == nodes[w]);
            } else {
                assert(at[before.len() as int] == nodes[w]);
            }
        }
        at
    }
}

/// The annotations of a declaration are those among its modifiers that have a name, all of them, in
/// order: each by the last part of its name, with its argument list where it has one. Their nodes are
/// what is returned.
pub proof fn annotations_are_those_among_the_modifiers(t: TreeView, i: int, m: int) -> (at: Seq<int>)
    requires
        t.kind_child(i, "modifiers"@) == Some(m),
    ensures
        at.len() == annotations(t, i).len(),
        forall|j: int, k: int| 0 <= j < k < at.len() ==> #[trigger] at[j] < #[trigger] at[k],
        forall|k: int|
            0 <= k < at.len() ==> {
                let n = #[trigger] at[k];
                let a = annotations(t, i)[k];
                &&& 0 <= n < t.len() && t.parent(n) == Some(m)
                &&& t.kind(n) == "marker_annotation"@ || t.kind(n) == "annotation"@
                &&& t.field_child(n, "name"@) matches Some(name) && path_end(t, name) == Some(a.name)
                &&& t.kind(n) == "marker_annotation"@ ==> a.arguments is None
                &&& t.kind(n) == "annotation"@ ==> a.arguments == t.field_child(n, "arguments"@)
            },
        forall|n: int|
            0 <= n < t.len() && #[trigger] t.parent(n) == Some(m) && (t.kind(n)
                == "marker_annotation"@ || t.kind(n) == "annotation"@) && (t.field_child(n, "name"@) matches Some(
                name,
            ) && path_end(t, name) is Some) ==> at.contains(n),
{
    lemma_annotation_kinds();
    children_are_the_nodes_of_that_parent(t, m);
    let kids = t.children(m);
    let at = lemma_annotations_listed(t, kids);
    assert forall|k: int| 0 <= k < at.len() implies {
        let n = #[trigger] at[k];
        let a = annotations(t, i)[k];
        &&& 0 <= n < t.len() && t.parent(n) == Some(m)
        &&& t.kind(n) == "marker_annotation"@ || t.kind(n) == "annotation"@
        &&& t.field_child(n, "name"@) matches Some(name) && path_end(t, name) == Some(a.name)
        &&& t.kind(n) == "marker_annotation"@ ==> a.arguments is None
        &&& t.kind(n) == "annotation"@ ==> a.arguments == t.field_child(n, "arguments"@)
    } by {
        assert(kids.contains(at[k]));
    }
    assert forall|n: int|
        0 <= n < t.len() && #[trigger] t.parent(n) == Some(m) && (t.kind(n) == "marker_annotation"@
            || t.kind(n) == "annotation"@) && (t.field_child(n, "name"@) matches Some(name)
            && path_end(t, name) is Some) implies at.contains(n) by {
        assert(kids.contains(n));
        let w = choose|w: int| 0 <= w < kids.len() && kids[w] == n;
        assert(annotation_at(t, kids[w]) is Some);
    }
    at
}

/// A declaration without modifiers has no annotations.
pub proof fn declaration_without_modifiers_has_no_annotations(t: TreeView, i: int)
    requires
        t.kind_child(i, "modifiers"@) is None,
    ensures
        annotations(t, i).len() == 0,
{
}

/// The annotation found by its name is the first of that name, wherever it stands; none is found only
/// where none has the name.
pub proof fn annotation_is_found_wherever_it_stands(
    list: Seq<AnnotationView>,
    name: Seq<char>,
)
    ensures
        forall|k: int|
            0 <= k < list.len() && (#[trigger] list[k]).name == name && (forall|j: int|
                0 <= j < k ==> (#[trigger] list[j]).name != name) ==> first_annotation(list, name)
                == Some(list[k]),
        (forall|j: int| 0 <= j < list.len() ==> (#[trigger] list[j]).name != name)
            ==> first_annotation(list, name) is None,
    decreases list.len(),
{
    if list.len() > 0 && list[0].name != name {
        let rest = list.skip(1);
        annotation_is_found_wherever_it_stands(rest, name);
        assert forall|k: int|
            0 <= k < list.len() && (#[trigger] list[k]).name == name && (forall|j: int|
                0 <= j < k ==> (#[trigger] list[j]).name != name) implies first_annotation(list, name)
            == Some(list[k]) by {
            assert(rest[k - 1] == list[k]);
            assert forall|j: int| 0 <= j < k - 1 implies (#[trigger] rest[j]).name != name by {
                assert(rest[j] == list[j + 1]);
            }
        }
        if forall|j: int| 0 <= j < list.len() ==> (#[trigger] list[j]).name != name {
            assert forall|j: int| 0 <= j < rest.len() implies (#[trigger] rest[j]).name != name by {
                assert(rest[j] == list[j + 1]);
            }
        }
    }
}

// -------------------------------------------------------------------------------------------------
// Mappings
// -------------------------------------------------------------------------------------------------
/// The mapping annotations are these six, and five of them stand for the method of their name.
pub proof fn mapping_annotations_and_their_methods(name: Seq<char>)
    ensures
        mapping_name(name) <==> name == "RequestMapping"@ || name == "GetMapping"@ || name
            == "PostMapping"@ || name == "PutMapping"@ || name == "DeleteMapping"@ || name
            == "PatchMapping"@,
        verb("GetMapping"@) == Some("GET"@),
        verb("PostMapping"@) == Some("POST"@),
        verb("PutMapping"@) == Some("PUT"@),
        verb("DeleteMapping"@) == Some("DELETE"@),
        verb("PatchMapping"@) == Some("PATCH"@),
        verb("RequestMapping"@) is None,
{
    lemma_mapping_names();
}

proof fn lemma_mapping_names()
    ensures
        "RequestMapping"@.len() == 14,
        "GetMapping"@.len() == 10,
        "PostMapping"@.len() == 11,
        "PutMapping"@.len() == 10,
        "DeleteMapping"@.len() == 13,
        "PatchMapping"@.len() == 12,
        "GetMapping"@ != "PutMapping"@,
{
    reveal_strlit("RequestMapping");
    reveal_strlit("GetMapping");
    reveal_strlit("PostMapping");
    reveal_strlit("PutMapping");
    reveal_strlit("DeleteMapping");
    reveal_strlit("PatchMapping");
    assert("GetMapping"@[0] == 'G');
    assert("PutMapping"@[0] == 'P');
}

/// The mapping of a list of annotations is its first one with a mapping's name, at whatever place and
/// whatever stands before it; there is none only where no annotation of the list has such a name.
pub proof fn mapping_is_found_wherever_it_stands(list: Seq<AnnotationView>)
    ensures
        forall|k: int|
            0 <= k < list.len() && mapping_name((#[trigger] list[k]).name) && (forall|j: int|
                0 <= j < k ==> !mapping_name((#[trigger] list[j]).name)) ==> first_mapping(list)
                == Some(list[k]),
        first_mapping(list) is None <==> forall|j: int|
            0 <= j < list.len() ==> !mapping_name((#[trigger] list[j]).name),
        first_mapping(list) matches Some(a) ==> list.contains(a) && mapping_name(a.name),
    decreases list.len(),
{
    if list.len() > 0 {
        assert(list.contains(list[0]));
    }
    if list.len() > 0 && !mapping_name(list[0].name) {
        let rest = list.skip(1);
        mapping_is_found_wherever_it_stands(rest);
        assert forall|k: int|
            0 <= k < list.len() && mapping_name((#[trigger] list[k]).name) && (forall|j: int|
                0 <= j < k ==> !mapping_name((#[trigger] list[j]).name)) implies first_mapping(list)
            == Some(list[k]) by {
            assert(rest[k - 1] == list[k]);
            assert forall|j: int| 0 <= j < k - 1 implies !mapping_name((#[trigger] rest[j]).name) by {
                assert(rest[j] == list[j + 1]);
            }
        }
        if forall|j: int| 0 <= j < list.len() ==> !mapping_name((#[trigger] list[j]).name) {
            assert forall|j: int| 0 <= j < rest.len() implies !mapping_name(
                (#[trigger] rest[j]).name,
            ) by {
                assert(rest[j] == list[j + 1]);
            }
        }
        if first_mapping(list) is None {
            assert forall|j: int| 0 <= j < list.len() implies !mapping_name(
                (#[trigger] list[j]).name,
            ) by {
                if j > 0 {
                    assert(rest[j - 1] == list[j]);
                }
            }
        }
        if let Some(a) = first_mapping(list) {
            let w = choose|w: int| 0 <= w < rest.len() && rest[w] == a;
            assert(list[w + 1] == a);
        }
    }
}

/// Every mapping annotation stands for an HTTP method: `RequestMapping` for the one its `method` names,
/// or for any, each of the others for that of its own name.
pub proof fn every_mapping_stands_for_a_method(t: TreeView, a: AnnotationView)
    ensures
        mapping_name(a.name) <==> http_method(t, a) is Some,
        a.name == "GetMapping"@ ==> http_method(t, a) == Some("GET"@),
        a.name == "PostMapping"@ ==> http_method(t, a) == Some("POST"@),
        a.name == "PutMapping"@ ==> http_method(t, a) == Some("PUT"@),
        a.name == "DeleteMapping"@ ==> http_method(t, a) == Some("DELETE"@),
        a.name == "PatchMapping"@ ==> http_method(t, a) == Some("PATCH"@),
        a.name == "RequestMapping"@ && constant_tail(t, a.arguments, "method"@) is Some ==> http_method(
            t,
            a,
        ) == constant_tail(t, a.arguments, "method"@),
        a.name == "RequestMapping"@ && constant_tail(t, a.arguments, "method"@) is None ==> http_method(
            t,
            a,
        ) == Some("ANY"@),
{
    lemma_mapping_names();
}

/// The paths of a mapping are its bare strings, and without any those under `value` or `path`.
pub proof fn paths_of_a_mapping(t: TreeView, a: AnnotationView)
    ensures
        bare_values(t, a.arguments).len() > 0 ==> paths(t, a) == bare_values(t, a.arguments),
        bare_values(t, a.arguments).len() == 0 ==> paths(t, a) == named_values(
            t,
            a.arguments,
            seq!["value"@, "path"@],
        ),
{
}

/// The prefix of a class's routes is the first path of its first `RequestMapping`, wherever that stands
/// among its annotations; it is empty without one and where that gives no path.
pub proof fn prefix_is_the_first_path_of_the_class(t: TreeView, list: Seq<AnnotationView>)
    ensures
        forall|k: int|
            0 <= k < list.len() && (#[trigger] list[k]).name == "RequestMapping"@ && (forall|j: int|
                0 <= j < k ==> (#[trigger] list[j]).name != "RequestMapping"@) ==> (if paths(
                t,
                list[k],
            ).len() > 0 {
                prefix_of(t, list) == paths(t, list[k])[0]
            } else {
                prefix_of(t, list).len() == 0
            }),
        (forall|j: int| 0 <= j < list.len() ==> (#[trigger] list[j]).name != "RequestMapping"@)
            ==> prefix_of(t, list).len() == 0,
{
    annotation_is_found_wherever_it_stands(list, "RequestMapping"@);
}

// -------------------------------------------------------------------------------------------------
// Arguments
// -------------------------------------------------------------------------------------------------
/// The text of a literal is that of its parts, one after the other; a part without text adds none.
pub proof fn literal_is_its_parts_joined(t: TreeView, parts: Seq<int>)
    ensures
        literal_text(t, parts) == parts.map_values(
            |p: int|
                match t.text(p) {
                    Some(s) => s,
                    None => Seq::empty(),
                },
        ).flatten(),
    decreases parts.len(),
{
    let text = |p: int|
        match t.text(p) {
            Some(s) => s,
            None => Seq::empty(),
        };
    if parts.len() == 0 {
        assert(parts.map_values(text) =~= Seq::empty());
    } else {
        let rest = parts.drop_last();
        literal_is_its_parts_joined(t, rest);
        assert(parts.map_values(text) =~= rest.map_values(text).push(text(parts.last())));
        rest.map_values(text).lemma_flatten_push(text(parts.last()));
        assert(literal_text(t, parts) =~= literal_text(t, rest) + text(parts.last()));
    }
}

proof fn lemma_string_values_of_children(t: TreeView, i: int, n: int)
    requires
        0 <= n <= t.named_children(i).len(),
    ensures
        string_values_of_children(t, i, n) == t.named_children(i).take(n).map_values(
            |c: int| string_values(t, c),
        ).flatten(),
    decreases n,
{
    let named = t.named_children(i);
    let values = |c: int| string_values(t, c);
    if n == 0 {
        assert(named.take(0).map_values(values) =~= Seq::empty());
    } else {
        lemma_string_values_of_children(t, i, n - 1);
        let before = named.take(n - 1).map_values(values);
        assert(named.take(n).map_values(values) =~= before.push(values(named[n - 1])));
        before.lemma_flatten_push(values(named[n - 1]));
    }
}

/// A string literal holds its own text, an array all that its elements hold, in order, and anything else
/// no string.
pub proof fn strings_a_value_holds(t: TreeView, i: int)
    ensures
        t.kind(i) == "string_literal"@ ==> string_values(t, i) == seq![
            literal_text(t, t.named_children(i)),
        ],
        t.kind(i) == "element_value_array_initializer"@ ==> string_values(t, i) == t.named_children(
            i,
        ).map_values(|c: int| string_values(t, c)).flatten(),
        t.kind(i) != "string_literal"@ && t.kind(i) != "element_value_array_initializer"@
            ==> string_values(t, i).len() == 0,
{
    reveal_strlit("string_literal");
    reveal_strlit("element_value_array_initializer");
    assert("string_literal"@.len() != "element_value_array_initializer"@.len());
    let named = t.named_children(i);
    lemma_string_values_of_children(t, i, named.len() as int);
    assert(named.take(named.len() as int) =~= named);
}

/// The bare strings of an argument list are all that its arguments hold, in order; without a list there
/// are none.
pub proof fn bare_strings_are_all_the_arguments_hold(t: TreeView, args: int)
    ensures
        bare_values(t, Some(args)) == t.named_children(args).map_values(
            |c: int| string_values(t, c),
        ).flatten(),
        bare_values(t, None).len() == 0,
{
    let named = t.named_children(args);
    lemma_string_values_of_children(t, args, named.len() as int);
    assert(named.take(named.len() as int) =~= named);
}

/// Whether `p` is the first named argument of the list `args` under one of `keys`.
spec fn is_first_pair(t: TreeView, args: int, keys: Seq<Seq<char>>, p: int) -> bool {
    &&& 0 <= p < t.len() && t.parent(p) == Some(args) && t.rows[p].named
    &&& t.kind(p) == "element_value_pair"@
    &&& t.field_text(p, "key"@) matches Some(key) && keys.contains(key)
    &&& forall|d: int|
        0 <= d < p && #[trigger] t.parent(d) == Some(args) && t.rows[d].named && t.kind(d)
            == "element_value_pair"@ ==> !(t.field_text(d, "key"@) matches Some(key)
            && keys.contains(key))
}

proof fn lemma_pair_at(t: TreeView, nodes: Seq<int>, keys: Seq<Seq<char>>, w: int)
    requires
        0 <= w < nodes.len(),
        is_pair_of(t, nodes[w], keys),
        forall|j: int| 0 <= j < w ==> !is_pair_of(t, #[trigger] nodes[j], keys),
    ensures
        pair_among(t, nodes, keys) == Some(nodes[w]),
    decreases w,
{
    if w > 0 {
        let rest = nodes.skip(1);
        assert(!is_pair_of(t, nodes[0], keys));
        assert forall|j: int| 0 <= j < w - 1 implies !is_pair_of(t, #[trigger] rest[j], keys) by {
            assert(rest[j] == nodes[j + 1]);
        }
        lemma_pair_at(t, rest, keys, w - 1);
    }
}

proof fn lemma_no_pair(t: TreeView, nodes: Seq<int>, keys: Seq<Seq<char>>)
    requires
        forall|j: int| 0 <= j < nodes.len() ==> !is_pair_of(t, #[trigger] nodes[j], keys),
    ensures
        pair_among(t, nodes, keys) is None,
    decreases nodes.len(),
{
    if nodes.len() > 0 {
        let rest = nodes.skip(1);
        assert(!is_pair_of(t, nodes[0], keys));
        assert forall|j: int| 0 <= j < rest.len() implies !is_pair_of(t, #[trigger] rest[j], keys) by {
            assert(rest[j] == nodes[j + 1]);
        }
        lemma_no_pair(t, rest, keys);
    }
}

proof fn lemma_first_pair(t: TreeView, args: int, keys: Seq<Seq<char>>, p: int)
    requires
        is_first_pair(t, args, keys, p),
    ensures
        named_pair(t, Some(args), keys) == Some(p),
{
    let named = t.named_children(args);
    named_children_are_the_named_nodes_of_that_parent(t, args);
    assert(named.contains(p));
    let w = choose|w: int| 0 <= w < named.len() && named[w] == p;
    assert forall|j: int| 0 <= j < w implies !is_pair_of(t, #[trigger] named[j], keys) by {
        assert(named[j] < named[w]);
        assert(named.contains(named[j]));
        assert(t.parent(named[j]) == Some(args));
    }
    lemma_pair_at(t, named, keys, w);
}

/// The argument found by its keys is the first one under any of them, wherever it stands; there is none
/// only where no argument is under one of them.
pub proof fn named_argument_is_found_wherever_it_stands(
    t: TreeView,
    args: int,
    keys: Seq<Seq<char>>,
    p: int,
)
    requires
        0 <= p < t.len(),
        t.parent(p) == Some(args),
        t.rows[p].named,
        t.kind(p) == "element_value_pair"@,
        t.field_text(p, "key"@) matches Some(key) && keys.contains(key),
        forall|d: int|
            0 <= d < p && #[trigger] t.parent(d) == Some(args) && t.rows[d].named && t.kind(d)
                == "element_value_pair"@ ==> !(t.field_text(d, "key"@) matches Some(key)
                && keys.contains(key)),
    ensures
        named_pair(t, Some(args), keys) == Some(p),
{
    lemma_first_pair(t, args, keys, p);
}

/// Without an argument under one of the keys nothing is found, and no string is.
pub proof fn no_named_argument_gives_no_string(t: TreeView, args: int, keys: Seq<Seq<char>>)
    requires
        forall|d: int|
            0 <= d < t.len() && #[trigger] t.parent(d) == Some(args) && t.rows[d].named && t.kind(d)
                == "element_value_pair"@ ==> !(t.field_text(d, "key"@) matches Some(key)
                && keys.contains(key)),
    ensures
        named_pair(t, Some(args), keys) is None,
        named_values(t, Some(args), keys).len() == 0,
{
    let named = t.named_children(args);
    named_children_are_the_named_nodes_of_that_parent(t, args);
    assert forall|j: int| 0 <= j < named.len() implies !is_pair_of(t, #[trigger] named[j], keys) by {
        assert(named.contains(named[j]));
        assert(t.parent(named[j]) == Some(args));
    }
    lemma_no_pair(t, named, keys);
    lemma_no_first_key(t, args, keys);
}

proof fn lemma_no_first_key(t: TreeView, args: int, keys: Seq<Seq<char>>)
    requires
        forall|j: int|
            0 <= j < t.named_children(args).len() ==> !is_pair_of(
                t,
                #[trigger] t.named_children(args)[j],
                keys,
            ),
    ensures
        pair_of_first_key(t, Some(args), keys) is None,
    decreases keys.len(),
{
    if keys.len() > 0 {
        let named = t.named_children(args);
        let one = seq![keys[0]];
        let rest = keys.skip(1);
        assert forall|j: int| 0 <= j < named.len() implies !is_pair_of(t, #[trigger] named[j], one)
            && !is_pair_of(t, named[j], rest) by {
            assert(!is_pair_of(t, named[j], keys));
            if let Some(key) = t.field_text(named[j], "key"@) {
                assert(keys.contains(keys[0]));
                if one.contains(key) {
                    let x = choose|x: int| 0 <= x < one.len() && one[x] == key;
                    assert(key == keys[0]);
                }
                if rest.contains(key) {
                    let x = choose|x: int| 0 <= x < rest.len() && rest[x] == key;
                    assert(keys[x + 1] == key);
                }
            }
        }
        lemma_no_pair(t, named, one);
        lemma_no_first_key(t, args, rest);
    }
}

proof fn lemma_first_key(t: TreeView, args: int, keys: Seq<Seq<char>>, k: int, p: int)
    requires
        0 <= k < keys.len(),
        is_first_pair(t, args, seq![keys[k]], p),
        forall|j: int| 0 <= j < k ==> named_pair(t, Some(args), seq![#[trigger] keys[j]]) is None,
    ensures
        pair_of_first_key(t, Some(args), keys) == Some(p),
    decreases keys.len(),
{
    if k == 0 {
        lemma_first_pair(t, args, seq![keys[0]], p);
    } else {
        let rest = keys.skip(1);
        assert(named_pair(t, Some(args), seq![keys[0]]) is None);
        assert(rest[k - 1] == keys[k]);
        assert forall|j: int| 0 <= j < k - 1 implies named_pair(
            t,
            Some(args),
            seq![#[trigger] rest[j]],
        ) is None by {
            assert(rest[j] == keys[j + 1]);
            assert(named_pair(t, Some(args), seq![keys[j + 1]]) is None);
        }
        lemma_first_key(t, args, rest, k - 1, p);
    }
}

/// The strings found by keys are those of the first argument under the first key that has one, where that
/// argument holds any, whatever stands before it in the list.
pub proof fn first_key_with_strings_decides(
    t: TreeView,
    args: int,
    keys: Seq<Seq<char>>,
    k: int,
    p: int,
    value: int,
)
    requires
        0 <= k < keys.len(),
        0 <= p < t.len(),
        t.parent(p) == Some(args),
        t.rows[p].named,
        t.kind(p) == "element_value_pair"@,
        t.field_text(p, "key"@) == Some(keys[k]),
        forall|d: int|
            0 <= d < p && #[trigger] t.parent(d) == Some(args) && t.rows[d].named && t.kind(d)
                == "element_value_pair"@ ==> t.field_text(d, "key"@) != Some(keys[k]),
        forall|d: int, j: int|
            0 <= d < t.len() && #[trigger] t.parent(d) == Some(args) && t.rows[d].named && t.kind(d)
                == "element_value_pair"@ && 0 <= j < k ==> t.field_text(d, "key"@) != Some(
                #[trigger] keys[j],
            ),
        t.field_child(p, "value"@) == Some(value),
        string_values(t, value).len() > 0,
    ensures
        named_values(t, Some(args), keys) == string_values(t, value),
{
    lemma_key_found(t, args, keys, k, p);
}

proof fn lemma_key_found(t: TreeView, args: int, keys: Seq<Seq<char>>, k: int, p: int)
    requires
        0 <= k < keys.len(),
        0 <= p < t.len(),
        t.parent(p) == Some(args),
        t.rows[p].named,
        t.kind(p) == "element_value_pair"@,
        t.field_text(p, "key"@) == Some(keys[k]),
        forall|d: int|
            0 <= d < p && #[trigger] t.parent(d) == Some(args) && t.rows[d].named && t.kind(d)
                == "element_value_pair"@ ==> t.field_text(d, "key"@) != Some(keys[k]),
        forall|d: int, j: int|
            0 <= d < t.len() && #[trigger] t.parent(d) == Some(args) && t.rows[d].named && t.kind(d)
                == "element_value_pair"@ && 0 <= j < k ==> t.field_text(d, "key"@) != Some(
                #[trigger] keys[j],
            ),
    ensures
        pair_of_first_key(t, Some(args), keys) == Some(p),
{
    let one = seq![keys[k]];
    assert(one[0] == keys[k]);
    assert(one.contains(keys[k]));
    assert(is_first_pair(t, args, one, p));
    named_children_are_the_named_nodes_of_that_parent(t, args);
    let named = t.named_children(args);
    assert forall|j: int| 0 <= j < k implies named_pair(
        t,
        Some(args),
        seq![#[trigger] keys[j]],
    ) is None by {
        let other = seq![keys[j]];
        assert forall|x: int| 0 <= x < named.len() implies !is_pair_of(t, #[trigger] named[x], other) by {
            assert(named.contains(named[x]));
            assert(t.parent(named[x]) == Some(args));
            if is_pair_of(t, named[x], other) {
                let key = t.field_text(named[x], "key"@)->0;
                let y = choose|y: int| 0 <= y < other.len() && other[y] == key;
                assert(key == keys[j]);
            }
        }
        lemma_no_pair(t, named, other);
    }
    lemma_first_key(t, args, keys, k, p);
}

/// Where the first argument under the first key that has one holds no string, the strings found are those
/// of the argument under any of the keys that is written first.
pub proof fn argument_written_first_decides_otherwise(
    t: TreeView,
    args: int,
    keys: Seq<Seq<char>>,
    k: int,
    p: int,
    first: int,
)
    requires
        0 <= k < keys.len(),
        0 <= p < t.len(),
        t.parent(p) == Some(args),
        t.rows[p].named,
        t.kind(p) == "element_value_pair"@,
        t.field_text(p, "key"@) == Some(keys[k]),
        forall|d: int|
            0 <= d < p && #[trigger] t.parent(d) == Some(args) && t.rows[d].named && t.kind(d)
                == "element_value_pair"@ ==> t.field_text(d, "key"@) != Some(keys[k]),
        forall|d: int, j: int|
            0 <= d < t.len() && #[trigger] t.parent(d) == Some(args) && t.rows[d].named && t.kind(d)
                == "element_value_pair"@ && 0 <= j < k ==> t.field_text(d, "key"@) != Some(
                #[trigger] keys[j],
            ),
        t.field_child(p, "value"@) matches Some(value) ==> string_values(t, value).len() == 0,
        0 <= first < t.len(),
        t.parent(first) == Some(args),
        t.rows[first].named,
        t.kind(first) == "element_value_pair"@,
        t.field_text(first, "key"@) matches Some(key) && keys.contains(key),
        forall|d: int|
            0 <= d < first && #[trigger] t.parent(d) == Some(args) && t.rows[d].named && t.kind(d)
                == "element_value_pair"@ ==> !(t.field_text(d, "key"@) matches Some(key)
                && keys.contains(key)),
    ensures
        t.field_child(first, "value"@) matches Some(value) ==> named_values(t, Some(args), keys)
            == string_values(t, value),
        t.field_child(first, "value"@) is None ==> named_values(t, Some(args), keys).len() == 0,
{
    lemma_key_found(t, args, keys, k, p);
    lemma_first_pair(t, args, keys, first);
}

/// Without an argument list nothing is found by any key.
pub proof fn no_argument_list_gives_no_string(t: TreeView, keys: Seq<Seq<char>>, key: Seq<char>)
    ensures
        named_values(t, None, keys).len() == 0,
        constant_tail(t, None, key) is None,
{
    lemma_no_list(t, keys);
}

proof fn lemma_no_list(t: TreeView, keys: Seq<Seq<char>>)
    ensures
        pair_of_first_key(t, None, keys) is None,
    decreases keys.len(),
{
    if keys.len() > 0 {
        lemma_no_list(t, keys.skip(1));
    }
}

/// The constant that a named argument gives is known by its last name: the field of a field access, or
/// the plain name itself. Any other value gives none.
pub proof fn constant_is_known_by_its_last_name(
    t: TreeView,
    args: int,
    key: Seq<char>,
    p: int,
    value: int,
)
    requires
        0 <= p < t.len(),
        t.parent(p) == Some(args),
        t.rows[p].named,
        t.kind(p) == "element_value_pair"@,
        t.field_text(p, "key"@) == Some(key),
        forall|d: int|
            0 <= d < p && #[trigger] t.parent(d) == Some(args) && t.rows[d].named && t.kind(d)
                == "element_value_pair"@ ==> t.field_text(d, "key"@) != Some(key),
        t.field_child(p, "value"@) == Some(value),
    ensures
        t.kind(value) == "field_access"@ ==> constant_tail(t, Some(args), key) == t.field_text(
            value,
            "field"@,
        ),
        t.kind(value) == "identifier"@ ==> constant_tail(t, Some(args), key) == t.text(value),
        t.kind(value) != "field_access"@ && t.kind(value) != "identifier"@ ==> constant_tail(
            t,
            Some(args),
            key,
        ) is None,
{
    reveal_strlit("field_access");
    reveal_strlit("identifier");
    assert("field_access"@.len() != "identifier"@.len());
    let one = seq![key];
    assert(one[0] == key);
    assert(one.contains(key));
    assert(is_first_pair(t, args, one, p));
    lemma_first_pair(t, args, one, p);
}

// -------------------------------------------------------------------------------------------------
// Text
// -------------------------------------------------------------------------------------------------
/// A text holds a part exactly where it is something, the part and something more.
pub proof fn text_holds_a_part_in_between(whole: Seq<char>, part: Seq<char>)
    ensures
        holds_part(whole, part) <==> exists|a: Seq<char>, b: Seq<char>|
            whole == #[trigger] (a + part + b),
{
    if holds_part(whole, part) {
        let i = choose|i: int| #[trigger] stands_at(whole, part, i);
        let a = whole.take(i);
        let b = whole.skip(i + part.len());
        assert(whole =~= a + part + b);
    }
    if exists|a: Seq<char>, b: Seq<char>| whole == #[trigger] (a + part + b) {
        let (a, b) = choose|a: Seq<char>, b: Seq<char>| whole == #[trigger] (a + part + b);
        assert(whole.subrange(a.len() as int, a.len() as int + part.len()) =~= part);
        assert(stands_at(whole, part, a.len() as int));
    }
}

proof fn lemma_leading(a: Seq<char>, rest: Seq<char>)
    requires
        forall|k: int| 0 <= k < a.len() ==> #[trigger] a[k] == '/',
    ensures
        without_leading_slashes(a + rest) == without_leading_slashes(rest),
    decreases a.len(),
{
    if a.len() == 0 {
        assert(a + rest =~= rest);
    } else {
        assert(a[0] == '/');
        assert((a + rest).skip(1) =~= a.skip(1) + rest);
        lemma_leading(a.skip(1), rest);
    }
}

proof fn lemma_trailing(rest: Seq<char>, b: Seq<char>)
    requires
        forall|k: int| 0 <= k < b.len() ==> #[trigger] b[k] == '/',
    ensures
        without_trailing_slashes(rest + b) == without_trailing_slashes(rest),
    decreases b.len(),
{
    if b.len() == 0 {
        assert(rest + b =~= rest);
    } else {
        assert(b[b.len() - 1] == '/');
        assert((rest + b).drop_last() =~= rest + b.drop_last());
        lemma_trailing(rest, b.drop_last());
    }
}

proof fn lemma_trimmed_core(a: Seq<char>, core: Seq<char>, b: Seq<char>)
    requires
        forall|k: int| 0 <= k < a.len() ==> #[trigger] a[k] == '/',
        forall|k: int| 0 <= k < b.len() ==> #[trigger] b[k] == '/',
        core.len() > 0 ==> core[0] != '/' && core.last() != '/',
    ensures
        trimmed(a + core + b) == core,
{
    assert(a + core + b =~= a + (core + b));
    lemma_leading(a, core + b);
    if core.len() > 0 {
        assert((core + b)[0] == core[0]);
        assert(without_leading_slashes(core + b) == core + b);
        lemma_trailing(core, b);
    } else {
        assert(core + b =~= b + core);
        lemma_leading(b, core);
        assert(without_leading_slashes(core) =~= core);
        assert(without_trailing_slashes(core) =~= core);
    }
}

/// A route's path is a slash, then what stands between the slashes at the ends of the prefix, then a slash
/// where both have something there, then what stands between those at the ends of the suffix. What stands
/// in between is kept as it is.
pub proof fn route_path_joins_prefix_and_suffix(
    a: Seq<char>,
    prefix: Seq<char>,
    b: Seq<char>,
    c: Seq<char>,
    suffix: Seq<char>,
    d: Seq<char>,
)
    requires
        forall|k: int| 0 <= k < a.len() ==> #[trigger] a[k] == '/',
        forall|k: int| 0 <= k < b.len() ==> #[trigger] b[k] == '/',
        forall|k: int| 0 <= k < c.len() ==> #[trigger] c[k] == '/',
        forall|k: int| 0 <= k < d.len() ==> #[trigger] d[k] == '/',
        prefix.len() > 0 ==> prefix[0] != '/' && prefix.last() != '/',
        suffix.len() > 0 ==> suffix[0] != '/' && suffix.last() != '/',
    ensures
        prefix.len() > 0 && suffix.len() > 0 ==> composed(a + prefix + b, c + suffix + d) == seq!['/']
            + prefix + seq!['/'] + suffix,
        suffix.len() == 0 ==> composed(a + prefix + b, c + suffix + d) == seq!['/'] + prefix,
        prefix.len() == 0 ==> composed(a + prefix + b, c + suffix + d) == seq!['/'] + suffix,
{
    lemma_trimmed_core(a, prefix, b);
    lemma_trimmed_core(c, suffix, d);
    let path = composed(a + prefix + b, c + suffix + d);
    if suffix.len() == 0 {
        assert(path =~= seq!['/'] + prefix);
    }
    if prefix.len() == 0 {
        assert(path =~= seq!['/'] + suffix);
    }
}

} // verus!
