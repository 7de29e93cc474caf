//! What is read of types, receivers and calls, said of the nodes of a tree.
use super::callee::{
    bound_in, call_qualifier, called, callee, declaration_among, declared_type, declares,
    first_type_name, impl_type, last_of_kind, parameter_among, path_end, supertypes, type_head,
    type_heads, type_heads_of_children, type_like, uppercase_beyond_ascii,
};
use crate::syntax::{
    children_are_the_nodes_of_that_parent, lemma_parent, named_children_are_the_named_nodes_of_that_parent,
    parent_is_the_nearest_node_less_deep, TreeView,
};
use vstd::prelude::*;

verus! {

// -------------------------------------------------------------------------------------------------
// Names of types
// -------------------------------------------------------------------------------------------------
proof fn lemma_type_kinds()
    ensures
        "type_identifier"@.len() == 15,
        "generic_type"@.len() == 12,
        "scoped_type_identifier"@.len() == 22,
        "array_type"@.len() == 10,
{
    reveal_strlit("type_identifier");
    reveal_strlit("generic_type");
    reveal_strlit("scoped_type_identifier");
    reveal_strlit("array_type");
}

/// A plain type name is its own head name.
pub proof fn plain_type_name_is_its_own_head(t: TreeView, i: int)
    requires
        t.kind(i) == "type_identifier"@,
    ensures
        type_head(t, i) == t.text(i),
{
}

/// A type with arguments has the head name of the type the arguments are for, wherever that is given: in
/// the field `type`, else by the first named child that is a type name.
pub proof fn type_with_arguments_has_the_head_of_its_base(t: TreeView, i: int, base: int)
    requires
        t.kind(i) == "generic_type"@,
        ({
            ||| t.field_child(i, "type"@) == Some(base)
            ||| t.field_child(i, "type"@) is None && 0 <= base < t.len() && t.parent(base) == Some(i)
                && t.rows[base].named && (t.kind(base) == "type_identifier"@ || t.kind(base)
                == "scoped_type_identifier"@) && forall|d: int|
                0 <= d < base && #[trigger] t.parent(d) == Some(i) && t.rows[d].named ==> t.kind(d)
                    != "type_identifier"@ && t.kind(d) != "scoped_type_identifier"@
        }),
    ensures
        type_head(t, i) == type_head(t, base),
{
    lemma_type_kinds();
    if t.field_child(i, "type"@) is None {
        let named = t.named_children(i);
        named_children_are_the_named_nodes_of_that_parent(t, i);
        assert(named.contains(base));
        let w = choose|w: int| 0 <= w < named.len() && named[w] == base;
        assert forall|j: int| 0 <= j < w implies t.kind(#[trigger] named[j]) != "type_identifier"@
            && t.kind(named[j]) != "scoped_type_identifier"@ by {
            assert(named[j] < named[w]);
            assert(named.contains(named[j]));
        }
        lemma_first_type_name_at(t, named, w);
    }
}

proof fn lemma_first_type_name_at(t: TreeView, nodes: Seq<int>, w: int)
    requires
        0 <= w < nodes.len(),
        t.kind(nodes[w]) == "type_identifier"@ || t.kind(nodes[w]) == "scoped_type_identifier"@,
        forall|j: int|
            0 <= j < w ==> t.kind(#[trigger] nodes[j]) != "type_identifier"@ && t.kind(nodes[j])
                != "scoped_type_identifier"@,
    ensures
        first_type_name(t, nodes) == Some(nodes[w]),
    decreases w,
{
    if w > 0 {
        let rest = nodes.skip(1);
        assert forall|j: int| 0 <= j < w - 1 implies t.kind(#[trigger] rest[j])
            != "type_identifier"@ && t.kind(rest[j]) != "scoped_type_identifier"@ by {
            assert(rest[j] == nodes[j + 1]);
        }
        lemma_first_type_name_at(t, rest, w - 1);
    }
}

/// A qualified type name has its last part as its head name: the text of its field `name`, else of the
/// last plain type name among its named children.
pub proof fn qualified_type_name_has_its_last_part_as_head(t: TreeView, i: int, part: int)
    requires
        t.kind(i) == "scoped_type_identifier"@,
        ({
            ||| t.field_child(i, "name"@) == Some(part) && t.text(part) is Some
            ||| t.field_text(i, "name"@) is None && 0 <= part < t.len() && t.parent(part) == Some(i)
                && t.rows[part].named && t.kind(part) == "type_identifier"@ && forall|d: int|
                part < d < t.len() && #[trigger] t.parent(d) == Some(i) && t.rows[d].named
                    ==> t.kind(d) != "type_identifier"@
        }),
    ensures
        type_head(t, i) == t.text(part),
{
    lemma_type_kinds();
    if t.field_text(i, "name"@) is None {
        let named = t.named_children(i);
        named_children_are_the_named_nodes_of_that_parent(t, i);
        assert(named.contains(part));
        let w = choose|w: int| 0 <= w < named.len() && named[w] == part;
        assert forall|j: int| w < j < named.len() implies t.kind(#[trigger] named[j])
            != "type_identifier"@ by {
            assert(named[w] < named[j]);
            assert(named.contains(named[j]));
        }
        lemma_last_of_kind_at(t, named, "type_identifier"@, w);
    }
}

proof fn lemma_last_of_kind_at(t: TreeView, nodes: Seq<int>, kind: Seq<char>, w: int)
    requires
        0 <= w < nodes.len(),
        t.kind(nodes[w]) == kind,
        forall|j: int| w < j < nodes.len() ==> t.kind(#[trigger] nodes[j]) != kind,
    ensures
        last_of_kind(t, nodes, kind) == Some(nodes[w]),
    decreases nodes.len(),
{
    if w < nodes.len() - 1 {
        let rest = nodes.drop_last();
        assert(t.kind(nodes[nodes.len() - 1]) != kind);
        assert forall|j: int| w < j < rest.len() implies t.kind(#[trigger] rest[j]) != kind by {
            assert(rest[j] == nodes[j]);
        }
        lemma_last_of_kind_at(t, rest, kind, w);
    }
}

/// An array has the head name of its element, and what is no type has none.
pub proof fn array_has_the_head_of_its_element(t: TreeView, i: int)
    ensures
        t.kind(i) == "array_type"@ ==> (t.field_child(i, "element"@) matches Some(c) ==> type_head(t, i)
            == type_head(t, c)),
        t.kind(i) != "type_identifier"@ && t.kind(i) != "generic_type"@ && t.kind(i)
            != "scoped_type_identifier"@ && t.kind(i) != "array_type"@ ==> type_head(t, i) is None,
{
    lemma_type_kinds();
}

/// A type that names nothing has no head name: one with arguments and no base, a qualified one without a
/// name, an array without an element.
pub proof fn type_that_names_nothing_has_no_head(t: TreeView, i: int)
    requires
        ({
            ||| t.kind(i) == "generic_type"@ && t.field_child(i, "type"@) is None && forall|d: int|
                0 <= d < t.len() && #[trigger] t.parent(d) == Some(i) && t.rows[d].named ==> t.kind(d)
                    != "type_identifier"@ && t.kind(d) != "scoped_type_identifier"@
            ||| t.kind(i) == "scoped_type_identifier"@ && t.field_text(i, "name"@) is None && forall|
                d: int,
            |
                0 <= d < t.len() && #[trigger] t.parent(d) == Some(i) && t.rows[d].named ==> t.kind(d)
                    != "type_identifier"@
            ||| t.kind(i) == "array_type"@ && t.field_child(i, "element"@) is None
        }),
    ensures
        type_head(t, i) is None,
{
    lemma_type_kinds();
    let named = t.named_children(i);
    named_children_are_the_named_nodes_of_that_parent(t, i);
    assert forall|j: int| 0 <= j < named.len() implies 0 <= #[trigger] named[j] < t.len() && t.parent(
        named[j],
    ) == Some(i) && t.rows[named[j]].named by {
        assert(named.contains(named[j]));
    }
    if t.kind(i) == "generic_type"@ {
        lemma_no_type_name(t, named);
    } else if t.kind(i) == "scoped_type_identifier"@ {
        lemma_none_of_kind(t, named, "type_identifier"@);
    }
}

proof fn lemma_no_type_name(t: TreeView, nodes: Seq<int>)
    requires
        forall|j: int|
            0 <= j < nodes.len() ==> t.kind(#[trigger] nodes[j]) != "type_identifier"@ && t.kind(
                nodes[j],
            ) != "scoped_type_identifier"@,
    ensures
        first_type_name(t, nodes) is None,
    decreases nodes.len(),
{
    if nodes.len() > 0 {
        let rest = nodes.skip(1);
        assert forall|j: int| 0 <= j < rest.len() implies t.kind(#[trigger] rest[j])
            != "type_identifier"@ && t.kind(rest[j]) != "scoped_type_identifier"@ by {
            assert(rest[j] == nodes[j + 1]);
        }
        lemma_no_type_name(t, rest);
    }
}

proof fn lemma_none_of_kind(t: TreeView, nodes: Seq<int>, kind: Seq<char>)
    requires
        forall|j: int| 0 <= j < nodes.len() ==> t.kind(#[trigger] nodes[j]) != kind,
    ensures
        last_of_kind(t, nodes, kind) is None,
    decreases nodes.len(),
{
    if nodes.len() > 0 {
        let rest = nodes.drop_last();
        assert(t.kind(nodes[nodes.len() - 1]) != kind);
        assert forall|j: int| 0 <= j < rest.len() implies t.kind(#[trigger] rest[j]) != kind by {
            assert(rest[j] == nodes[j]);
        }
        lemma_none_of_kind(t, rest, kind);
    }
}

proof fn lemma_heads_of_children(t: TreeView, i: int, n: int)
    requires
        0 <= n <= t.named_children(i).len(),
    ensures
        type_heads_of_children(t, i, n) == t.named_children(i).take(n).map_values(
            |c: int| type_heads(t, c),
        ).flatten(),
    decreases n,
{
    let named = t.named_children(i);
    let heads = |c: int| type_heads(t, c);
    if n == 0 {
        assert(named.take(0).map_values(heads) =~= Seq::empty());
    } else {
        lemma_heads_of_children(t, i, n - 1);
        let before = named.take(n - 1).map_values(heads);
        assert(named.take(n).map_values(heads) =~= before.push(heads(named[n - 1])));
        before.lemma_flatten_push(heads(named[n - 1]));
    }
}

/// A type stands for its own head name alone, and any other node for all that its named children stand
/// for, one after the other.
pub proof fn node_stands_for_the_types_below_it(t: TreeView, i: int)
    ensures
        t.kind(i) == "type_identifier"@ || t.kind(i) == "generic_type"@ || t.kind(i)
            == "scoped_type_identifier"@ || t.kind(i) == "array_type"@ ==> (match type_head(t, i) {
            Some(name) => type_heads(t, i) == seq![name],
            None => type_heads(t, i).len() == 0,
        }),
        t.kind(i) != "type_identifier"@ && t.kind(i) != "generic_type"@ && t.kind(i)
            != "scoped_type_identifier"@ && t.kind(i) != "array_type"@ ==> type_heads(t, i)
            == t.named_children(i).map_values(|c: int| type_heads(t, c)).flatten(),
{
    let named = t.named_children(i);
    lemma_heads_of_children(t, i, named.len() as int);
    assert(named.take(named.len() as int) =~= named);
}

/// Each type named directly below a node that is no type itself is among those the node stands for,
/// wherever it stands.
pub proof fn type_directly_below_counts(t: TreeView, i: int, c: int, name: Seq<char>)
    requires
        t.kind(i) != "type_identifier"@,
        t.kind(i) != "generic_type"@,
        t.kind(i) != "scoped_type_identifier"@,
        t.kind(i) != "array_type"@,
        0 <= c < t.len(),
        t.parent(c) == Some(i),
        t.rows[c].named,
        type_heads(t, c).contains(name),
    ensures
        type_heads(t, i).contains(name),
{
    let named = t.named_children(i);
    named_children_are_the_named_nodes_of_that_parent(t, i);
    assert(named.contains(c));
    let w = choose|w: int| 0 <= w < named.len() && named[w] == c;
    lemma_heads_hold(t, i, named.len() as int, w, name);
}

proof fn lemma_heads_hold(t: TreeView, i: int, n: int, w: int, name: Seq<char>)
    requires
        0 <= w < n <= t.named_children(i).len(),
        type_heads(t, t.named_children(i)[w]).contains(name),
    ensures
        type_heads_of_children(t, i, n).contains(name),
    decreases n,
{
    let before = type_heads_of_children(t, i, n - 1);
    let last = type_heads(t, t.named_children(i)[n - 1]);
    if w == n - 1 {
        let k = choose|k: int| 0 <= k < last.len() && last[k] == name;
        assert((before + last)[before.len() + k] == name);
    } else {
        lemma_heads_hold(t, i, n - 1, w, name);
        let k = choose|k: int| 0 <= k < before.len() && before[k] == name;
        assert((before + last)[k] == name);
    }
}

/// What a declared type extends and implements is what its superclass, its interfaces and its extended
/// interfaces stand for: all of that, and nothing else.
pub proof fn supertypes_are_all_that_a_type_extends_and_implements(
    t: TreeView,
    i: int,
    name: Seq<char>,
)
    ensures
        supertypes(t, i).contains(name) <==> {
            ||| t.field_child(i, "superclass"@) matches Some(c) && type_heads(t, c).contains(name)
            ||| t.field_child(i, "interfaces"@) matches Some(c) && type_heads(t, c).contains(name)
            ||| t.kind_child(i, "extends_interfaces"@) matches Some(c) && type_heads(t, c).contains(
                name,
            )
        },
{
    let a = match t.field_child(i, "superclass"@) {
        Some(c) => type_heads(t, c),
        None => Seq::empty(),
    };
    let b = match t.field_child(i, "interfaces"@) {
        Some(c) => type_heads(t, c),
        None => Seq::empty(),
    };
    let d = match t.kind_child(i, "extends_interfaces"@) {
        Some(c) => type_heads(t, c),
        None => Seq::empty(),
    };
    let all = supertypes(t, i);
    assert(all =~= a + b + d);
    if a.contains(name) {
        let k = choose|k: int| 0 <= k < a.len() && a[k] == name;
        assert(all[k] == name);
    }
    if b.contains(name) {
        let k = choose|k: int| 0 <= k < b.len() && b[k] == name;
        assert(all[a.len() + k] == name);
    }
    if d.contains(name) {
        let k = choose|k: int| 0 <= k < d.len() && d[k] == name;
        assert(all[a.len() + b.len() + k] == name);
    }
    if all.contains(name) {
        let k = choose|k: int| 0 <= k < all.len() && all[k] == name;
        if k < a.len() {
            assert(a[k] == name);
        } else if k < a.len() + b.len() {
            assert(b[k - a.len()] == name);
        } else {
            assert(d[k - a.len() - b.len()] == name);
        }
    }
}

/// An `impl` block is for the head name of the type in its field `type`, and for none without one.
pub proof fn impl_block_is_for_the_type_it_names(t: TreeView, i: int)
    ensures
        t.field_child(i, "type"@) matches Some(c) ==> impl_type(t, i) == type_head(t, c),
        t.field_child(i, "type"@) is None ==> impl_type(t, i) is None,
{
}

// -------------------------------------------------------------------------------------------------
// Called expressions
// -------------------------------------------------------------------------------------------------
proof fn lemma_callee_kinds()
    ensures
        "identifier"@.len() == 10,
        "type_identifier"@.len() == 15,
        "scoped_identifier"@.len() == 17,
        "field_identifier"@ != "field_expression"@,
        "field_identifier"@ != "generic_function"@,
        "field_expression"@ != "generic_function"@,
        "field_identifier"@.len() == 16,
        "field_expression"@.len() == 16,
        "generic_function"@.len() == 16,
{
    reveal_strlit("identifier");
    reveal_strlit("type_identifier");
    reveal_strlit("scoped_identifier");
    reveal_strlit("field_identifier");
    reveal_strlit("field_expression");
    reveal_strlit("generic_function");
    assert("field_identifier"@[6] == 'i');
    assert("field_expression"@[6] == 'e');
    assert("generic_function"@[0] == 'g');
    assert("field_identifier"@[0] == 'f');
    assert("field_expression"@[0] == 'f');
}

/// A call by a plain name calls that name and qualifies it by nothing.
pub proof fn plain_name_calls_itself(t: TreeView, i: int, name: Seq<char>)
    requires
        t.kind(i) == "identifier"@ || t.kind(i) == "field_identifier"@ || t.kind(i)
            == "type_identifier"@,
        t.text(i) == Some(name),
    ensures
        callee(t, i) is Some,
        (callee(t, i)->0).name == name,
        (callee(t, i)->0).qualifier is None,
{
}

/// A call by a path calls the path's last part, and qualifies it by the last part of what stands before.
pub proof fn path_calls_its_last_part(t: TreeView, i: int, name: Seq<char>)
    requires
        t.kind(i) == "scoped_identifier"@,
        t.field_text(i, "name"@) == Some(name),
    ensures
        callee(t, i) is Some,
        (callee(t, i)->0).name == name,
        t.field_child(i, "path"@) matches Some(p) ==> t.kind(p) == "scoped_identifier"@ ==> (callee(
            t,
            i,
        )->0).qualifier == t.field_text(p, "name"@),
        t.field_child(i, "path"@) matches Some(p) ==> t.kind(p) != "scoped_identifier"@ ==> (callee(
            t,
            i,
        )->0).qualifier == t.text(p),
        t.field_child(i, "path"@) is None ==> (callee(t, i)->0).qualifier is None,
{
    lemma_callee_kinds();
}

/// A call by a field access calls what its field names, one of an instantiated generic function what the
/// function names, and one of any other expression nothing.
pub proof fn nested_callee_is_found(t: TreeView, i: int)
    ensures
        t.kind(i) == "field_expression"@ ==> (t.field_child(i, "field"@) matches Some(c) ==> callee(t, i)
            == callee(t, c)),
        t.kind(i) == "generic_function"@ ==> (t.field_child(i, "function"@) matches Some(c) ==> callee(
            t,
            i,
        ) == callee(t, c)),
        t.kind(i) != "identifier"@ && t.kind(i) != "field_identifier"@ && t.kind(i)
            != "type_identifier"@ && t.kind(i) != "scoped_identifier"@ && t.kind(i)
            != "field_expression"@ && t.kind(i) != "generic_function"@ ==> callee(t, i) is None,
{
    lemma_callee_kinds();
}

/// A call expression calls what its field `function` names.
pub proof fn call_calls_its_function(t: TreeView, i: int)
    ensures
        t.field_child(i, "function"@) matches Some(c) ==> called(t, i) == callee(t, c),
        t.field_child(i, "function"@) is None ==> called(t, i) is None,
{
}

/// The last part of a path is the text of its field `name`; what is no path is its own last part.
pub proof fn last_part_of_a_path(t: TreeView, i: int)
    ensures
        t.kind(i) == "scoped_identifier"@ ==> path_end(t, i) == t.field_text(i, "name"@),
        t.kind(i) != "scoped_identifier"@ ==> path_end(t, i) == t.text(i),
{
}

// -------------------------------------------------------------------------------------------------
// Scopes
// -------------------------------------------------------------------------------------------------
proof fn lemma_scope_kinds()
    ensures
        "block"@.len() == 5,
        "class_body"@.len() == 10,
        "interface_body"@.len() == 14,
        "constructor_body"@.len() == 16,
        "enum_body"@.len() == 9,
        "method_declaration"@.len() == 18,
        "constructor_declaration"@.len() == 23,
        "enhanced_for_statement"@.len() == 22,
        "catch_clause"@.len() == 12,
{
    reveal_strlit("block");
    reveal_strlit("class_body");
    reveal_strlit("interface_body");
    reveal_strlit("constructor_body");
    reveal_strlit("enum_body");
    reveal_strlit("method_declaration");
    reveal_strlit("constructor_declaration");
    reveal_strlit("enhanced_for_statement");
    reveal_strlit("catch_clause");
}

proof fn lemma_parameter_at(t: TreeView, nodes: Seq<int>, name: Seq<char>, w: int)
    requires
        0 <= w < nodes.len(),
        t.kind(nodes[w]) == "formal_parameter"@ && t.field_text(nodes[w], "name"@) == Some(name),
        forall|j: int|
            0 <= j < w ==> !(t.kind(#[trigger] nodes[j]) == "formal_parameter"@ && t.field_text(
                nodes[j],
                "name"@,
            ) == Some(name)),
    ensures
        parameter_among(t, nodes, name) == Some(nodes[w]),
    decreases w,
{
    if w > 0 {
        let rest = nodes.skip(1);
        assert forall|j: int| 0 <= j < w - 1 implies !(t.kind(#[trigger] rest[j])
            == "formal_parameter"@ && t.field_text(rest[j], "name"@) == Some(name)) by {
            assert(rest[j] == nodes[j + 1]);
        }
        lemma_parameter_at(t, rest, name, w - 1);
    }
}

proof fn lemma_no_parameter(t: TreeView, nodes: Seq<int>, name: Seq<char>)
    requires
        forall|j: int|
            0 <= j < nodes.len() ==> !(t.kind(#[trigger] nodes[j]) == "formal_parameter"@
                && t.field_text(nodes[j], "name"@) == Some(name)),
    ensures
        parameter_among(t, nodes, name) is None,
    decreases nodes.len(),
{
    if nodes.len() > 0 {
        let rest = nodes.skip(1);
        assert forall|j: int| 0 <= j < rest.len() implies !(t.kind(#[trigger] rest[j])
            == "formal_parameter"@ && t.field_text(rest[j], "name"@) == Some(name)) by {
            assert(rest[j] == nodes[j + 1]);
        }
        lemma_no_parameter(t, rest, name);
    }
}

/// A method or constructor binds the name of each of its parameters, and gives it the head name of the
/// type in that parameter's own field `type`, wherever the parameter stands in the list. A name that two
/// share is that of the first.
pub proof fn parameter_is_bound_by_its_own_type(
    t: TreeView,
    i: int,
    list: int,
    p: int,
    name: Seq<char>,
)
    requires
        t.kind(i) == "method_declaration"@ || t.kind(i) == "constructor_declaration"@,
        t.field_child(i, "parameters"@) == Some(list),
        0 <= p < t.len(),
        t.parent(p) == Some(list),
        t.kind(p) == "formal_parameter"@,
        t.field_text(p, "name"@) == Some(name),
        forall|d: int|
            0 <= d < p && #[trigger] t.parent(d) == Some(list) && t.kind(d) == "formal_parameter"@
                ==> t.field_text(d, "name"@) != Some(name),
    ensures
        bound_in(t, i, name) is Some,
        t.field_child(p, "type"@) matches Some(ty) ==> (bound_in(t, i, name)->0).declared == type_head(
            t,
            ty,
        ),
        t.field_child(p, "type"@) is None ==> (bound_in(t, i, name)->0).declared is None,
{
    lemma_scope_kinds();
    let kids = t.children(list);
    children_are_the_nodes_of_that_parent(t, list);
    assert(kids.contains(p));
    let w = choose|w: int| 0 <= w < kids.len() && kids[w] == p;
    assert forall|j: int| 0 <= j < w implies !(t.kind(#[trigger] kids[j]) == "formal_parameter"@
        && t.field_text(kids[j], "name"@) == Some(name)) by {
        assert(kids[j] < kids[w]);
        assert(kids.contains(kids[j]));
    }
    lemma_parameter_at(t, kids, name, w);
}

/// A method or constructor binds no name but those of its parameters.
pub proof fn only_parameters_are_bound(t: TreeView, i: int, name: Seq<char>)
    requires
        t.kind(i) == "method_declaration"@ || t.kind(i) == "constructor_declaration"@,
        t.field_child(i, "parameters"@) matches Some(list) ==> forall|d: int|
            0 <= d < t.len() && #[trigger] t.parent(d) == Some(list) && t.kind(d)
                == "formal_parameter"@ ==> t.field_text(d, "name"@) != Some(name),
    ensures
        bound_in(t, i, name) is None,
{
    lemma_scope_kinds();
    if let Some(list) = t.field_child(i, "parameters"@) {
        let kids = t.children(list);
        children_are_the_nodes_of_that_parent(t, list);
        assert forall|j: int| 0 <= j < kids.len() implies !(t.kind(#[trigger] kids[j])
            == "formal_parameter"@ && t.field_text(kids[j], "name"@) == Some(name)) by {
            assert(kids.contains(kids[j]));
        }
        lemma_no_parameter(t, kids, name);
    }
}

/// Whether node `d` is a declaration of a local variable or a field that declares `name`, with whichever
/// of its declarators.
pub open spec fn is_declaration_of(t: TreeView, d: int, name: Seq<char>) -> bool {
    &&& t.kind(d) == "local_variable_declaration"@ || t.kind(d) == "field_declaration"@
    &&& exists|v: int|
        0 <= v < t.len() && #[trigger] t.parent(v) == Some(d) && t.rows[v].field == Some(
            "declarator"@,
        ) && t.field_text(v, "name"@) == Some(name)
}

proof fn lemma_declares(t: TreeView, d: int, name: Seq<char>)
    ensures
        is_declaration_of(t, d, name) <==> (t.kind(d) == "local_variable_declaration"@ || t.kind(d)
            == "field_declaration"@) && declares(t, d, name),
{
    let kids = t.children(d);
    children_are_the_nodes_of_that_parent(t, d);
    if declares(t, d, name) {
        let k = choose|k: int|
            0 <= k < kids.len() && t.rows[#[trigger] kids[k]].field == Some("declarator"@)
                && t.field_text(kids[k], "name"@) == Some(name);
        assert(kids.contains(kids[k]));
        assert(t.parent(kids[k]) == Some(d));
    }
    if is_declaration_of(t, d, name) {
        let v = choose|v: int|
            0 <= v < t.len() && #[trigger] t.parent(v) == Some(d) && t.rows[v].field == Some(
                "declarator"@,
            ) && t.field_text(v, "name"@) == Some(name);
        assert(kids.contains(v));
        let k = choose|k: int| 0 <= k < kids.len() && kids[k] == v;
        assert(t.rows[kids[k]].field == Some("declarator"@));
    }
}

proof fn lemma_declaration_at(t: TreeView, nodes: Seq<int>, name: Seq<char>, w: int)
    requires
        0 <= w < nodes.len(),
        is_declaration_of(t, nodes[w], name),
        forall|j: int| 0 <= j < w ==> !is_declaration_of(t, #[trigger] nodes[j], name),
    ensures
        declaration_among(t, nodes, name) == Some(nodes[w]),
    decreases w,
{
    lemma_declares(t, nodes[0], name);
    if w > 0 {
        let rest = nodes.skip(1);
        assert(!is_declaration_of(t, nodes[0], name));
        assert forall|j: int| 0 <= j < w - 1 implies !is_declaration_of(t, #[trigger] rest[j], name) by {
            assert(rest[j] == nodes[j + 1]);
        }
        lemma_declaration_at(t, rest, name, w - 1);
    }
}

proof fn lemma_no_declaration(t: TreeView, nodes: Seq<int>, name: Seq<char>)
    requires
        forall|j: int| 0 <= j < nodes.len() ==> !is_declaration_of(t, #[trigger] nodes[j], name),
    ensures
        declaration_among(t, nodes, name) is None,
    decreases nodes.len(),
{
    if nodes.len() > 0 {
        lemma_declares(t, nodes[0], name);
        let rest = nodes.skip(1);
        assert(!is_declaration_of(t, nodes[0], name));
        assert forall|j: int| 0 <= j < rest.len() implies !is_declaration_of(
            t,
            #[trigger] rest[j],
            name,
        ) by {
            assert(rest[j] == nodes[j + 1]);
        }
        lemma_no_declaration(t, rest, name);
    }
}

/// A block or the body of a type binds each name that a declaration directly inside declares, with
/// whichever of its declarators, and gives it the head name of the type in that declaration's own field
/// `type`. A name that two declare is that of the first.
pub proof fn declared_name_is_bound_by_its_own_type(
    t: TreeView,
    i: int,
    d: int,
    v: int,
    name: Seq<char>,
)
    requires
        t.kind(i) == "block"@ || t.kind(i) == "class_body"@ || t.kind(i) == "interface_body"@ || t.kind(
            i,
        ) == "constructor_body"@ || t.kind(i) == "enum_body"@,
        0 <= d < t.len(),
        t.parent(d) == Some(i),
        t.kind(d) == "local_variable_declaration"@ || t.kind(d) == "field_declaration"@,
        0 <= v < t.len(),
        t.parent(v) == Some(d),
        t.rows[v].field == Some("declarator"@),
        t.field_text(v, "name"@) == Some(name),
        forall|e: int|
            0 <= e < d && #[trigger] t.parent(e) == Some(i) ==> !is_declaration_of(t, e, name),
    ensures
        bound_in(t, i, name) is Some,
        t.field_child(d, "type"@) matches Some(ty) ==> (bound_in(t, i, name)->0).declared == type_head(
            t,
            ty,
        ),
        t.field_child(d, "type"@) is None ==> (bound_in(t, i, name)->0).declared is None,
{
    let kids = t.children(i);
    children_are_the_nodes_of_that_parent(t, i);
    assert(kids.contains(d));
    let w = choose|w: int| 0 <= w < kids.len() && kids[w] == d;
    assert(is_declaration_of(t, d, name));
    assert forall|j: int| 0 <= j < w implies !is_declaration_of(t, #[trigger] kids[j], name) by {
        assert(kids[j] < kids[w]);
        assert(kids.contains(kids[j]));
        assert(t.parent(kids[j]) == Some(i));
    }
    lemma_declaration_at(t, kids, name, w);
}

/// A block or the body of a type binds no name but those that a declaration directly inside declares.
pub proof fn only_declared_names_are_bound(t: TreeView, i: int, name: Seq<char>)
    requires
        t.kind(i) == "block"@ || t.kind(i) == "class_body"@ || t.kind(i) == "interface_body"@ || t.kind(
            i,
        ) == "constructor_body"@ || t.kind(i) == "enum_body"@,
        forall|e: int|
            0 <= e < t.len() && #[trigger] t.parent(e) == Some(i) ==> !is_declaration_of(t, e, name),
    ensures
        bound_in(t, i, name) is None,
{
    let kids = t.children(i);
    children_are_the_nodes_of_that_parent(t, i);
    assert forall|j: int| 0 <= j < kids.len() implies !is_declaration_of(
        t,
        #[trigger] kids[j],
        name,
    ) by {
        assert(kids.contains(kids[j]));
        assert(t.parent(kids[j]) == Some(i));
    }
    lemma_no_declaration(t, kids, name);
}

/// A for-each loop binds its variable by the head name of the type in its field `type`, and nothing
/// else.
pub proof fn loop_binds_its_variable(t: TreeView, i: int, name: Seq<char>)
    requires
        t.kind(i) == "enhanced_for_statement"@,
    ensures
        bound_in(t, i, name) is Some <==> t.field_text(i, "name"@) == Some(name),
        t.field_text(i, "name"@) == Some(name) ==> (t.field_child(i, "type"@) matches Some(ty) ==> (
        bound_in(t, i, name)->0).declared == type_head(t, ty)),
        t.field_text(i, "name"@) == Some(name) && t.field_child(i, "type"@) is None ==> (bound_in(
            t,
            i,
            name,
        )->0).declared is None,
{
    lemma_scope_kinds();
}

/// A catch clause binds its parameter by the head name of the one type it catches, by none where it
/// catches several, and binds nothing else.
pub proof fn catch_clause_binds_its_parameter(t: TreeView, i: int, param: int, name: Seq<char>)
    requires
        t.kind(i) == "catch_clause"@,
        t.kind_child(i, "catch_formal_parameter"@) == Some(param),
    ensures
        bound_in(t, i, name) is Some <==> t.field_text(param, "name"@) == Some(name),
        t.field_text(param, "name"@) == Some(name) ==> (t.kind_child(param, "catch_type"@) matches Some(
            ty,
        ) ==> t.named_children(ty).len() == 1 ==> (bound_in(t, i, name)->0).declared == type_head(
            t,
            t.named_children(ty)[0],
        )),
        t.field_text(param, "name"@) == Some(name) ==> (t.kind_child(param, "catch_type"@) matches Some(
            ty,
        ) ==> t.named_children(ty).len() != 1 ==> (bound_in(t, i, name)->0).declared is None),
{
    lemma_scope_kinds();
}

/// A catch clause without a parameter binds nothing, and a parameter without a type is of none.
pub proof fn catch_clause_without_parameter_or_type(t: TreeView, i: int, name: Seq<char>)
    requires
        t.kind(i) == "catch_clause"@,
    ensures
        t.kind_child(i, "catch_formal_parameter"@) is None ==> bound_in(t, i, name) is None,
        t.kind_child(i, "catch_formal_parameter"@) matches Some(param) ==> t.kind_child(
            param,
            "catch_type"@,
        ) is None && bound_in(t, i, name) is Some ==> (bound_in(t, i, name)->0).declared is None,
{
    lemma_scope_kinds();
}

/// No other node binds a name.
pub proof fn other_nodes_bind_nothing(t: TreeView, i: int, name: Seq<char>)
    requires
        t.kind(i) != "block"@,
        t.kind(i) != "class_body"@,
        t.kind(i) != "interface_body"@,
        t.kind(i) != "constructor_body"@,
        t.kind(i) != "enum_body"@,
        t.kind(i) != "method_declaration"@,
        t.kind(i) != "constructor_declaration"@,
        t.kind(i) != "enhanced_for_statement"@,
        t.kind(i) != "catch_clause"@,
    ensures
        bound_in(t, i, name) is None,
{
}

/// The innermost node around a use that binds a name decides the name's type: every node below it that
/// lies around the use, and binds nothing, is passed over.
pub proof fn innermost_scope_around_a_use_decides(t: TreeView, u: int, s: int, name: Seq<char>)
    requires
        0 <= s < u,
        forall|m: int| s < m <= u ==> (#[trigger] t.rows[m]).depth > t.rows[s].depth,
        bound_in(t, s, name) is Some,
        forall|k: int|
            s < k < u && (forall|m: int| k < m <= u ==> (#[trigger] t.rows[m]).depth > t.rows[k].depth)
                ==> (#[trigger] bound_in(t, k, name)) is None,
    ensures
        declared_type(t, u, name) == (bound_in(t, s, name)->0).declared,
    decreases u,
{
    let p = lemma_parent_below(t, u, s);
    if p > s {
        assert(bound_in(t, p, name) is None);
        assert forall|k: int|
            s < k < p && (forall|m: int| k < m <= p ==> (#[trigger] t.rows[m]).depth
                > t.rows[k].depth) implies (#[trigger] bound_in(t, k, name)) is None by {
            assert(t.rows[p].depth > t.rows[k].depth);
        }
        innermost_scope_around_a_use_decides(t, p, s, name);
    }
}

/// The parent of a node below `s` is `s` or lies below it.
proof fn lemma_parent_below(t: TreeView, u: int, s: int) -> (p: int)
    requires
        0 <= s < u,
        forall|m: int| s < m <= u ==> (#[trigger] t.rows[m]).depth > t.rows[s].depth,
    ensures
        t.parent(u) == Some(p),
        s <= p < u,
        forall|m: int| p < m <= u ==> (#[trigger] t.rows[m]).depth > t.rows[p].depth,
{
    assert(t.rows[u].depth > t.rows[s].depth);
    if t.parent(u) is None {
        lemma_no_parent(t, u, s);
    }
    let p = t.parent(u)->0;
    parent_is_the_nearest_node_less_deep(t, u, p);
    p
}

proof fn lemma_no_parent(t: TreeView, u: int, s: int)
    requires
        0 <= s < u,
        t.rows[s].depth < t.rows[u].depth,
    ensures
        t.parent(u) is Some,
    decreases u - s,
{
    if forall|k: int| s < k < u ==> (#[trigger] t.rows[k]).depth >= t.rows[u].depth {
        parent_is_the_nearest_node_less_deep(t, u, s);
    } else {
        let k = choose|k: int| s < k < u && (#[trigger] t.rows[k]).depth < t.rows[u].depth;
        lemma_no_parent(t, u, k);
    }
}

/// A name that no node around a use binds has no type there.
pub proof fn name_that_no_scope_binds_has_no_type(t: TreeView, u: int, name: Seq<char>)
    requires
        forall|k: int|
            0 <= k < u && (forall|m: int| k < m <= u ==> (#[trigger] t.rows[m]).depth > t.rows[k].depth)
                ==> (#[trigger] bound_in(t, k, name)) is None,
    ensures
        declared_type(t, u, name) is None,
    decreases u,
{
    lemma_parent(t, u);
    if let Some(p) = t.parent(u) {
        parent_is_the_nearest_node_less_deep(t, u, p);
        assert(bound_in(t, p, name) is None);
        assert forall|k: int|
            0 <= k < p && (forall|m: int| k < m <= p ==> (#[trigger] t.rows[m]).depth
                > t.rows[k].depth) implies (#[trigger] bound_in(t, k, name)) is None by {
            assert(t.rows[p].depth > t.rows[k].depth);
        }
        name_that_no_scope_binds_has_no_type(t, p, name);
    }
}

// -------------------------------------------------------------------------------------------------
// Qualifiers
// -------------------------------------------------------------------------------------------------
/// A name reads as a type exactly where its first character is an upper case letter.
pub proof fn name_reads_as_a_type_by_its_first_character(name: Seq<char>)
    ensures
        name.len() == 0 ==> !type_like(name),
        name.len() > 0 && name[0] <= '\u{7f}' ==> (type_like(name) <==> 'A' <= name[0] && name[0]
            <= 'Z'),
        name.len() > 0 && name[0] > '\u{7f}' ==> (type_like(name) <==> uppercase_beyond_ascii(name[0])),
{
}

/// A method called on a variable is qualified by the type the variable is declared with there; on a name
/// without a declared type by that name where it reads as a type, and else by nothing.
pub proof fn call_on_a_name_is_qualified_by_its_type(
    t: TreeView,
    i: int,
    access: int,
    object: int,
    name: Seq<char>,
)
    requires
        t.parent(i) == Some(access),
        t.kind(access) == "member_expression"@ || t.kind(access) == "attribute"@ || t.kind(access)
            == "method_invocation"@,
        t.field_child(access, "object"@) == Some(object),
        t.kind(object) == "identifier"@,
        t.text(object) == Some(name),
        name != "self"@ && name != "cls"@ && name != "this"@ && name != "super"@,
    ensures
        declared_type(t, object, name) is Some ==> call_qualifier(t, i) == declared_type(
            t,
            object,
            name,
        ),
        declared_type(t, object, name) is None && type_like(name) ==> call_qualifier(t, i) == Some(name),
        declared_type(t, object, name) is None && !type_like(name) ==> call_qualifier(t, i) is None,
{
}

/// A call is qualified by nothing where it is made on the enclosing object or its superclass, on anything
/// but a plain name, on nothing at all, or is no access to a member.
pub proof fn call_on_no_name_is_not_qualified(t: TreeView, i: int)
    requires
        t.parent(i) matches Some(access) ==> {
            ||| t.kind(access) != "member_expression"@ && t.kind(access) != "attribute"@ && t.kind(
                access,
            ) != "method_invocation"@
            ||| t.field_child(access, "object"@) is None
            ||| t.field_child(access, "object"@) matches Some(object) && (t.kind(object)
                != "identifier"@ || t.text(object) is None || t.text(object) == Some("self"@) || t.text(
                object,
            ) == Some("cls"@) || t.text(object) == Some("this"@) || t.text(object) == Some("super"@))
        },
    ensures
        call_qualifier(t, i) is None,
{
}

/// A method called on a parameter is qualified by the head name of the type in that parameter's own field
/// `type`, wherever the parameter stands in the list, where nothing between the call and the method binds
/// its name.
pub proof fn call_on_a_parameter_is_qualified_by_its_type(
    t: TreeView,
    i: int,
    access: int,
    object: int,
    name: Seq<char>,
    method: int,
    list: int,
    p: int,
    ty: int,
)
    requires
        t.parent(i) == Some(access),
        t.kind(access) == "member_expression"@ || t.kind(access) == "attribute"@ || t.kind(access)
            == "method_invocation"@,
        t.field_child(access, "object"@) == Some(object),
        t.kind(object) == "identifier"@,
        t.text(object) == Some(name),
        name != "self"@ && name != "cls"@ && name != "this"@ && name != "super"@,
        t.kind(method) == "method_declaration"@ || t.kind(method) == "constructor_declaration"@,
        0 <= method < object,
        forall|m: int| method < m <= object ==> (#[trigger] t.rows[m]).depth > t.rows[method].depth,
        forall|k: int|
            method < k < object && (forall|m: int|
                k < m <= object ==> (#[trigger] t.rows[m]).depth > t.rows[k].depth) ==> (
            #[trigger] bound_in(t, k, name)) is None,
        t.field_child(method, "parameters"@) == Some(list),
        0 <= p < t.len(),
        t.parent(p) == Some(list),
        t.kind(p) == "formal_parameter"@,
        t.field_text(p, "name"@) == Some(name),
        forall|d: int|
            0 <= d < p && #[trigger] t.parent(d) == Some(list) && t.kind(d) == "formal_parameter"@
                ==> t.field_text(d, "name"@) != Some(name),
        t.field_child(p, "type"@) == Some(ty),
        type_head(t, ty) is Some,
    ensures
        call_qualifier(t, i) == type_head(t, ty),
{
    parameter_is_bound_by_its_own_type(t, method, list, p, name);
    innermost_scope_around_a_use_decides(t, object, method, name);
    call_on_a_name_is_qualified_by_its_type(t, i, access, object, name);
}

/// A method called on a field or a local variable is qualified by the head name of the type in the field
/// `type` of its declaration, where nothing between the call and the body that declares it binds its name.
pub proof fn call_on_a_declared_name_is_qualified_by_its_type(
    t: TreeView,
    i: int,
    access: int,
    object: int,
    name: Seq<char>,
    body: int,
    d: int,
    v: int,
    ty: int,
)
    requires
        t.parent(i) == Some(access),
        t.kind(access) == "member_expression"@ || t.kind(access) == "attribute"@ || t.kind(access)
            == "method_invocation"@,
        t.field_child(access, "object"@) == Some(object),
        t.kind(object) == "identifier"@,
        t.text(object) == Some(name),
        name != "self"@ && name != "cls"@ && name != "this"@ && name != "super"@,
        t.kind(body) == "block"@ || t.kind(body) == "class_body"@ || t.kind(body) == "interface_body"@
            || t.kind(body) == "constructor_body"@ || t.kind(body) == "enum_body"@,
        0 <= body < object,
        forall|m: int| body < m <= object ==> (#[trigger] t.rows[m]).depth > t.rows[body].depth,
        forall|k: int|
            body < k < object && (forall|m: int|
                k < m <= object ==> (#[trigger] t.rows[m]).depth > t.rows[k].depth) ==> (
            #[trigger] bound_in(t, k, name)) is None,
        0 <= d < t.len(),
        t.parent(d) == Some(body),
        t.kind(d) == "local_variable_declaration"@ || t.kind(d) == "field_declaration"@,
        0 <= v < t.len(),
        t.parent(v) == Some(d),
        t.rows[v].field == Some("declarator"@),
        t.field_text(v, "name"@) == Some(name),
        forall|e: int|
            0 <= e < d && #[trigger] t.parent(e) == Some(body) ==> !is_declaration_of(t, e, name),
        t.field_child(d, "type"@) == Some(ty),
        type_head(t, ty) is Some,
    ensures
        call_qualifier(t, i) == type_head(t, ty),
{
    declared_name_is_bound_by_its_own_type(t, body, d, v, name);
    innermost_scope_around_a_use_decides(t, object, body, name);
    call_on_a_name_is_qualified_by_its_type(t, i, access, object, name);
}

} // verus!
