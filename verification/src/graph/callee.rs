//! What a call names, and the type its receiver is known by.
use crate::syntax::{
    lemma_field_child, lemma_named_children, lemma_parent, same_indices,
    SyntaxTree, TreeView,
};
use crate::text::{opt_text, same, texts};
use vstd::prelude::*;
use vstd::string::*;

verus! {

// -------------------------------------------------------------------------------------------------
// Type names
// -------------------------------------------------------------------------------------------------
/// The first of `nodes` that is a plain or a qualified type name.
pub open spec fn first_type_name(t: TreeView, nodes: Seq<int>) -> Option<int>
    decreases nodes.len(),
{
    if nodes.len() == 0 {
        None
    } else if t.kind(nodes[0]) == "type_identifier"@ || t.kind(nodes[0])
        == "scoped_type_identifier"@ {
        Some(nodes[0])
    } else {
        first_type_name(t, nodes.skip(1))
    }
}

/// The last of `nodes` that is of kind `kind`.
pub open spec fn last_of_kind(t: TreeView, nodes: Seq<int>, kind: Seq<char>) -> Option<int>
    decreases nodes.len(),
{
    if nodes.len() == 0 {
        None
    } else if t.kind(nodes.last()) == kind {
        Some(nodes.last())
    } else {
        last_of_kind(t, nodes.drop_last(), kind)
    }
}

/// The first type name among nodes is one of them.
pub proof fn lemma_first_type_name(t: TreeView, nodes: Seq<int>)
    ensures
        first_type_name(t, nodes) matches Some(c) ==> nodes.contains(c),
    decreases nodes.len(),
{
    if nodes.len() > 0 {
        lemma_first_type_name(t, nodes.skip(1));
        assert(nodes.contains(nodes[0]));
        if let Some(c) = first_type_name(t, nodes.skip(1)) {
            let w = choose|w: int| 0 <= w < nodes.skip(1).len() && nodes.skip(1)[w] == c;
            assert(nodes[w + 1] == c);
        }
    }
}

/// The head name of a type: the name itself, the name behind type arguments, the last part of a
/// qualified name, or the head name of an array's element. Anything else has none.
pub open spec fn type_head(t: TreeView, i: int) -> Option<Seq<char>>
    decreases t.len() - i,
{
    proof {
        lemma_field_child(t, i, "type"@);
        lemma_field_child(t, i, "element"@);
        lemma_named_children(t, i);
        lemma_first_type_name(t, t.named_children(i));
    }
    if t.kind(i) == "type_identifier"@ {
        t.text(i)
    } else if t.kind(i) == "generic_type"@ {
        match t.field_child(i, "type"@) {
            Some(base) => type_head(t, base),
            None => match first_type_name(t, t.named_children(i)) {
                Some(c) => type_head(t, c),
                None => None,
            },
        }
    } else if t.kind(i) == "scoped_type_identifier"@ {
        match t.field_text(i, "name"@) {
            Some(name) => Some(name),
            None => match last_of_kind(t, t.named_children(i), "type_identifier"@) {
                Some(c) => t.text(c),
                None => None,
            },
        }
    } else if t.kind(i) == "array_type"@ {
        match t.field_child(i, "element"@) {
            Some(c) => type_head(t, c),
            None => None,
        }
    } else {
        None
    }
}

/// The head name of the type at `node`.
pub fn type_head_name(tree: &SyntaxTree<'_>, node: usize) -> (name: Option<String>)
    requires
        node < tree@.len(),
    ensures
        opt_text(name) == type_head(tree@, node as int),
    decreases tree@.len() - node,
{
    let ghost t = tree@;
    if tree.is_kind(node, "type_identifier") {
        tree.text(node)
    } else if tree.is_kind(node, "generic_type") {
        if let Some(base) = tree.field_child(node, "type") {
            return type_head_name(tree, base);
        }
        let named = tree.named_children(node);
        let ghost all = t.named_children(node as int);
        let mut k: usize = 0;
        assert(all.skip(0) =~= all);
        while k < named.len()
            invariant
                t == tree@,
                node < t.len(),
                k <= named@.len(),
                all == t.named_children(node as int),
                same_indices(named@, all),
                forall|j: int| 0 <= j < named@.len() ==> node < #[trigger] named@[j] < t.len(),
                first_type_name(t, all) == first_type_name(t, all.skip(k as int)),
                t.kind(node as int) == "generic_type"@,
                t.kind(node as int) != "type_identifier"@,
                t.field_child(node as int, "type"@) is None,
            decreases named.len() - k,
        {
            let c = named[k];
            assert(all.skip(k as int)[0] == all[k as int]);
            assert(all.skip(k as int).skip(1) =~= all.skip(k + 1));
            if tree.is_kind(c, "type_identifier") || tree.is_kind(c, "scoped_type_identifier") {
                return type_head_name(tree, c);
            }
            k = k + 1;
        }
        None
    } else if tree.is_kind(node, "scoped_type_identifier") {
        if let Some(name) = tree.field_text(node, "name") {
            return Some(name);
        }
        let named = tree.named_children(node);
        let ghost all = t.named_children(node as int);
        let mut k: usize = named.len();
        assert(all.take(k as int) =~= all);
        while k > 0
            invariant
                t == tree@,
                node < t.len(),
                k <= named@.len(),
                all == t.named_children(node as int),
                same_indices(named@, all),
                forall|j: int| 0 <= j < named@.len() ==> node < #[trigger] named@[j] < t.len(),
                last_of_kind(t, all, "type_identifier"@) == last_of_kind(
                    t,
                    all.take(k as int),
                    "type_identifier"@,
                ),
                t.kind(node as int) == "scoped_type_identifier"@,
                t.kind(node as int) != "generic_type"@,
                t.kind(node as int) != "type_identifier"@,
                t.field_text(node as int, "name"@) is None,
            decreases k,
        {
            let c = named[k - 1];
            assert(all.take(k as int).last() == all[k - 1]);
            assert(all.take(k as int).drop_last() =~= all.take(k - 1));
            if tree.is_kind(c, "type_identifier") {
                return tree.text(c);
            }
            k = k - 1;
        }
        None
    } else if tree.is_kind(node, "array_type") {
        match tree.field_child(node, "element") {
            Some(c) => type_head_name(tree, c),
            None => None,
        }
    } else {
        None
    }
}

/// The name of the type an `impl` block is for.
pub open spec fn impl_type(t: TreeView, i: int) -> Option<Seq<char>> {
    match t.field_child(i, "type"@) {
        Some(c) => type_head(t, c),
        None => None,
    }
}

/// The name of the type that the `impl` block at `node` is for.
pub fn impl_type_name(tree: &SyntaxTree<'_>, node: usize) -> (name: Option<String>)
    requires
        node < tree@.len(),
    ensures
        opt_text(name) == impl_type(tree@, node as int),
{
    match tree.field_child(node, "type") {
        Some(c) => type_head_name(tree, c),
        None => None,
    }
}

/// Whether a node of kind `kind` is a type on its own.
pub open spec fn is_type_kind(kind: Seq<char>) -> bool {
    kind == "type_identifier"@ || kind == "generic_type"@ || kind == "scoped_type_identifier"@ || kind
        == "array_type"@
}

/// The head names of the outermost types at and below node `i`, in document order. Types inside a
/// type, such as its arguments, do not count.
pub open spec fn type_heads(t: TreeView, i: int) -> Seq<Seq<char>>
    decreases t.len() - i, t.named_children(i).len() + 1,
{
    if is_type_kind(t.kind(i)) {
        match type_head(t, i) {
            Some(name) => seq![name],
            None => Seq::empty(),
        }
    } else {
        type_heads_of_children(t, i, t.named_children(i).len() as int)
    }
}

/// The head names of the outermost types at and below the first `n` named children of node `i`.
pub open spec fn type_heads_of_children(t: TreeView, i: int, n: int) -> Seq<Seq<char>>
    decreases t.len() - i, n,
{
    if n <= 0 || n > t.named_children(i).len() {
        Seq::empty()
    } else {
        proof {
            lemma_named_children(t, i);
        }
        type_heads_of_children(t, i, n - 1) + type_heads(t, t.named_children(i)[n - 1])
    }
}

/// Appends the head names of the outermost types at and below `node`.
pub fn collect_type_head_names(tree: &SyntaxTree<'_>, node: usize, out: &mut Vec<String>)
    requires
        node < tree@.len(),
    ensures
        texts(final(out)@) == texts(old(out)@) + type_heads(tree@, node as int),
    decreases tree@.len() - node,
{
    let ghost t = tree@;
    let ghost before = texts(out@);
    if tree.is_kind(node, "type_identifier") || tree.is_kind(node, "generic_type") || tree.is_kind(
        node,
        "scoped_type_identifier",
    ) || tree.is_kind(node, "array_type") {
        if let Some(name) = type_head_name(tree, node) {
            out.push(name);
        }
        assert(texts(out@) =~= before + type_heads(t, node as int));
    } else {
        let named = tree.named_children(node);
        let mut k: usize = 0;
        assert(texts(out@) =~= before + type_heads_of_children(t, node as int, 0));
        while k < named.len()
            invariant
                t == tree@,
                node < t.len(),
                k <= named@.len(),
                same_indices(named@, t.named_children(node as int)),
                forall|j: int| 0 <= j < named@.len() ==> node < #[trigger] named@[j] < t.len(),
                texts(out@) == before + type_heads_of_children(t, node as int, k as int),
            decreases named.len() - k,
        {
            let ghost so_far = texts(out@);
            collect_type_head_names(tree, named[k], out);
            assert(texts(out@) =~= before + type_heads_of_children(t, node as int, k + 1));
            k = k + 1;
        }
    }
}

/// The head names of what the type declared at node `i` extends and implements: its superclass, its
/// interfaces, then the interfaces it extends.
pub open spec fn supertypes(t: TreeView, i: int) -> Seq<Seq<char>> {
    let superclass = match t.field_child(i, "superclass"@) {
        Some(c) => type_heads(t, c),
        None => Seq::empty(),
    };
    let interfaces = match t.field_child(i, "interfaces"@) {
        Some(c) => type_heads(t, c),
        None => Seq::empty(),
    };
    let extended = match t.kind_child(i, "extends_interfaces"@) {
        Some(c) => type_heads(t, c),
        None => Seq::empty(),
    };
    superclass + interfaces + extended
}

/// The head names of what the type declared at `node` extends and implements.
pub fn supertype_names(tree: &SyntaxTree<'_>, node: usize) -> (names: Vec<String>)
    requires
        node < tree@.len(),
    ensures
        texts(names@) == supertypes(tree@, node as int),
{
    let mut names: Vec<String> = Vec::new();
    if let Some(c) = tree.field_child(node, "superclass") {
        collect_type_head_names(tree, c, &mut names);
    }
    if let Some(c) = tree.field_child(node, "interfaces") {
        collect_type_head_names(tree, c, &mut names);
    }
    if let Some(c) = tree.kind_child(node, "extends_interfaces") {
        collect_type_head_names(tree, c, &mut names);
    }
    assert(texts(names@) =~= supertypes(tree@, node as int));
    names
}

// -------------------------------------------------------------------------------------------------
// Callees
// -------------------------------------------------------------------------------------------------
/// What a call names: the callee, and what the call qualifies it by.
#[derive(Debug, Clone, PartialEq, Eq)]
pub struct CalleeRef {
    pub name: String,
    pub qualifier: Option<String>,
}

/// The mathematical value of a [`CalleeRef`].
#[verifier::ext_equal]
pub struct CalleeView {
    pub name: Seq<char>,
    pub qualifier: Option<Seq<char>>,
}

impl View for CalleeRef {
    type V = CalleeView;

    open spec fn view(&self) -> CalleeView {
        CalleeView { name: self.name@, qualifier: opt_text(self.qualifier) }
    }
}

/// The mathematical value of an optional callee.
pub open spec fn opt_callee(c: Option<CalleeRef>) -> Option<CalleeView> {
    match c {
        Some(r) => Some(r@),
        None => None,
    }
}

/// The last part of the path at node `i`.
pub open spec fn path_end(t: TreeView, i: int) -> Option<Seq<char>> {
    if t.kind(i) == "scoped_identifier"@ {
        t.field_text(i, "name"@)
    } else {
        t.text(i)
    }
}

/// What the called expression at node `i` names: a bare identifier names itself, a path its last part
/// with the part before it as the qualifier, a field access its field, and an instantiated generic
/// function the function. Other expressions name nothing.
pub open spec fn callee(t: TreeView, i: int) -> Option<CalleeView>
    decreases t.len() - i,
{
    proof {
        lemma_field_child(t, i, "field"@);
        lemma_field_child(t, i, "function"@);
    }
    if t.kind(i) == "identifier"@ || t.kind(i) == "field_identifier"@ || t.kind(i)
        == "type_identifier"@ {
        match t.text(i) {
            Some(name) => Some(CalleeView { name, qualifier: None }),
            None => None,
        }
    } else if t.kind(i) == "scoped_identifier"@ {
        match t.field_text(i, "name"@) {
            Some(name) => Some(
                CalleeView {
                    name,
                    qualifier: match t.field_child(i, "path"@) {
                        Some(p) => path_end(t, p),
                        None => None,
                    },
                },
            ),
            None => None,
        }
    } else if t.kind(i) == "field_expression"@ {
        match t.field_child(i, "field"@) {
            Some(c) => callee(t, c),
            None => None,
        }
    } else if t.kind(i) == "generic_function"@ {
        match t.field_child(i, "function"@) {
            Some(c) => callee(t, c),
            None => None,
        }
    } else {
        None
    }
}

/// What the call expression at node `i` calls.
pub open spec fn called(t: TreeView, i: int) -> Option<CalleeView> {
    match t.field_child(i, "function"@) {
        Some(c) => callee(t, c),
        None => None,
    }
}

/// What the call expression at `call` calls.
pub fn callee_ref_of(tree: &SyntaxTree<'_>, call: usize) -> (r: Option<CalleeRef>)
    requires
        call < tree@.len(),
    ensures
        opt_callee(r) == called(tree@, call as int),
{
    match tree.field_child(call, "function") {
        Some(c) => callee_ref(tree, c),
        None => None,
    }
}

/// What the called expression at `node` names.
pub fn callee_ref(tree: &SyntaxTree<'_>, node: usize) -> (r: Option<CalleeRef>)
    requires
        node < tree@.len(),
    ensures
        opt_callee(r) == callee(tree@, node as int),
    decreases tree@.len() - node,
{
    if tree.is_kind(node, "identifier") || tree.is_kind(node, "field_identifier") || tree.is_kind(
        node,
        "type_identifier",
    ) {
        match tree.text(node) {
            Some(name) => Some(CalleeRef { name, qualifier: None }),
            None => None,
        }
    } else if tree.is_kind(node, "scoped_identifier") {
        match tree.field_text(node, "name") {
            Some(name) => {
                let qualifier = match tree.field_child(node, "path") {
                    Some(p) => path_tail(tree, p),
                    None => None,
                };
                Some(CalleeRef { name, qualifier })
            },
            None => None,
        }
    } else if tree.is_kind(node, "field_expression") {
        match tree.field_child(node, "field") {
            Some(c) => callee_ref(tree, c),
            None => None,
        }
    } else if tree.is_kind(node, "generic_function") {
        match tree.field_child(node, "function") {
            Some(c) => callee_ref(tree, c),
            None => None,
        }
    } else {
        None
    }
}

/// The last part of the path at `node`.
pub fn path_tail(tree: &SyntaxTree<'_>, node: usize) -> (r: Option<String>)
    requires
        node < tree@.len(),
    ensures
        opt_text(r) == path_end(tree@, node as int),
{
    if tree.is_kind(node, "scoped_identifier") {
        tree.field_text(node, "name")
    } else {
        tree.text(node)
    }
}

// -------------------------------------------------------------------------------------------------
// Declared types
// -------------------------------------------------------------------------------------------------
/// Whether the declaration at node `i` has a declarator of the name `name`.
pub open spec fn declares(t: TreeView, i: int, name: Seq<char>) -> bool {
    exists|k: int|
        0 <= k < t.children(i).len() && t.rows[#[trigger] t.children(i)[k]].field == Some(
            "declarator"@,
        ) && t.field_text(t.children(i)[k], "name"@) == Some(name)
}

/// The head name of the type that fills the `type` field of node `i`.
pub open spec fn type_field_head(t: TreeView, i: int) -> Option<Seq<char>> {
    match t.field_child(i, "type"@) {
        Some(ty) => type_head(t, ty),
        None => None,
    }
}

/// The first local variable or field declaration among `nodes` that declares `name`.
pub open spec fn declaration_among(t: TreeView, nodes: Seq<int>, name: Seq<char>) -> Option<int>
    decreases nodes.len(),
{
    if nodes.len() == 0 {
        None
    } else if (t.kind(nodes[0]) == "local_variable_declaration"@ || t.kind(nodes[0])
        == "field_declaration"@) && declares(t, nodes[0], name) {
        Some(nodes[0])
    } else {
        declaration_among(t, nodes.skip(1), name)
    }
}

/// The first formal parameter among `nodes` of the name `name`.
pub open spec fn parameter_among(t: TreeView, nodes: Seq<int>, name: Seq<char>) -> Option<int>
    decreases nodes.len(),
{
    if nodes.len() == 0 {
        None
    } else if t.kind(nodes[0]) == "formal_parameter"@ && t.field_text(nodes[0], "name"@) == Some(
        name,
    ) {
        Some(nodes[0])
    } else {
        parameter_among(t, nodes.skip(1), name)
    }
}

/// What a scope says of a name that it binds: the head name of the type it is declared with, where
/// that has one.
pub struct BindingView {
    pub declared: Option<Seq<char>>,
}

/// How the block or the type body at node `i` binds `name`, by a declaration directly inside.
pub open spec fn bound_in_body(t: TreeView, i: int, name: Seq<char>) -> Option<BindingView> {
    match declaration_among(t, t.children(i), name) {
        Some(decl) => Some(BindingView { declared: type_field_head(t, decl) }),
        None => None,
    }
}

/// How the parameter list at node `i` binds `name`.
pub open spec fn bound_by_parameter(t: TreeView, i: int, name: Seq<char>) -> Option<BindingView> {
    match parameter_among(t, t.children(i), name) {
        Some(p) => Some(BindingView { declared: type_field_head(t, p) }),
        None => None,
    }
}

/// How the for-each loop at node `i` binds `name`.
pub open spec fn bound_by_loop(t: TreeView, i: int, name: Seq<char>) -> Option<BindingView> {
    if t.field_text(i, "name"@) == Some(name) {
        Some(BindingView { declared: type_field_head(t, i) })
    } else {
        None
    }
}

/// The head name of the type that the catch parameter at node `i` names, where it names exactly one.
pub open spec fn caught_type(t: TreeView, i: int) -> Option<Seq<char>> {
    match t.kind_child(i, "catch_type"@) {
        Some(ty) => if t.named_children(ty).len() == 1 {
            type_head(t, t.named_children(ty)[0])
        } else {
            None
        },
        None => None,
    }
}

/// How the catch clause at node `i` binds `name`.
pub open spec fn bound_by_catch(t: TreeView, i: int, name: Seq<char>) -> Option<BindingView> {
    match t.kind_child(i, "catch_formal_parameter"@) {
        Some(param) => if t.field_text(param, "name"@) == Some(name) {
            Some(BindingView { declared: caught_type(t, param) })
        } else {
            None
        },
        None => None,
    }
}

/// How the scope that node `i` opens binds `name`.
pub open spec fn bound_in(t: TreeView, i: int, name: Seq<char>) -> Option<BindingView> {
    let kind = t.kind(i);
    if kind == "block"@ || kind == "class_body"@ || kind == "interface_body"@ || kind
        == "constructor_body"@ || kind == "enum_body"@ {
        bound_in_body(t, i, name)
    } else if kind == "method_declaration"@ || kind == "constructor_declaration"@ {
        match t.field_child(i, "parameters"@) {
            Some(params) => bound_by_parameter(t, params, name),
            None => None,
        }
    } else if kind == "enhanced_for_statement"@ {
        bound_by_loop(t, i, name)
    } else if kind == "catch_clause"@ {
        bound_by_catch(t, i, name)
    } else {
        None
    }
}

/// The head name of the type `name` is declared with where node `i` stands. The innermost scope around
/// it that binds the name decides, also where its type has no head name.
pub open spec fn declared_type(t: TreeView, i: int, name: Seq<char>) -> Option<Seq<char>>
    decreases i,
{
    proof {
        lemma_parent(t, i);
    }
    match t.parent(i) {
        None => None,
        Some(p) => match bound_in(t, p, name) {
            Some(binding) => binding.declared,
            None => declared_type(t, p, name),
        },
    }
}

/// A name that a scope binds: the head name of the type it is declared with, where that has one.
#[derive(Debug, Clone, PartialEq, Eq)]
pub struct Binding {
    pub declared: Option<String>,
}

/// The mathematical value of an optional binding.
pub open spec fn opt_binding(b: Option<Binding>) -> Option<BindingView> {
    match b {
        Some(x) => Some(BindingView { declared: opt_text(x.declared) }),
        None => None,
    }
}

fn is_text(found: &Option<String>, name: &str) -> (r: bool)
    ensures
        r == (opt_text(*found) == Some(name@)),
{
    match found {
        Some(f) => same(f.as_str(), name),
        None => false,
    }
}

/// The name of the declarator at `declarator`.
pub fn declarator_name(tree: &SyntaxTree<'_>, declarator: usize) -> (name: Option<String>)
    requires
        declarator < tree@.len(),
    ensures
        opt_text(name) == tree@.field_text(declarator as int, "name"@),
{
    tree.field_text(declarator, "name")
}

/// How the declaration at `decl` binds `name`. One declaration may declare several names.
pub fn declarator_type_if_named(tree: &SyntaxTree<'_>, decl: usize, name: &str) -> (r: Option<
    Binding,
>)
    requires
        decl < tree@.len(),
    ensures
        opt_binding(r) == (if declares(tree@, decl as int, name@) {
            Some(BindingView { declared: type_field_head(tree@, decl as int) })
        } else {
            None
        }),
{
    let ghost t = tree@;
    let kids = tree.children(decl);
    let mut k: usize = 0;
    while k < kids.len()
        invariant
            t == tree@,
            decl < t.len(),
            k <= kids@.len(),
            same_indices(kids@, t.children(decl as int)),
            forall|j: int| 0 <= j < kids@.len() ==> decl < #[trigger] kids@[j] < t.len(),
            forall|j: int|
                0 <= j < k ==> !(t.rows[#[trigger] t.children(decl as int)[j]].field == Some(
                    "declarator"@,
                ) && t.field_text(t.children(decl as int)[j], "name"@) == Some(name@)),
        decreases kids.len() - k,
    {
        let c = kids[k];
        assert(c as int == t.children(decl as int)[k as int]);
        if tree.fills(c, "declarator") {
            let found = declarator_name(tree, c);
            if is_text(&found, name) {
                assert(declares(t, decl as int, name@));
                return Some(Binding { declared: type_field_name(tree, decl) });
            }
        }
        k = k + 1;
    }
    assert(!declares(t, decl as int, name@));
    None
}

/// How a declaration directly inside the block or type body at `scope` binds `name`.
pub fn scan_declarations(tree: &SyntaxTree<'_>, scope: usize, name: &str) -> (r: Option<Binding>)
    requires
        scope < tree@.len(),
    ensures
        opt_binding(r) == bound_in_body(tree@, scope as int, name@),
{
    let ghost t = tree@;
    let kids = tree.children(scope);
    let ghost all = t.children(scope as int);
    let mut k: usize = 0;
    assert(all.skip(0) =~= all);
    while k < kids.len()
        invariant
            t == tree@,
            scope < t.len(),
            k <= kids@.len(),
            all == t.children(scope as int),
            same_indices(kids@, all),
            forall|j: int| 0 <= j < kids@.len() ==> scope < #[trigger] kids@[j] < t.len(),
            declaration_among(t, all, name@) == declaration_among(t, all.skip(k as int), name@),
        decreases kids.len() - k,
    {
        let c = kids[k];
        assert(all.skip(k as int)[0] == all[k as int]);
        assert(all.skip(k as int).skip(1) =~= all.skip(k + 1));
        if tree.is_kind(c, "local_variable_declaration") || tree.is_kind(c, "field_declaration") {
            let found = declarator_type_if_named(tree, c, name);
            if found.is_some() {
                return found;
            }
        }
        k = k + 1;
    }
    None
}

fn type_field_name(tree: &SyntaxTree<'_>, node: usize) -> (r: Option<String>)
    requires
        node < tree@.len(),
    ensures
        opt_text(r) == type_field_head(tree@, node as int),
{
    match tree.field_child(node, "type") {
        Some(ty) => type_head_name(tree, ty),
        None => None,
    }
}

/// How the parameter list at `params` binds `name`.
pub fn scan_formal_parameters(tree: &SyntaxTree<'_>, params: usize, name: &str) -> (r: Option<
    Binding,
>)
    requires
        params < tree@.len(),
    ensures
        opt_binding(r) == bound_by_parameter(tree@, params as int, name@),
{
    let ghost t = tree@;
    let kids = tree.children(params);
    let ghost all = t.children(params as int);
    let mut k: usize = 0;
    assert(all.skip(0) =~= all);
    while k < kids.len()
        invariant
            t == tree@,
            params < t.len(),
            k <= kids@.len(),
            all == t.children(params as int),
            same_indices(kids@, all),
            forall|j: int| 0 <= j < kids@.len() ==> params < #[trigger] kids@[j] < t.len(),
            parameter_among(t, all, name@) == parameter_among(t, all.skip(k as int), name@),
        decreases kids.len() - k,
    {
        let c = kids[k];
        assert(all.skip(k as int)[0] == all[k as int]);
        assert(all.skip(k as int).skip(1) =~= all.skip(k + 1));
        if tree.is_kind(c, "formal_parameter") {
            let found = tree.field_text(c, "name");
            if is_text(&found, name) {
                return Some(Binding { declared: type_field_name(tree, c) });
            }
        }
        k = k + 1;
    }
    None
}

/// How the for-each loop at `node` binds `name`.
pub fn enhanced_for_declared_type(tree: &SyntaxTree<'_>, node: usize, name: &str) -> (r: Option<
    Binding,
>)
    requires
        node < tree@.len(),
    ensures
        opt_binding(r) == bound_by_loop(tree@, node as int, name@),
{
    let found = tree.field_text(node, "name");
    if is_text(&found, name) {
        Some(Binding { declared: type_field_name(tree, node) })
    } else {
        None
    }
}

/// How the catch clause at `clause` binds `name`. A clause that catches several types gives none of
/// them.
pub fn catch_declared_type(tree: &SyntaxTree<'_>, clause: usize, name: &str) -> (r: Option<Binding>)
    requires
        clause < tree@.len(),
    ensures
        opt_binding(r) == bound_by_catch(tree@, clause as int, name@),
{
    let param = match tree.kind_child(clause, "catch_formal_parameter") {
        Some(param) => param,
        None => {
            return None;
        },
    };
    let found = tree.field_text(param, "name");
    if !is_text(&found, name) {
        return None;
    }
    let declared = match tree.kind_child(param, "catch_type") {
        Some(ty) => {
            let alternatives = tree.named_children(ty);
            if alternatives.len() == 1 {
                type_head_name(tree, alternatives[0])
            } else {
                None
            }
        },
        None => None,
    };
    Some(Binding { declared })
}

fn binding_in(tree: &SyntaxTree<'_>, scope: usize, name: &str) -> (r: Option<Binding>)
    requires
        scope < tree@.len(),
    ensures
        opt_binding(r) == bound_in(tree@, scope as int, name@),
{
    if tree.is_kind(scope, "block") || tree.is_kind(scope, "class_body") || tree.is_kind(
        scope,
        "interface_body",
    ) || tree.is_kind(scope, "constructor_body") || tree.is_kind(scope, "enum_body") {
        scan_declarations(tree, scope, name)
    } else if tree.is_kind(scope, "method_declaration") || tree.is_kind(
        scope,
        "constructor_declaration",
    ) {
        match tree.field_child(scope, "parameters") {
            Some(params) => scan_formal_parameters(tree, params, name),
            None => None,
        }
    } else if tree.is_kind(scope, "enhanced_for_statement") {
        enhanced_for_declared_type(tree, scope, name)
    } else if tree.is_kind(scope, "catch_clause") {
        catch_declared_type(tree, scope, name)
    } else {
        None
    }
}

/// The head name of the type `name` is declared with where `use_site` stands. A local variable hides a
/// field of its name, whatever its type.
pub fn declared_type_of(tree: &SyntaxTree<'_>, use_site: usize, name: &str) -> (r: Option<String>)
    requires
        use_site < tree@.len(),
    ensures
        opt_text(r) == declared_type(tree@, use_site as int, name@),
{
    let ghost t = tree@;
    let mut current: usize = use_site;
    loop
        invariant
            t == tree@,
            current < t.len(),
            declared_type(t, use_site as int, name@) == declared_type(t, current as int, name@),
        decreases current,
    {
        match tree.parent(current) {
            Some(parent) => {
                if let Some(binding) = binding_in(tree, parent, name) {
                    return binding.declared;
                }
                current = parent;
            },
            None => {
                return None;
            },
        }
    }
}

// -------------------------------------------------------------------------------------------------
// Qualifiers
// -------------------------------------------------------------------------------------------------
/// Whether a character beyond ASCII has Unicode's Uppercase property.
pub uninterp spec fn uppercase_beyond_ascii(c: char) -> bool;

/// `char::is_uppercase` of std, asked beyond ASCII: the character's Uppercase property, which depends
/// on the character alone.
#[verifier::external_body]
fn is_uppercase_beyond_ascii(c: char) -> (r: bool)
    requires
        c > '\u{7f}',
    ensures
        r == uppercase_beyond_ascii(c),
{
    c.is_uppercase()
}

/// Whether a character is an upper case letter.
pub open spec fn uppercase(c: char) -> bool {
    if c <= '\u{7f}' {
        'A' <= c && c <= 'Z'
    } else {
        uppercase_beyond_ascii(c)
    }
}

/// Whether `name` reads as a type: it starts with an upper case letter.
pub open spec fn type_like(name: Seq<char>) -> bool {
    name.len() > 0 && uppercase(name[0])
}

/// Whether `name` reads as a type: it starts with an upper case letter.
pub fn is_type_like(name: &str) -> (r: bool)
    ensures
        r == type_like(name@),
{
    if name.unicode_len() == 0 {
        return false;
    }
    let c = name.get_char(0);
    if c <= '\u{7f}' {
        'A' <= c && c <= 'Z'
    } else {
        is_uppercase_beyond_ascii(c)
    }
}

/// Whether `name` names the enclosing object or its superclass.
pub open spec fn names_self(name: Seq<char>) -> bool {
    name == "self"@ || name == "cls"@ || name == "this"@ || name == "super"@
}

/// What the receiver `name` at node `i` qualifies a call by: the type it is declared with, else itself
/// where it reads as a type. The enclosing object qualifies nothing.
pub open spec fn receiver_name_qualifier(t: TreeView, i: int, name: Seq<char>) -> Option<Seq<char>> {
    if names_self(name) {
        None
    } else {
        match declared_type(t, i, name) {
            Some(ty) => Some(ty),
            None => if type_like(name) {
                Some(name)
            } else {
                None
            },
        }
    }
}

/// What the receiver expression at node `i` qualifies a call by. Only a plain identifier does.
pub open spec fn receiver(t: TreeView, i: int) -> Option<Seq<char>> {
    if t.kind(i) != "identifier"@ {
        None
    } else {
        match t.text(i) {
            Some(name) => receiver_name_qualifier(t, i, name),
            None => None,
        }
    }
}

/// What a call qualifies the callee name at node `i` by: its receiver, where the name stands in a
/// member access or a method invocation.
pub open spec fn call_qualifier(t: TreeView, i: int) -> Option<Seq<char>> {
    match t.parent(i) {
        None => None,
        Some(p) => if t.kind(p) == "member_expression"@ || t.kind(p) == "attribute"@ || t.kind(p)
            == "method_invocation"@ {
            match t.field_child(p, "object"@) {
                Some(object) => receiver(t, object),
                None => None,
            }
        } else {
            None
        },
    }
}

/// What a call qualifies the callee name at `name_node` by.
pub fn qualifier_from_callee_node(tree: &SyntaxTree<'_>, name_node: usize) -> (r: Option<String>)
    requires
        name_node < tree@.len(),
    ensures
        opt_text(r) == call_qualifier(tree@, name_node as int),
{
    let parent = match tree.parent(name_node) {
        Some(parent) => parent,
        None => {
            return None;
        },
    };
    if tree.is_kind(parent, "member_expression") || tree.is_kind(parent, "attribute")
        || tree.is_kind(parent, "method_invocation") {
        match tree.field_child(parent, "object") {
            Some(object) => receiver_qualifier(tree, object),
            None => None,
        }
    } else {
        None
    }
}

/// What the receiver expression at `object` qualifies a call by.
pub fn receiver_qualifier(tree: &SyntaxTree<'_>, object: usize) -> (r: Option<String>)
    requires
        object < tree@.len(),
    ensures
        opt_text(r) == receiver(tree@, object as int),
{
    if !tree.is_kind(object, "identifier") {
        return None;
    }
    let name = match tree.text(object) {
        Some(name) => name,
        None => {
            return None;
        },
    };
    let text = name.as_str();
    if same(text, "self") || same(text, "cls") || same(text, "this") || same(text, "super") {
        return None;
    }
    let declared = declared_type_of(tree, object, text);
    if declared.is_some() {
        declared
    } else if is_type_like(text) {
        Some(name)
    } else {
        None
    }
}

} // verus!
