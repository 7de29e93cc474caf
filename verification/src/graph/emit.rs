//! The symbols of one file, read off its syntax tree and the tables of its definitions and calls.
use super::callee::{
    call_qualifier, called, callee_ref_of, impl_type, impl_type_name, opt_callee,
    qualifier_from_callee_node, supertype_names, supertypes, CalleeRef, CalleeView,
};
use super::{CallSite, CallView, Callable, FileSymbols, SymbolsView};
use crate::model::{def_node_id, node_id_of, EdgeView, GraphEdge, GraphNode, NodeView, TargetView};
use crate::syntax::{
    lemma_parent, parsed_view, ranges_fit, tree_rows, SyntaxTree, TreeView,
};
use crate::text::{chars_of, copy_opt, copy_texts, opt_str, opt_text, same, texts};
use crate::toolkit::{defines, tags_as, tells_by, GraphStrategy, Toolkit};
use std::collections::HashMap;
use vstd::prelude::*;
use vstd::string::*;
use vstd::utf8::*;

verus! {

// -------------------------------------------------------------------------------------------------
// The tables
// -------------------------------------------------------------------------------------------------
/// What a node defines: a kind such as `function` or `class`, and a name where it has one.
#[derive(Debug, Clone)]
pub struct Definition {
    pub kind: &'static str,
    pub name: Option<String>,
}

/// The definitions and the calls of a file, by the nodes that stand for them: a definition by the node
/// that defines, a call by the node of the callee's name.
#[derive(Debug, Clone)]
pub struct TaggedSymbols {
    pub defs: HashMap<usize, Definition>,
    pub calls: HashMap<usize, String>,
}

/// The mathematical value of a [`Definition`].
#[verifier::ext_equal]
pub struct DefinitionView {
    pub kind: Seq<char>,
    pub name: Option<Seq<char>>,
}

impl View for Definition {
    type V = DefinitionView;

    open spec fn view(&self) -> DefinitionView {
        DefinitionView { kind: self.kind@, name: opt_text(self.name) }
    }
}

/// How the definitions and calls of a file are told: for Rust by a table of its definitions and the
/// shape of its call expressions, for every other language by a table of both.
#[derive(Clone, Copy)]
pub enum Classifier<'a> {
    Rust(&'a HashMap<usize, Definition>),
    Tagged(&'a TaggedSymbols),
}

/// What the table `defs` has for node `i`.
pub open spec fn definition_at(defs: Map<usize, Definition>, i: int) -> Option<DefinitionView> {
    if 0 <= i <= usize::MAX && defs.contains_key(i as usize) {
        Some(defs[i as usize]@)
    } else {
        None
    }
}

/// What the table `calls` has for node `i`.
pub open spec fn call_name_at(calls: Map<usize, String>, i: int) -> Option<Seq<char>> {
    if 0 <= i <= usize::MAX && calls.contains_key(i as usize) {
        Some(calls[i as usize]@)
    } else {
        None
    }
}

/// Whether definitions of this kind can be called.
pub open spec fn callable_kind(kind: Seq<char>) -> bool {
    kind == "function"@ || kind == "method"@
}

/// Whether a node of this kind is a declaration that only its body makes an implementation.
pub open spec fn needs_body(kind: Seq<char>) -> bool {
    kind == "method_declaration"@ || kind == "method_signature"@ || kind
        == "abstract_method_signature"@ || kind == "function_signature"@
}

impl<'a> Classifier<'a> {
    /// What node `i` defines.
    pub open spec fn definition(self, i: int) -> Option<DefinitionView> {
        match self {
            Classifier::Rust(defs) => definition_at(defs@, i),
            Classifier::Tagged(tags) => definition_at(tags.defs@, i),
        }
    }

    /// Whether a call can resolve to the definition of kind `kind` at node `i`: it is callable, and is
    /// not a declaration without a body.
    pub open spec fn call_target(self, t: TreeView, i: int, kind: Seq<char>) -> bool {
        callable_kind(kind) && match self {
            Classifier::Rust(_) => t.kind(i) != "function_signature_item"@,
            Classifier::Tagged(_) => needs_body(t.kind(i)) ==> t.field_child(i, "body"@) is Some,
        }
    }

    /// The type name that the definition at node `i` gives to the callables it contains.
    pub open spec fn scope_name(self, t: TreeView, i: int, def: DefinitionView) -> Option<
        Seq<char>,
    > {
        match self {
            Classifier::Rust(_) => if def.kind == "impl"@ {
                impl_type(t, i)
            } else if def.kind == "trait"@ || def.kind == "struct"@ || def.kind == "enum"@
                || def.kind == "class"@ {
                def.name
            } else {
                None
            },
            Classifier::Tagged(_) => if def.kind == "class"@ || def.kind == "interface"@ || def.kind
                == "enum"@ {
                def.name
            } else {
                None
            },
        }
    }

    /// The call that node `i` stands for.
    pub open spec fn call(self, t: TreeView, i: int) -> Option<CalleeView> {
        match self {
            Classifier::Rust(_) => if t.kind(i) == "call_expression"@ {
                called(t, i)
            } else {
                None
            },
            Classifier::Tagged(tags) => match call_name_at(tags.calls@, i) {
                Some(name) => Some(CalleeView { name, qualifier: call_qualifier(t, i) }),
                None => None,
            },
        }
    }

    /// What `node` defines.
    pub fn classify(self, node: usize) -> (def: Option<(&'static str, Option<String>)>)
        ensures
            def is Some <==> self.definition(node as int) is Some,
            def matches Some(d) ==> self.definition(node as int) == Some(
                DefinitionView { kind: d.0@, name: opt_text(d.1) },
            ),
    {
        let found = match self {
            Classifier::Rust(defs) => defs.get(&node),
            Classifier::Tagged(tags) => tags.defs.get(&node),
        };
        match found {
            Some(d) => Some((d.kind, copy_opt(&d.name))),
            None => None,
        }
    }

    /// Whether a call can resolve to the definition of kind `kind` at `node`.
    pub fn is_call_target(self, tree: &SyntaxTree<'_>, node: usize, kind: &str) -> (r: bool)
        requires
            node < tree@.len(),
        ensures
            r == self.call_target(tree@, node as int, kind@),
    {
        if !(same(kind, "function") || same(kind, "method")) {
            return false;
        }
        match self {
            Classifier::Rust(_) => !tree.is_kind(node, "function_signature_item"),
            Classifier::Tagged(_) => {
                if tree.is_kind(node, "method_declaration") || tree.is_kind(node, "method_signature")
                    || tree.is_kind(node, "abstract_method_signature") || tree.is_kind(
                    node,
                    "function_signature",
                ) {
                    tree.field_child(node, "body").is_some()
                } else {
                    true
                }
            },
        }
    }

    /// The type name that the definition at `node` gives to the callables it contains.
    pub fn container_scope(
        self,
        tree: &SyntaxTree<'_>,
        node: usize,
        kind: &str,
        name: &Option<String>,
    ) -> (r: Option<String>)
        requires
            node < tree@.len(),
        ensures
            opt_text(r) == self.scope_name(
                tree@,
                node as int,
                (DefinitionView { kind: kind@, name: opt_text(*name) }),
            ),
    {
        match self {
            Classifier::Rust(_) => {
                if same(kind, "impl") {
                    impl_type_name(tree, node)
                } else if same(kind, "trait") || same(kind, "struct") || same(kind, "enum") || same(
                    kind,
                    "class",
                ) {
                    copy_opt(name)
                } else {
                    None
                }
            },
            Classifier::Tagged(_) => {
                if same(kind, "class") || same(kind, "interface") || same(kind, "enum") {
                    copy_opt(name)
                } else {
                    None
                }
            },
        }
    }

    /// The call that `node` stands for.
    pub fn call_site(self, tree: &SyntaxTree<'_>, node: usize) -> (r: Option<CalleeRef>)
        requires
            node < tree@.len(),
        ensures
            opt_callee(r) == self.call(tree@, node as int),
    {
        match self {
            Classifier::Rust(_) => {
                if tree.is_kind(node, "call_expression") {
                    callee_ref_of(tree, node)
                } else {
                    None
                }
            },
            Classifier::Tagged(tags) => match tags.calls.get(&node) {
                Some(name) => Some(
                    CalleeRef {
                        name: name.clone(),
                        qualifier: qualifier_from_callee_node(tree, node),
                    },
                ),
                None => None,
            },
        }
    }
}

/// Whether a definition of this kind is a type whose functions are its methods.
pub open spec fn type_container(kind: Option<Seq<char>>) -> bool {
    match kind {
        Some(k) => k == "impl"@ || k == "trait"@ || k == "struct"@ || k == "enum"@ || k == "class"@ || k
            == "interface"@,
        None => false,
    }
}

/// Whether a definition of this kind is a type whose functions are its methods.
pub fn is_type_container(kind: Option<&str>) -> (r: bool)
    ensures
        r == type_container(opt_str(kind)),
{
    match kind {
        Some(k) => same(k, "impl") || same(k, "trait") || same(k, "struct") || same(k, "enum") || same(
            k,
            "class",
        ) || same(k, "interface"),
        None => false,
    }
}

/// What stands behind the last `/` of a path.
pub open spec fn file_name(path: Seq<char>) -> Seq<char>
    decreases path.len(),
{
    if path.len() == 0 || path.last() == '/' {
        Seq::empty()
    } else {
        file_name(path.drop_last()).push(path.last())
    }
}

/// What stands behind the last `/` of a path.
pub fn file_label(source_file: &str) -> (label: String)
    ensures
        label@ == file_name(source_file@),
{
    let chars = chars_of(source_file);
    let mut out = String::new();
    let mut i: usize = 0;
    while i < chars.len()
        invariant
            chars@ == source_file@,
            i <= chars@.len(),
            out@ == file_name(chars@.take(i as int)),
        decreases chars.len() - i,
    {
        assert(chars@.take(i + 1).drop_last() =~= chars@.take(i as int));
        if chars[i] == '/' {
            out = String::new();
            assert(out@ =~= file_name(chars@.take(i + 1)));
        } else {
            out.push(chars[i]);
        }
        i = i + 1;
    }
    assert(chars@.take(i as int) =~= chars@);
    out
}

// -------------------------------------------------------------------------------------------------
// The symbols of a file
// -------------------------------------------------------------------------------------------------
/// The innermost definition around node `i`. The root is never one.
pub open spec fn owner(c: Classifier<'_>, t: TreeView, i: int) -> Option<int>
    decreases i,
{
    proof {
        lemma_parent(t, i);
    }
    match t.parent(i) {
        None => None,
        Some(p) => if p > 0 && c.definition(p) is Some {
            Some(p)
        } else {
            owner(c, t, p)
        },
    }
}

/// The name by which a definition goes into its id: its own, else its kind.
pub open spec fn id_name(def: DefinitionView) -> Seq<char> {
    match def.name {
        Some(name) => name,
        None => def.kind,
    }
}

/// The id of the definition `def` at node `i`.
pub open spec fn definition_id(t: TreeView, file: Seq<char>, i: int, def: DefinitionView) -> Seq<
    char,
> {
    node_id_of(file, t.line(i), id_name(def))
}

/// The id of what contains node `i`: its innermost definition, else the file.
pub open spec fn container_id(c: Classifier<'_>, t: TreeView, file: Seq<char>, i: int) -> Seq<char> {
    match owner(c, t, i) {
        Some(o) => definition_id(t, file, o, c.definition(o)->0),
        None => file,
    }
}

/// The kind of the innermost definition around node `i`.
pub open spec fn enclosing_kind(c: Classifier<'_>, t: TreeView, i: int) -> Option<Seq<char>> {
    match owner(c, t, i) {
        Some(o) => Some((c.definition(o)->0).kind),
        None => None,
    }
}

/// The node of the definition `def` at node `i`. A callable's label shows that it can be called.
pub open spec fn definition_node(
    t: TreeView,
    file: Seq<char>,
    i: int,
    def: DefinitionView,
) -> NodeView {
    NodeView {
        node_id: definition_id(t, file, i, def),
        label: match def.name {
            Some(name) => if callable_kind(def.kind) {
                name + "()"@
            } else {
                name
            },
            None => def.kind,
        },
        source_file: file,
        start_line: t.line(i),
    }
}

/// The edge from what contains the definition `def` at node `i` to it: `method` for a callable
/// directly in a type, else `contains`.
pub open spec fn containing_edge(
    c: Classifier<'_>,
    t: TreeView,
    file: Seq<char>,
    i: int,
    def: DefinitionView,
) -> EdgeView {
    EdgeView {
        source: container_id(c, t, file, i),
        target: definition_id(t, file, i, def),
        relation: if callable_kind(def.kind) && type_container(enclosing_kind(c, t, i)) {
            "method"@
        } else {
            "contains"@
        },
    }
}

/// The type name that the innermost definition around node `i` gives to what it contains.
pub open spec fn enclosing_scope(c: Classifier<'_>, t: TreeView, i: int) -> Option<Seq<char>> {
    match owner(c, t, i) {
        Some(o) => c.scope_name(t, o, c.definition(o)->0),
        None => None,
    }
}

/// The callable that the definition `def` of the name `name` at node `i` is.
pub open spec fn callable_of(
    c: Classifier<'_>,
    t: TreeView,
    file: Seq<char>,
    i: int,
    def: DefinitionView,
    name: Seq<char>,
) -> TargetView {
    TargetView {
        name,
        node_id: definition_id(t, file, i, def),
        scope: enclosing_scope(c, t, i),
        scope_supers: match enclosing_scope(c, t, i) {
            Some(_) => supertypes(t, owner(c, t, i)->0),
            None => Seq::empty(),
        },
    }
}

/// The node that stands for the file itself.
pub open spec fn file_node(file: Seq<char>) -> NodeView {
    NodeView { node_id: file, label: file_name(file), source_file: file, start_line: 1 }
}

/// `symbols` with what node `i` adds: a definition its node, its edge and, where a call can resolve to
/// it, its callable; another node inside a definition the call it stands for.
pub open spec fn with_node(
    c: Classifier<'_>,
    t: TreeView,
    file: Seq<char>,
    symbols: SymbolsView,
    i: int,
) -> SymbolsView {
    match c.definition(i) {
        Some(def) => SymbolsView {
            nodes: symbols.nodes.push(definition_node(t, file, i, def)),
            contains: symbols.contains.push(containing_edge(c, t, file, i, def)),
            calls: symbols.calls,
            callables: if c.call_target(t, i, def.kind) && def.name is Some {
                symbols.callables.push(callable_of(c, t, file, i, def, def.name->0))
            } else {
                symbols.callables
            },
        },
        None => if owner(c, t, i) is Some && c.call(t, i) is Some {
            SymbolsView {
                calls: symbols.calls.push(
                    CallView {
                        caller: container_id(c, t, file, i),
                        name: (c.call(t, i)->0).name,
                        qualifier: (c.call(t, i)->0).qualifier,
                    },
                ),
                ..symbols
            }
        } else {
            symbols
        },
    }
}

/// The symbols of the first `n` nodes of a file, in document order: the file itself stands for the
/// root, every other node adds what it is.
pub open spec fn symbols_of_first(c: Classifier<'_>, t: TreeView, file: Seq<char>, n: int) -> SymbolsView
    decreases n,
{
    if n <= 1 {
        SymbolsView { nodes: seq![file_node(file)], ..SymbolsView::empty() }
    } else {
        with_node(c, t, file, symbols_of_first(c, t, file, n - 1), n - 1)
    }
}

/// The symbols of a file.
pub open spec fn symbols_of(c: Classifier<'_>, t: TreeView, file: Seq<char>) -> SymbolsView {
    symbols_of_first(c, t, file, t.len())
}

/// What a definition gives to the nodes inside it.
struct Enclosing {
    id: String,
    kind: &'static str,
    scope: Option<String>,
    supers: Vec<String>,
}

/// Whether `e` holds what the definition at node `o` gives to the nodes inside it.
spec fn encloses(c: Classifier<'_>, t: TreeView, file: Seq<char>, o: int, e: Enclosing) -> bool {
    let def = c.definition(o)->0;
    &&& c.definition(o) is Some
    &&& e.id@ == definition_id(t, file, o, def)
    &&& e.kind@ == def.kind
    &&& opt_text(e.scope) == c.scope_name(t, o, def)
    &&& texts(e.supers@) == match c.scope_name(t, o, def) {
        Some(_) => supertypes(t, o),
        None => Seq::empty(),
    }
}

fn enclosing_of(
    classifier: Classifier<'_>,
    tree: &SyntaxTree<'_>,
    node: usize,
    id: String,
    kind: &'static str,
    name: &Option<String>,
    Ghost(file): Ghost<Seq<char>>,
) -> (e: Enclosing)
    requires
        node < tree@.len(),
        classifier.definition(node as int) == Some(
            DefinitionView { kind: kind@, name: opt_text(*name) },
        ),
        id@ == definition_id(tree@, file, node as int, classifier.definition(node as int)->0),
    ensures
        encloses(classifier, tree@, file, node as int, e),
{
    let scope = classifier.container_scope(tree, node, kind, name);
    let supers: Vec<String> = if scope.is_some() {
        supertype_names(tree, node)
    } else {
        Vec::new()
    };
    assert(scope is None ==> texts(supers@) =~= Seq::empty());
    Enclosing { id, kind, scope, supers }
}

/// The innermost definition at or around node `i`.
spec fn inner_owner(c: Classifier<'_>, t: TreeView, i: int) -> Option<int> {
    if i > 0 && c.definition(i) is Some {
        Some(i)
    } else {
        owner(c, t, i)
    }
}

/// Whether `slot` finds, among `open`, what the innermost definition at or around node `i` gives.
spec fn finds_inner(
    c: Classifier<'_>,
    t: TreeView,
    file: Seq<char>,
    i: int,
    open: Seq<Enclosing>,
    slot: Option<usize>,
) -> bool {
    match slot {
        Some(s) => inner_owner(c, t, i) is Some && s < open.len() && encloses(
            c,
            t,
            file,
            inner_owner(c, t, i)->0,
            open[s as int],
        ),
        None => inner_owner(c, t, i) is None,
    }
}

fn callable_label(name: &Option<String>, kind: &'static str) -> (label: String)
    ensures
        label@ == (match opt_text(*name) {
            Some(n) => if callable_kind(kind@) {
                n + "()"@
            } else {
                n
            },
            None => kind@,
        }),
{
    match name {
        Some(n) => {
            if same(kind, "function") || same(kind, "method") {
                n.clone().concat("()")
            } else {
                n.clone()
            }
        },
        None => kind.to_owned(),
    }
}

/// Adds to `facts` what each node below the root is.
fn walk(
    classifier: Classifier<'_>,
    tree: &SyntaxTree<'_>,
    source_file: &str,
    facts: &mut FileSymbols,
)
    requires
        old(facts)@ == symbols_of_first(classifier, tree@, source_file@, 1),
    ensures
        final(facts)@ == symbols_of(classifier, tree@, source_file@),
{
    let ghost c = classifier;
    let ghost t = tree@;
    let ghost file = source_file@;
    let n = tree.len();
    let mut open: Vec<Enclosing> = Vec::new();
    let mut inner: Vec<Option<usize>> = Vec::new();
    inner.push(None);
    proof {
        lemma_parent(t, 0);
    }
    let mut i: usize = 1;
    while i < n
        invariant
            c == classifier,
            t == tree@,
            file == source_file@,
            n == t.len(),
            1 <= i <= n,
            inner@.len() == i,
            forall|k: int| 0 <= k < i ==> finds_inner(c, t, file, k, open@, #[trigger] inner@[k]),
            facts@ == symbols_of_first(c, t, file, i as int),
        decreases n - i,
    {
        let ghost before = facts@;
        let slot: Option<usize> = match tree.parent(i) {
            Some(p) => {
                assert(finds_inner(c, t, file, p as int, open@, inner@[p as int]));
                inner[p]
            },
            None => None,
        };
        assert(owner(c, t, i as int) == match t.parent(i as int) {
            None => None,
            Some(p) => inner_owner(c, t, p),
        });
        let ghost old_open = open@;
        match classifier.classify(i) {
            Some((kind, name)) => {
                let ghost def = c.definition(i as int)->0;
                let start_line = tree.line(i);
                let node_id = match &name {
                    Some(text) => def_node_id(source_file, start_line, text.as_str()),
                    None => def_node_id(source_file, start_line, kind),
                };
                let parent_id = match slot {
                    Some(s) => open[s].id.clone(),
                    None => source_file.to_owned(),
                };
                let is_callable = same(kind, "function") || same(kind, "method");
                let enclosing: Option<&str> = match slot {
                    Some(s) => Some(open[s].kind),
                    None => None,
                };
                let relation = if is_callable && is_type_container(enclosing) {
                    "method"
                } else {
                    "contains"
                };
                facts.contains.push(
                    GraphEdge {
                        source: parent_id,
                        target: node_id.clone(),
                        relation: relation.to_owned(),
                    },
                );
                facts.nodes.push(
                    GraphNode {
                        node_id: node_id.clone(),
                        label: callable_label(&name, kind),
                        source_file: source_file.to_owned(),
                        start_line,
                    },
                );
                if classifier.is_call_target(tree, i, kind) {
                    if let Some(text) = &name {
                        let (scope, scope_supers): (Option<String>, Vec<String>) = match slot {
                            Some(s) => (copy_opt(&open[s].scope), copy_texts(&open[s].supers)),
                            None => (None, Vec::new()),
                        };
                        assert(slot is None ==> texts(scope_supers@) =~= Seq::empty());
                        facts.callables.push(
                            Callable {
                                name: text.clone(),
                                node_id: node_id.clone(),
                                scope,
                                scope_supers,
                            },
                        );
                    }
                }
                assert(facts@ =~= with_node(c, t, file, before, i as int));
                let e = enclosing_of(classifier, tree, i, node_id, kind, &name, Ghost(file));
                inner.push(Some(open.len()));
                open.push(e);
            },
            None => {
                if let Some(s) = slot {
                    if let Some(callee) = classifier.call_site(tree, i) {
                        facts.calls.push(
                            CallSite {
                                caller: open[s].id.clone(),
                                name: callee.name,
                                qualifier: callee.qualifier,
                            },
                        );
                    }
                }
                assert(facts@ =~= with_node(c, t, file, before, i as int));
                inner.push(slot);
            },
        }
        assert forall|k: int| 0 <= k < i + 1 implies finds_inner(
            c,
            t,
            file,
            k,
            open@,
            #[trigger] inner@[k],
        ) by {
            if k < i {
                assert(finds_inner(c, t, file, k, old_open, inner@[k]));
            }
        }
        i = i + 1;
    }
}

/// The symbols of the file `source_file` with the syntax tree `tree`.
pub fn extract_symbols(
    classifier: Classifier<'_>,
    tree: &SyntaxTree<'_>,
    source_file: &str,
) -> (facts: FileSymbols)
    ensures
        facts@ == symbols_of(classifier, tree@, source_file@),
{
    let mut facts = FileSymbols::default();
    facts.nodes.push(
        GraphNode {
            node_id: source_file.to_owned(),
            label: file_label(source_file),
            source_file: source_file.to_owned(),
            start_line: 1,
        },
    );
    assert(facts@ =~= symbols_of_first(classifier, tree@, source_file@, 1));
    walk(classifier, tree, source_file, &mut facts);
    facts
}

// -------------------------------------------------------------------------------------------------
// The symbols of a file in any language
// -------------------------------------------------------------------------------------------------
/// Whether `symbols` are those of the file `file` with the syntax tree `t`, told as the toolkit `k` says
/// for `language`. A language it has no way for, or cannot tag, has no symbols.
pub open spec fn extracts<K: Toolkit>(
    k: K,
    tree: tree_sitter::Tree,
    t: TreeView,
    file: Seq<char>,
    source: Seq<char>,
    language: Seq<char>,
    symbols: SymbolsView,
) -> bool {
    ||| tells_by(k, language, None) && symbols == SymbolsView::empty()
    ||| tells_by(k, language, Some(GraphStrategy::RustNative)) && exists|
        defs: HashMap<usize, Definition>,
    | #[trigger]
        defines(k, tree, source, defs) && symbols == symbols_of(Classifier::Rust(&defs), t, file)
    ||| tells_by(k, language, Some(GraphStrategy::Tags)) && tags_as(k, language, tree, source, None)
        && symbols == SymbolsView::empty()
    ||| tells_by(k, language, Some(GraphStrategy::Tags)) && exists|tags: TaggedSymbols| #[trigger]
        tags_as(k, language, tree, source, Some(tags)) && symbols == symbols_of(
            Classifier::Tagged(&tags),
            t,
            file,
        )
}

/// The symbols of the file `source_file`, which `tree_sitter` parsed into `tree`, and whose nodes
/// `syntax` holds.
pub fn extract_parsed<K: Toolkit>(
    toolkit: &K,
    tree: &tree_sitter::Tree,
    syntax: &SyntaxTree<'_>,
    source_file: &str,
    source: &str,
    language: &str,
) -> (facts: FileSymbols)
    ensures
        extracts(*toolkit, *tree, syntax@, source_file@, source@, language@, facts@),
{
    match toolkit.graph_strategy(language) {
        Some(GraphStrategy::RustNative) => {
            let defs = toolkit.definitions(tree, source);
            assert(defines(*toolkit, *tree, source@, defs));
            extract_symbols(Classifier::Rust(&defs), syntax, source_file)
        },
        Some(GraphStrategy::Tags) => match toolkit.tags(language, tree, source) {
            Some(tags) => {
                assert(tags_as(*toolkit, language@, *tree, source@, Some(tags)));
                extract_symbols(Classifier::Tagged(&tags), syntax, source_file)
            },
            None => FileSymbols::default(),
        },
        None => FileSymbols::default(),
    }
}

/// The symbols of the file `source_file`, which `tree_sitter` parsed from `source` into `tree`; none
/// where a node of `tree` covers bytes outside `source`.
pub fn try_extract_file<K: Toolkit>(
    toolkit: &K,
    tree: &tree_sitter::Tree,
    source_file: &str,
    source: &str,
    language: &str,
) -> (facts: Option<FileSymbols>)
    ensures
        facts is Some <==> ranges_fit(tree_rows(*tree), encode_utf8(source@).len()),
        facts matches Some(f) ==> extracts(
            *toolkit,
            *tree,
            parsed_view(*tree, source@),
            source_file@,
            source@,
            language@,
            f@,
        ),
{
    match SyntaxTree::new(tree, source.as_bytes()) {
        Some(syntax) => Some(
            extract_parsed(toolkit, tree, &syntax, source_file, source, language),
        ),
        None => None,
    }
}

/// Whether the toolkit `k` settles on its own that `tree` has no symbols: it has no way to tell those of
/// `language`, or tells them by tags and has none for the tree.
pub open spec fn has_no_way<K: Toolkit>(
    k: K,
    tree: tree_sitter::Tree,
    source: Seq<char>,
    language: Seq<char>,
) -> bool {
    forall|s: Option<GraphStrategy>| #[trigger]
        tells_by(k, language, s) ==> {
            ||| s is None
            ||| s == Some(GraphStrategy::Tags) && forall|tags: Option<TaggedSymbols>| #[trigger]
                tags_as(k, language, tree, source, tags) ==> tags is None
        }
}

/// The symbols of the file `source_file`, which `tree_sitter` parsed from `source` into `tree`. The tree
/// may be one of other text only where it is not read.
#[must_use]
pub fn extract_file<K: Toolkit>(
    toolkit: &K,
    tree: &tree_sitter::Tree,
    source_file: &str,
    source: &str,
    language: &str,
) -> (facts: FileSymbols)
    requires
        ranges_fit(tree_rows(*tree), encode_utf8(source@).len()) || has_no_way(
            *toolkit,
            *tree,
            source@,
            language@,
        ),
    ensures
        extracts(
            *toolkit,
            *tree,
            parsed_view(*tree, source@),
            source_file@,
            source@,
            language@,
            facts@,
        ),
{
    match try_extract_file(toolkit, tree, source_file, source, language) {
        Some(facts) => facts,
        None => {
            let strategy = toolkit.graph_strategy(language);
            assert(tells_by(*toolkit, language@, strategy));
            if strategy.is_some() {
                let tags = toolkit.tags(language, tree, source);
                assert(tags_as(*toolkit, language@, *tree, source@, tags));
            }
            FileSymbols::default()
        },
    }
}

} // verus!
