//! Annotations: their simple names, and the argument shapes that Spring's annotations use.
use crate::graph::callee::{path_end, path_tail};
use crate::syntax::{lemma_named_children, opt_index, same_indices, SyntaxTree, TreeView};
use crate::text::{opt_text, same, str_texts, texts};
use vstd::prelude::*;
use vstd::string::*;

verus! {

/// One annotation on a declaration: its simple name, and the node of its argument list where it has
/// one.
#[derive(Debug, Clone)]
pub struct Annotation {
    pub name: String,
    pub arguments: Option<usize>,
}

/// The mathematical value of an [`Annotation`].
#[verifier::ext_equal]
pub struct AnnotationView {
    pub name: Seq<char>,
    pub arguments: Option<int>,
}

impl View for Annotation {
    type V = AnnotationView;

    open spec fn view(&self) -> AnnotationView {
        AnnotationView { name: self.name@, arguments: opt_index(self.arguments) }
    }
}

/// The values of a list of annotations.
pub open spec fn annotation_views(list: Seq<Annotation>) -> Seq<AnnotationView> {
    list.map_values(|a: Annotation| a@)
}

/// Whether the arguments of every annotation in `list` are nodes of a tree of `n` nodes.
pub open spec fn arguments_within(list: Seq<Annotation>, n: int) -> bool {
    forall|k: int|
        0 <= k < list.len() ==> ((#[trigger] list[k]).arguments matches Some(a) ==> a < n)
}

/// The simple name of the annotation at node `i`: the last part of a qualified name.
pub open spec fn simple_name(t: TreeView, i: int) -> Option<Seq<char>> {
    match t.field_child(i, "name"@) {
        Some(n) => path_end(t, n),
        None => None,
    }
}

/// The annotation at node `i`, where it is one and has a name.
pub open spec fn annotation_at(t: TreeView, i: int) -> Option<AnnotationView> {
    if t.kind(i) == "marker_annotation"@ || t.kind(i) == "annotation"@ {
        match simple_name(t, i) {
            Some(name) => Some(
                AnnotationView {
                    name,
                    arguments: if t.kind(i) == "marker_annotation"@ {
                        None
                    } else {
                        t.field_child(i, "arguments"@)
                    },
                },
            ),
            None => None,
        }
    } else {
        None
    }
}

/// The annotations among `nodes`, in order.
pub open spec fn annotations_among(t: TreeView, nodes: Seq<int>) -> Seq<AnnotationView>
    decreases nodes.len(),
{
    if nodes.len() == 0 {
        Seq::empty()
    } else {
        let before = annotations_among(t, nodes.drop_last());
        match annotation_at(t, nodes.last()) {
            Some(a) => before.push(a),
            None => before,
        }
    }
}

/// The annotations on the declaration at node `i`: those among its modifiers.
pub open spec fn annotations(t: TreeView, i: int) -> Seq<AnnotationView> {
    match t.kind_child(i, "modifiers"@) {
        Some(m) => annotations_among(t, t.children(m)),
        None => Seq::empty(),
    }
}

/// The first of `list` with the name `name`.
pub open spec fn first_annotation(list: Seq<AnnotationView>, name: Seq<char>) -> Option<
    AnnotationView,
>
    decreases list.len(),
{
    if list.len() == 0 {
        None
    } else if list[0].name == name {
        Some(list[0])
    } else {
        first_annotation(list.skip(1), name)
    }
}

/// The text of a string literal with the parts `parts`: theirs, joined.
pub open spec fn literal_text(t: TreeView, parts: Seq<int>) -> Seq<char>
    decreases parts.len(),
{
    if parts.len() == 0 {
        Seq::empty()
    } else {
        let before = literal_text(t, parts.drop_last());
        match t.text(parts.last()) {
            Some(part) => before + part,
            None => before,
        }
    }
}

/// The strings the value at node `i` holds: its own where it is a string literal, those of its elements
/// where it is an array, none where it is anything else.
pub open spec fn string_values(t: TreeView, i: int) -> Seq<Seq<char>>
    decreases t.len() - i, t.named_children(i).len() + 1,
{
    if t.kind(i) == "string_literal"@ {
        seq![literal_text(t, t.named_children(i))]
    } else if t.kind(i) == "element_value_array_initializer"@ {
        string_values_of_children(t, i, t.named_children(i).len() as int)
    } else {
        Seq::empty()
    }
}

/// The strings the first `n` named children of node `i` hold.
pub open spec fn string_values_of_children(t: TreeView, i: int, n: int) -> Seq<Seq<char>>
    decreases t.len() - i, n,
{
    if n <= 0 || n > t.named_children(i).len() {
        Seq::empty()
    } else {
        proof {
            lemma_named_children(t, i);
        }
        string_values_of_children(t, i, n - 1) + string_values(t, t.named_children(i)[n - 1])
    }
}

/// The strings that stand as bare arguments: `@Foo("x")` and `@Foo({"x", "y"})`.
pub open spec fn bare_values(t: TreeView, arguments: Option<int>) -> Seq<Seq<char>> {
    match arguments {
        Some(args) => string_values_of_children(t, args, t.named_children(args).len() as int),
        None => Seq::empty(),
    }
}

/// Whether node `i` is a named argument under one of `keys`.
pub open spec fn is_pair_of(t: TreeView, i: int, keys: Seq<Seq<char>>) -> bool {
    t.kind(i) == "element_value_pair"@ && t.field_text(i, "key"@) is Some && keys.contains(
        t.field_text(i, "key"@)->0,
    )
}

/// The first of `nodes` that is a named argument under one of `keys`.
pub open spec fn pair_among(t: TreeView, nodes: Seq<int>, keys: Seq<Seq<char>>) -> Option<int>
    decreases nodes.len(),
{
    if nodes.len() == 0 {
        None
    } else if is_pair_of(t, nodes[0], keys) {
        Some(nodes[0])
    } else {
        pair_among(t, nodes.skip(1), keys)
    }
}

/// The first named argument under one of `keys`, in the order of the arguments.
pub open spec fn named_pair(t: TreeView, arguments: Option<int>, keys: Seq<Seq<char>>) -> Option<int> {
    match arguments {
        Some(args) => pair_among(t, t.named_children(args), keys),
        None => None,
    }
}

/// The named argument under the first of `keys` that has one.
pub open spec fn pair_of_first_key(
    t: TreeView,
    arguments: Option<int>,
    keys: Seq<Seq<char>>,
) -> Option<int>
    decreases keys.len(),
{
    if keys.len() == 0 {
        None
    } else {
        match named_pair(t, arguments, seq![keys[0]]) {
            Some(pair) => Some(pair),
            None => pair_of_first_key(t, arguments, keys.skip(1)),
        }
    }
}

/// The strings that a named argument gives: `@Foo(key = "x")`.
pub open spec fn pair_strings(t: TreeView, pair: Option<int>) -> Seq<Seq<char>> {
    match pair {
        Some(p) => match t.field_child(p, "value"@) {
            Some(value) => string_values(t, value),
            None => Seq::empty(),
        },
        None => Seq::empty(),
    }
}

/// The strings of the named argument under one of `keys`. The first key that has an argument is tried
/// first; where that argument gives no string, the one that is written first counts.
pub open spec fn named_values(t: TreeView, arguments: Option<int>, keys: Seq<Seq<char>>) -> Seq<
    Seq<char>,
> {
    let preferred = pair_strings(t, pair_of_first_key(t, arguments, keys));
    if preferred.len() > 0 {
        preferred
    } else {
        pair_strings(t, named_pair(t, arguments, keys))
    }
}

/// The last name of the constant that the named argument `key` gives: `@Foo(key = Bar.BAZ)`.
pub open spec fn constant_tail(t: TreeView, arguments: Option<int>, key: Seq<char>) -> Option<
    Seq<char>,
> {
    match named_pair(t, arguments, seq![key]) {
        Some(pair) => match t.field_child(pair, "value"@) {
            Some(value) => if t.kind(value) == "field_access"@ {
                t.field_text(value, "field"@)
            } else if t.kind(value) == "identifier"@ {
                t.text(value)
            } else {
                None
            },
            None => None,
        },
        None => None,
    }
}

/// The simple name of the annotation at `node`.
pub fn annotation_name(tree: &SyntaxTree<'_>, node: usize) -> (name: Option<String>)
    requires
        node < tree@.len(),
    ensures
        opt_text(name) == simple_name(tree@, node as int),
{
    match tree.field_child(node, "name") {
        Some(n) => path_tail(tree, n),
        None => None,
    }
}

fn opt_annotation(tree: &SyntaxTree<'_>, node: usize) -> (a: Option<Annotation>)
    requires
        node < tree@.len(),
    ensures
        annotation_at(tree@, node as int) == (match a {
            Some(x) => Some(x@),
            None => None,
        }),
        a matches Some(x) ==> (x.arguments matches Some(args) ==> args < tree@.len()),
{
    let marker = tree.is_kind(node, "marker_annotation");
    if !marker && !tree.is_kind(node, "annotation") {
        return None;
    }
    match annotation_name(tree, node) {
        Some(name) => {
            let arguments = if marker {
                None
            } else {
                tree.field_child(node, "arguments")
            };
            Some(Annotation { name, arguments })
        },
        None => None,
    }
}

/// The annotations on the declaration at `node`.
pub fn annotations_of(tree: &SyntaxTree<'_>, node: usize) -> (list: Vec<Annotation>)
    requires
        node < tree@.len(),
    ensures
        annotation_views(list@) == annotations(tree@, node as int),
        arguments_within(list@, tree@.len()),
{
    let ghost t = tree@;
    let mut out: Vec<Annotation> = Vec::new();
    let modifiers = match tree.kind_child(node, "modifiers") {
        Some(m) => m,
        None => {
            assert(annotation_views(out@) =~= Seq::empty());
            return out;
        },
    };
    let kids = tree.children(modifiers);
    let ghost all = t.children(modifiers as int);
    let mut k: usize = 0;
    assert(annotation_views(out@) =~= annotations_among(t, all.take(0)));
    while k < kids.len()
        invariant
            t == tree@,
            modifiers < t.len(),
            all == t.children(modifiers as int),
            k <= kids@.len(),
            same_indices(kids@, all),
            forall|j: int| 0 <= j < kids@.len() ==> modifiers < #[trigger] kids@[j] < t.len(),
            annotation_views(out@) == annotations_among(t, all.take(k as int)),
            arguments_within(out@, t.len()),
        decreases kids.len() - k,
    {
        let c = kids[k];
        assert(all.take(k + 1).drop_last() =~= all.take(k as int));
        assert(all.take(k + 1).last() == c as int);
        let ghost before = annotation_views(out@);
        if let Some(a) = opt_annotation(tree, c) {
            out.push(a);
            assert(annotation_views(out@) =~= before.push(a@));
        }
        k = k + 1;
    }
    assert(all.take(k as int) =~= all);
    out
}

/// Appends the strings the value at `node` holds.
pub fn collect_string_values(tree: &SyntaxTree<'_>, node: usize, out: &mut Vec<String>)
    requires
        node < tree@.len(),
    ensures
        texts(final(out)@) == texts(old(out)@) + string_values(tree@, node as int),
    decreases tree@.len() - node, 1nat,
{
    let ghost before = texts(out@);
    if tree.is_kind(node, "string_literal") {
        out.push(string_literal_text(tree, node));
        assert(texts(out@) =~= before + string_values(tree@, node as int));
    } else if tree.is_kind(node, "element_value_array_initializer") {
        collect_values_of_children(tree, node, out);
    } else {
        assert(texts(out@) =~= before + string_values(tree@, node as int));
    }
}

fn collect_values_of_children(tree: &SyntaxTree<'_>, node: usize, out: &mut Vec<String>)
    requires
        node < tree@.len(),
    ensures
        texts(final(out)@) == texts(old(out)@) + string_values_of_children(
            tree@,
            node as int,
            tree@.named_children(node as int).len() as int,
        ),
    decreases tree@.len() - node, 0nat,
{
    let ghost t = tree@;
    let ghost before = texts(out@);
    let named = tree.named_children(node);
    let mut k: usize = 0;
    assert(texts(out@) =~= before + string_values_of_children(t, node as int, 0));
    while k < named.len()
        invariant
            t == tree@,
            node < t.len(),
            k <= named@.len(),
            same_indices(named@, t.named_children(node as int)),
            forall|j: int| 0 <= j < named@.len() ==> node < #[trigger] named@[j] < t.len(),
            texts(out@) == before + string_values_of_children(t, node as int, k as int),
        decreases named.len() - k,
    {
        collect_string_values(tree, named[k], out);
        assert(texts(out@) =~= before + string_values_of_children(t, node as int, k + 1));
        k = k + 1;
    }
}

/// The text of the string literal at `node`.
pub fn string_literal_text(tree: &SyntaxTree<'_>, node: usize) -> (s: String)
    requires
        node < tree@.len(),
    ensures
        s@ == literal_text(tree@, tree@.named_children(node as int)),
{
    let ghost t = tree@;
    let named = tree.named_children(node);
    let ghost all = t.named_children(node as int);
    let mut out = String::new();
    let mut k: usize = 0;
    assert(out@ =~= literal_text(t, all.take(0)));
    while k < named.len()
        invariant
            t == tree@,
            node < t.len(),
            k <= named@.len(),
            same_indices(named@, all),
            forall|j: int| 0 <= j < named@.len() ==> node < #[trigger] named@[j] < t.len(),
            out@ == literal_text(t, all.take(k as int)),
        decreases named.len() - k,
    {
        let c = named[k];
        assert(all.take(k + 1).drop_last() =~= all.take(k as int));
        assert(all.take(k + 1).last() == c as int);
        if let Some(part) = tree.text(c) {
            out.append(part.as_str());
        }
        k = k + 1;
    }
    assert(all.take(k as int) =~= all);
    out
}

/// The strings that stand as bare arguments.
pub fn bare_string_values(tree: &SyntaxTree<'_>, arguments: Option<usize>) -> (out: Vec<String>)
    requires
        arguments matches Some(a) ==> a < tree@.len(),
    ensures
        texts(out@) == bare_values(tree@, opt_index(arguments)),
{
    let mut out: Vec<String> = Vec::new();
    if let Some(args) = arguments {
        collect_values_of_children(tree, args, &mut out);
    }
    assert(texts(out@) =~= bare_values(tree@, opt_index(arguments)));
    out
}

fn is_listed(keys: &[&str], key: &str) -> (r: bool)
    ensures
        r == str_texts(keys@).contains(key@),
{
    let mut i: usize = 0;
    while i < keys.len()
        invariant
            i <= keys@.len(),
            forall|k: int| 0 <= k < i ==> str_texts(keys@)[k] != key@,
        decreases keys.len() - i,
    {
        if same(keys[i], key) {
            assert(str_texts(keys@)[i as int] == key@);
            return true;
        }
        i = i + 1;
    }
    false
}

/// The first named argument under one of `keys`, in the order of the arguments.
pub fn find_named_pair(tree: &SyntaxTree<'_>, arguments: Option<usize>, keys: &[&str]) -> (r: Option<
    usize,
>)
    requires
        arguments matches Some(a) ==> a < tree@.len(),
    ensures
        opt_index(r) == named_pair(tree@, opt_index(arguments), str_texts(keys@)),
        r matches Some(p) ==> p < tree@.len(),
{
    let ghost t = tree@;
    let ghost wanted = str_texts(keys@);
    let args = match arguments {
        Some(args) => args,
        None => {
            return None;
        },
    };
    let named = tree.named_children(args);
    let ghost all = t.named_children(args as int);
    let mut k: usize = 0;
    assert(all.skip(0) =~= all);
    while k < named.len()
        invariant
            t == tree@,
            wanted == str_texts(keys@),
            arguments == Some(args),
            k <= named@.len(),
            all == t.named_children(args as int),
            same_indices(named@, all),
            forall|j: int| 0 <= j < named@.len() ==> args < #[trigger] named@[j] < t.len(),
            pair_among(t, all, wanted) == pair_among(t, all.skip(k as int), wanted),
        decreases named.len() - k,
    {
        let c = named[k];
        assert(all.skip(k as int)[0] == all[k as int]);
        assert(all.skip(k as int).skip(1) =~= all.skip(k + 1));
        if tree.is_kind(c, "element_value_pair") {
            if let Some(found) = tree.field_text(c, "key") {
                if is_listed(keys, found.as_str()) {
                    return Some(c);
                }
            }
        }
        k = k + 1;
    }
    None
}

/// The named argument under the first of `keys` that has one.
fn find_pair_of_first_key(tree: &SyntaxTree<'_>, arguments: Option<usize>, keys: &[&str]) -> (r: Option<
    usize,
>)
    requires
        arguments matches Some(a) ==> a < tree@.len(),
    ensures
        opt_index(r) == pair_of_first_key(tree@, opt_index(arguments), str_texts(keys@)),
        r matches Some(p) ==> p < tree@.len(),
{
    let ghost t = tree@;
    let ghost args = opt_index(arguments);
    let ghost wanted = str_texts(keys@);
    let mut k: usize = 0;
    assert(wanted.skip(0) =~= wanted);
    while k < keys.len()
        invariant
            t == tree@,
            args == opt_index(arguments),
            arguments matches Some(a) ==> a < t.len(),
            k <= keys@.len(),
            wanted == str_texts(keys@),
            pair_of_first_key(t, args, wanted) == pair_of_first_key(
                t,
                args,
                wanted.skip(k as int),
            ),
        decreases keys.len() - k,
    {
        assert(wanted.skip(k as int)[0] == keys@[k as int]@);
        assert(wanted.skip(k as int).skip(1) =~= wanted.skip(k + 1));
        let key = [keys[k]];
        assert(str_texts(key@) =~= seq![keys@[k as int]@]);
        let found = find_named_pair(tree, arguments, &key);
        if found.is_some() {
            return found;
        }
        k = k + 1;
    }
    None
}

fn strings_of_pair(tree: &SyntaxTree<'_>, pair: Option<usize>) -> (out: Vec<String>)
    requires
        pair matches Some(p) ==> p < tree@.len(),
    ensures
        texts(out@) == pair_strings(tree@, opt_index(pair)),
{
    let mut out: Vec<String> = Vec::new();
    if let Some(p) = pair {
        if let Some(value) = tree.field_child(p, "value") {
            collect_string_values(tree, value, &mut out);
        }
    }
    assert(texts(out@) =~= pair_strings(tree@, opt_index(pair)));
    out
}

/// The strings of the named argument under one of `keys`. The first key that has an argument is tried
/// first; where that argument gives no string, the one that is written first counts.
pub fn named_string_values(
    tree: &SyntaxTree<'_>,
    arguments: Option<usize>,
    keys: &[&str],
) -> (out: Vec<String>)
    requires
        arguments matches Some(a) ==> a < tree@.len(),
    ensures
        texts(out@) == named_values(tree@, opt_index(arguments), str_texts(keys@)),
{
    let preferred = strings_of_pair(tree, find_pair_of_first_key(tree, arguments, keys));
    assert(texts(preferred@).len() == preferred@.len());
    if preferred.len() > 0 {
        preferred
    } else {
        strings_of_pair(tree, find_named_pair(tree, arguments, keys))
    }
}

/// The last name of the constant that the named argument `key` gives.
pub fn named_identifier_tail(tree: &SyntaxTree<'_>, arguments: Option<usize>, key: &str) -> (r: Option<
    String,
>)
    requires
        arguments matches Some(a) ==> a < tree@.len(),
    ensures
        opt_text(r) == constant_tail(tree@, opt_index(arguments), key@),
{
    let keys = [key];
    assert(str_texts(keys@) =~= seq![key@]);
    let pair = match find_named_pair(tree, arguments, &keys) {
        Some(pair) => pair,
        None => {
            return None;
        },
    };
    let value = match tree.field_child(pair, "value") {
        Some(value) => value,
        None => {
            return None;
        },
    };
    if tree.is_kind(value, "field_access") {
        tree.field_text(value, "field")
    } else if tree.is_kind(value, "identifier") {
        tree.text(value)
    } else {
        None
    }
}

/// The first of `list` with the name `name`.
pub fn find_annotation<'a>(list: &'a Vec<Annotation>, name: &str) -> (r: Option<&'a Annotation>)
    ensures
        first_annotation(annotation_views(list@), name@) == (match r {
            Some(a) => Some(a@),
            None => None,
        }),
        r matches Some(a) ==> list@.contains(*a),
{
    let ghost all = annotation_views(list@);
    let mut k: usize = 0;
    assert(all.skip(0) =~= all);
    while k < list.len()
        invariant
            all == annotation_views(list@),
            k <= list@.len(),
            first_annotation(all, name@) == first_annotation(all.skip(k as int), name@),
        decreases list.len() - k,
    {
        assert(all.skip(k as int)[0] == all[k as int]);
        assert(all.skip(k as int).skip(1) =~= all.skip(k + 1));
        if same(list[k].name.as_str(), name) {
            return Some(&list[k]);
        }
        k = k + 1;
    }
    None
}

} // verus!
