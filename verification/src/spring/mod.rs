//! What Spring adds to the graph of a Java file: HTTP routes, the services its Feign clients call, and
//! its repository methods as call targets.
pub mod annotation;
pub mod feign;
pub mod java_type;
pub mod bringing;
pub mod laws;
pub mod reading;
pub mod repository;
pub mod route;

use self::feign::client_facts;
use self::repository::repository_facts;
use self::route::class_routes;
use crate::model::{FactsView, FrameworkFacts};
use crate::syntax::{parsed_view, ranges_fit, same_indices, tree_rows, SyntaxTree, TreeView};
use crate::text::{contains_part, holds_part};
use vstd::prelude::*;
use vstd::string::*;
use vstd::utf8::*;

verus! {

/// Whether node `i` is an import of Spring or of Jakarta persistence.
pub open spec fn framework_import(t: TreeView, i: int) -> bool {
    &&& t.kind(i) == "import_declaration"@
    &&& t.text(i) is Some
    &&& holds_part(t.text(i)->0, "org.springframework"@) || holds_part(
        t.text(i)->0,
        "jakarta.persistence"@,
    )
}

/// Whether a file imports Spring or Jakarta persistence.
pub open spec fn uses_framework(t: TreeView) -> bool {
    exists|k: int| 0 <= k < t.children(0).len() && framework_import(t, #[trigger] t.children(0)[k])
}

/// What node `i` of the file `file` adds: a class its routes; an interface what it is as a Feign client,
/// then what it is as a repository.
pub open spec fn node_facts(t: TreeView, i: int, file: Seq<char>) -> FactsView {
    if t.kind(i) == "class_declaration"@ {
        class_routes(t, i, file)
    } else if t.kind(i) == "interface_declaration"@ {
        client_facts(t, i, file).then_add(repository_facts(t, i, file))
    } else {
        FactsView::empty()
    }
}

/// What the first `n` nodes of the file `file` add, in document order.
pub open spec fn facts_of_first(t: TreeView, file: Seq<char>, n: int) -> FactsView
    decreases n,
{
    if n <= 0 {
        FactsView::empty()
    } else {
        facts_of_first(t, file, n - 1).then_add(node_facts(t, n - 1, file))
    }
}

/// What Spring adds to the file `file`: nothing unless the file imports it.
pub open spec fn spring_facts(t: TreeView, file: Seq<char>) -> FactsView {
    if uses_framework(t) {
        facts_of_first(t, file, t.len())
    } else {
        FactsView::empty()
    }
}

/// Whether the file imports Spring or Jakarta persistence.
pub fn imports_spring_or_jakarta(tree: &SyntaxTree<'_>) -> (r: bool)
    ensures
        r == uses_framework(tree@),
{
    let ghost t = tree@;
    let _ = tree.len();
    let kids = tree.children(0);
    let mut k: usize = 0;
    while k < kids.len()
        invariant
            t == tree@,
            k <= kids@.len(),
            same_indices(kids@, t.children(0)),
            forall|j: int| 0 <= j < kids@.len() ==> 0 < #[trigger] kids@[j] < t.len(),
            forall|j: int| 0 <= j < k ==> !framework_import(t, #[trigger] t.children(0)[j]),
        decreases kids.len() - k,
    {
        let c = kids[k];
        assert(t.children(0)[k as int] == c as int);
        if tree.is_kind(c, "import_declaration") {
            if let Some(text) = tree.text(c) {
                if contains_part(text.as_str(), "org.springframework") || contains_part(
                    text.as_str(),
                    "jakarta.persistence",
                ) {
                    assert(framework_import(t, t.children(0)[k as int]));
                    return true;
                }
            }
        }
        k = k + 1;
    }
    false
}

/// Adds what each node of the file adds.
fn walk(tree: &SyntaxTree<'_>, source_file: &str, facts: &mut FrameworkFacts)
    requires
        old(facts)@ == FactsView::empty(),
    ensures
        final(facts)@ == facts_of_first(tree@, source_file@, tree@.len()),
{
    let ghost t = tree@;
    let n = tree.len();
    let mut i: usize = 0;
    while i < n
        invariant
            t == tree@,
            n == t.len(),
            i <= n,
            facts@ == facts_of_first(t, source_file@, i as int),
        decreases n - i,
    {
        let ghost before = facts@;
        assert(before.then_add(FactsView::empty()) =~= before);
        if tree.is_kind(i, "class_declaration") {
            route::extract(tree, i, source_file, facts);
        } else if tree.is_kind(i, "interface_declaration") {
            feign::extract(tree, i, source_file, facts);
            repository::extract(tree, i, source_file, facts);
        }
        assert(facts@ =~= before.then_add(node_facts(t, i as int, source_file@)));
        i = i + 1;
    }
}

/// What Spring adds to the file `source_file` with the syntax tree `tree`.
pub fn extract_tree_facts(tree: &SyntaxTree<'_>, source_file: &str) -> (facts: FrameworkFacts)
    ensures
        facts@ == spring_facts(tree@, source_file@),
{
    let mut facts = FrameworkFacts::default();
    if imports_spring_or_jakarta(tree) {
        walk(tree, source_file, &mut facts);
    }
    facts
}

/// What Spring adds to the file `source_file`, which `tree_sitter` parsed from `source` into `tree`; none
/// where a node of `tree` covers bytes outside `source`.
pub fn try_extract_facts(tree: &tree_sitter::Tree, source: &str, source_file: &str) -> (facts: Option<
    FrameworkFacts,
>)
    ensures
        facts is Some <==> ranges_fit(tree_rows(*tree), encode_utf8(source@).len()),
        facts matches Some(f) ==> f@ == spring_facts(parsed_view(*tree, source@), source_file@),
{
    match SyntaxTree::new(tree, source.as_bytes()) {
        Some(syntax) => Some(extract_tree_facts(&syntax, source_file)),
        None => None,
    }
}

/// Whether the imports of a file cover bytes of its source.
pub open spec fn imports_fit(t: TreeView) -> bool {
    forall|k: int|
        0 <= k < t.children(0).len() && t.kind(#[trigger] t.children(0)[k]) == "import_declaration"@
            ==> t.rows[t.children(0)[k]].start <= t.rows[t.children(0)[k]].end
            && t.rows[t.children(0)[k]].end <= t.source.len()
}

/// What Spring adds to the file `source_file`, which `tree_sitter` parsed from `source` into `tree`. The
/// tree may be one of other text only where no more than its imports are read.
#[must_use]
pub fn extract_facts(tree: &tree_sitter::Tree, source: &str, source_file: &str) -> (facts:
    FrameworkFacts)
    requires
        ranges_fit(tree_rows(*tree), encode_utf8(source@).len()) || (imports_fit(
            parsed_view(*tree, source@),
        ) && !uses_framework(parsed_view(*tree, source@))),
    ensures
        facts@ == spring_facts(parsed_view(*tree, source@), source_file@),
{
    match try_extract_facts(tree, source, source_file) {
        Some(facts) => facts,
        None => FrameworkFacts::default(),
    }
}

} // verus!
