//! Java types by their simple names.
use crate::graph::callee::{collect_type_head_names, type_head, type_head_name, type_heads};
use crate::syntax::{SyntaxTree, TreeView};
use crate::text::{opt_text, texts};
use vstd::prelude::*;
use vstd::string::*;

verus! {

/// The simple name of the type at `node`.
pub fn simple_type_name(tree: &SyntaxTree<'_>, node: usize) -> (name: Option<String>)
    requires
        node < tree@.len(),
    ensures
        opt_text(name) == type_head(tree@, node as int),
{
    type_head_name(tree, node)
}

/// The simple names of the interfaces that the interface declared at node `i` extends.
pub open spec fn extended_names(t: TreeView, i: int) -> Seq<Seq<char>> {
    match t.kind_child(i, "extends_interfaces"@) {
        Some(c) => type_heads(t, c),
        None => Seq::empty(),
    }
}

/// The simple names of the interfaces that the interface declared at `interface` extends.
pub fn extends_interfaces_names(tree: &SyntaxTree<'_>, interface: usize) -> (names: Vec<String>)
    requires
        interface < tree@.len(),
    ensures
        texts(names@) == extended_names(tree@, interface as int),
{
    let mut names: Vec<String> = Vec::new();
    if let Some(extends) = tree.kind_child(interface, "extends_interfaces") {
        collect_type_head_names(tree, extends, &mut names);
    }
    assert(texts(names@) =~= extended_names(tree@, interface as int));
    names
}

} // verus!
