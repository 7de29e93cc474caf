//! The structural code graph: the symbols of each file, and their resolution into one graph.
//!
//! A file's symbols are its nodes (one for the file, one for each definition), the edges that say what
//! contains what, its callable definitions and its call sites. Definitions and call sites come as
//! tables over the nodes of the file's syntax tree, so one walk serves every language.
pub mod callee;
pub mod canon;
pub mod emit;
pub mod laws;
pub mod listing;
pub mod reading;
pub mod resolve;
pub mod settling;

use crate::model::{edge_views, node_views, EdgeView, GraphEdge, GraphNode, NodeView, TargetView};
use crate::text::{opt_text, texts};
use vstd::prelude::*;

verus! {

/// The structural facts of one file: its nodes, its `contains` and `method` edges, its call sites and
/// its callable definitions.
#[derive(Debug)]
pub struct FileSymbols {
    pub nodes: Vec<GraphNode>,
    pub contains: Vec<GraphEdge>,
    pub calls: Vec<CallSite>,
    pub callables: Vec<Callable>,
}

/// A function or method that a call can resolve to.
#[derive(Debug, Clone)]
pub struct Callable {
    pub name: String,
    pub node_id: String,
    /// The name of the enclosing type; none for a free function.
    pub scope: Option<String>,
    /// The names of what the enclosing type extends or implements.
    pub scope_supers: Vec<String>,
}

/// A call that is not resolved yet: the definition it stands in, the callee's bare name, and what the
/// call qualifies it by.
#[derive(Debug, Clone)]
pub struct CallSite {
    pub caller: String,
    pub name: String,
    pub qualifier: Option<String>,
}

/// The mathematical value of a [`CallSite`].
#[verifier::ext_equal]
pub struct CallView {
    pub caller: Seq<char>,
    pub name: Seq<char>,
    pub qualifier: Option<Seq<char>>,
}

/// The mathematical value of [`FileSymbols`].
#[verifier::ext_equal]
pub struct SymbolsView {
    pub nodes: Seq<NodeView>,
    pub contains: Seq<EdgeView>,
    pub calls: Seq<CallView>,
    pub callables: Seq<TargetView>,
}

impl View for Callable {
    type V = TargetView;

    open spec fn view(&self) -> TargetView {
        TargetView {
            name: self.name@,
            node_id: self.node_id@,
            scope: opt_text(self.scope),
            scope_supers: texts(self.scope_supers@),
        }
    }
}

impl View for CallSite {
    type V = CallView;

    open spec fn view(&self) -> CallView {
        CallView { caller: self.caller@, name: self.name@, qualifier: opt_text(self.qualifier) }
    }
}

/// The values of a list of callables.
pub open spec fn callable_views(callables: Seq<Callable>) -> Seq<TargetView> {
    callables.map_values(|c: Callable| c@)
}

/// The values of a list of call sites.
pub open spec fn call_views(calls: Seq<CallSite>) -> Seq<CallView> {
    calls.map_values(|c: CallSite| c@)
}

/// The values of the symbols of several files.
pub open spec fn symbol_views(files: Seq<FileSymbols>) -> Seq<SymbolsView> {
    files.map_values(|f: FileSymbols| f@)
}

impl View for FileSymbols {
    type V = SymbolsView;

    open spec fn view(&self) -> SymbolsView {
        SymbolsView {
            nodes: node_views(self.nodes@),
            contains: edge_views(self.contains@),
            calls: call_views(self.calls@),
            callables: callable_views(self.callables@),
        }
    }
}

impl SymbolsView {
    /// No symbols at all.
    pub open spec fn empty() -> SymbolsView {
        SymbolsView {
            nodes: Seq::empty(),
            contains: Seq::empty(),
            calls: Seq::empty(),
            callables: Seq::empty(),
        }
    }
}

impl Default for FileSymbols {
    fn default() -> (r: FileSymbols)
        ensures
            r@ == SymbolsView::empty(),
    {
        let r = FileSymbols {
            nodes: Vec::new(),
            contains: Vec::new(),
            calls: Vec::new(),
            callables: Vec::new(),
        };
        assert(r@ =~= SymbolsView::empty());
        r
    }
}

} // verus!
