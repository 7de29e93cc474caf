//! A structural code graph out of source files: definitions, what contains what, and what calls what
//! across files, with what Spring adds to Java.
pub mod graph;
pub mod input;
pub mod model;
pub mod order;
pub mod spring;
pub mod syntax;
pub mod text;
pub mod toolkit;

pub use graph::emit::extract_file;
pub use graph::resolve::resolve;
pub use graph::FileSymbols;
pub use input::{index_inputs, IndexOptions, IndexOutput, IndexStats, Indexer, RawInput};
pub use model::{def_node_id, FrameworkCallTarget, FrameworkFacts, Graph, GraphEdge, GraphNode};
pub use spring::extract_facts;
