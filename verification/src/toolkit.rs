//! The language support, the chunker and the PDF reader that an indexer works with.
use crate::graph::emit::{Definition, TaggedSymbols};
use std::collections::HashMap;
use vstd::prelude::*;
use vstd::string::*;

verus! {

/// How the symbols of a language are told.
#[derive(Debug, Clone, Copy, PartialEq, Eq)]
pub enum GraphStrategy {
    /// By a table of definitions and the shape of call expressions, as for Rust.
    RustNative,
    /// By tables of definitions and calls.
    Tags,
}

/// What came of reading a PDF.
#[derive(Debug, Clone)]
pub enum PdfOutcome {
    /// Its text.
    Text(String),
    /// It is over the reader's size limit.
    TooLarge,
    /// It could not be read, and why.
    Failed(String),
}

/// What an indexer leaves to others: to know languages and parse them, to cut text into chunks, and to
/// read PDFs. Nothing is promised of the answers.
pub trait Toolkit {
    /// How text is cut into chunks.
    type Tuning: Copy;

    /// One piece of indexed text.
    type Chunk;

    /// The language of a path, by its name.
    fn from_path(&self, path: &str) -> Option<String>;

    /// Whether a graph can be built for a language.
    fn has_graph(&self, language: &str) -> bool;

    /// How the symbols of a language are told.
    fn graph_strategy(&self, language: &str) -> Option<GraphStrategy>;

    /// The syntax tree of a source text.
    fn parse(&self, source: &str, language: &str) -> Option<tree_sitter::Tree>;

    /// The definitions of a tree, by document order of their nodes.
    fn definitions(&self, tree: &tree_sitter::Tree, source: &str) -> HashMap<usize, Definition>;

    /// The definitions and calls of a tree, by document order of their nodes.
    fn tags(&self, language: &str, tree: &tree_sitter::Tree, source: &str) -> Option<TaggedSymbols>;

    /// The text of a PDF.
    fn extract_pdf(&self, content: &[u8]) -> PdfOutcome;

    /// The chunks of a text without structure.
    fn chunk_text(&self, path: &str, text: &str, language: &str, tuning: Self::Tuning) -> Vec<
        Self::Chunk,
    >;

    /// The chunks of a parsed source.
    fn chunk_tree(
        &self,
        tree: &tree_sitter::Tree,
        path: &str,
        source: &str,
        language: &str,
        tuning: Self::Tuning,
    ) -> Vec<Self::Chunk>;

    /// The chunks of a source that is not parsed yet.
    fn chunk_file(&self, path: &str, source: &str, language: &str, tuning: Self::Tuning) -> Vec<
        Self::Chunk,
    >;
}

// -------------------------------------------------------------------------------------------------
// Answers
//
// Each function below says that a value is what the toolkit may answer to a question about given text.
// -------------------------------------------------------------------------------------------------
/// `from_path` may answer `r` for the path `path`.
pub open spec fn detects<K: Toolkit>(k: K, path: Seq<char>, r: Option<String>) -> bool {
    exists|p: &str| p@ == path && #[trigger] call_ensures(K::from_path, (&k, p), r)
}

/// `has_graph` may answer `r` for `language`.
pub open spec fn supports<K: Toolkit>(k: K, language: Seq<char>, r: bool) -> bool {
    exists|l: &str| l@ == language && #[trigger] call_ensures(K::has_graph, (&k, l), r)
}

/// `graph_strategy` may answer `r` for `language`.
pub open spec fn tells_by<K: Toolkit>(k: K, language: Seq<char>, r: Option<GraphStrategy>) -> bool {
    exists|l: &str| l@ == language && #[trigger] call_ensures(K::graph_strategy, (&k, l), r)
}

/// `parse` may answer `r` for `source` in `language`.
pub open spec fn parses<K: Toolkit>(
    k: K,
    source: Seq<char>,
    language: Seq<char>,
    r: Option<tree_sitter::Tree>,
) -> bool {
    exists|s: &str, l: &str|
        s@ == source && l@ == language && #[trigger] call_ensures(K::parse, (&k, s, l), r)
}

/// `definitions` may answer `r` for `tree`, parsed from `source`.
pub open spec fn defines<K: Toolkit>(
    k: K,
    tree: tree_sitter::Tree,
    source: Seq<char>,
    r: HashMap<usize, Definition>,
) -> bool {
    exists|s: &str| s@ == source && #[trigger] call_ensures(K::definitions, (&k, &tree, s), r)
}

/// `tags` may answer `r` for `tree`, parsed from `source` in `language`.
pub open spec fn tags_as<K: Toolkit>(
    k: K,
    language: Seq<char>,
    tree: tree_sitter::Tree,
    source: Seq<char>,
    r: Option<TaggedSymbols>,
) -> bool {
    exists|s: &str, l: &str|
        s@ == source && l@ == language && #[trigger] call_ensures(K::tags, (&k, l, &tree, s), r)
}

/// `extract_pdf` may answer `r` for `content`.
pub open spec fn reads_pdf<K: Toolkit>(k: K, content: Seq<u8>, r: PdfOutcome) -> bool {
    exists|b: &[u8]| b@ == content && #[trigger] call_ensures(K::extract_pdf, (&k, b), r)
}

/// `chunk_text` may answer `r` for the text `text` of `path` in `language`.
pub open spec fn chunks_text<K: Toolkit>(
    k: K,
    path: Seq<char>,
    text: Seq<char>,
    language: Seq<char>,
    tuning: K::Tuning,
    r: Seq<K::Chunk>,
) -> bool {
    exists|p: &str, s: &str, l: &str, v: Vec<K::Chunk>|
        p@ == path && s@ == text && l@ == language && v@ == r && #[trigger] call_ensures(
            K::chunk_text,
            (&k, p, s, l, tuning),
            v,
        )
}

/// `chunk_tree` may answer `r` for `tree`, parsed from the source `source` of `path` in `language`.
pub open spec fn chunks_tree<K: Toolkit>(
    k: K,
    tree: tree_sitter::Tree,
    path: Seq<char>,
    source: Seq<char>,
    language: Seq<char>,
    tuning: K::Tuning,
    r: Seq<K::Chunk>,
) -> bool {
    exists|p: &str, s: &str, l: &str, v: Vec<K::Chunk>|
        p@ == path && s@ == source && l@ == language && v@ == r && #[trigger] call_ensures(
            K::chunk_tree,
            (&k, &tree, p, s, l, tuning),
            v,
        )
}

/// `chunk_file` may answer `r` for the source `source` of `path` in `language`.
pub open spec fn chunks_file<K: Toolkit>(
    k: K,
    path: Seq<char>,
    source: Seq<char>,
    language: Seq<char>,
    tuning: K::Tuning,
    r: Seq<K::Chunk>,
) -> bool {
    exists|p: &str, s: &str, l: &str, v: Vec<K::Chunk>|
        p@ == path && s@ == source && l@ == language && v@ == r && #[trigger] call_ensures(
            K::chunk_file,
            (&k, p, s, l, tuning),
            v,
        )
}

/// Each answer the indexer goes by was given to the very question it stands for: to the path, the
/// language, the source, the tree, the content and the tuning that it is an answer about.
pub proof fn answers_are_to_their_own_questions<K: Toolkit>(
    k: K,
    path: Seq<char>,
    language: Seq<char>,
    source: Seq<char>,
    content: Seq<u8>,
    tree: tree_sitter::Tree,
    tuning: K::Tuning,
)
    ensures
        forall|r: Option<String>| #[trigger]
            detects(k, path, r) ==> exists|p: &str|
                p@ == path && #[trigger] call_ensures(K::from_path, (&k, p), r),
        forall|r: bool| #[trigger]
            supports(k, language, r) ==> exists|l: &str|
                l@ == language && #[trigger] call_ensures(K::has_graph, (&k, l), r),
        forall|r: Option<GraphStrategy>| #[trigger]
            tells_by(k, language, r) ==> exists|l: &str|
                l@ == language && #[trigger] call_ensures(K::graph_strategy, (&k, l), r),
        forall|r: Option<tree_sitter::Tree>| #[trigger]
            parses(k, source, language, r) ==> exists|s: &str, l: &str|
                s@ == source && l@ == language && #[trigger] call_ensures(K::parse, (&k, s, l), r),
        forall|r: HashMap<usize, Definition>| #[trigger]
            defines(k, tree, source, r) ==> exists|s: &str|
                s@ == source && #[trigger] call_ensures(K::definitions, (&k, &tree, s), r),
        forall|r: Option<TaggedSymbols>| #[trigger]
            tags_as(k, language, tree, source, r) ==> exists|s: &str, l: &str|
                s@ == source && l@ == language && #[trigger] call_ensures(
                    K::tags,
                    (&k, l, &tree, s),
                    r,
                ),
        forall|r: PdfOutcome| #[trigger]
            reads_pdf(k, content, r) ==> exists|b: &[u8]|
                b@ == content && #[trigger] call_ensures(K::extract_pdf, (&k, b), r),
        forall|r: Seq<K::Chunk>| #[trigger]
            chunks_text(k, path, source, language, tuning, r) ==> exists|
                p: &str,
                s: &str,
                l: &str,
                v: Vec<K::Chunk>,
            |
                p@ == path && s@ == source && l@ == language && v@ == r && #[trigger] call_ensures(
                    K::chunk_text,
                    (&k, p, s, l, tuning),
                    v,
                ),
        forall|r: Seq<K::Chunk>| #[trigger]
            chunks_tree(k, tree, path, source, language, tuning, r) ==> exists|
                p: &str,
                s: &str,
                l: &str,
                v: Vec<K::Chunk>,
            |
                p@ == path && s@ == source && l@ == language && v@ == r && #[trigger] call_ensures(
                    K::chunk_tree,
                    (&k, &tree, p, s, l, tuning),
                    v,
                ),
        forall|r: Seq<K::Chunk>| #[trigger]
            chunks_file(k, path, source, language, tuning, r) ==> exists|
                p: &str,
                s: &str,
                l: &str,
                v: Vec<K::Chunk>,
            |
                p@ == path && s@ == source && l@ == language && v@ == r && #[trigger] call_ensures(
                    K::chunk_file,
                    (&k, p, s, l, tuning),
                    v,
                ),
{
}

} // verus!
