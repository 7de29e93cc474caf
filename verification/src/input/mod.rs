//! The indexing core: raw inputs in, chunks and a resolved graph out. It knows nothing of where the
//! inputs come from.
pub mod laws;

use crate::graph::emit::{extract_parsed, extracts};
use crate::graph::resolve::{counts_of, resolve_counted, resolves_to, ResolveCounts};
use crate::graph::{symbol_views, FileSymbols, SymbolsView};
use crate::model::{fact_views, FactsView, FrameworkFacts, Graph, GraphView};
use crate::spring::{extract_tree_facts, spring_facts};
use crate::syntax::{parsed_view, ranges_fit, tree_rows, SyntaxTree};
use crate::text::{
    chars_of, forward_slashes, opt_str, opt_text, same, utf8_text, with_forward_slashes,
    without_trailing_dots,
};
use crate::toolkit::{
    chunks_file, chunks_text, chunks_tree, detects, parses, reads_pdf, supports, PdfOutcome, Toolkit,
};
use std::borrow::Cow;
use vstd::prelude::*;
use vstd::string::*;
use vstd::utf8::*;

verus! {

/// The largest source text that is indexed, in bytes.
pub const MAX_FILE_BYTES: usize = 5_242_880;

/// The largest PDF that is read, in bytes.
pub const MAX_PDF_BYTES: usize = 5_242_880;

/// The largest input that [`Indexer::push`] takes on any path. A reader should apply it when it reads a
/// candidate, so that nothing larger is held in memory whole.
pub const MAX_INPUT_BYTES: usize = 5_242_880;

/// How many bytes at the front of a text are looked at for a NUL.
pub const SNIFFED_BYTES: usize = 512;

// -------------------------------------------------------------------------------------------------
// Inputs and options
// -------------------------------------------------------------------------------------------------
/// One raw input: a logical path and its bytes.
#[derive(Debug)]
pub struct RawInput<'a> {
    /// The logical path, which decides the language and goes into node ids. It need not exist.
    pub path: Cow<'a, str>,
    /// The bytes: UTF-8 text, or a PDF where the path says so.
    pub content: Cow<'a, [u8]>,
    /// The language, where the reader knows it; else the path decides.
    pub language: Option<Cow<'a, str>>,
}

fn copy_text<'a>(text: &Cow<'a, str>) -> (r: Cow<'a, str>)
    ensures
        r@ == text@,
{
    match text {
        Cow::Borrowed(s) => Cow::Borrowed(s),
        Cow::Owned(s) => Cow::Owned(s.clone()),
    }
}

fn copy_bytes<'a>(bytes: &Cow<'a, [u8]>) -> (r: Cow<'a, [u8]>)
    ensures
        r@ == bytes@,
{
    match bytes {
        Cow::Borrowed(b) => Cow::Borrowed(b),
        Cow::Owned(b) => {
            let c = b.clone();
            assert(c@ =~= b@);
            Cow::Owned(c)
        },
    }
}

impl<'a> Clone for RawInput<'a> {
    fn clone(&self) -> (r: RawInput<'a>)
        ensures
            r.path@ == self.path@,
            r.content@ == self.content@,
            stated_language(r.language) == stated_language(self.language),
    {
        let language = match &self.language {
            Some(l) => Some(copy_text(l)),
            None => None,
        };
        RawInput { path: copy_text(&self.path), content: copy_bytes(&self.content), language }
    }
}

/// The language an input states.
pub open spec fn stated_language(language: Option<Cow<'_, str>>) -> Option<Seq<char>> {
    match language {
        Some(l) => Some(l@),
        None => None,
    }
}

impl<'a> RawInput<'a> {
    /// An input of a path and its bytes, each borrowed or owned as it is given.
    pub fn new<P: Into<Cow<'a, str>>, C: Into<Cow<'a, [u8]>>>(path: P, content: C) -> (r: RawInput<
        'a,
    >)
        ensures
            call_ensures(<P as Into<Cow<'a, str>>>::into, (path,), r.path),
            call_ensures(<C as Into<Cow<'a, [u8]>>>::into, (content,), r.content),
            r.language is None,
    {
        RawInput { path: path.into(), content: content.into(), language: None }
    }

    /// An input of a path and its text, whose bytes are borrowed.
    #[must_use]
    pub fn text<P: Into<Cow<'a, str>>>(path: P, text: &'a str) -> (r: RawInput<'a>)
        ensures
            call_ensures(<P as Into<Cow<'a, str>>>::into, (path,), r.path),
            r.content is Borrowed,
            r.content@ == encode_utf8(text@),
            r.language is None,
    {
        RawInput { path: path.into(), content: Cow::Borrowed(text.as_bytes()), language: None }
    }

    /// This input with its language stated.
    #[must_use]
    pub fn with_language<L: Into<Cow<'a, str>>>(self, language: L) -> (r: RawInput<'a>)
        ensures
            r.path == self.path,
            r.content == self.content,
            r.language matches Some(l) && call_ensures(
                <L as Into<Cow<'a, str>>>::into,
                (language,),
                l,
            ),
    {
        RawInput { path: self.path, content: self.content, language: Some(language.into()) }
    }
}

/// What is done with the content of inputs.
#[derive(Debug, Clone, Copy)]
pub struct IndexOptions<T> {
    /// How text is cut into chunks.
    pub tuning: T,
    /// Whether to build the graph.
    pub build_graph: bool,
    /// Whether to read PDFs.
    pub extract_pdfs: bool,
}

impl<T: Default> IndexOptions<T> {
    /// The default options, to be changed: default tuning, no graph, PDFs read.
    pub fn builder() -> (r: IndexOptionsBuilder<T>)
        ensures
            call_ensures(T::default, (), r@.tuning),
            !r@.build_graph,
            r@.extract_pdfs,
    {
        IndexOptionsBuilder {
            options: IndexOptions { tuning: T::default(), build_graph: false, extract_pdfs: true },
        }
    }
}

/// Options in the making.
#[derive(Debug, Clone, Copy)]
pub struct IndexOptionsBuilder<T> {
    options: IndexOptions<T>,
}

impl<T> View for IndexOptionsBuilder<T> {
    type V = IndexOptions<T>;

    closed spec fn view(&self) -> IndexOptions<T> {
        self.options
    }
}

impl<T> IndexOptionsBuilder<T> {
    /// How text is cut into chunks.
    pub fn tuning(self, tuning: T) -> (r: IndexOptionsBuilder<T>)
        ensures
            r@ == (IndexOptions { tuning, ..self@ }),
    {
        IndexOptionsBuilder {
            options: IndexOptions {
                tuning,
                build_graph: self.options.build_graph,
                extract_pdfs: self.options.extract_pdfs,
            },
        }
    }

    /// Whether to build the graph.
    pub fn build_graph(self, build_graph: bool) -> (r: IndexOptionsBuilder<T>)
        ensures
            r@ == (IndexOptions { build_graph, ..self@ }),
    {
        IndexOptionsBuilder {
            options: IndexOptions {
                tuning: self.options.tuning,
                build_graph,
                extract_pdfs: self.options.extract_pdfs,
            },
        }
    }

    /// Whether to read PDFs.
    pub fn extract_pdfs(self, extract_pdfs: bool) -> (r: IndexOptionsBuilder<T>)
        ensures
            r@ == (IndexOptions { extract_pdfs, ..self@ }),
    {
        IndexOptionsBuilder {
            options: IndexOptions {
                tuning: self.options.tuning,
                build_graph: self.options.build_graph,
                extract_pdfs,
            },
        }
    }

    /// The options.
    pub fn build(self) -> (r: IndexOptions<T>)
        ensures
            r == self@,
    {
        self.options
    }
}

// -------------------------------------------------------------------------------------------------
// Counters and output
// -------------------------------------------------------------------------------------------------
/// Counters of one run.
#[derive(Debug, Clone, Copy)]
pub struct IndexStats {
    /// Inputs that gave chunks.
    pub files_chunked: usize,
    /// Inputs a reader pruned before they were handed over.
    pub paths_ignored: usize,
    /// PDFs whose text was read.
    pub pdfs_extracted: usize,
    /// PDFs that were too large or could not be read.
    pub pdfs_skipped: usize,
    /// Inputs that are not UTF-8 text, or hold a NUL near their front.
    pub files_skipped_binary: usize,
    /// Inputs over [`MAX_FILE_BYTES`].
    pub files_skipped_too_large: usize,
    /// Inputs of no known language.
    pub files_skipped_unsupported: usize,
    /// Chunks that were given an embedding; an indexer leaves it at zero.
    pub chunks_embedded: usize,
    /// Requests made for embeddings; an indexer leaves it at zero.
    pub embed_batches: usize,
}

/// The mathematical value of [`IndexStats`].
#[verifier::ext_equal]
pub struct StatsView {
    pub files_chunked: int,
    pub paths_ignored: int,
    pub pdfs_extracted: int,
    pub pdfs_skipped: int,
    pub files_skipped_binary: int,
    pub files_skipped_too_large: int,
    pub files_skipped_unsupported: int,
    pub chunks_embedded: int,
    pub embed_batches: int,
}

impl View for IndexStats {
    type V = StatsView;

    open spec fn view(&self) -> StatsView {
        StatsView {
            files_chunked: self.files_chunked as int,
            paths_ignored: self.paths_ignored as int,
            pdfs_extracted: self.pdfs_extracted as int,
            pdfs_skipped: self.pdfs_skipped as int,
            files_skipped_binary: self.files_skipped_binary as int,
            files_skipped_too_large: self.files_skipped_too_large as int,
            files_skipped_unsupported: self.files_skipped_unsupported as int,
            chunks_embedded: self.chunks_embedded as int,
            embed_batches: self.embed_batches as int,
        }
    }
}

impl StatsView {
    /// All counters at zero.
    pub open spec fn zero() -> StatsView {
        StatsView {
            files_chunked: 0,
            paths_ignored: 0,
            pdfs_extracted: 0,
            pdfs_skipped: 0,
            files_skipped_binary: 0,
            files_skipped_too_large: 0,
            files_skipped_unsupported: 0,
            chunks_embedded: 0,
            embed_batches: 0,
        }
    }

    /// Whether every counter that an input can move stays below `n`.
    pub open spec fn below(self, n: int) -> bool {
        &&& self.files_chunked < n
        &&& self.pdfs_extracted < n
        &&& self.pdfs_skipped < n
        &&& self.files_skipped_binary < n
        &&& self.files_skipped_too_large < n
        &&& self.files_skipped_unsupported < n
    }

    /// How many inputs were skipped, for whatever reason.
    pub open spec fn skipped(self) -> int {
        self.pdfs_skipped + self.files_skipped_binary + self.files_skipped_too_large
            + self.files_skipped_unsupported
    }
}

impl Default for IndexStats {
    fn default() -> (r: IndexStats)
        ensures
            r@ == StatsView::zero(),
    {
        IndexStats {
            files_chunked: 0,
            paths_ignored: 0,
            pdfs_extracted: 0,
            pdfs_skipped: 0,
            files_skipped_binary: 0,
            files_skipped_too_large: 0,
            files_skipped_unsupported: 0,
            chunks_embedded: 0,
            embed_batches: 0,
        }
    }
}

/// What a run gives: the chunks, the resolved graph and the counters.
#[derive(Debug)]
pub struct IndexOutput<C> {
    pub chunks: Vec<C>,
    pub graph: Graph,
    pub stats: IndexStats,
}

impl<C> Default for IndexOutput<C> {
    fn default() -> (r: IndexOutput<C>)
        ensures
            r.chunks@ == Seq::<C>::empty(),
            r.graph@ == GraphView::empty(),
            r.stats@ == StatsView::zero(),
    {
        IndexOutput { chunks: Vec::new(), graph: Graph::default(), stats: IndexStats::default() }
    }
}

// -------------------------------------------------------------------------------------------------
// What becomes of an input
// -------------------------------------------------------------------------------------------------
/// Whether the last part of `path` has the extension `pdf`, in whatever case.
pub open spec fn pdf_path(path: Seq<char>) -> bool {
    let p = without_trailing_dots(path);
    let n = p.len() as int;
    &&& n > 4
    &&& p[n - 5] != '/'
    &&& p[n - 4] == '.'
    &&& p[n - 3] == 'p' || p[n - 3] == 'P'
    &&& p[n - 2] == 'd' || p[n - 2] == 'D'
    &&& p[n - 1] == 'f' || p[n - 1] == 'F'
}

/// Whether the last part of `path` has the extension `pdf`, in whatever case.
pub fn is_pdf(path: &str) -> (r: bool)
    ensures
        r == pdf_path(path@),
{
    let chars = chars_of(path);
    let ghost all = path@;
    let mut n: usize = chars.len();
    assert(all.take(n as int) =~= all);
    while n > 0 && (chars[n - 1] == '/' || (n > 1 && chars[n - 1] == '.' && chars[n - 2] == '/'))
        invariant
            chars@ == all,
            n <= chars@.len(),
            without_trailing_dots(all) == without_trailing_dots(all.take(n as int)),
        decreases n,
    {
        assert(all.take(n as int).drop_last() =~= all.take(n - 1));
        n = n - 1;
    }
    assert(without_trailing_dots(all) == all.take(n as int));
    n > 4 && chars[n - 5] != '/' && chars[n - 4] == '.' && (chars[n - 3] == 'p' || chars[n - 3]
        == 'P') && (chars[n - 2] == 'd' || chars[n - 2] == 'D') && (chars[n - 1] == 'f' || chars[n - 1]
        == 'F')
}

/// Whether a NUL stands among the first bytes of `bytes`.
pub open spec fn has_early_nul(bytes: Seq<u8>) -> bool {
    exists|i: int| 0 <= i < bytes.len() && i < SNIFFED_BYTES && #[trigger] bytes[i] == 0
}

/// Whether `source` is binary by its content: a NUL stands among its first bytes.
pub fn is_binary(source: &str) -> (r: bool)
    ensures
        r == has_early_nul(encode_utf8(source@)),
{
    let bytes = source.as_bytes();
    let mut i: usize = 0;
    while i < bytes.len() && i < SNIFFED_BYTES
        invariant
            bytes@ == encode_utf8(source@),
            i <= bytes@.len(),
            forall|k: int| 0 <= k < i ==> #[trigger] bytes@[k] != 0,
        decreases bytes.len() - i,
    {
        if bytes[i] == 0 {
            return true;
        }
        i = i + 1;
    }
    false
}

/// How an input is taken, by its path, its language and its bytes.
#[derive(Debug, Clone, Copy)]
pub enum Admission<'a> {
    /// A PDF while PDFs are not read.
    Ignored,
    /// A PDF over the bound for PDFs.
    PdfTooLarge,
    /// A PDF to read.
    Pdf,
    /// An input of no known language.
    Unsupported,
    /// A source text over the bound for source texts.
    TooLarge,
    /// An input that is not UTF-8.
    NotUtf8,
    /// A text with a NUL near its front.
    Binary,
    /// A source text to index.
    Source(&'a str),
}

/// The mathematical value of an [`Admission`].
pub enum AdmissionView {
    Ignored,
    PdfTooLarge,
    Pdf,
    Unsupported,
    TooLarge,
    NotUtf8,
    Binary,
    Source(Seq<char>),
}

impl<'a> View for Admission<'a> {
    type V = AdmissionView;

    open spec fn view(&self) -> AdmissionView {
        match self {
            Admission::Ignored => AdmissionView::Ignored,
            Admission::PdfTooLarge => AdmissionView::PdfTooLarge,
            Admission::Pdf => AdmissionView::Pdf,
            Admission::Unsupported => AdmissionView::Unsupported,
            Admission::TooLarge => AdmissionView::TooLarge,
            Admission::NotUtf8 => AdmissionView::NotUtf8,
            Admission::Binary => AdmissionView::Binary,
            Admission::Source(s) => AdmissionView::Source(s@),
        }
    }
}

/// How an input with the path `path`, the language `language` and the bytes `content` is taken. Whether
/// it is a PDF comes first, then its language, its size, its encoding and its content.
pub open spec fn admission(
    extract_pdfs: bool,
    path: Seq<char>,
    language: Option<Seq<char>>,
    content: Seq<u8>,
) -> AdmissionView {
    if pdf_path(path) {
        if !extract_pdfs {
            AdmissionView::Ignored
        } else if content.len() > MAX_PDF_BYTES {
            AdmissionView::PdfTooLarge
        } else {
            AdmissionView::Pdf
        }
    } else if language is None {
        AdmissionView::Unsupported
    } else if content.len() > MAX_FILE_BYTES {
        AdmissionView::TooLarge
    } else if !valid_utf8(content) {
        AdmissionView::NotUtf8
    } else if has_early_nul(content) {
        AdmissionView::Binary
    } else {
        AdmissionView::Source(decode_utf8(content))
    }
}

/// How an input with the path `path`, the language `language` and the bytes `content` is taken.
pub fn admission_of<'a>(
    extract_pdfs: bool,
    path: &str,
    language: Option<&str>,
    content: &'a [u8],
) -> (r: Admission<'a>)
    ensures
        r@ == admission(extract_pdfs, path@, opt_str(language), content@),
{
    if is_pdf(path) {
        if !extract_pdfs {
            return Admission::Ignored;
        }
        if content.len() > MAX_PDF_BYTES {
            return Admission::PdfTooLarge;
        }
        return Admission::Pdf;
    }
    if language.is_none() {
        return Admission::Unsupported;
    }
    if content.len() > MAX_FILE_BYTES {
        return Admission::TooLarge;
    }
    match utf8_text(content) {
        Some(source) => {
            proof {
                decode_utf8_encode_utf8(content@);
            }
            if is_binary(source) {
                Admission::Binary
            } else {
                Admission::Source(source)
            }
        },
        None => Admission::NotUtf8,
    }
}

/// What an input came to.
#[derive(Debug)]
pub enum Outcome<C> {
    /// Nothing: a PDF while PDFs are not read.
    Ignored,
    /// A PDF over the bound, or over that of its reader.
    PdfTooLarge,
    /// A PDF that could not be read, and why.
    PdfFailed(String),
    /// A PDF, and the chunks of its text.
    PdfExtracted(Vec<C>),
    /// An input of no known language.
    Unsupported,
    /// A source text over the bound.
    TooLarge,
    /// An input that is not UTF-8.
    NotUtf8,
    /// A text with a NUL near its front.
    Binary,
    /// A source text: its symbols where the graph is built from it, what its framework adds, and its
    /// chunks.
    Indexed { symbols: Option<FileSymbols>, facts: Option<FrameworkFacts>, chunks: Vec<C> },
}

/// The mathematical value of an [`Outcome`].
pub enum OutcomeView<C> {
    Ignored,
    PdfTooLarge,
    PdfFailed(Seq<char>),
    PdfExtracted(Seq<C>),
    Unsupported,
    TooLarge,
    NotUtf8,
    Binary,
    Indexed { symbols: Option<SymbolsView>, facts: Option<FactsView>, chunks: Seq<C> },
}

/// The value of optional symbols.
pub open spec fn opt_symbols(s: Option<FileSymbols>) -> Option<SymbolsView> {
    match s {
        Some(x) => Some(x@),
        None => None,
    }
}

/// The value of optional facts.
pub open spec fn opt_facts(f: Option<FrameworkFacts>) -> Option<FactsView> {
    match f {
        Some(x) => Some(x@),
        None => None,
    }
}

impl<C> View for Outcome<C> {
    type V = OutcomeView<C>;

    open spec fn view(&self) -> OutcomeView<C> {
        match *self {
            Outcome::Ignored => OutcomeView::Ignored,
            Outcome::PdfTooLarge => OutcomeView::PdfTooLarge,
            Outcome::PdfFailed(reason) => OutcomeView::PdfFailed(reason@),
            Outcome::PdfExtracted(chunks) => OutcomeView::PdfExtracted(chunks@),
            Outcome::Unsupported => OutcomeView::Unsupported,
            Outcome::TooLarge => OutcomeView::TooLarge,
            Outcome::NotUtf8 => OutcomeView::NotUtf8,
            Outcome::Binary => OutcomeView::Binary,
            Outcome::Indexed { symbols, facts, chunks } => OutcomeView::Indexed {
                symbols: opt_symbols(symbols),
                facts: opt_facts(facts),
                chunks: chunks@,
            },
        }
    }
}

/// Whether `symbols`, `facts` and `chunks` are what the source text `source` of `path` gives. Where the
/// graph is built and the toolkit parses the text, one tree gives the symbols, for Java what Spring
/// adds, and the chunks, with the plain text as a fallback for these. Else the file gives chunks alone.
pub open spec fn indexes<K: Toolkit>(
    k: K,
    options: IndexOptions<K::Tuning>,
    path: Seq<char>,
    source: Seq<char>,
    language: Seq<char>,
    symbols: Option<SymbolsView>,
    facts: Option<FactsView>,
    chunks: Seq<K::Chunk>,
) -> bool {
    ||| symbols is None && facts is None && chunks_file(
        k,
        path,
        source,
        language,
        options.tuning,
        chunks,
    ) && (!options.build_graph || supports(k, language, false) || unparsed(k, source, language))
    ||| options.build_graph && supports(k, language, true) && exists|tree: tree_sitter::Tree|
        {
            &&& #[trigger] parses(k, source, language, Some(tree))
            &&& ranges_fit(tree_rows(tree), encode_utf8(source).len())
            &&& symbols is Some && extracts(
                k,
                tree,
                parsed_view(tree, source),
                path,
                source,
                language,
                symbols->0,
            )
            &&& facts == if language == "java"@ {
                Some(spring_facts(parsed_view(tree, source), path))
            } else {
                None
            }
            &&& {
                ||| chunks.len() > 0 && chunks_tree(
                    k,
                    tree,
                    path,
                    source,
                    language,
                    options.tuning,
                    chunks,
                )
                ||| chunks_tree(k, tree, path, source, language, options.tuning, Seq::empty())
                    && chunks_text(k, path, source, language, options.tuning, chunks)
            }
        }
}

/// Whether the toolkit may give no tree for `source`, or one that covers bytes outside it.
pub open spec fn unparsed<K: Toolkit>(k: K, source: Seq<char>, language: Seq<char>) -> bool {
    ||| parses(k, source, language, None)
    ||| exists|tree: tree_sitter::Tree| #[trigger]
        parses(k, source, language, Some(tree)) && !ranges_fit(
            tree_rows(tree),
            encode_utf8(source).len(),
        )
}

/// Whether `language` is the language of an input with the path `path`: the one it states, else the one
/// the toolkit sees in the path.
pub open spec fn has_language<K: Toolkit>(
    k: K,
    path: Seq<char>,
    stated: Option<Seq<char>>,
    language: Option<Seq<char>>,
) -> bool {
    match stated {
        Some(l) => language == Some(l),
        None => exists|d: Option<String>| #[trigger] detects(k, path, d) && opt_text(d) == language,
    }
}

/// Whether `outcome` is what the input of `path`, `stated` language and `content` comes to.
pub open spec fn comes_to<K: Toolkit>(
    k: K,
    options: IndexOptions<K::Tuning>,
    path: Seq<char>,
    stated: Option<Seq<char>>,
    content: Seq<u8>,
    outcome: OutcomeView<K::Chunk>,
) -> bool {
    let p = forward_slashes(path);
    if pdf_path(p) {
        match admission(options.extract_pdfs, p, None, content) {
            AdmissionView::Ignored => outcome is Ignored,
            AdmissionView::PdfTooLarge => outcome is PdfTooLarge,
            _ => exists|read: PdfOutcome| #[trigger]
                reads_pdf(k, content, read) && match read {
                    PdfOutcome::Text(text) => outcome matches OutcomeView::PdfExtracted(chunks)
                        && chunks_text(k, p, text@, "pdf"@, options.tuning, chunks),
                    PdfOutcome::TooLarge => outcome is PdfTooLarge,
                    PdfOutcome::Failed(reason) => outcome == OutcomeView::<K::Chunk>::PdfFailed(
                        reason@,
                    ),
                },
        }
    } else {
        exists|language: Option<Seq<char>>| #[trigger]
            has_language(k, p, stated, language) && match admission(
                options.extract_pdfs,
                p,
                language,
                content,
            ) {
                AdmissionView::Unsupported => outcome is Unsupported,
                AdmissionView::TooLarge => outcome is TooLarge,
                AdmissionView::NotUtf8 => outcome is NotUtf8,
                AdmissionView::Source(source) => outcome matches OutcomeView::Indexed {
                    symbols,
                    facts,
                    chunks,
                } && indexes(k, options, p, source, language->0, symbols, facts, chunks),
                _ => outcome is Binary,
            }
    }
}

/// What the source text `source` of `path` gives.
pub fn index_source<K: Toolkit>(
    toolkit: &K,
    options: &IndexOptions<K::Tuning>,
    path: &str,
    source: &str,
    language: &str,
) -> (r: (Option<FileSymbols>, Option<FrameworkFacts>, Vec<K::Chunk>))
    ensures
        indexes(
            *toolkit,
            *options,
            path@,
            source@,
            language@,
            opt_symbols(r.0),
            opt_facts(r.1),
            r.2@,
        ),
{
    if options.build_graph && toolkit.has_graph(language) {
        if let Some(tree) = toolkit.parse(source, language) {
            assert(parses(*toolkit, source@, language@, Some(tree)));
            if let Some(syntax) = SyntaxTree::new(&tree, source.as_bytes()) {
                let symbols = extract_parsed(toolkit, &tree, &syntax, path, source, language);
                let facts = if same(language, "java") {
                    Some(extract_tree_facts(&syntax, path))
                } else {
                    None
                };
                let mut chunks = toolkit.chunk_tree(&tree, path, source, language, options.tuning);
                assert(chunks_tree(
                    *toolkit,
                    tree,
                    path@,
                    source@,
                    language@,
                    options.tuning,
                    chunks@,
                ));
                if chunks.len() == 0 {
                    assert(chunks@ =~= Seq::empty());
                    chunks = toolkit.chunk_text(path, source, language, options.tuning);
                }
                return (Some(symbols), facts, chunks);
            }
        }
    }
    (None, None, toolkit.chunk_file(path, source, language, options.tuning))
}

fn content_bytes<'b>(content: &'b Cow<'_, [u8]>) -> (r: &'b [u8])
    ensures
        r@ == content@,
{
    match content {
        Cow::Borrowed(b) => b,
        Cow::Owned(b) => b.as_slice(),
    }
}

fn text_of<'b>(text: &'b Cow<'_, str>) -> (r: &'b str)
    ensures
        r@ == text@,
{
    match text {
        Cow::Borrowed(s) => s,
        Cow::Owned(s) => s.as_str(),
    }
}

/// What `input` comes to.
pub fn examine<K: Toolkit>(
    toolkit: &K,
    options: &IndexOptions<K::Tuning>,
    input: &RawInput<'_>,
) -> (outcome: Outcome<K::Chunk>)
    ensures
        comes_to(
            *toolkit,
            *options,
            input.path@,
            stated_language(input.language),
            input.content@,
            outcome@,
        ),
{
    let path = with_forward_slashes(text_of(&input.path));
    let content = content_bytes(&input.content);
    let language: Option<String> = if is_pdf(path.as_str()) {
        None
    } else {
        match &input.language {
            Some(l) => Some(text_of(l).to_owned()),
            None => toolkit.from_path(path.as_str()),
        }
    };
    let known: Option<&str> = match &language {
        Some(l) => Some(l.as_str()),
        None => None,
    };
    assert(opt_str(known) == opt_text(language));
    proof {
        if !pdf_path(path@) {
            if input.language is None {
                assert(detects(*toolkit, path@, language));
            }
            assert(has_language(
                *toolkit,
                path@,
                stated_language(input.language),
                opt_str(known),
            ));
        }
    }
    match admission_of(options.extract_pdfs, path.as_str(), known, content) {
        Admission::Ignored => Outcome::Ignored,
        Admission::PdfTooLarge => Outcome::PdfTooLarge,
        Admission::Pdf => {
            let read = toolkit.extract_pdf(content);
            assert(reads_pdf(*toolkit, input.content@, read));
            match read {
                PdfOutcome::Text(text) => Outcome::PdfExtracted(
                    toolkit.chunk_text(path.as_str(), text.as_str(), "pdf", options.tuning),
                ),
                PdfOutcome::TooLarge => Outcome::PdfTooLarge,
                PdfOutcome::Failed(reason) => Outcome::PdfFailed(reason),
            }
        },
        Admission::Unsupported => Outcome::Unsupported,
        Admission::TooLarge => Outcome::TooLarge,
        Admission::NotUtf8 => Outcome::NotUtf8,
        Admission::Binary => Outcome::Binary,
        Admission::Source(source) => match known {
            Some(l) => {
                let (symbols, facts, chunks) = index_source(
                    toolkit,
                    options,
                    path.as_str(),
                    source,
                    l,
                );
                Outcome::Indexed { symbols, facts, chunks }
            },
            None => Outcome::Unsupported,
        },
    }
}

// -------------------------------------------------------------------------------------------------
// The indexer
// -------------------------------------------------------------------------------------------------
/// An indexer that takes inputs one by one from any reader, until it is finished.
pub struct Indexer<K: Toolkit> {
    toolkit: K,
    options: IndexOptions<K::Tuning>,
    chunks: Vec<K::Chunk>,
    file_symbols: Vec<FileSymbols>,
    framework_facts: Vec<FrameworkFacts>,
    stats: IndexStats,
}

/// The mathematical value of an [`Indexer`]: what it works with, and what it has collected.
#[verifier::ext_equal]
#[verifier::reject_recursive_types(K)]
pub struct IndexerView<K: Toolkit> {
    pub toolkit: K,
    pub options: IndexOptions<K::Tuning>,
    pub chunks: Seq<K::Chunk>,
    pub symbols: Seq<SymbolsView>,
    pub facts: Seq<FactsView>,
    pub stats: StatsView,
}

impl<K: Toolkit> IndexerView<K> {
    /// An indexer that has collected nothing.
    pub open spec fn fresh(toolkit: K, options: IndexOptions<K::Tuning>) -> IndexerView<K> {
        IndexerView {
            toolkit,
            options,
            chunks: Seq::empty(),
            symbols: Seq::empty(),
            facts: Seq::empty(),
            stats: StatsView::zero(),
        }
    }

    /// This indexer with the chunks of one input added, which counts as chunked where it gave any.
    pub open spec fn with_chunks(self, chunks: Seq<K::Chunk>) -> IndexerView<K> {
        IndexerView {
            chunks: self.chunks + chunks,
            stats: if chunks.len() > 0 {
                StatsView { files_chunked: self.stats.files_chunked + 1, ..self.stats }
            } else {
                self.stats
            },
            ..self
        }
    }

    /// This indexer with one input added that came to `outcome`.
    pub open spec fn absorbing(self, outcome: OutcomeView<K::Chunk>) -> IndexerView<K> {
        match outcome {
            OutcomeView::Ignored => self,
            OutcomeView::PdfTooLarge | OutcomeView::PdfFailed(_) => IndexerView {
                stats: StatsView { pdfs_skipped: self.stats.pdfs_skipped + 1, ..self.stats },
                ..self
            },
            OutcomeView::PdfExtracted(chunks) => {
                let v = self.with_chunks(chunks);
                IndexerView {
                    stats: StatsView { pdfs_extracted: v.stats.pdfs_extracted + 1, ..v.stats },
                    ..v
                }
            },
            OutcomeView::Unsupported => IndexerView {
                stats: StatsView {
                    files_skipped_unsupported: self.stats.files_skipped_unsupported + 1,
                    ..self.stats
                },
                ..self
            },
            OutcomeView::TooLarge => IndexerView {
                stats: StatsView {
                    files_skipped_too_large: self.stats.files_skipped_too_large + 1,
                    ..self.stats
                },
                ..self
            },
            OutcomeView::NotUtf8 | OutcomeView::Binary => IndexerView {
                stats: StatsView {
                    files_skipped_binary: self.stats.files_skipped_binary + 1,
                    ..self.stats
                },
                ..self
            },
            OutcomeView::Indexed { symbols, facts, chunks } => IndexerView {
                symbols: match symbols {
                    Some(s) => self.symbols.push(s),
                    None => self.symbols,
                },
                facts: match facts {
                    Some(f) => self.facts.push(f),
                    None => self.facts,
                },
                ..self
            }.with_chunks(chunks),
        }
    }

    /// Whether `after` is this indexer with the input `input` pushed.
    pub open spec fn pushes(self, input: RawInput<'_>, after: IndexerView<K>) -> bool {
        exists|outcome: OutcomeView<K::Chunk>| #[trigger]
            comes_to(
                self.toolkit,
                self.options,
                input.path@,
                stated_language(input.language),
                input.content@,
                outcome,
            ) && after == self.absorbing(outcome)
    }

    /// Whether `out` is what this indexer gives when it is finished: what it has collected, and the
    /// resolved graph where it is built.
    pub open spec fn finishes(self, out: IndexOutput<K::Chunk>) -> bool {
        &&& out.chunks@ == self.chunks
        &&& out.stats@ == self.stats
        &&& if self.options.build_graph {
            resolves_to(self.symbols, self.facts, out.graph@)
        } else {
            out.graph@ == GraphView::empty()
        }
    }
}

impl<K: Toolkit> View for Indexer<K> {
    type V = IndexerView<K>;

    closed spec fn view(&self) -> IndexerView<K> {
        IndexerView {
            toolkit: self.toolkit,
            options: self.options,
            chunks: self.chunks@,
            symbols: symbol_views(self.file_symbols@),
            facts: fact_views(self.framework_facts@),
            stats: self.stats@,
        }
    }
}

impl<K: Toolkit> Indexer<K> {
    /// An indexer that has collected nothing.
    #[must_use]
    pub fn new(options: IndexOptions<K::Tuning>, toolkit: K) -> (r: Indexer<K>)
        ensures
            r@ == IndexerView::fresh(toolkit, options),
    {
        let r = Indexer {
            toolkit,
            options,
            chunks: Vec::new(),
            file_symbols: Vec::new(),
            framework_facts: Vec::new(),
            stats: IndexStats::default(),
        };
        assert(r@ =~= IndexerView::fresh(toolkit, options));
        r
    }

    fn add_chunks(&mut self, chunks: Vec<K::Chunk>)
        requires
            old(self)@.stats.below(usize::MAX as int),
        ensures
            final(self)@ == old(self)@.with_chunks(chunks@),
    {
        let mut more = chunks;
        if more.len() > 0 {
            self.stats.files_chunked = self.stats.files_chunked + 1;
        }
        self.chunks.append(&mut more);
        assert(self@ =~= old(self)@.with_chunks(chunks@));
    }

    /// Whether the counters can count another input.
    #[must_use]
    pub fn has_room(&self) -> (r: bool)
        ensures
            r == self@.stats.below(usize::MAX as int),
    {
        self.stats.files_chunked < usize::MAX && self.stats.pdfs_extracted < usize::MAX
            && self.stats.pdfs_skipped < usize::MAX && self.stats.files_skipped_binary < usize::MAX
            && self.stats.files_skipped_too_large < usize::MAX
            && self.stats.files_skipped_unsupported < usize::MAX
    }

    /// Adds an input that came to `outcome`.
    pub fn absorb(&mut self, outcome: Outcome<K::Chunk>)
        requires
            old(self)@.stats.below(usize::MAX as int),
        ensures
            final(self)@ == old(self)@.absorbing(outcome@),
    {
        match outcome {
            Outcome::Ignored => {},
            Outcome::PdfTooLarge | Outcome::PdfFailed(_) => {
                self.stats.pdfs_skipped = self.stats.pdfs_skipped + 1;
            },
            Outcome::PdfExtracted(chunks) => {
                self.add_chunks(chunks);
                self.stats.pdfs_extracted = self.stats.pdfs_extracted + 1;
            },
            Outcome::Unsupported => {
                self.stats.files_skipped_unsupported = self.stats.files_skipped_unsupported + 1;
            },
            Outcome::TooLarge => {
                self.stats.files_skipped_too_large = self.stats.files_skipped_too_large + 1;
            },
            Outcome::NotUtf8 | Outcome::Binary => {
                self.stats.files_skipped_binary = self.stats.files_skipped_binary + 1;
            },
            Outcome::Indexed { symbols, facts, chunks } => {
                if let Some(s) = symbols {
                    self.file_symbols.push(s);
                }
                if let Some(f) = facts {
                    self.framework_facts.push(f);
                }
                self.add_chunks(chunks);
            },
        }
        assert(self@ =~= old(self)@.absorbing(outcome@));
    }

    /// What `input` comes to, without adding it.
    pub fn outcome_of(&self, input: &RawInput<'_>) -> (outcome: Outcome<K::Chunk>)
        ensures
            comes_to(
                self@.toolkit,
                self@.options,
                input.path@,
                stated_language(input.language),
                input.content@,
                outcome@,
            ),
    {
        examine(&self.toolkit, &self.options, input)
    }

    /// Indexes one input. An input that cannot be used is counted and skipped.
    pub fn push(&mut self, input: RawInput<'_>)
        requires
            old(self)@.stats.below(usize::MAX as int),
        ensures
            old(self)@.pushes(input, final(self)@),
    {
        let outcome = self.outcome_of(&input);
        self.absorb(outcome);
    }

    /// Counts inputs that a reader pruned before they were handed over.
    pub fn record_pruned(&mut self, count: usize)
        requires
            old(self)@.stats.paths_ignored + count <= usize::MAX,
        ensures
            final(self)@ == (IndexerView {
                stats: StatsView {
                    paths_ignored: old(self)@.stats.paths_ignored + count,
                    ..old(self)@.stats
                },
                ..old(self)@
            }),
    {
        self.stats.paths_ignored = self.stats.paths_ignored + count;
    }

    /// What was collected, with the graph resolved across all files.
    #[must_use]
    pub fn finish(self) -> (out: IndexOutput<K::Chunk>)
        ensures
            self@.finishes(out),
    {
        self.finish_counted().0
    }

    /// What was collected, with the graph resolved across all files, and what the resolution counts, where
    /// a graph is built.
    #[must_use]
    pub fn finish_counted(self) -> (r: (IndexOutput<K::Chunk>, Option<ResolveCounts>))
        ensures
            self@.finishes(r.0),
            r.1 is Some <==> self@.options.build_graph,
            r.1 matches Some(counts) ==> counts_of(self@.symbols, self@.facts, counts),
    {
        let (graph, counts) = if self.options.build_graph {
            let (graph, counts) = resolve_counted(self.file_symbols, self.framework_facts);
            (graph, Some(counts))
        } else {
            (Graph::default(), None)
        };
        (IndexOutput { chunks: self.chunks, graph, stats: self.stats }, counts)
    }
}

/// Whether `out` comes of pushing `inputs` one by one from the state `start`, and finishing.
pub open spec fn runs_to<K: Toolkit>(
    start: IndexerView<K>,
    inputs: Seq<RawInput<'_>>,
    out: IndexOutput<K::Chunk>,
) -> bool {
    exists|states: Seq<IndexerView<K>>| #[trigger]
        is_run(start, inputs, states) && states.last().finishes(out)
}

/// Whether `states` are those an indexer goes through from `start` as `inputs` are pushed.
pub open spec fn is_run<K: Toolkit>(
    start: IndexerView<K>,
    inputs: Seq<RawInput<'_>>,
    states: Seq<IndexerView<K>>,
) -> bool {
    &&& states.len() == inputs.len() + 1
    &&& states[0] == start
    &&& forall|i: int|
        0 <= i < inputs.len() ==> (#[trigger] states[i]).pushes(inputs[i], states[i + 1])
}

/// What comes of pushing `inputs` one by one, and finishing.
#[must_use]
pub fn index_inputs<'a, K: Toolkit>(
    inputs: Vec<RawInput<'a>>,
    options: &IndexOptions<K::Tuning>,
    toolkit: K,
) -> (out: IndexOutput<K::Chunk>)
    ensures
        runs_to(IndexerView::fresh(toolkit, *options), inputs@, out),
{
    let ghost all = inputs@;
    let ghost start = IndexerView::fresh(toolkit, *options);
    let n = inputs.len();
    let mut indexer = Indexer::new(*options, toolkit);
    let ghost mut states = seq![start];
    for input in it: inputs
        invariant
            it.seq() == all,
            n == all.len(),
            is_run(start, all.take(it.index() as int), states),
            indexer@ == states.last(),
            indexer@.stats.below(it.index() + 1),
    {
        let ghost i = it.index() as int;
        let ghost before = states;
        indexer.push(input);
        proof {
            states = states.push(indexer@);
            assert(all.take(i + 1).drop_last() =~= all.take(i));
            assert forall|j: int| 0 <= j < i + 1 implies (#[trigger] states[j]).pushes(
                all.take(i + 1)[j],
                states[j + 1],
            ) by {
                if j < i {
                    assert(before[j].pushes(all.take(i)[j], before[j + 1]));
                }
            }
        }
    }
    assert(all.take(all.len() as int) =~= all);
    indexer.finish()
}

} // verus!
