//! What holds of every input, of every state of an indexer and of every run.
use super::{
    admission, comes_to, has_early_nul, has_language, indexes, is_run, pdf_path, runs_to, stated_language,
    AdmissionView, IndexOptions, IndexOutput, IndexerView, OutcomeView, RawInput, StatsView,
    MAX_FILE_BYTES, MAX_INPUT_BYTES, MAX_PDF_BYTES,
};
use crate::graph::canon::is_standing;
use crate::graph::emit::{extracts, symbols_of, Classifier, Definition, TaggedSymbols};
use crate::graph::laws::{
    facts_join, graph_has_no_loose_ends, hang_together, joins, sound, symbols_hang_together,
};
use crate::graph::resolve::{all_edges, all_nodes, resolves_to};
use crate::graph::SymbolsView;
use crate::model::FactsView;
use crate::spring::spring_facts;
use crate::syntax::{parsed_view, ranges_fit, tree_rows};
use crate::text::{forward_slashes, opt_text, without_trailing_dots};
use crate::toolkit::{
    chunks_file, chunks_text, chunks_tree, defines, detects, parses, reads_pdf, supports, tags_as,
    PdfOutcome, Toolkit,
};
use std::collections::HashMap;
use vstd::prelude::*;
use vstd::utf8::*;

verus! {

/// The bound for readers is the larger of the two bounds that [`Indexer::push`] applies.
pub proof fn max_input_bytes_is_the_larger_cap()
    ensures
        MAX_INPUT_BYTES >= MAX_FILE_BYTES,
        MAX_INPUT_BYTES >= MAX_PDF_BYTES,
        MAX_INPUT_BYTES == MAX_FILE_BYTES || MAX_INPUT_BYTES == MAX_PDF_BYTES,
{
}

/// Whether an outcome means that the input was skipped.
pub open spec fn is_skip<C>(outcome: OutcomeView<C>) -> bool {
    outcome is PdfTooLarge || outcome is PdfFailed || outcome is Unsupported || outcome is TooLarge
        || outcome is NotUtf8 || outcome is Binary
}

/// A skipped input moves exactly one counter, by one, and adds nothing; one that is not skipped moves
/// no skip counter.
pub proof fn skipped_input_counts_once<K: Toolkit>(
    v: IndexerView<K>,
    outcome: OutcomeView<K::Chunk>,
)
    ensures
        v.absorbing(outcome).stats.skipped() == v.stats.skipped() + if is_skip(outcome) {
            1int
        } else {
            0int
        },
        is_skip(outcome) ==> v.absorbing(outcome).chunks == v.chunks && v.absorbing(outcome).symbols
            == v.symbols && v.absorbing(outcome).facts == v.facts
            && v.absorbing(outcome).stats.files_chunked == v.stats.files_chunked && v.absorbing(
            outcome,
        ).stats.pdfs_extracted == v.stats.pdfs_extracted,
{
}

/// Pushing never takes anything back: what was collected stays, and stays first. The counters of
/// readers and of embedding are left alone.
pub proof fn pushing_only_adds<K: Toolkit>(v: IndexerView<K>, outcome: OutcomeView<K::Chunk>)
    ensures
        v.chunks.is_prefix_of(v.absorbing(outcome).chunks),
        v.symbols.is_prefix_of(v.absorbing(outcome).symbols),
        v.facts.is_prefix_of(v.absorbing(outcome).facts),
        v.absorbing(outcome).toolkit == v.toolkit,
        v.absorbing(outcome).options == v.options,
        v.absorbing(outcome).stats.paths_ignored == v.stats.paths_ignored,
        v.absorbing(outcome).stats.chunks_embedded == v.stats.chunks_embedded,
        v.absorbing(outcome).stats.embed_batches == v.stats.embed_batches,
{
}

/// A PDF while PDFs are not read leaves the indexer as it was.
pub proof fn unread_pdf_changes_nothing<K: Toolkit>(
    v: IndexerView<K>,
    input: RawInput<'_>,
    after: IndexerView<K>,
)
    requires
        v.pushes(input, after),
        !v.options.extract_pdfs,
        pdf_path(forward_slashes(input.path@)),
    ensures
        after == v,
{
}

/// A PDF is never counted as a source text: neither unsupported, nor too large, nor binary, nor does
/// it bring symbols.
pub proof fn pdf_is_never_taken_as_source<K: Toolkit>(
    k: K,
    options: IndexOptions<K::Tuning>,
    path: Seq<char>,
    stated: Option<Seq<char>>,
    content: Seq<u8>,
    outcome: OutcomeView<K::Chunk>,
)
    requires
        pdf_path(forward_slashes(path)),
        comes_to(k, options, path, stated, content, outcome),
    ensures
        outcome is Ignored || outcome is PdfTooLarge || outcome is PdfFailed || outcome is PdfExtracted,
{
}

/// A stated language wins over the path: the input is not unsupported, and what is indexed is indexed
/// in that language.
pub proof fn stated_language_wins<K: Toolkit>(
    k: K,
    options: IndexOptions<K::Tuning>,
    path: Seq<char>,
    language: Seq<char>,
    content: Seq<u8>,
    outcome: OutcomeView<K::Chunk>,
)
    requires
        !pdf_path(forward_slashes(path)),
        comes_to(k, options, path, Some(language), content, outcome),
    ensures
        !(outcome is Unsupported),
        outcome matches OutcomeView::Indexed { symbols, facts, chunks } ==> indexes(
            k,
            options,
            forward_slashes(path),
            decode_utf8(content),
            language,
            symbols,
            facts,
            chunks,
        ),
{
}

/// What an input comes to depends on its path only up to the kind of its separators.
pub proof fn separators_do_not_matter<K: Toolkit>(
    k: K,
    options: IndexOptions<K::Tuning>,
    path: Seq<char>,
    other: Seq<char>,
    stated: Option<Seq<char>>,
    content: Seq<u8>,
    outcome: OutcomeView<K::Chunk>,
)
    requires
        forward_slashes(path) == forward_slashes(other),
    ensures
        comes_to(k, options, path, stated, content, outcome) == comes_to(
            k,
            options,
            other,
            stated,
            content,
            outcome,
        ),
{
}

/// Where no graph is built, no input brings symbols or framework facts.
pub proof fn without_graph_no_symbols<K: Toolkit>(
    v: IndexerView<K>,
    input: RawInput<'_>,
    after: IndexerView<K>,
)
    requires
        v.pushes(input, after),
        !v.options.build_graph,
    ensures
        after.symbols == v.symbols,
        after.facts == v.facts,
{
}

/// A run without inputs gives nothing: no chunk, no node, no edge, all counters at zero.
pub proof fn no_input_gives_nothing<K: Toolkit>(
    k: K,
    options: IndexOptions<K::Tuning>,
    out: IndexOutput<K::Chunk>,
)
    requires
        runs_to(IndexerView::fresh(k, options), Seq::empty(), out),
    ensures
        out.chunks@.len() == 0,
        out.graph@.nodes.len() == 0,
        out.graph@.edges.len() == 0,
        out.stats@ == StatsView::zero(),
{
    let start = IndexerView::fresh(k, options);
    let states = choose|states: Seq<IndexerView<K>>| #[trigger]
        is_run(start, Seq::empty(), states) && states.last().finishes(out);
    assert(states.last() == start);
    let g = out.graph@;
    if options.build_graph {
        assert(all_nodes(start.symbols, start.facts) =~= Seq::empty());
        assert(all_edges(start.symbols, start.facts) =~= Seq::empty());
        if g.nodes.len() > 0 {
            assert(is_standing(all_nodes(start.symbols, start.facts), g.nodes[0]));
        }
        if g.edges.len() > 0 {
            assert(g.edges.contains(g.edges[0]));
            assert(all_edges(start.symbols, start.facts).contains(g.edges[0]));
        }
    }
}

/// Pushing keeps the symbols sound: those of every input hang together.
pub proof fn pushing_keeps_symbols_sound<K: Toolkit>(
    v: IndexerView<K>,
    input: RawInput<'_>,
    after: IndexerView<K>,
)
    requires
        v.pushes(input, after),
        forall|i: int| 0 <= i < v.symbols.len() ==> sound(#[trigger] v.symbols[i]),
    ensures
        forall|i: int| 0 <= i < after.symbols.len() ==> sound(#[trigger] after.symbols[i]),
{
    let path = forward_slashes(input.path@);
    let outcome = choose|outcome: OutcomeView<K::Chunk>| #[trigger]
        comes_to(
            v.toolkit,
            v.options,
            input.path@,
            stated_language(input.language),
            input.content@,
            outcome,
        ) && after == v.absorbing(outcome);
    if let OutcomeView::Indexed { symbols: Some(s), facts, chunks } = outcome {
        let language = choose|language: Option<Seq<char>>| #[trigger]
            has_language(v.toolkit, path, stated_language(input.language), language)
                && match admission(v.options.extract_pdfs, path, language, input.content@) {
                AdmissionView::Source(source) => indexes(
                    v.toolkit,
                    v.options,
                    path,
                    source,
                    language->0,
                    Some(s),
                    facts,
                    chunks,
                ),
                _ => false,
            };
        let source = decode_utf8(input.content@);
        let tree = choose|tree: tree_sitter::Tree| #[trigger]
            parses(v.toolkit, source, language->0, Some(tree)) && extracts(
                v.toolkit,
                tree,
                parsed_view(tree, source),
                path,
                source,
                language->0,
                s,
            );
        lemma_extracted_symbols_sound(v.toolkit, tree, path, source, language->0, s);
        assert forall|i: int| 0 <= i < after.symbols.len() implies sound(
            #[trigger] after.symbols[i],
        ) by {
            if i < v.symbols.len() {
                assert(after.symbols[i] == v.symbols[i]);
            }
        }
    } else {
        assert(after.symbols == v.symbols);
    }
}

proof fn lemma_extracted_symbols_sound<K: Toolkit>(
    k: K,
    tree: tree_sitter::Tree,
    path: Seq<char>,
    source: Seq<char>,
    language: Seq<char>,
    s: SymbolsView,
)
    requires
        extracts(k, tree, parsed_view(tree, source), path, source, language, s),
    ensures
        sound(s),
{
    let t = parsed_view(tree, source);
    assert forall|defs: HashMap<usize, Definition>| #[trigger]
        defines(k, tree, source, defs) implies hang_together(
        symbols_of(Classifier::Rust(&defs), t, path),
        path,
    ) by {
        symbols_hang_together(Classifier::Rust(&defs), t, path);
    }
    assert forall|tags: TaggedSymbols| #[trigger]
        tags_as(k, language, tree, source, Some(tags)) implies hang_together(
        symbols_of(Classifier::Tagged(&tags), t, path),
        path,
    ) by {
        symbols_hang_together(Classifier::Tagged(&tags), t, path);
    }
}

/// A finished graph has no loose ends: where the symbols are sound and the framework facts lead to
/// nodes, both ends of every edge are nodes of the graph.
pub proof fn finished_graph_has_no_loose_ends<K: Toolkit>(
    v: IndexerView<K>,
    out: IndexOutput<K::Chunk>,
)
    requires
        v.finishes(out),
        forall|i: int| 0 <= i < v.symbols.len() ==> sound(#[trigger] v.symbols[i]),
        forall|i: int|
            0 <= i < v.facts.len() ==> facts_join(
                all_nodes(v.symbols, v.facts),
                #[trigger] v.facts[i],
            ),
    ensures
        forall|k: int|
            0 <= k < out.graph@.edges.len() ==> joins(
                out.graph@.nodes,
                #[trigger] out.graph@.edges[k],
            ),
{
    if v.options.build_graph {
        graph_has_no_loose_ends(v.symbols, v.facts, out.graph@);
    }
}

// -------------------------------------------------------------------------------------------------
// Runs over joined lists
// -------------------------------------------------------------------------------------------------
impl StatsView {
    /// The counters of two runs together.
    pub open spec fn plus(self, other: StatsView) -> StatsView {
        StatsView {
            files_chunked: self.files_chunked + other.files_chunked,
            paths_ignored: self.paths_ignored + other.paths_ignored,
            pdfs_extracted: self.pdfs_extracted + other.pdfs_extracted,
            pdfs_skipped: self.pdfs_skipped + other.pdfs_skipped,
            files_skipped_binary: self.files_skipped_binary + other.files_skipped_binary,
            files_skipped_too_large: self.files_skipped_too_large + other.files_skipped_too_large,
            files_skipped_unsupported: self.files_skipped_unsupported
                + other.files_skipped_unsupported,
            chunks_embedded: self.chunks_embedded + other.chunks_embedded,
            embed_batches: self.embed_batches + other.embed_batches,
        }
    }
}

impl<K: Toolkit> IndexerView<K> {
    /// What this indexer and then `other` have collected, together.
    pub open spec fn joined(self, other: IndexerView<K>) -> IndexerView<K> {
        IndexerView {
            toolkit: self.toolkit,
            options: self.options,
            chunks: self.chunks + other.chunks,
            symbols: self.symbols + other.symbols,
            facts: self.facts + other.facts,
            stats: self.stats.plus(other.stats),
        }
    }
}

proof fn lemma_joined_absorbing<K: Toolkit>(
    x: IndexerView<K>,
    y: IndexerView<K>,
    outcome: OutcomeView<K::Chunk>,
)
    ensures
        x.joined(y).absorbing(outcome) == x.joined(y.absorbing(outcome)),
{
    assert(x.joined(y).absorbing(outcome) =~= x.joined(y.absorbing(outcome)));
}

/// Whether `outcome` is what `input` comes to.
spec fn input_comes_to<K: Toolkit>(
    k: K,
    options: IndexOptions<K::Tuning>,
    input: RawInput<'_>,
    outcome: OutcomeView<K::Chunk>,
) -> bool {
    comes_to(
        k,
        options,
        input.path@,
        stated_language(input.language),
        input.content@,
        outcome,
    )
}

proof fn lemma_pushed_outcome<K: Toolkit>(
    v: IndexerView<K>,
    input: RawInput<'_>,
    after: IndexerView<K>,
) -> (outcome: OutcomeView<K::Chunk>)
    requires
        v.pushes(input, after),
    ensures
        input_comes_to(v.toolkit, v.options, input, outcome),
        after == v.absorbing(outcome),
{
    choose|outcome: OutcomeView<K::Chunk>| #[trigger]
        comes_to(
            v.toolkit,
            v.options,
            input.path@,
            stated_language(input.language),
            input.content@,
            outcome,
        ) && after == v.absorbing(outcome)
}

proof fn lemma_run_shorter<K: Toolkit>(
    start: IndexerView<K>,
    inputs: Seq<RawInput<'_>>,
    states: Seq<IndexerView<K>>,
)
    requires
        is_run(start, inputs, states),
        inputs.len() > 0,
    ensures
        is_run(start, inputs.drop_last(), states.drop_last()),
        states.drop_last().last().pushes(inputs.last(), states.last()),
{
    let n = inputs.len() as int;
    assert(states[n - 1].pushes(inputs[n - 1], states[n]));
    let rest = inputs.drop_last();
    let before = states.drop_last();
    assert forall|i: int| 0 <= i < rest.len() implies (#[trigger] before[i]).pushes(
        rest[i],
        before[i + 1],
    ) by {
        assert(states[i].pushes(inputs[i], states[i + 1]));
    }
}

proof fn lemma_run_longer<K: Toolkit>(
    start: IndexerView<K>,
    inputs: Seq<RawInput<'_>>,
    states: Seq<IndexerView<K>>,
    input: RawInput<'_>,
    after: IndexerView<K>,
)
    requires
        is_run(start, inputs, states),
        states.last().pushes(input, after),
    ensures
        is_run(start, inputs.push(input), states.push(after)),
{
    let more = inputs.push(input);
    let now = states.push(after);
    assert forall|i: int| 0 <= i < more.len() implies (#[trigger] now[i]).pushes(
        more[i],
        now[i + 1],
    ) by {
        if i < inputs.len() {
            assert(states[i].pushes(inputs[i], states[i + 1]));
        }
    }
}

proof fn lemma_run_keeps<K: Toolkit>(
    start: IndexerView<K>,
    inputs: Seq<RawInput<'_>>,
    states: Seq<IndexerView<K>>,
)
    requires
        is_run(start, inputs, states),
    ensures
        states.last().toolkit == start.toolkit,
        states.last().options == start.options,
    decreases inputs.len(),
{
    if inputs.len() > 0 {
        lemma_run_shorter(start, inputs, states);
        lemma_run_keeps(start, inputs.drop_last(), states.drop_last());
        let outcome = lemma_pushed_outcome(
            states.drop_last().last(),
            inputs.last(),
            states.last(),
        );
        pushing_only_adds(states.drop_last().last(), outcome);
    }
}

proof fn lemma_run_splits<K: Toolkit>(
    k: K,
    options: IndexOptions<K::Tuning>,
    a: Seq<RawInput<'_>>,
    b: Seq<RawInput<'_>>,
    states: Seq<IndexerView<K>>,
) -> (parts: (Seq<IndexerView<K>>, Seq<IndexerView<K>>))
    requires
        is_run(IndexerView::fresh(k, options), a + b, states),
    ensures
        is_run(IndexerView::fresh(k, options), a, parts.0),
        is_run(IndexerView::fresh(k, options), b, parts.1),
        states.last() == parts.0.last().joined(parts.1.last()),
    decreases b.len(),
{
    let start = IndexerView::fresh(k, options);
    if b.len() == 0 {
        assert(a + b =~= a);
        let nothing = seq![start];
        assert(is_run(start, b, nothing));
        assert(states.last().joined(start) =~= states.last());
        (states, nothing)
    } else {
        assert((a + b).drop_last() =~= a + b.drop_last());
        assert((a + b).last() == b.last());
        lemma_run_shorter(start, a + b, states);
        let parts = lemma_run_splits(k, options, a, b.drop_last(), states.drop_last());
        let x = parts.0.last();
        let y = parts.1.last();
        lemma_run_keeps(start, a, parts.0);
        lemma_run_keeps(start, b.drop_last(), parts.1);
        let outcome = lemma_pushed_outcome(x.joined(y), b.last(), states.last());
        lemma_joined_absorbing(x, y, outcome);
        assert(input_comes_to(y.toolkit, y.options, b.last(), outcome));
        assert(y.pushes(b.last(), y.absorbing(outcome)));
        lemma_run_longer(start, b.drop_last(), parts.1, b.last(), y.absorbing(outcome));
        assert(b.drop_last().push(b.last()) =~= b);
        (parts.0, parts.1.push(y.absorbing(outcome)))
    }
}

/// A run over two lists joined is one over the first and one over the second, both from nothing: its
/// chunks are those of the first and then those of the second, and each of its counters is the sum of
/// theirs.
pub proof fn run_over_joined_lists_splits<K: Toolkit>(
    k: K,
    options: IndexOptions<K::Tuning>,
    a: Seq<RawInput<'_>>,
    b: Seq<RawInput<'_>>,
    out: IndexOutput<K::Chunk>,
)
    requires
        runs_to(IndexerView::fresh(k, options), a + b, out),
    ensures
        exists|first: Seq<IndexerView<K>>, second: Seq<IndexerView<K>>|
            {
                &&& #[trigger] is_run(IndexerView::fresh(k, options), a, first)
                &&& #[trigger] is_run(IndexerView::fresh(k, options), b, second)
                &&& out.chunks@ == first.last().chunks + second.last().chunks
                &&& out.stats@ == first.last().stats.plus(second.last().stats)
                &&& first.last().joined(second.last()).finishes(out)
            },
{
    let start = IndexerView::fresh(k, options);
    let states = choose|states: Seq<IndexerView<K>>| #[trigger]
        is_run(start, a + b, states) && states.last().finishes(out);
    let parts = lemma_run_splits(k, options, a, b, states);
    assert(is_run(start, a, parts.0) && is_run(start, b, parts.1));
}

/// A run over one list and a run over another, both from nothing, make a run over the two joined, which
/// has collected what they have.
pub proof fn runs_over_two_lists_join<K: Toolkit>(
    k: K,
    options: IndexOptions<K::Tuning>,
    a: Seq<RawInput<'_>>,
    b: Seq<RawInput<'_>>,
    first: Seq<IndexerView<K>>,
    second: Seq<IndexerView<K>>,
)
    requires
        is_run(IndexerView::fresh(k, options), a, first),
        is_run(IndexerView::fresh(k, options), b, second),
    ensures
        exists|states: Seq<IndexerView<K>>| #[trigger]
            is_run(IndexerView::fresh(k, options), a + b, states) && states.last()
                == first.last().joined(second.last()),
    decreases b.len(),
{
    let start = IndexerView::fresh(k, options);
    let x = first.last();
    if b.len() == 0 {
        assert(a + b =~= a);
        assert(x.joined(start) =~= x);
        assert(is_run(start, a + b, first));
    } else {
        lemma_run_shorter(start, b, second);
        runs_over_two_lists_join(k, options, a, b.drop_last(), first, second.drop_last());
        let y = second.drop_last().last();
        let states = choose|states: Seq<IndexerView<K>>| #[trigger]
            is_run(start, a + b.drop_last(), states) && states.last() == x.joined(y);
        lemma_run_keeps(start, a, first);
        lemma_run_keeps(start, b.drop_last(), second.drop_last());
        let outcome = lemma_pushed_outcome(y, b.last(), second.last());
        lemma_joined_absorbing(x, y, outcome);
        assert(input_comes_to(x.joined(y).toolkit, x.joined(y).options, b.last(), outcome));
        assert(x.joined(y).pushes(b.last(), x.joined(second.last())));
        lemma_run_longer(start, a + b.drop_last(), states, b.last(), x.joined(second.last()));
        assert((a + b.drop_last()).push(b.last()) =~= a + b);
        assert(is_run(start, a + b, states.push(x.joined(second.last()))));
    }
}

/// Whether the toolkit leaves no choice of what `input` comes to: whatever it may answer, the outcome
/// is the same.
pub open spec fn has_one_outcome<K: Toolkit>(
    k: K,
    options: IndexOptions<K::Tuning>,
    input: RawInput<'_>,
) -> bool {
    forall|p: OutcomeView<K::Chunk>, q: OutcomeView<K::Chunk>|
        #![trigger comes_to(k, options, input.path@, stated_language(input.language), input.content@, p), comes_to(k, options, input.path@, stated_language(input.language), input.content@, q)]
        comes_to(k, options, input.path@, stated_language(input.language), input.content@, p)
            && comes_to(k, options, input.path@, stated_language(input.language), input.content@, q)
            ==> p == q
}

proof fn lemma_run_is_determined<K: Toolkit>(
    start: IndexerView<K>,
    inputs: Seq<RawInput<'_>>,
    s: Seq<IndexerView<K>>,
    t: Seq<IndexerView<K>>,
)
    requires
        is_run(start, inputs, s),
        is_run(start, inputs, t),
        forall|i: int|
            0 <= i < inputs.len() ==> has_one_outcome(
                start.toolkit,
                start.options,
                #[trigger] inputs[i],
            ),
    ensures
        s.last() == t.last(),
    decreases inputs.len(),
{
    if inputs.len() > 0 {
        let rest = inputs.drop_last();
        lemma_run_shorter(start, inputs, s);
        lemma_run_shorter(start, inputs, t);
        assert forall|i: int| 0 <= i < rest.len() implies has_one_outcome(
            start.toolkit,
            start.options,
            #[trigger] rest[i],
        ) by {
            assert(has_one_outcome(start.toolkit, start.options, inputs[i]));
        }
        lemma_run_is_determined(start, rest, s.drop_last(), t.drop_last());
        lemma_run_keeps(start, rest, s.drop_last());
        let v = s.drop_last().last();
        let p = lemma_pushed_outcome(v, inputs.last(), s.last());
        let q = lemma_pushed_outcome(v, inputs.last(), t.last());
        assert(has_one_outcome(start.toolkit, start.options, inputs[inputs.len() - 1]));
        assert(p == q);
    }
}

/// Indexing two lists joined gives the chunks of the first and then those of the second, and counters
/// that are the sums of theirs, where the toolkit leaves no choice of what an input comes to.
pub proof fn indexing_joined_lists_adds_up<K: Toolkit>(
    k: K,
    options: IndexOptions<K::Tuning>,
    a: Seq<RawInput<'_>>,
    b: Seq<RawInput<'_>>,
    out: IndexOutput<K::Chunk>,
    out_a: IndexOutput<K::Chunk>,
    out_b: IndexOutput<K::Chunk>,
)
    requires
        runs_to(IndexerView::fresh(k, options), a + b, out),
        runs_to(IndexerView::fresh(k, options), a, out_a),
        runs_to(IndexerView::fresh(k, options), b, out_b),
        forall|i: int| 0 <= i < a.len() ==> has_one_outcome(k, options, #[trigger] a[i]),
        forall|i: int| 0 <= i < b.len() ==> has_one_outcome(k, options, #[trigger] b[i]),
    ensures
        out.chunks@ == out_a.chunks@ + out_b.chunks@,
        out.stats@ == out_a.stats@.plus(out_b.stats@),
{
    let start = IndexerView::fresh(k, options);
    let states = choose|states: Seq<IndexerView<K>>| #[trigger]
        is_run(start, a + b, states) && states.last().finishes(out);
    let parts = lemma_run_splits(k, options, a, b, states);
    let first = choose|states: Seq<IndexerView<K>>| #[trigger]
        is_run(start, a, states) && states.last().finishes(out_a);
    let second = choose|states: Seq<IndexerView<K>>| #[trigger]
        is_run(start, b, states) && states.last().finishes(out_b);
    lemma_run_is_determined(start, a, parts.0, first);
    lemma_run_is_determined(start, b, parts.1, second);
}

// -------------------------------------------------------------------------------------------------
// What an input comes to
// -------------------------------------------------------------------------------------------------
/// Every backslash of a path becomes a slash, and nothing else changes.
pub proof fn backslashes_become_slashes(path: Seq<char>)
    ensures
        forward_slashes(path).len() == path.len(),
        forall|i: int|
            0 <= i < path.len() ==> #[trigger] forward_slashes(path)[i] == (if path[i] == '\\' {
                '/'
            } else {
                path[i]
            }),
{
}

/// A path names a PDF by the extension of its last part, in whatever case, where something stands before
/// the extension.
pub proof fn pdf_is_known_by_its_extension(path: Seq<char>)
    requires
        path.len() > 0,
        path.last() != '/',
        !(path.len() > 1 && path.last() == '.' && path[path.len() - 2] == '/'),
    ensures
        pdf_path(path) <==> exists|stem: Seq<char>, a: char, b: char, c: char|
            path == #[trigger] stem.push('.').push(a).push(b).push(c) && stem.len() > 0 && stem.last() != '/' && (a
                == 'p' || a == 'P') && (b == 'd' || b == 'D') && (c == 'f' || c == 'F'),
{
    let n = path.len() as int;
    assert(without_trailing_dots(path) == path);
    if pdf_path(path) {
        let stem = path.take(n - 4);
        assert(path =~= stem.push('.').push(path[n - 3]).push(path[n - 2]).push(path[n - 1]));
        assert(stem.last() == path[n - 5]);
    }
    if exists|stem: Seq<char>, a: char, b: char, c: char|
        path == #[trigger] stem.push('.').push(a).push(b).push(c) && stem.len() > 0 && stem.last() != '/' && (a
            == 'p' || a == 'P') && (b == 'd' || b == 'D') && (c == 'f' || c == 'F') {
        let (stem, a, b, c) = choose|stem: Seq<char>, a: char, b: char, c: char|
            path == #[trigger] stem.push('.').push(a).push(b).push(c) && stem.len() > 0 && stem.last() != '/' && (
            a == 'p' || a == 'P') && (b == 'd' || b == 'D') && (c == 'f' || c == 'F');
        assert(path[n - 5] == stem.last());
        assert(path[n - 4] == '.');
        assert(path[n - 3] == a);
        assert(path[n - 2] == b);
        assert(path[n - 1] == c);
    }
}

/// A slash at the end of a path, or a part `.`, makes no difference to whether it names a PDF.
pub proof fn trailing_separators_do_not_matter(path: Seq<char>)
    ensures
        pdf_path(path.push('/')) == pdf_path(path),
        pdf_path(path.push('/').push('.')) == pdf_path(path),
        !pdf_path(Seq::empty()),
{
    let slash = path.push('/');
    let dot = slash.push('.');
    assert(slash.drop_last() =~= path);
    assert(dot.drop_last() =~= slash);
    assert(without_trailing_dots(slash) == without_trailing_dots(path));
    assert(dot[dot.len() - 2] == '/');
    assert(without_trailing_dots(dot) == without_trailing_dots(slash));
}

/// An input that is no PDF is taken by these tests, in this order: without a language it is unsupported,
/// over the cap too large, then not UTF-8, then binary where a NUL stands near its front, and else it is
/// the text that its bytes encode.
pub proof fn source_is_taken_by_language_size_encoding_and_content(
    extract_pdfs: bool,
    path: Seq<char>,
    language: Option<Seq<char>>,
    content: Seq<u8>,
)
    requires
        !pdf_path(path),
    ensures
        ({
            let a = admission(extract_pdfs, path, language, content);
            let small = content.len() <= 5_242_880;
            let nul = exists|i: int| 0 <= i < content.len() && i < 512 && #[trigger] content[i] == 0;
            &&& language is None ==> a is Unsupported
            &&& language is Some && !small ==> a is TooLarge
            &&& language is Some && small && !valid_utf8(content) ==> a is NotUtf8
            &&& language is Some && small && valid_utf8(content) && nul ==> a is Binary
            &&& language is Some && small && valid_utf8(content) && !nul ==> {
                &&& a is Source
                &&& encode_utf8(a->Source_0) == content
            }
        }),
{
    if valid_utf8(content) {
        decode_utf8_encode_utf8(content);
    }
    if exists|i: int| 0 <= i < content.len() && i < 512 && #[trigger] content[i] == 0 {
        let i = choose|i: int| 0 <= i < content.len() && i < 512 && #[trigger] content[i] == 0;
        assert(has_early_nul(content));
    }
}

/// A PDF is ignored where PDFs are not read, too large over the cap, and else read.
pub proof fn pdf_is_taken_by_the_options_and_its_size(
    extract_pdfs: bool,
    path: Seq<char>,
    language: Option<Seq<char>>,
    content: Seq<u8>,
)
    requires
        pdf_path(path),
    ensures
        !extract_pdfs ==> admission(extract_pdfs, path, language, content) is Ignored,
        extract_pdfs && content.len() > 5_242_880 ==> admission(
            extract_pdfs,
            path,
            language,
            content,
        ) is PdfTooLarge,
        extract_pdfs && content.len() <= 5_242_880 ==> admission(
            extract_pdfs,
            path,
            language,
            content,
        ) is Pdf,
{
}

/// An input in a stated language that is no PDF comes to what its size, its encoding and its content say,
/// and else is indexed as the text its bytes encode, under its path with forward slashes.
pub proof fn source_comes_to_what_its_content_says<K: Toolkit>(
    k: K,
    options: IndexOptions<K::Tuning>,
    path: Seq<char>,
    language: Seq<char>,
    content: Seq<u8>,
    outcome: OutcomeView<K::Chunk>,
)
    requires
        !pdf_path(forward_slashes(path)),
        comes_to(k, options, path, Some(language), content, outcome),
    ensures
        ({
            let small = content.len() <= 5_242_880;
            let nul = exists|i: int| 0 <= i < content.len() && i < 512 && #[trigger] content[i] == 0;
            &&& outcome is TooLarge <==> !small
            &&& outcome is NotUtf8 <==> small && !valid_utf8(content)
            &&& outcome is Binary <==> small && valid_utf8(content) && nul
            &&& outcome is Indexed <==> small && valid_utf8(content) && !nul
            &&& outcome matches OutcomeView::Indexed { symbols, facts, chunks } ==> exists|
                source: Seq<char>,
            | #[trigger]
                encode_utf8(source) == content && indexes(
                    k,
                    options,
                    forward_slashes(path),
                    source,
                    language,
                    symbols,
                    facts,
                    chunks,
                )
        }),
{
    let p = forward_slashes(path);
    source_is_taken_by_language_size_encoding_and_content(
        options.extract_pdfs,
        p,
        Some(language),
        content,
    );
    let a = admission(options.extract_pdfs, p, Some(language), content);
    if a is Source {
        assert(encode_utf8(a->Source_0) == content);
    }
}

/// An input without a stated language comes to what it would in the language that the toolkit sees in its
/// path, and is unsupported where the toolkit sees none.
pub proof fn unstated_language_is_seen_in_the_path<K: Toolkit>(
    k: K,
    options: IndexOptions<K::Tuning>,
    path: Seq<char>,
    content: Seq<u8>,
    outcome: OutcomeView<K::Chunk>,
)
    requires
        !pdf_path(forward_slashes(path)),
    ensures
        comes_to(k, options, path, None, content, outcome) <==> exists|d: Option<String>| #[trigger]
            detects(k, forward_slashes(path), d) && match d {
                Some(l) => comes_to(k, options, path, Some(l@), content, outcome),
                None => outcome is Unsupported,
            },
{
    let p = forward_slashes(path);
    if comes_to(k, options, path, None, content, outcome) {
        let language = choose|language: Option<Seq<char>>| #[trigger]
            has_language(k, p, None, language) && match admission(
                options.extract_pdfs,
                p,
                language,
                content,
            ) {
                AdmissionView::Unsupported => outcome is Unsupported,
                AdmissionView::TooLarge => outcome is TooLarge,
                AdmissionView::NotUtf8 => outcome is NotUtf8,
                AdmissionView::Source(source) => outcome matches OutcomeView::Indexed {
                    symbols,
                    facts,
                    chunks,
                } && indexes(k, options, p, source, language->0, symbols, facts, chunks),
                _ => outcome is Binary,
            };
        let d = choose|d: Option<String>| #[trigger] detects(k, p, d) && opt_text(d) == language;
        if let Some(l) = d {
            assert(has_language(k, p, Some(l@), Some(l@)));
        }
        assert(detects(k, p, d));
    }
    if exists|d: Option<String>| #[trigger]
        detects(k, p, d) && match d {
            Some(l) => comes_to(k, options, path, Some(l@), content, outcome),
            None => outcome is Unsupported,
        } {
        let d = choose|d: Option<String>| #[trigger]
            detects(k, p, d) && match d {
                Some(l) => comes_to(k, options, path, Some(l@), content, outcome),
                None => outcome is Unsupported,
            };
        assert(has_language(k, p, None, opt_text(d)));
    }
}

/// A PDF that is read comes to what the reader says of it: the chunks of its text, cut as the language
/// `pdf`; too large; or failed for the reader's reason.
pub proof fn pdf_comes_to_what_the_reader_says<K: Toolkit>(
    k: K,
    options: IndexOptions<K::Tuning>,
    path: Seq<char>,
    stated: Option<Seq<char>>,
    content: Seq<u8>,
    outcome: OutcomeView<K::Chunk>,
)
    requires
        pdf_path(forward_slashes(path)),
        comes_to(k, options, path, stated, content, outcome),
    ensures
        !options.extract_pdfs ==> outcome is Ignored,
        options.extract_pdfs && content.len() > 5_242_880 ==> outcome is PdfTooLarge,
        options.extract_pdfs && content.len() <= 5_242_880 ==> exists|read: PdfOutcome| #[trigger]
            reads_pdf(k, content, read) && match read {
                PdfOutcome::Text(text) => outcome matches OutcomeView::PdfExtracted(chunks)
                    && chunks_text(k, forward_slashes(path), text@, "pdf"@, options.tuning, chunks),
                PdfOutcome::TooLarge => outcome is PdfTooLarge,
                PdfOutcome::Failed(reason) => outcome matches OutcomeView::PdfFailed(why) && why
                    == reason@,
            },
{
}

/// A text that is indexed brings symbols only where the graph is built, and then those of its own tree;
/// in Java it also brings what Spring adds to that tree, and in no other language. Without symbols its
/// chunks are those of the file; with them they are those of the tree, or of the plain text where the tree
/// gives none.
pub proof fn indexed_source_brings_what_its_tree_gives<K: Toolkit>(
    k: K,
    options: IndexOptions<K::Tuning>,
    path: Seq<char>,
    source: Seq<char>,
    language: Seq<char>,
    symbols: Option<SymbolsView>,
    facts: Option<FactsView>,
    chunks: Seq<K::Chunk>,
)
    requires
        indexes(k, options, path, source, language, symbols, facts, chunks),
    ensures
        symbols is None ==> facts is None && chunks_file(
            k,
            path,
            source,
            language,
            options.tuning,
            chunks,
        ),
        symbols is Some ==> options.build_graph && exists|tree: tree_sitter::Tree|
            {
                &&& #[trigger] parses(k, source, language, Some(tree))
                &&& extracts(
                    k,
                    tree,
                    parsed_view(tree, source),
                    path,
                    source,
                    language,
                    symbols->0,
                )
                &&& language == "java"@ ==> facts == Some(
                    spring_facts(parsed_view(tree, source), path),
                )
                &&& language != "java"@ ==> facts is None
                &&& chunks.len() > 0 && chunks_tree(
                    k,
                    tree,
                    path,
                    source,
                    language,
                    options.tuning,
                    chunks,
                ) || chunks_tree(k, tree, path, source, language, options.tuning, Seq::empty())
                    && chunks_text(k, path, source, language, options.tuning, chunks)
            },
        options.build_graph && !supports(k, language, false) && !parses(k, source, language, None) && (
        forall|tree: tree_sitter::Tree| #[trigger]
            parses(k, source, language, Some(tree)) ==> ranges_fit(
                tree_rows(tree),
                encode_utf8(source).len(),
            )) ==> symbols is Some,
{
}

// -------------------------------------------------------------------------------------------------
// What an indexer collects and counts
// -------------------------------------------------------------------------------------------------
/// Each outcome moves its own counter by one, and no other but that of chunked inputs, which moves where
/// there are chunks.
pub proof fn each_outcome_moves_its_counter<K: Toolkit>(
    v: IndexerView<K>,
    outcome: OutcomeView<K::Chunk>,
)
    ensures
        ({
            let before = v.stats;
            let after = v.absorbing(outcome).stats;
            let chunks = v.absorbing(outcome).chunks.len() - v.chunks.len();
            &&& after.pdfs_skipped - before.pdfs_skipped == (if outcome is PdfTooLarge
                || outcome is PdfFailed {
                1int
            } else {
                0int
            })
            &&& after.pdfs_extracted - before.pdfs_extracted == (if outcome is PdfExtracted {
                1int
            } else {
                0int
            })
            &&& after.files_skipped_unsupported - before.files_skipped_unsupported == (
            if outcome is Unsupported {
                1int
            } else {
                0int
            })
            &&& after.files_skipped_too_large - before.files_skipped_too_large == (
            if outcome is TooLarge {
                1int
            } else {
                0int
            })
            &&& after.files_skipped_binary - before.files_skipped_binary == (if outcome is NotUtf8
                || outcome is Binary {
                1int
            } else {
                0int
            })
            &&& after.files_chunked - before.files_chunked == (if chunks > 0 {
                1int
            } else {
                0int
            })
        }),
{
}

/// An indexed input adds its chunks, its symbols and its facts behind what was collected before, and a
/// PDF that was read its chunks.
pub proof fn indexed_input_adds_what_it_gives<K: Toolkit>(
    v: IndexerView<K>,
    outcome: OutcomeView<K::Chunk>,
)
    ensures
        outcome matches OutcomeView::Indexed { symbols, facts, chunks } ==> v.absorbing(outcome).chunks
            == v.chunks + chunks,
        outcome matches OutcomeView::Indexed { symbols, facts, chunks } ==> (symbols matches Some(s)
            ==> v.absorbing(outcome).symbols == v.symbols.push(s)),
        outcome matches OutcomeView::Indexed { symbols, facts, chunks } ==> (symbols is None
            ==> v.absorbing(outcome).symbols == v.symbols),
        outcome matches OutcomeView::Indexed { symbols, facts, chunks } ==> (facts matches Some(f)
            ==> v.absorbing(outcome).facts == v.facts.push(f)),
        outcome matches OutcomeView::Indexed { symbols, facts, chunks } ==> (facts is None
            ==> v.absorbing(outcome).facts == v.facts),
        outcome matches OutcomeView::PdfExtracted(chunks) ==> v.absorbing(outcome).chunks == v.chunks
            + chunks,
        !(outcome is Indexed) ==> v.absorbing(outcome).symbols == v.symbols && v.absorbing(
            outcome,
        ).facts == v.facts,
{
}

/// Pushing an input in a stated language that is no PDF and no text adds nothing but to one counter: that
/// of its size where it is over the cap, else that of binary inputs.
pub proof fn pushing_no_text_is_only_counted<K: Toolkit>(
    v: IndexerView<K>,
    input: RawInput<'_>,
    after: IndexerView<K>,
)
    requires
        v.pushes(input, after),
        !pdf_path(forward_slashes(input.path@)),
        input.language is Some,
        input.content@.len() > 5_242_880 || !valid_utf8(input.content@) || exists|i: int|
            0 <= i < input.content@.len() && i < 512 && #[trigger] input.content@[i] == 0,
    ensures
        after.chunks == v.chunks,
        after.symbols == v.symbols,
        after.facts == v.facts,
        input.content@.len() > 5_242_880 ==> after.stats.files_skipped_too_large
            == v.stats.files_skipped_too_large + 1,
        input.content@.len() <= 5_242_880 ==> after.stats.files_skipped_binary
            == v.stats.files_skipped_binary + 1,
{
    let outcome = choose|outcome: OutcomeView<K::Chunk>| #[trigger]
        comes_to(
            v.toolkit,
            v.options,
            input.path@,
            stated_language(input.language),
            input.content@,
            outcome,
        ) && after == v.absorbing(outcome);
    source_comes_to_what_its_content_says(
        v.toolkit,
        v.options,
        input.path@,
        (input.language->0)@,
        input.content@,
        outcome,
    );
}

/// Pushing a text in a stated language that is no PDF, where the graph is built and the toolkit supports
/// and parses it, adds the symbols of one file, and in Java the facts of one file.
pub proof fn pushing_a_text_adds_its_symbols<K: Toolkit>(
    v: IndexerView<K>,
    input: RawInput<'_>,
    after: IndexerView<K>,
    source: Seq<char>,
)
    requires
        v.pushes(input, after),
        !pdf_path(forward_slashes(input.path@)),
        input.language is Some,
        input.content@ == encode_utf8(source),
        input.content@.len() <= 5_242_880,
        forall|i: int| 0 <= i < input.content@.len() && i < 512 ==> #[trigger] input.content@[i] != 0,
        v.options.build_graph,
        !supports(v.toolkit, (input.language->0)@, false),
        !parses(v.toolkit, source, (input.language->0)@, None),
        forall|tree: tree_sitter::Tree| #[trigger]
            parses(v.toolkit, source, (input.language->0)@, Some(tree)) ==> ranges_fit(
                tree_rows(tree),
                encode_utf8(source).len(),
            ),
    ensures
        after.symbols.len() == v.symbols.len() + 1,
        after.symbols.drop_last() == v.symbols,
        (input.language->0)@ == "java"@ ==> after.facts.len() == v.facts.len() + 1
            && after.facts.drop_last() == v.facts,
        (input.language->0)@ != "java"@ ==> after.facts == v.facts,
        exists|tree: tree_sitter::Tree|
            {
                &&& #[trigger] parses(v.toolkit, source, (input.language->0)@, Some(tree))
                &&& extracts(
                    v.toolkit,
                    tree,
                    parsed_view(tree, source),
                    forward_slashes(input.path@),
                    source,
                    (input.language->0)@,
                    after.symbols.last(),
                )
                &&& (input.language->0)@ == "java"@ ==> after.facts.last() == spring_facts(
                    parsed_view(tree, source),
                    forward_slashes(input.path@),
                )
            },
{
    let k = v.toolkit;
    let language = (input.language->0)@;
    let p = forward_slashes(input.path@);
    let outcome = choose|outcome: OutcomeView<K::Chunk>| #[trigger]
        comes_to(
            k,
            v.options,
            input.path@,
            stated_language(input.language),
            input.content@,
            outcome,
        ) && after == v.absorbing(outcome);
    encode_utf8_valid_utf8(source);
    source_comes_to_what_its_content_says(
        k,
        v.options,
        input.path@,
        language,
        input.content@,
        outcome,
    );
    assert(outcome is Indexed);
    if let OutcomeView::Indexed { symbols, facts, chunks } = outcome {
        let s = choose|s: Seq<char>| #[trigger]
            encode_utf8(s) == input.content@ && indexes(
                k,
                v.options,
                p,
                s,
                language,
                symbols,
                facts,
                chunks,
            );
        encode_utf8_decode_utf8(s);
        encode_utf8_decode_utf8(source);
        assert(s == source);
        indexed_source_brings_what_its_tree_gives(
            k,
            v.options,
            p,
            source,
            language,
            symbols,
            facts,
            chunks,
        );
        assert(after.symbols.drop_last() =~= v.symbols);
        if facts is Some {
            assert(after.facts.drop_last() =~= v.facts);
        }
    }
}

/// A finished run gives all chunks in order, all counters as they stand, and the graph resolved from all
/// symbols and facts where it is built, and else no node and no edge.
pub proof fn finished_run_gives_all_that_was_collected<K: Toolkit>(
    v: IndexerView<K>,
    out: IndexOutput<K::Chunk>,
)
    requires
        v.finishes(out),
    ensures
        out.chunks@ == v.chunks,
        out.stats@ == v.stats,
        v.options.build_graph ==> resolves_to(v.symbols, v.facts, out.graph@),
        !v.options.build_graph ==> out.graph@.nodes.len() == 0 && out.graph@.edges.len() == 0,
{
}

} // verus!
