//! Resolution of the calls of all files into edges, and the one graph that comes of it.
use super::canon::{canonical_edges, canonical_nodes, dedup_colliding_node_ids, sorted_edges};
use super::{
    call_views, callable_views, symbol_views, CallSite, CallView, Callable, FileSymbols, SymbolsView,
};
use crate::model::{
    edge_views, fact_views, node_views, target_views, EdgeView, FactsView, FrameworkCallTarget,
    FrameworkFacts, Graph, GraphEdge, GraphNode, GraphView, NodeView, TargetView,
};
use crate::text::{copy_opt, copy_texts, opt_str, opt_text, same, texts};
use vstd::hash_map::StringHashMap;
use vstd::prelude::*;
use vstd::string::*;

verus! {

// -------------------------------------------------------------------------------------------------
// Picking one candidate
// -------------------------------------------------------------------------------------------------
/// What a call resolves to among its candidates: one of them, none because several fit, or none.
#[derive(Debug, Clone, Copy, PartialEq, Eq)]
pub enum Pick<'a> {
    One(&'a str),
    Ambiguous,
    NoMatch,
}

/// The mathematical value of a [`Pick`].
pub enum PickView {
    One(Seq<char>),
    Ambiguous,
    NoMatch,
}

impl<'a> View for Pick<'a> {
    type V = PickView;

    open spec fn view(&self) -> PickView {
        match self {
            Pick::One(id) => PickView::One(id@),
            Pick::Ambiguous => PickView::Ambiguous,
            Pick::NoMatch => PickView::NoMatch,
        }
    }
}

/// Whether the qualifier `q` names the type of candidate `c` or something that type extends or
/// implements.
pub open spec fn fits_qualifier(c: TargetView, q: Seq<char>) -> bool {
    c.scope == Some(q) || c.scope_supers.contains(q)
}

/// The candidates that the qualifier `q` fits.
pub open spec fn fitting(candidates: Seq<TargetView>, q: Seq<char>) -> Seq<TargetView>
    decreases candidates.len(),
{
    if candidates.len() == 0 {
        Seq::empty()
    } else if fits_qualifier(candidates.last(), q) {
        fitting(candidates.drop_last(), q).push(candidates.last())
    } else {
        fitting(candidates.drop_last(), q)
    }
}

/// What a call with the qualifier `qualifier` resolves to among `candidates`. A single candidate is
/// taken, unless it lies in a type and the qualifier names another. Among several the qualifier must
/// fit exactly one.
pub open spec fn picked(candidates: Seq<TargetView>, qualifier: Option<Seq<char>>) -> PickView {
    if candidates.len() == 0 {
        PickView::NoMatch
    } else if candidates.len() == 1 {
        if qualifier is Some && candidates[0].scope is Some && !fits_qualifier(
            candidates[0],
            qualifier->0,
        ) {
            PickView::NoMatch
        } else {
            PickView::One(candidates[0].node_id)
        }
    } else if qualifier is Some && fitting(candidates, qualifier->0).len() == 1 {
        PickView::One(fitting(candidates, qualifier->0)[0].node_id)
    } else {
        PickView::Ambiguous
    }
}

/// The values of a list of borrowed callables.
pub open spec fn borrowed_views(callables: Seq<&Callable>) -> Seq<TargetView> {
    callables.map_values(|c: &Callable| c@)
}

/// Whether the qualifier `q` names the type of `c` or something that type extends or implements.
pub fn qualifier_matches(c: &Callable, q: &str) -> (r: bool)
    ensures
        r == fits_qualifier(c@, q@),
{
    if let Some(scope) = &c.scope {
        if same(scope.as_str(), q) {
            return true;
        }
    }
    let mut i: usize = 0;
    while i < c.scope_supers.len()
        invariant
            i <= c.scope_supers@.len(),
            forall|k: int| 0 <= k < i ==> texts(c.scope_supers@)[k] != q@,
            opt_text(c.scope) != Some(q@),
        decreases c.scope_supers.len() - i,
    {
        if same(c.scope_supers[i].as_str(), q) {
            assert(texts(c.scope_supers@)[i as int] == q@);
            return true;
        }
        i = i + 1;
    }
    false
}

/// What a call with the qualifier `qualifier` resolves to among `candidates`.
pub fn pick<'a>(candidates: Option<&[&'a Callable]>, qualifier: Option<&str>) -> (r: Pick<'a>)
    ensures
        r@ == picked(
            (match candidates {
                Some(c) => borrowed_views(c@),
                None => Seq::empty(),
            }),
            opt_str(qualifier),
        ),
{
    let list: &[&'a Callable] = match candidates {
        Some(c) => c,
        None => {
            return Pick::NoMatch;
        },
    };
    let ghost all = borrowed_views(list@);
    if list.len() == 0 {
        return Pick::NoMatch;
    }
    if list.len() == 1 {
        let only = list[0];
        assert(all[0] == only@);
        if let Some(q) = qualifier {
            if only.scope.is_some() && !qualifier_matches(only, q) {
                return Pick::NoMatch;
            }
        }
        return Pick::One(only.node_id.as_str());
    }
    let q: &str = match qualifier {
        Some(q) => q,
        None => {
            return Pick::Ambiguous;
        },
    };
    let mut found: Option<&'a Callable> = None;
    let mut i: usize = 0;
    while i < list.len()
        invariant
            candidates == Some(list),
            all == borrowed_views(list@),
            i <= list@.len(),
            match found {
                Some(c) => fitting(all.take(i as int), q@) =~= seq![c@],
                None => fitting(all.take(i as int), q@).len() == 0,
            },
            opt_str(qualifier) == Some(q@),
            list@.len() >= 2,
        decreases list.len() - i,
    {
        let c = list[i];
        assert(all.take(i + 1).drop_last() =~= all.take(i as int));
        assert(all.take(i + 1).last() == c@);
        if qualifier_matches(c, q) {
            if found.is_some() {
                proof {
                    assert(fitting(all.take(i + 1), q@).len() == 2);
                    lemma_fitting_grows(all, q@, i + 1);
                }
                return Pick::Ambiguous;
            }
            found = Some(c);
        }
        i = i + 1;
    }
    assert(all.take(i as int) =~= all);
    match found {
        Some(c) => Pick::One(c.node_id.as_str()),
        None => Pick::Ambiguous,
    }
}

proof fn lemma_fitting_grows(all: Seq<TargetView>, q: Seq<char>, n: int)
    requires
        0 <= n <= all.len(),
    ensures
        fitting(all.take(n), q).len() <= fitting(all, q).len(),
    decreases all.len() - n,
{
    if n == all.len() {
        assert(all.take(n) =~= all);
    } else {
        assert(all.take(n + 1).drop_last() =~= all.take(n));
        lemma_fitting_grows(all, q, n + 1);
    }
}

// -------------------------------------------------------------------------------------------------
// Candidates by name
// -------------------------------------------------------------------------------------------------
/// Those of `all` with the name `name`, in order.
pub open spec fn named(all: Seq<TargetView>, name: Seq<char>) -> Seq<TargetView>
    decreases all.len(),
{
    if all.len() == 0 {
        Seq::empty()
    } else if all.last().name == name {
        named(all.drop_last(), name).push(all.last())
    } else {
        named(all.drop_last(), name)
    }
}

/// Callables by name.
struct NameTable<'a> {
    slots: StringHashMap<usize>,
    groups: Vec<Vec<&'a Callable>>,
}

impl<'a> NameTable<'a> {
    spec fn wf(&self) -> bool {
        &&& forall|n: Seq<char>|
            self.slots@.contains_key(n) ==> #[trigger] self.slots@[n] < self.groups@.len()
        &&& forall|m: Seq<char>, n: Seq<char>|
            self.slots@.contains_key(m) && self.slots@.contains_key(n) && m != n
                ==> #[trigger] self.slots@[m] != #[trigger] self.slots@[n]
    }

    spec fn of(&self, name: Seq<char>) -> Seq<TargetView> {
        if self.slots@.contains_key(name) {
            borrowed_views(self.groups@[self.slots@[name] as int]@)
        } else {
            Seq::empty()
        }
    }

    /// Whether the table holds the callables `all`.
    spec fn lists(&self, all: Seq<TargetView>) -> bool {
        &&& self.wf()
        &&& forall|n: Seq<char>| #[trigger] self.of(n) == named(all, n)
    }

    fn new() -> (r: NameTable<'a>)
        ensures
            r.lists(Seq::empty()),
    {
        NameTable { slots: StringHashMap::new(), groups: Vec::new() }
    }

    fn add(&mut self, c: &'a Callable, Ghost(all): Ghost<Seq<TargetView>>)
        requires
            old(self).lists(all),
        ensures
            final(self).lists(all.push(c@)),
    {
        let ghost before = *self;
        let known: Option<usize> = match self.slots.get(c.name.as_str()) {
            Some(s) => Some(*s),
            None => None,
        };
        match known {
            Some(s) => {
                self.groups[s].push(c);
            },
            None => {
                let s = self.groups.len();
                let mut group: Vec<&'a Callable> = Vec::new();
                group.push(c);
                self.groups.push(group);
                self.slots.insert(c.name.clone(), s);
                assert(borrowed_views(self.groups@[s as int]@) =~= Seq::empty().push(c@));
            },
        }
        proof {
            assert(all.push(c@).drop_last() =~= all);
            assert forall|n: Seq<char>| #[trigger] self.of(n) == named(all.push(c@), n) by {
                assert(before.of(n) == named(all, n));
                if n == c.name@ {
                    assert(self.of(n) =~= before.of(n).push(c@));
                } else {
                    assert(self.of(n) =~= before.of(n));
                }
            }
        }
    }

    fn get(&self, name: &str, Ghost(all): Ghost<Seq<TargetView>>) -> (r: Option<&[&'a Callable]>)
        requires
            self.lists(all),
        ensures
            named(all, name@) == (match r {
                Some(c) => borrowed_views(c@),
                None => Seq::empty(),
            }),
    {
        assert(self.of(name@) == named(all, name@));
        match self.slots.get(name) {
            Some(s) => Some(self.groups[*s].as_slice()),
            None => None,
        }
    }
}

// -------------------------------------------------------------------------------------------------
// The graph of all files
// -------------------------------------------------------------------------------------------------
/// The callables of all files, in order.
pub open spec fn all_callables(files: Seq<SymbolsView>) -> Seq<TargetView>
    decreases files.len(),
{
    if files.len() == 0 {
        Seq::empty()
    } else {
        all_callables(files.drop_last()) + files.last().callables
    }
}

/// The call targets of all framework facts, in order.
pub open spec fn all_targets(framework: Seq<FactsView>) -> Seq<TargetView>
    decreases framework.len(),
{
    if framework.len() == 0 {
        Seq::empty()
    } else {
        all_targets(framework.drop_last()) + framework.last().call_targets
    }
}

/// Everything a call of any file can resolve to: the callables of all files, then the framework's
/// call targets.
pub open spec fn everywhere(files: Seq<SymbolsView>, framework: Seq<FactsView>) -> Seq<TargetView> {
    all_callables(files) + all_targets(framework)
}

/// The node a call resolves to: what its own file settles, else what all candidates settle.
pub open spec fn resolution(
    local: Seq<TargetView>,
    everywhere: Seq<TargetView>,
    call: CallView,
) -> Option<Seq<char>> {
    match picked(named(local, call.name), call.qualifier) {
        PickView::One(id) => Some(id),
        _ => match picked(named(everywhere, call.name), call.qualifier) {
            PickView::One(id) => Some(id),
            _ => None,
        },
    }
}

/// Whether a call is dropped as ambiguous: several definitions fit it anywhere, or several of its own
/// file do and nothing elsewhere settles it.
pub open spec fn is_ambiguous(
    local: Seq<TargetView>,
    everywhere: Seq<TargetView>,
    call: CallView,
) -> bool {
    let near = picked(named(local, call.name), call.qualifier);
    let far = picked(named(everywhere, call.name), call.qualifier);
    !(near is One) && (far is Ambiguous || (far is NoMatch && near is Ambiguous))
}

/// Whether a call finds no definition at all, neither in its own file nor elsewhere.
pub open spec fn is_unresolved(
    local: Seq<TargetView>,
    everywhere: Seq<TargetView>,
    call: CallView,
) -> bool {
    picked(named(local, call.name), call.qualifier) is NoMatch && picked(
        named(everywhere, call.name),
        call.qualifier,
    ) is NoMatch
}

/// How many of `calls` are dropped as ambiguous.
pub open spec fn ambiguous_among(
    local: Seq<TargetView>,
    everywhere: Seq<TargetView>,
    calls: Seq<CallView>,
) -> nat
    decreases calls.len(),
{
    if calls.len() == 0 {
        0
    } else {
        ambiguous_among(local, everywhere, calls.drop_last()) + if is_ambiguous(
            local,
            everywhere,
            calls.last(),
        ) {
            1nat
        } else {
            0nat
        }
    }
}

/// How many of `calls` find no definition.
pub open spec fn unresolved_among(
    local: Seq<TargetView>,
    everywhere: Seq<TargetView>,
    calls: Seq<CallView>,
) -> nat
    decreases calls.len(),
{
    if calls.len() == 0 {
        0
    } else {
        unresolved_among(local, everywhere, calls.drop_last()) + if is_unresolved(
            local,
            everywhere,
            calls.last(),
        ) {
            1nat
        } else {
            0nat
        }
    }
}

/// How many calls of all files are dropped as ambiguous.
pub open spec fn ambiguous_calls(files: Seq<SymbolsView>, everywhere: Seq<TargetView>) -> nat
    decreases files.len(),
{
    if files.len() == 0 {
        0
    } else {
        ambiguous_calls(files.drop_last(), everywhere) + ambiguous_among(
            files.last().callables,
            everywhere,
            files.last().calls,
        )
    }
}

/// How many calls of all files find no definition.
pub open spec fn unresolved_calls(files: Seq<SymbolsView>, everywhere: Seq<TargetView>) -> nat
    decreases files.len(),
{
    if files.len() == 0 {
        0
    } else {
        unresolved_calls(files.drop_last(), everywhere) + unresolved_among(
            files.last().callables,
            everywhere,
            files.last().calls,
        )
    }
}

/// The edges of those of `calls` that resolve.
pub open spec fn call_edges(
    local: Seq<TargetView>,
    everywhere: Seq<TargetView>,
    calls: Seq<CallView>,
) -> Seq<EdgeView>
    decreases calls.len(),
{
    if calls.len() == 0 {
        Seq::empty()
    } else {
        let before = call_edges(local, everywhere, calls.drop_last());
        match resolution(local, everywhere, calls.last()) {
            Some(target) => before.push(
                EdgeView { source: calls.last().caller, target, relation: "calls"@ },
            ),
            None => before,
        }
    }
}

/// The edges of all files: of each, what it contains and the calls that resolve.
pub open spec fn file_edges(files: Seq<SymbolsView>, everywhere: Seq<TargetView>) -> Seq<EdgeView>
    decreases files.len(),
{
    if files.len() == 0 {
        Seq::empty()
    } else {
        file_edges(files.drop_last(), everywhere) + files.last().contains + call_edges(
            files.last().callables,
            everywhere,
            files.last().calls,
        )
    }
}

/// The edges of all framework facts, in order.
pub open spec fn fact_edges(framework: Seq<FactsView>) -> Seq<EdgeView>
    decreases framework.len(),
{
    if framework.len() == 0 {
        Seq::empty()
    } else {
        fact_edges(framework.drop_last()) + framework.last().edges
    }
}

/// The nodes of all files, in order.
pub open spec fn file_nodes(files: Seq<SymbolsView>) -> Seq<NodeView>
    decreases files.len(),
{
    if files.len() == 0 {
        Seq::empty()
    } else {
        file_nodes(files.drop_last()) + files.last().nodes
    }
}

/// The nodes of all framework facts, in order.
pub open spec fn fact_nodes(framework: Seq<FactsView>) -> Seq<NodeView>
    decreases framework.len(),
{
    if framework.len() == 0 {
        Seq::empty()
    } else {
        fact_nodes(framework.drop_last()) + framework.last().nodes
    }
}

/// All nodes that go into the graph.
pub open spec fn all_nodes(files: Seq<SymbolsView>, framework: Seq<FactsView>) -> Seq<NodeView> {
    file_nodes(files) + fact_nodes(framework)
}

/// All edges that go into the graph.
pub open spec fn all_edges(files: Seq<SymbolsView>, framework: Seq<FactsView>) -> Seq<EdgeView> {
    file_edges(files, everywhere(files, framework)) + fact_edges(framework)
}

/// Whether `graph` is the graph of `files` and `framework`: the canonical form of all their nodes and
/// of all their edges.
pub open spec fn resolves_to(
    files: Seq<SymbolsView>,
    framework: Seq<FactsView>,
    graph: GraphView,
) -> bool {
    canonical_nodes(all_nodes(files, framework), graph.nodes) && canonical_edges(
        all_edges(files, framework),
        graph.edges,
    )
}

/// What a resolution counts: the calls it drops as ambiguous, the calls without a definition, and the
/// nodes and edges that the framework brings, before any of them are found to be the same.
#[derive(Debug, Clone, Copy, PartialEq, Eq)]
pub struct ResolveCounts {
    pub ambiguous_calls: u128,
    pub unresolved_calls: u128,
    pub framework_nodes: usize,
    pub framework_edges: usize,
}

/// Whether `counts` are those of the resolution of `files` and `framework`.
pub open spec fn counts_of(
    files: Seq<SymbolsView>,
    framework: Seq<FactsView>,
    counts: ResolveCounts,
) -> bool {
    &&& counts.ambiguous_calls == ambiguous_calls(files, everywhere(files, framework))
    &&& counts.unresolved_calls == unresolved_calls(files, everywhere(files, framework))
    &&& counts.framework_nodes == fact_nodes(framework).len()
    &&& counts.framework_edges == fact_edges(framework).len()
}

fn push_nodes(nodes: &mut Vec<GraphNode>, more: &Vec<GraphNode>)
    ensures
        node_views(final(nodes)@) == node_views(old(nodes)@) + node_views(more@),
{
    let ghost before = node_views(nodes@);
    let mut i: usize = 0;
    assert(node_views(nodes@) =~= before + node_views(more@).take(0));
    while i < more.len()
        invariant
            i <= more@.len(),
            node_views(nodes@) == before + node_views(more@).take(i as int),
        decreases more.len() - i,
    {
        let ghost so_far = node_views(nodes@);
        nodes.push(more[i].copied());
        assert(node_views(nodes@) =~= so_far.push(more@[i as int]@));
        assert(node_views(nodes@) =~= before + node_views(more@).take(i + 1));
        i = i + 1;
    }
    assert(node_views(more@).take(i as int) =~= node_views(more@));
}

fn push_edges(edges: &mut Vec<GraphEdge>, more: &Vec<GraphEdge>)
    ensures
        edge_views(final(edges)@) == edge_views(old(edges)@) + edge_views(more@),
{
    let ghost before = edge_views(edges@);
    let mut i: usize = 0;
    assert(edge_views(edges@) =~= before + edge_views(more@).take(0));
    while i < more.len()
        invariant
            i <= more@.len(),
            edge_views(edges@) == before + edge_views(more@).take(i as int),
        decreases more.len() - i,
    {
        let ghost so_far = edge_views(edges@);
        edges.push(more[i].copied());
        assert(edge_views(edges@) =~= so_far.push(more@[i as int]@));
        assert(edge_views(edges@) =~= before + edge_views(more@).take(i + 1));
        i = i + 1;
    }
    assert(edge_views(more@).take(i as int) =~= edge_views(more@));
}

fn as_callable(ct: &FrameworkCallTarget) -> (c: Callable)
    ensures
        c@ == ct@,
{
    Callable {
        name: ct.name.clone(),
        node_id: ct.node_id.clone(),
        scope: copy_opt(&ct.scope),
        scope_supers: copy_texts(&ct.scope_supers),
    }
}

fn framework_callables(framework: &Vec<FrameworkFacts>) -> (out: Vec<Callable>)
    ensures
        callable_views(out@) == all_targets(fact_views(framework@)),
{
    let ghost facts = fact_views(framework@);
    let mut out: Vec<Callable> = Vec::new();
    let mut f: usize = 0;
    assert(callable_views(out@) =~= all_targets(facts.take(0)));
    while f < framework.len()
        invariant
            facts == fact_views(framework@),
            f <= framework@.len(),
            callable_views(out@) == all_targets(facts.take(f as int)),
        decreases framework.len() - f,
    {
        let targets = &framework[f].call_targets;
        let ghost before = callable_views(out@);
        let ghost more = target_views(targets@);
        let mut i: usize = 0;
        assert(callable_views(out@) =~= before + more.take(0));
        while i < targets.len()
            invariant
                more == target_views(targets@),
                i <= targets@.len(),
                callable_views(out@) == before + more.take(i as int),
            decreases targets.len() - i,
        {
            let ghost so_far = callable_views(out@);
            out.push(as_callable(&targets[i]));
            assert(callable_views(out@) =~= so_far.push(targets@[i as int]@));
            assert(callable_views(out@) =~= before + more.take(i + 1));
            i = i + 1;
        }
        assert(more.take(i as int) =~= more);
        assert(facts.take(f + 1).drop_last() =~= facts.take(f as int));
        assert(facts.take(f + 1).last() == facts[f as int]);
        f = f + 1;
    }
    assert(facts.take(f as int) =~= facts);
    out
}

fn add_all<'a>(
    table: &mut NameTable<'a>,
    callables: &'a Vec<Callable>,
    Ghost(all): Ghost<Seq<TargetView>>,
)
    requires
        old(table).lists(all),
    ensures
        final(table).lists(all + callable_views(callables@)),
{
    let ghost more = callable_views(callables@);
    let mut i: usize = 0;
    assert(all + more.take(0) =~= all);
    while i < callables.len()
        invariant
            more == callable_views(callables@),
            i <= callables@.len(),
            table.lists(all + more.take(i as int)),
        decreases callables.len() - i,
    {
        table.add(&callables[i], Ghost(all + more.take(i as int)));
        assert((all + more.take(i as int)).push(callables@[i as int]@) =~= all + more.take(i + 1));
        i = i + 1;
    }
    assert(more.take(i as int) =~= more);
}

/// What becomes of a call.
enum Settled {
    Target(String),
    Ambiguous,
    Unresolved,
}

fn settle(
    local: &NameTable<'_>,
    global: &NameTable<'_>,
    call: &CallSite,
    Ghost(near): Ghost<Seq<TargetView>>,
    Ghost(far): Ghost<Seq<TargetView>>,
) -> (r: Settled)
    requires
        local.lists(near),
        global.lists(far),
    ensures
        resolution(near, far, call@) == (match r {
            Settled::Target(id) => Some(id@),
            _ => None,
        }),
        r is Ambiguous <==> is_ambiguous(near, far, call@),
        r is Unresolved <==> is_unresolved(near, far, call@),
{
    let qualifier: Option<&str> = match &call.qualifier {
        Some(q) => Some(q.as_str()),
        None => None,
    };
    let local_pick = pick(local.get(call.name.as_str(), Ghost(near)), qualifier);
    let local_ambiguous = match local_pick {
        Pick::One(id) => {
            return Settled::Target(id.to_owned());
        },
        Pick::Ambiguous => true,
        Pick::NoMatch => false,
    };
    match pick(global.get(call.name.as_str(), Ghost(far)), qualifier) {
        Pick::One(id) => Settled::Target(id.to_owned()),
        Pick::Ambiguous => Settled::Ambiguous,
        Pick::NoMatch => {
            if local_ambiguous {
                Settled::Ambiguous
            } else {
                Settled::Unresolved
            }
        },
    }
}

/// Appends the edges of the calls of `file` that resolve, and counts those that are ambiguous and those
/// that find no definition.
fn push_calls(
    edges: &mut Vec<GraphEdge>,
    file: &FileSymbols,
    global: &NameTable<'_>,
    Ghost(far): Ghost<Seq<TargetView>>,
) -> (dropped: (usize, usize))
    requires
        global.lists(far),
    ensures
        edge_views(final(edges)@) == edge_views(old(edges)@) + call_edges(
            file@.callables,
            far,
            file@.calls,
        ),
        dropped.0 == ambiguous_among(file@.callables, far, file@.calls),
        dropped.1 == unresolved_among(file@.callables, far, file@.calls),
{
    let mut local = NameTable::new();
    add_all(&mut local, &file.callables, Ghost(Seq::empty()));
    let ghost near = file@.callables;
    assert(Seq::empty() + near =~= near);
    let ghost before = edge_views(edges@);
    let ghost calls = call_views(file.calls@);
    let mut ambiguous: usize = 0;
    let mut unresolved: usize = 0;
    let mut i: usize = 0;
    assert(edge_views(edges@) =~= before + call_edges(near, far, calls.take(0)));
    while i < file.calls.len()
        invariant
            global.lists(far),
            local.lists(near),
            calls == call_views(file.calls@),
            i <= file.calls@.len(),
            edge_views(edges@) == before + call_edges(near, far, calls.take(i as int)),
            ambiguous == ambiguous_among(near, far, calls.take(i as int)),
            unresolved == unresolved_among(near, far, calls.take(i as int)),
            ambiguous <= i,
            unresolved <= i,
        decreases file.calls.len() - i,
    {
        let call = &file.calls[i];
        assert(calls.take(i + 1).drop_last() =~= calls.take(i as int));
        assert(calls.take(i + 1).last() == call@);
        let ghost so_far = edge_views(edges@);
        match settle(&local, global, call, Ghost(near), Ghost(far)) {
            Settled::Target(target) => {
                edges.push(
                    GraphEdge {
                        source: call.caller.clone(),
                        target,
                        relation: "calls".to_owned(),
                    },
                );
                assert(edge_views(edges@) =~= so_far.push(edges@[edges@.len() - 1]@));
            },
            Settled::Ambiguous => {
                ambiguous = ambiguous + 1;
            },
            Settled::Unresolved => {
                unresolved = unresolved + 1;
            },
        }
        assert(edge_views(edges@) =~= before + call_edges(near, far, calls.take(i + 1)));
        i = i + 1;
    }
    assert(calls.take(i as int) =~= calls);
    (ambiguous, unresolved)
}

proof fn lemma_counts_fit(f: int, n: int, m: int)
    requires
        0 <= f <= usize::MAX,
        0 <= n <= f * usize::MAX,
        0 <= m <= usize::MAX,
    ensures
        n + m <= (f + 1) * usize::MAX,
        f * usize::MAX <= 0xffff_ffff_ffff_ffff * 0xffff_ffff_ffff_ffff,
        n + m <= u128::MAX,
{
    assert((f + 1) * usize::MAX == f * usize::MAX + usize::MAX) by (nonlinear_arith);
    assert(f * usize::MAX <= 0xffff_ffff_ffff_ffff * 0xffff_ffff_ffff_ffff) by (nonlinear_arith)
        requires
            0 <= f <= usize::MAX,
            usize::MAX <= 0xffff_ffff_ffff_ffff,
    ;
}

/// The graph of all files. A call resolves to a definition of its own file where that settles it, else
/// to one of any file or a call target of the framework; where several fit it resolves to none.
#[must_use]
pub fn resolve(files: Vec<FileSymbols>, framework: Vec<FrameworkFacts>) -> (graph: Graph)
    ensures
        resolves_to(symbol_views(files@), fact_views(framework@), graph@),
{
    resolve_counted(files, framework).0
}

/// The graph of all files, and what its resolution counts: a call that several definitions fit is
/// dropped and counted, and so is one that finds none.
#[must_use]
pub fn resolve_counted(files: Vec<FileSymbols>, framework: Vec<FrameworkFacts>) -> (r: (
    Graph,
    ResolveCounts,
))
    ensures
        resolves_to(symbol_views(files@), fact_views(framework@), r.0@),
        counts_of(symbol_views(files@), fact_views(framework@), r.1),
{
    let ghost symbols = symbol_views(files@);
    let ghost facts = fact_views(framework@);
    let ghost far = everywhere(symbols, facts);
    let framework_callables = framework_callables(&framework);

    let mut global = NameTable::new();
    let mut f: usize = 0;
    while f < files.len()
        invariant
            symbols == symbol_views(files@),
            f <= files@.len(),
            global.lists(all_callables(symbols.take(f as int))),
        decreases files.len() - f,
    {
        add_all(&mut global, &files[f].callables, Ghost(all_callables(symbols.take(f as int))));
        assert(symbols.take(f + 1).drop_last() =~= symbols.take(f as int));
        assert(symbols.take(f + 1).last() == symbols[f as int]);
        f = f + 1;
    }
    assert(symbols.take(f as int) =~= symbols);
    add_all(&mut global, &framework_callables, Ghost(all_callables(symbols)));

    let mut nodes: Vec<GraphNode> = Vec::new();
    let mut edges: Vec<GraphEdge> = Vec::new();
    let mut ambiguous: u128 = 0;
    let mut unresolved: u128 = 0;
    f = 0;
    assert(node_views(nodes@) =~= file_nodes(symbols.take(0)));
    assert(edge_views(edges@) =~= file_edges(symbols.take(0), far));
    while f < files.len()
        invariant
            symbols == symbol_views(files@),
            f <= files@.len(),
            global.lists(far),
            node_views(nodes@) == file_nodes(symbols.take(f as int)),
            edge_views(edges@) == file_edges(symbols.take(f as int), far),
            ambiguous == ambiguous_calls(symbols.take(f as int), far),
            unresolved == unresolved_calls(symbols.take(f as int), far),
            ambiguous <= f * usize::MAX,
            unresolved <= f * usize::MAX,
        decreases files.len() - f,
    {
        push_nodes(&mut nodes, &files[f].nodes);
        push_edges(&mut edges, &files[f].contains);
        let dropped = push_calls(&mut edges, &files[f], &global, Ghost(far));
        proof {
            lemma_counts_fit(f as int, ambiguous as int, dropped.0 as int);
            lemma_counts_fit(f as int, unresolved as int, dropped.1 as int);
        }
        ambiguous = ambiguous + dropped.0 as u128;
        unresolved = unresolved + dropped.1 as u128;
        assert(symbols.take(f + 1).drop_last() =~= symbols.take(f as int));
        assert(symbols.take(f + 1).last() == symbols[f as int]);
        f = f + 1;
    }
    assert(symbols.take(f as int) =~= symbols);

    f = 0;
    let file_node_count = nodes.len();
    let file_edge_count = edges.len();
    let ghost own_nodes = node_views(nodes@);
    let ghost own_edges = edge_views(edges@);
    assert(node_views(nodes@) =~= own_nodes + fact_nodes(facts.take(0)));
    assert(edge_views(edges@) =~= own_edges + fact_edges(facts.take(0)));
    while f < framework.len()
        invariant
            facts == fact_views(framework@),
            f <= framework@.len(),
            node_views(nodes@) == own_nodes + fact_nodes(facts.take(f as int)),
            edge_views(edges@) == own_edges + fact_edges(facts.take(f as int)),
        decreases framework.len() - f,
    {
        push_nodes(&mut nodes, &framework[f].nodes);
        push_edges(&mut edges, &framework[f].edges);
        assert(facts.take(f + 1).drop_last() =~= facts.take(f as int));
        assert(facts.take(f + 1).last() == facts[f as int]);
        assert(node_views(nodes@) =~= own_nodes + fact_nodes(facts.take(f + 1)));
        assert(edge_views(edges@) =~= own_edges + fact_edges(facts.take(f + 1)));
        f = f + 1;
    }
    assert(facts.take(f as int) =~= facts);

    let counts = ResolveCounts {
        ambiguous_calls: ambiguous,
        unresolved_calls: unresolved,
        framework_nodes: nodes.len() - file_node_count,
        framework_edges: edges.len() - file_edge_count,
    };
    (Graph { nodes: dedup_colliding_node_ids(nodes), edges: sorted_edges(&edges) }, counts)
}

} // verus!
