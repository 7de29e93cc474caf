//! Concrete syntax as plain values: the nodes of a parsed file in document order, with what the
//! extractors read of each.
use crate::text::{opt_text, same, utf8_text};
use vstd::prelude::*;
use vstd::string::*;
use vstd::utf8::*;

verus! {

// -------------------------------------------------------------------------------------------------
// The model
// -------------------------------------------------------------------------------------------------
/// What is known of one node: its depth below the root, its kind, the field of its parent that it
/// fills, whether it is named, the bytes it covers and the zero-based row it starts on.
#[verifier::ext_equal]
pub struct RowView {
    pub depth: nat,
    pub kind: Seq<char>,
    pub field: Option<Seq<char>>,
    pub named: bool,
    pub start: nat,
    pub end: nat,
    pub row: nat,
}

/// Whether the depths of `rows` are those of a tree listed in document order.
pub open spec fn well_nested(rows: Seq<RowView>) -> bool {
    &&& rows.len() >= 1
    &&& rows[0].depth == 0
    &&& forall|i: int|
        1 <= i < rows.len() ==> 1 <= (#[trigger] rows[i]).depth && rows[i].depth <= rows[i - 1].depth
            + 1
}

/// Whether every node covers a range of a source of `n` bytes.
pub open spec fn ranges_fit(rows: Seq<RowView>, n: nat) -> bool {
    forall|i: int|
        0 <= i < rows.len() ==> (#[trigger] rows[i]).start <= rows[i].end && rows[i].end <= n
}

/// The last of the first `i` rows that lies less deep than `depth`.
pub open spec fn last_above(rows: Seq<RowView>, i: int, depth: nat) -> Option<int>
    decreases i,
{
    if i <= 0 {
        None
    } else if rows[i - 1].depth < depth {
        Some(i - 1)
    } else {
        last_above(rows, i - 1, depth)
    }
}

/// The parent of row `i`: the nearest row before it that lies less deep.
pub open spec fn parent_of(rows: Seq<RowView>, i: int) -> Option<int> {
    last_above(rows, i, rows[i].depth)
}

/// Those of the first `n` rows whose parent is `i`, in order.
pub open spec fn children_among(rows: Seq<RowView>, i: int, n: int) -> Seq<int>
    decreases n,
{
    if n <= 0 {
        Seq::empty()
    } else if parent_of(rows, n - 1) == Some(i) {
        children_among(rows, i, n - 1).push(n - 1)
    } else {
        children_among(rows, i, n - 1)
    }
}

/// The first row from `j` on that is not below row `i`.
pub open spec fn end_of_descendants(rows: Seq<RowView>, i: int, j: int) -> int
    decreases rows.len() - j,
{
    if j >= rows.len() || rows[j].depth <= rows[i].depth {
        j
    } else {
        end_of_descendants(rows, i, j + 1)
    }
}

/// The mathematical value of a [`SyntaxTree`]: its rows, and the bytes they cover.
#[verifier::ext_equal]
pub struct TreeView {
    pub rows: Seq<RowView>,
    pub source: Seq<u8>,
}

impl TreeView {
    /// The number of nodes.
    pub open spec fn len(self) -> int {
        self.rows.len() as int
    }

    /// The kind of node `i`.
    pub open spec fn kind(self, i: int) -> Seq<char> {
        self.rows[i].kind
    }

    /// The line node `i` starts on, counted from one.
    pub open spec fn line(self, i: int) -> int {
        self.rows[i].row as int + 1
    }

    /// The parent of node `i`.
    pub open spec fn parent(self, i: int) -> Option<int> {
        parent_of(self.rows, i)
    }

    /// The children of node `i`, in document order.
    pub open spec fn children(self, i: int) -> Seq<int> {
        children_among(self.rows, i, self.len())
    }

    /// The named nodes among `nodes`.
    pub open spec fn named_among(self, nodes: Seq<int>) -> Seq<int>
        decreases nodes.len(),
    {
        if nodes.len() == 0 {
            Seq::empty()
        } else if self.rows[nodes.last()].named {
            self.named_among(nodes.drop_last()).push(nodes.last())
        } else {
            self.named_among(nodes.drop_last())
        }
    }

    /// The named children of node `i`, in document order.
    pub open spec fn named_children(self, i: int) -> Seq<int> {
        self.named_among(self.children(i))
    }

    /// The first of `nodes` that fills `field`.
    pub open spec fn first_with_field(self, nodes: Seq<int>, field: Seq<char>) -> Option<int>
        decreases nodes.len(),
    {
        if nodes.len() == 0 {
            None
        } else if self.rows[nodes[0]].field == Some(field) {
            Some(nodes[0])
        } else {
            self.first_with_field(nodes.skip(1), field)
        }
    }

    /// The first of `nodes` that is of kind `kind`.
    pub open spec fn first_of_kind(self, nodes: Seq<int>, kind: Seq<char>) -> Option<int>
        decreases nodes.len(),
    {
        if nodes.len() == 0 {
            None
        } else if self.kind(nodes[0]) == kind {
            Some(nodes[0])
        } else {
            self.first_of_kind(nodes.skip(1), kind)
        }
    }

    /// The child of node `i` that fills `field`.
    pub open spec fn field_child(self, i: int, field: Seq<char>) -> Option<int> {
        self.first_with_field(self.children(i), field)
    }

    /// The first child of node `i` that is of kind `kind`.
    pub open spec fn kind_child(self, i: int, kind: Seq<char>) -> Option<int> {
        self.first_of_kind(self.children(i), kind)
    }

    /// The text node `i` covers, where its bytes are valid UTF-8.
    pub open spec fn text(self, i: int) -> Option<Seq<char>> {
        let covered = self.source.subrange(self.rows[i].start as int, self.rows[i].end as int);
        if valid_utf8(covered) {
            Some(decode_utf8(covered))
        } else {
            None
        }
    }

    /// The text of the child of node `i` that fills `field`.
    pub open spec fn field_text(self, i: int, field: Seq<char>) -> Option<Seq<char>> {
        match self.field_child(i, field) {
            Some(c) => self.text(c),
            None => None,
        }
    }
}

// -------------------------------------------------------------------------------------------------
// Facts about the model
// -------------------------------------------------------------------------------------------------
proof fn lemma_last_above(rows: Seq<RowView>, i: int, depth: nat)
    ensures
        last_above(rows, i, depth) matches Some(j) ==> 0 <= j < i && rows[j].depth < depth && forall|
            k: int,
        |
            j < k < i ==> (#[trigger] rows[k]).depth >= depth,
        last_above(rows, i, depth) is None ==> forall|k: int|
            0 <= k < i ==> (#[trigger] rows[k]).depth >= depth,
    decreases i,
{
    if i > 0 && rows[i - 1].depth >= depth {
        lemma_last_above(rows, i - 1, depth);
    }
}

proof fn lemma_children_among(rows: Seq<RowView>, i: int, n: int)
    ensures
        forall|k: int|
            0 <= k < children_among(rows, i, n).len() ==> i < #[trigger] children_among(rows, i, n)[k]
                < n && 0 <= i && parent_of(rows, children_among(rows, i, n)[k]) == Some(i),
    decreases n,
{
    if n > 0 {
        lemma_children_among(rows, i, n - 1);
        lemma_last_above(rows, n - 1, rows[n - 1].depth);
    }
}

/// A child comes after its parent in document order.
pub proof fn lemma_children(t: TreeView, i: int)
    ensures
        forall|k: int|
            0 <= k < t.children(i).len() ==> i < #[trigger] t.children(i)[k] < t.len() && 0 <= i
                && t.parent(t.children(i)[k]) == Some(i),
{
    lemma_children_among(t.rows, i, t.len());
}

/// A parent comes before its child in document order.
pub proof fn lemma_parent(t: TreeView, i: int)
    ensures
        t.parent(i) matches Some(p) ==> 0 <= p < i,
{
    lemma_last_above(t.rows, i, t.rows[i].depth);
}

proof fn lemma_named_among(t: TreeView, nodes: Seq<int>)
    ensures
        forall|k: int|
            0 <= k < t.named_among(nodes).len() ==> nodes.contains(#[trigger] t.named_among(nodes)[k]),
    decreases nodes.len(),
{
    if nodes.len() > 0 {
        let rest = nodes.drop_last();
        lemma_named_among(t, rest);
        assert forall|k: int| 0 <= k < t.named_among(nodes).len() implies nodes.contains(
            #[trigger] t.named_among(nodes)[k],
        ) by {
            let c = t.named_among(nodes)[k];
            if k < t.named_among(rest).len() {
                assert(rest.contains(t.named_among(rest)[k]));
                let w = choose|w: int| 0 <= w < rest.len() && rest[w] == c;
                assert(nodes[w] == c);
            } else {
                assert(nodes[nodes.len() - 1] == c);
            }
        }
    }
}

/// A named child is a child.
pub proof fn lemma_named_children(t: TreeView, i: int)
    ensures
        forall|k: int|
            0 <= k < t.named_children(i).len() ==> i < #[trigger] t.named_children(i)[k] < t.len(),
{
    lemma_children(t, i);
    lemma_named_among(t, t.children(i));
    assert forall|k: int| 0 <= k < t.named_children(i).len() implies i
        < #[trigger] t.named_children(i)[k] < t.len() by {
        assert(t.children(i).contains(t.named_children(i)[k]));
    }
}

proof fn lemma_first_with_field(t: TreeView, nodes: Seq<int>, field: Seq<char>)
    ensures
        t.first_with_field(nodes, field) matches Some(c) ==> nodes.contains(c),
    decreases nodes.len(),
{
    if nodes.len() > 0 {
        lemma_first_with_field(t, nodes.skip(1), field);
        assert(nodes.contains(nodes[0]));
        if let Some(c) = t.first_with_field(nodes, field) {
            if nodes.skip(1).contains(c) {
                let w = choose|w: int| 0 <= w < nodes.skip(1).len() && nodes.skip(1)[w] == c;
                assert(nodes[w + 1] == c);
            }
        }
    }
}

/// The child that fills a field is a child.
pub proof fn lemma_field_child(t: TreeView, i: int, field: Seq<char>)
    ensures
        t.field_child(i, field) matches Some(c) ==> i < c < t.len(),
{
    lemma_children(t, i);
    lemma_first_with_field(t, t.children(i), field);
}

/// In a well nested list the parent lies exactly one level up, and only the first row has none.
proof fn lemma_parent_depth(rows: Seq<RowView>, i: int)
    requires
        well_nested(rows),
        0 <= i < rows.len(),
    ensures
        i == 0 <==> rows[i].depth == 0,
        i > 0 ==> parent_of(rows, i) is Some,
        parent_of(rows, i) matches Some(p) ==> rows[p].depth == rows[i].depth - 1,
{
    lemma_last_above(rows, i, rows[i].depth);
    if let Some(p) = parent_of(rows, i) {
        if p + 1 < i {
            assert(rows[p + 1].depth >= rows[i].depth);
        }
        assert(rows[p + 1].depth <= rows[p].depth + 1);
    }
}

proof fn lemma_listed_among_children(rows: Seq<RowView>, i: int, j: int, n: int)
    requires
        0 <= j < n,
        parent_of(rows, j) == Some(i),
    ensures
        children_among(rows, i, n).contains(j),
    decreases n,
{
    if j == n - 1 {
        assert(children_among(rows, i, n).last() == j);
    } else {
        lemma_listed_among_children(rows, i, j, n - 1);
        let before = children_among(rows, i, n - 1);
        let k = choose|k: int| 0 <= k < before.len() && before[k] == j;
        assert(children_among(rows, i, n)[k] == j);
    }
}

/// In a tree every node but the root has a parent, one level up, and is among its children; the root
/// has none.
pub proof fn every_node_but_the_root_is_a_child(t: TreeView, i: int)
    requires
        well_nested(t.rows),
        0 <= i < t.len(),
    ensures
        i == 0 ==> t.parent(i) is None,
        i > 0 ==> t.parent(i) is Some && t.children(t.parent(i)->0).contains(i) && t.rows[t.parent(
            i,
        )->0].depth + 1 == t.rows[i].depth,
{
    lemma_parent_depth(t.rows, i);
    if i > 0 {
        lemma_listed_among_children(t.rows, t.parent(i)->0, i, t.len());
    }
}

proof fn lemma_end_of_descendants(rows: Seq<RowView>, i: int, j: int, n: int)
    requires
        j <= n <= rows.len(),
        forall|k: int| j <= k < n ==> (#[trigger] rows[k]).depth > rows[i].depth,
        n == rows.len() || rows[n].depth <= rows[i].depth,
    ensures
        end_of_descendants(rows, i, j) == n,
    decreases n - j,
{
    if j < n {
        lemma_end_of_descendants(rows, i, j + 1, n);
    }
}

proof fn lemma_end_of_descendants_inside(rows: Seq<RowView>, i: int, j: int)
    requires
        j <= rows.len(),
    ensures
        j <= end_of_descendants(rows, i, j) <= rows.len(),
        forall|k: int|
            j <= k < end_of_descendants(rows, i, j) ==> (#[trigger] rows[k]).depth > rows[i].depth,
        end_of_descendants(rows, i, j) == rows.len() || rows[end_of_descendants(rows, i, j)].depth
            <= rows[i].depth,
    decreases rows.len() - j,
{
    if j < rows.len() && rows[j].depth > rows[i].depth {
        lemma_end_of_descendants_inside(rows, i, j + 1);
    }
}

/// Where a subtree ends with no sibling after it, its parent's subtree ends too.
proof fn lemma_climb(rows: Seq<RowView>, i: int, n: int)
    requires
        well_nested(rows),
        0 <= i < rows.len(),
        end_of_descendants(rows, i, i + 1) == n,
        n == rows.len() || rows[n].depth != rows[i].depth,
    ensures
        i == 0 ==> n == rows.len(),
        parent_of(rows, i) matches Some(p) ==> end_of_descendants(rows, p, p + 1) == n,
{
    lemma_parent_depth(rows, i);
    lemma_last_above(rows, i, rows[i].depth);
    lemma_end_of_descendants_inside(rows, i, i + 1);
    if i == 0 && n < rows.len() {
        lemma_parent_depth(rows, n);
    }
    if let Some(p) = parent_of(rows, i) {
        assert forall|k: int| p + 1 <= k < n implies (#[trigger] rows[k]).depth > rows[p].depth by {}
        lemma_end_of_descendants(rows, p, p + 1, n);
    }
}

// -------------------------------------------------------------------------------------------------
// What the steps from node to node find
// -------------------------------------------------------------------------------------------------
/// The parent of a node is the nearest node before it that lies less deep.
pub proof fn parent_is_the_nearest_node_less_deep(t: TreeView, i: int, p: int)
    ensures
        t.parent(i) == Some(p) <==> 0 <= p < i && t.rows[p].depth < t.rows[i].depth && forall|k: int|
            p < k < i ==> (#[trigger] t.rows[k]).depth >= t.rows[i].depth,
{
    lemma_last_above(t.rows, i, t.rows[i].depth);
    if 0 <= p < i && t.rows[p].depth < t.rows[i].depth && forall|k: int|
        p < k < i ==> (#[trigger] t.rows[k]).depth >= t.rows[i].depth {
        assert(t.parent(i) is Some);
        let q = t.parent(i)->0;
        assert(t.rows[q].depth < t.rows[i].depth);
    }
}

/// The children of a node are exactly the nodes whose parent it is, each once, in document order.
pub proof fn children_are_the_nodes_of_that_parent(t: TreeView, i: int)
    ensures
        forall|c: int| #[trigger]
            t.children(i).contains(c) <==> 0 <= c < t.len() && t.parent(c) == Some(i),
        forall|j: int, k: int|
            0 <= j < k < t.children(i).len() ==> #[trigger] t.children(i)[j] < #[trigger] t.children(
                i,
            )[k],
{
    lemma_children(t, i);
    lemma_children_rise(t.rows, i, t.len());
    assert forall|c: int| #[trigger] t.children(i).contains(c) <==> 0 <= c < t.len() && t.parent(c)
        == Some(i) by {
        if t.children(i).contains(c) {
            let k = choose|k: int| 0 <= k < t.children(i).len() && t.children(i)[k] == c;
            assert(t.parent(t.children(i)[k]) == Some(i));
        }
        if 0 <= c < t.len() && t.parent(c) == Some(i) {
            lemma_listed_among_children(t.rows, i, c, t.len());
        }
    }
}

proof fn lemma_children_rise(rows: Seq<RowView>, i: int, n: int)
    ensures
        forall|j: int, k: int|
            0 <= j < k < children_among(rows, i, n).len() ==> #[trigger] children_among(rows, i, n)[j]
                < #[trigger] children_among(rows, i, n)[k],
    decreases n,
{
    if n > 0 {
        lemma_children_rise(rows, i, n - 1);
        lemma_children_among(rows, i, n - 1);
    }
}

proof fn lemma_named_rise(t: TreeView, nodes: Seq<int>)
    requires
        forall|j: int, k: int| 0 <= j < k < nodes.len() ==> #[trigger] nodes[j] < #[trigger] nodes[k],
    ensures
        forall|j: int, k: int|
            0 <= j < k < t.named_among(nodes).len() ==> #[trigger] t.named_among(nodes)[j]
                < #[trigger] t.named_among(nodes)[k],
        forall|c: int| #[trigger]
            t.named_among(nodes).contains(c) <==> nodes.contains(c) && t.rows[c].named,
    decreases nodes.len(),
{
    if nodes.len() > 0 {
        let rest = nodes.drop_last();
        let last = nodes.last();
        lemma_named_rise(t, rest);
        lemma_named_among(t, rest);
        let now = t.named_among(nodes);
        let before = t.named_among(rest);
        assert forall|j: int, k: int| 0 <= j < k < now.len() implies #[trigger] now[j]
            < #[trigger] now[k] by {
            assert(now[j] == before[j]);
            if k == before.len() {
                assert(rest.contains(before[j]));
                let w = choose|w: int| 0 <= w < rest.len() && rest[w] == before[j];
                assert(nodes[w] < nodes[nodes.len() - 1]);
            } else {
                assert(now[k] == before[k]);
            }
        }
        assert forall|c: int| #[trigger] now.contains(c) <==> nodes.contains(c) && t.rows[c].named by {
            if nodes.contains(c) && t.rows[c].named {
                let w = choose|w: int| 0 <= w < nodes.len() && nodes[w] == c;
                if w < rest.len() {
                    assert(rest[w] == c);
                    assert(before.contains(c));
                    let x = choose|x: int| 0 <= x < before.len() && before[x] == c;
                    assert(now[x] == c);
                } else {
                    assert(now[now.len() - 1] == c);
                }
            }
            if now.contains(c) {
                let x = choose|x: int| 0 <= x < now.len() && now[x] == c;
                if x < before.len() {
                    assert(before[x] == c);
                    assert(before.contains(c));
                    let w = choose|w: int| 0 <= w < rest.len() && rest[w] == c;
                    assert(nodes[w] == c);
                } else {
                    assert(nodes[nodes.len() - 1] == c);
                }
            }
        }
    }
}

/// The named children of a node are exactly its children that are named, each once, in document order.
pub proof fn named_children_are_the_named_nodes_of_that_parent(t: TreeView, i: int)
    ensures
        forall|c: int| #[trigger]
            t.named_children(i).contains(c) <==> 0 <= c < t.len() && t.parent(c) == Some(i)
                && t.rows[c].named,
        forall|j: int, k: int|
            0 <= j < k < t.named_children(i).len() ==> #[trigger] t.named_children(i)[j]
                < #[trigger] t.named_children(i)[k],
{
    children_are_the_nodes_of_that_parent(t, i);
    lemma_named_rise(t, t.children(i));
    assert forall|c: int| #[trigger] t.named_children(i).contains(c) <==> 0 <= c < t.len()
        && t.parent(c) == Some(i) && t.rows[c].named by {
        assert(t.children(i).contains(c) <==> 0 <= c < t.len() && t.parent(c) == Some(i));
    }
}

proof fn lemma_first_with_field_at(t: TreeView, nodes: Seq<int>, field: Seq<char>) -> (w: int)
    ensures
        t.first_with_field(nodes, field) matches Some(c) ==> 0 <= w < nodes.len() && nodes[w] == c
            && t.rows[c].field == Some(field) && forall|j: int|
            0 <= j < w ==> t.rows[#[trigger] nodes[j]].field != Some(field),
        t.first_with_field(nodes, field) is None ==> forall|j: int|
            0 <= j < nodes.len() ==> t.rows[#[trigger] nodes[j]].field != Some(field),
    decreases nodes.len(),
{
    if nodes.len() == 0 || t.rows[nodes[0]].field == Some(field) {
        0
    } else {
        let rest = nodes.skip(1);
        let w = lemma_first_with_field_at(t, rest, field);
        assert forall|j: int|
            0 <= j < nodes.len() && (t.first_with_field(nodes, field) is None || j < w
                + 1) implies t.rows[#[trigger] nodes[j]].field != Some(field) by {
            if j > 0 {
                assert(nodes[j] == rest[j - 1]);
            }
        }
        w + 1
    }
}

/// The child that fills a field is the first child that does; there is none only where no child does.
pub proof fn field_child_is_the_first_child_of_that_field(t: TreeView, i: int, field: Seq<char>)
    ensures
        forall|c: int|
            t.field_child(i, field) == Some(c) <==> 0 <= c < t.len() && t.parent(c) == Some(i)
                && t.rows[c].field == Some(field) && forall|d: int|
                0 <= d < c && #[trigger] t.parent(d) == Some(i) ==> t.rows[d].field != Some(field),
        t.field_child(i, field) is None <==> forall|d: int|
            0 <= d < t.len() && #[trigger] t.parent(d) == Some(i) ==> t.rows[d].field != Some(field),
{
    let kids = t.children(i);
    children_are_the_nodes_of_that_parent(t, i);
    let w = lemma_first_with_field_at(t, kids, field);
    if t.field_child(i, field) is None {
        assert forall|d: int| 0 <= d < t.len() && #[trigger] t.parent(d) == Some(
            i,
        ) implies t.rows[d].field != Some(field) by {
            assert(kids.contains(d));
        }
    } else {
        let c = t.field_child(i, field)->0;
        assert(kids.contains(kids[w]));
        assert forall|d: int| 0 <= d < c && #[trigger] t.parent(d) == Some(
            i,
        ) implies t.rows[d].field != Some(field) by {
            assert(kids.contains(d));
            let x = choose|x: int| 0 <= x < kids.len() && kids[x] == d;
            if x >= w {
                assert(x == w || kids[w] < kids[x]);
            }
        }
    }
}

proof fn lemma_first_of_kind_at(t: TreeView, nodes: Seq<int>, kind: Seq<char>) -> (w: int)
    ensures
        t.first_of_kind(nodes, kind) matches Some(c) ==> 0 <= w < nodes.len() && nodes[w] == c
            && t.rows[c].kind == kind && forall|j: int|
            0 <= j < w ==> t.rows[#[trigger] nodes[j]].kind != kind,
        t.first_of_kind(nodes, kind) is None ==> forall|j: int|
            0 <= j < nodes.len() ==> t.rows[#[trigger] nodes[j]].kind != kind,
    decreases nodes.len(),
{
    if nodes.len() == 0 || t.rows[nodes[0]].kind == kind {
        0
    } else {
        let rest = nodes.skip(1);
        let w = lemma_first_of_kind_at(t, rest, kind);
        assert forall|j: int|
            0 <= j < nodes.len() && (t.first_of_kind(nodes, kind) is None || j < w
                + 1) implies t.rows[#[trigger] nodes[j]].kind != kind by {
            if j > 0 {
                assert(nodes[j] == rest[j - 1]);
            }
        }
        w + 1
    }
}

/// The child of a kind is the first child of that kind; there is none only where no child is.
pub proof fn kind_child_is_the_first_child_of_that_kind(t: TreeView, i: int, kind: Seq<char>)
    ensures
        forall|c: int|
            t.kind_child(i, kind) == Some(c) <==> 0 <= c < t.len() && t.parent(c) == Some(i)
                && t.rows[c].kind == kind && forall|d: int|
                0 <= d < c && #[trigger] t.parent(d) == Some(i) ==> t.rows[d].kind != kind,
        t.kind_child(i, kind) is None <==> forall|d: int|
            0 <= d < t.len() && #[trigger] t.parent(d) == Some(i) ==> t.rows[d].kind != kind,
{
    let kids = t.children(i);
    children_are_the_nodes_of_that_parent(t, i);
    let w = lemma_first_of_kind_at(t, kids, kind);
    if t.kind_child(i, kind) is None {
        assert forall|d: int| 0 <= d < t.len() && #[trigger] t.parent(d) == Some(
            i,
        ) implies t.rows[d].kind != kind by {
            assert(kids.contains(d));
        }
    } else {
        let c = t.kind_child(i, kind)->0;
        assert(kids.contains(kids[w]));
        assert forall|d: int| 0 <= d < c && #[trigger] t.parent(d) == Some(
            i,
        ) implies t.rows[d].kind != kind by {
            assert(kids.contains(d));
            let x = choose|x: int| 0 <= x < kids.len() && kids[x] == d;
            if x >= w {
                assert(x == w || kids[w] < kids[x]);
            }
        }
    }
}

/// A node's text is the one whose encoding is the bytes it covers, and its line is one more than its
/// row.
pub proof fn text_is_what_the_covered_bytes_encode(t: TreeView, i: int, s: Seq<char>)
    ensures
        t.text(i) == Some(s) <==> encode_utf8(s) == t.source.subrange(
            t.rows[i].start as int,
            t.rows[i].end as int,
        ),
        t.line(i) - 1 == t.rows[i].row,
        t.kind(i) == t.rows[i].kind,
{
    let covered = t.source.subrange(t.rows[i].start as int, t.rows[i].end as int);
    encode_utf8_valid_utf8(s);
    encode_utf8_decode_utf8(s);
    if valid_utf8(covered) {
        decode_utf8_encode_utf8(covered);
    }
}

/// The text of a field is the text of the child that fills it, and there is none without such a child.
pub proof fn field_text_is_the_text_of_that_child(t: TreeView, i: int, field: Seq<char>, s: Seq<char>)
    ensures
        t.field_text(i, field) == Some(s) <==> exists|c: int|
            t.field_child(i, field) == Some(c) && #[trigger] t.text(c) == Some(s),
{
    if t.field_text(i, field) == Some(s) {
        assert(t.text(t.field_child(i, field)->0) == Some(s));
    }
}

// -------------------------------------------------------------------------------------------------
// Rows read from a tree-sitter tree
// -------------------------------------------------------------------------------------------------
/// What is read of one node.
#[derive(Debug, Clone, Copy, PartialEq, Eq)]
pub struct SyntaxRow<'a> {
    /// How many nodes lie above this one.
    pub depth: u32,
    /// The node's kind, such as `class_declaration`.
    pub kind: &'a str,
    /// The field of the parent that the node fills.
    pub field: Option<&'a str>,
    /// Whether the grammar names the node.
    pub named: bool,
    /// The first byte the node covers.
    pub start: usize,
    /// The byte after the last the node covers.
    pub end: usize,
    /// The row the node starts on, counted from zero.
    pub row: u32,
}

impl<'a> View for SyntaxRow<'a> {
    type V = RowView;

    open spec fn view(&self) -> RowView {
        RowView {
            depth: self.depth as nat,
            kind: self.kind@,
            field: match self.field {
                Some(f) => Some(f@),
                None => None,
            },
            named: self.named,
            start: self.start as nat,
            end: self.end as nat,
            row: self.row as nat,
        }
    }
}

/// The values of a list of rows.
pub open spec fn row_views(rows: Seq<SyntaxRow<'_>>) -> Seq<RowView> {
    rows.map_values(|r: SyntaxRow<'_>| r@)
}

/// A tree as `tree_sitter` parsed it.
#[verifier::external_type_specification]
#[verifier::external_body]
pub struct ExTree(tree_sitter::Tree);

/// A place in a `tree_sitter` tree that can be moved through it.
#[verifier::external_type_specification]
#[verifier::external_body]
pub struct ExTreeCursor<'cursor>(tree_sitter::TreeCursor<'cursor>);

/// The nodes of a tree in document order, from its root.
pub uninterp spec fn tree_rows(tree: tree_sitter::Tree) -> Seq<RowView>;

/// The nodes a cursor can reach, in document order from the node it was made for.
pub uninterp spec fn cursor_rows(cursor: tree_sitter::TreeCursor<'_>) -> Seq<RowView>;

/// The position in [`cursor_rows`] of the node a cursor stands on.
pub uninterp spec fn cursor_at(cursor: tree_sitter::TreeCursor<'_>) -> int;

/// `Tree::walk`: a cursor that stands on the root of the tree and reaches all of its nodes. The depths
/// of these nodes are those of a tree.
#[verifier::external_body]
fn walk_tree<'a>(tree: &'a tree_sitter::Tree) -> (cursor: tree_sitter::TreeCursor<'a>)
    ensures
        cursor_rows(cursor) == tree_rows(*tree),
        cursor_at(cursor) == 0,
        well_nested(cursor_rows(cursor)),
{
    tree.walk()
}

/// `TreeCursor::goto_first_child`: moves to the first child, which in document order is the next node
/// where that lies deeper; stays, and returns false, where there is none.
#[verifier::external_body]
fn goto_first_child(cursor: &mut tree_sitter::TreeCursor<'_>) -> (moved: bool)
    ensures
        cursor_rows(*final(cursor)) == cursor_rows(*old(cursor)),
        moved == ({
            let rows = cursor_rows(*old(cursor));
            let at = cursor_at(*old(cursor));
            at + 1 < rows.len() && rows[at + 1].depth > rows[at].depth
        }),
        cursor_at(*final(cursor)) == if moved {
            cursor_at(*old(cursor)) + 1
        } else {
            cursor_at(*old(cursor))
        },
{
    cursor.goto_first_child()
}

/// `TreeCursor::goto_next_sibling`: moves to the next sibling, which in document order is the first
/// node after all descendants where that lies as deep; stays, and returns false, where there is none.
#[verifier::external_body]
fn goto_next_sibling(cursor: &mut tree_sitter::TreeCursor<'_>) -> (moved: bool)
    ensures
        cursor_rows(*final(cursor)) == cursor_rows(*old(cursor)),
        moved == ({
            let rows = cursor_rows(*old(cursor));
            let at = cursor_at(*old(cursor));
            let next = end_of_descendants(rows, at, at + 1);
            next < rows.len() && rows[next].depth == rows[at].depth
        }),
        cursor_at(*final(cursor)) == if moved {
            end_of_descendants(
                cursor_rows(*old(cursor)),
                cursor_at(*old(cursor)),
                cursor_at(*old(cursor)) + 1,
            )
        } else {
            cursor_at(*old(cursor))
        },
{
    cursor.goto_next_sibling()
}

/// `TreeCursor::goto_parent`: moves to the parent; stays, and returns false, on the node the cursor
/// was made for.
#[verifier::external_body]
fn goto_parent(cursor: &mut tree_sitter::TreeCursor<'_>) -> (moved: bool)
    ensures
        cursor_rows(*final(cursor)) == cursor_rows(*old(cursor)),
        moved == (parent_of(cursor_rows(*old(cursor)), cursor_at(*old(cursor))) is Some),
        parent_of(cursor_rows(*old(cursor)), cursor_at(*old(cursor))) matches Some(p) ==> cursor_at(
            *final(cursor),
        ) == p,
        !moved ==> cursor_at(*final(cursor)) == cursor_at(*old(cursor)),
{
    cursor.goto_parent()
}

/// What `TreeCursor::node`, `field_name` and `depth` give of the node a cursor stands on.
#[verifier::external_body]
fn current_row<'a>(cursor: &tree_sitter::TreeCursor<'a>) -> (row: SyntaxRow<'a>)
    ensures
        row@ == cursor_rows(*cursor)[cursor_at(*cursor)],
{
    let node = cursor.node();
    SyntaxRow {
        depth: cursor.depth(),
        kind: node.kind(),
        field: cursor.field_name(),
        named: node.is_named(),
        start: node.start_byte(),
        end: node.end_byte(),
        row: node.start_position().row as u32,
    }
}

/// The rows of a tree, in document order.
pub fn read_rows<'a>(tree: &'a tree_sitter::Tree) -> (rows: Vec<SyntaxRow<'a>>)
    ensures
        row_views(rows@) == tree_rows(*tree),
        well_nested(row_views(rows@)),
{
    let ghost all = tree_rows(*tree);
    let mut cursor = walk_tree(tree);
    let mut rows: Vec<SyntaxRow<'a>> = Vec::new();
    loop
        invariant
            cursor_rows(cursor) == all,
            well_nested(all),
            all == tree_rows(*tree),
            cursor_at(cursor) == rows@.len(),
            rows@.len() < all.len(),
            row_views(rows@) =~= all.take(rows@.len() as int),
        decreases all.len() - rows@.len(),
    {
        let ghost here = cursor_at(cursor);
        rows.push(current_row(&cursor));
        assert(row_views(rows@) =~= all.take(rows@.len() as int));
        if !goto_first_child(&mut cursor) {
            assert(end_of_descendants(all, here, here + 1) == here + 1);
            let mut at_sibling = false;
            while !at_sibling
                invariant
                    cursor_rows(cursor) == all,
                    well_nested(all),
                    all == tree_rows(*tree),
                    rows@.len() <= all.len(),
                    row_views(rows@) =~= all.take(rows@.len() as int),
                    0 <= cursor_at(cursor) < all.len(),
                    at_sibling ==> cursor_at(cursor) == rows@.len(),
                    !at_sibling ==> end_of_descendants(
                        all,
                        cursor_at(cursor),
                        cursor_at(cursor) + 1,
                    ) == rows@.len(),
                decreases
                        if at_sibling {
                            0
                        } else {
                            cursor_at(cursor) + 1
                        },
            {
                let ghost at = cursor_at(cursor);
                proof {
                    lemma_parent_depth(all, at);
                    lemma_last_above(all, at, all[at].depth);
                }
                if goto_next_sibling(&mut cursor) {
                    at_sibling = true;
                } else {
                    proof {
                        lemma_climb(all, at, rows@.len() as int);
                    }
                    if !goto_parent(&mut cursor) {
                        assert(row_views(rows@) =~= all);
                        return rows;
                    }
                }
            }
        }
    }
}

// -------------------------------------------------------------------------------------------------
// The tree
// -------------------------------------------------------------------------------------------------
/// A parsed file: its nodes in document order, linked to their parents and children, and its bytes.
/// A node is named by its place in document order; the root is node `0`.
pub struct SyntaxTree<'a> {
    rows: Vec<SyntaxRow<'a>>,
    parents: Vec<Option<usize>>,
    children: Vec<Vec<usize>>,
    source: &'a [u8],
}

/// Whether a machine index list holds the same numbers as a mathematical one.
pub open spec fn same_indices(v: Seq<usize>, s: Seq<int>) -> bool {
    &&& v.len() == s.len()
    &&& forall|k: int| 0 <= k < v.len() ==> #[trigger] v[k] as int == s[k]
}

/// The mathematical value of an optional machine index.
pub open spec fn opt_index(i: Option<usize>) -> Option<int> {
    match i {
        Some(j) => Some(j as int),
        None => None,
    }
}

impl<'a> View for SyntaxTree<'a> {
    type V = TreeView;

    closed spec fn view(&self) -> TreeView {
        TreeView { rows: row_views(self.rows@), source: self.source@ }
    }
}

/// The value of a syntax tree that `tree_sitter` parsed from `source`.
pub open spec fn parsed_view(tree: tree_sitter::Tree, source: Seq<char>) -> TreeView {
    TreeView { rows: tree_rows(tree), source: encode_utf8(source) }
}

/// Whether rows and a source make a tree.
pub open spec fn makes_tree(rows: Seq<RowView>, source: Seq<u8>) -> bool {
    well_nested(rows) && ranges_fit(rows, source.len())
}

impl<'a> SyntaxTree<'a> {
    #[verifier::type_invariant]
    spec fn linked(self) -> bool {
        &&& makes_tree(self@.rows, self@.source)
        &&& self.parents@.len() == self.rows@.len()
        &&& self.children@.len() == self.rows@.len()
        &&& forall|i: int|
            0 <= i < self.rows@.len() ==> opt_index(#[trigger] self.parents@[i]) == self@.parent(i)
        &&& forall|i: int|
            0 <= i < self.rows@.len() ==> same_indices(
                (#[trigger] self.children@[i])@,
                self@.children(i),
            )
    }

    /// The tree of `rows` over `source`; none where the depths are not those of a tree or a node
    /// covers bytes outside the source.
    pub fn arrange(rows: Vec<SyntaxRow<'a>>, source: &'a [u8]) -> (tree: Option<SyntaxTree<'a>>)
        ensures
            tree is Some <==> makes_tree(row_views(rows@), source@),
            tree matches Some(t) ==> t@ == (TreeView { rows: row_views(rows@), source: source@ }),
    {
        let ghost all = row_views(rows@);
        if rows.len() == 0 || rows[0].depth != 0 {
            assert(rows@.len() > 0 ==> all[0] == rows@[0]@);
            return None;
        }
        let mut parents: Vec<Option<usize>> = Vec::new();
        let mut children: Vec<Vec<usize>> = Vec::new();
        let mut path: Vec<usize> = Vec::new();
        let mut i: usize = 0;
        while i < rows.len()
            invariant
                all == row_views(rows@),
                rows@.len() >= 1,
                all[0].depth == 0,
                i <= rows@.len(),
                forall|k: int|
                    1 <= k < i ==> 1 <= (#[trigger] all[k]).depth && all[k].depth <= all[k - 1].depth
                        + 1,
                ranges_fit(all.take(i as int), source@.len()),
                parents@.len() == i,
                children@.len() == i,
                i == 0 ==> path@.len() == 0,
                i > 0 ==> path@.len() == all[i - 1].depth + 1,
                forall|d: int|
                    1 <= d <= path@.len() ==> last_above(all, i as int, d as nat) == Some(
                        #[trigger] path@[d - 1] as int,
                    ),
                forall|d: int| 0 <= d < path@.len() ==> #[trigger] path@[d] < i,
                forall|k: int| 0 <= k < i ==> opt_index(#[trigger] parents@[k]) == parent_of(all, k),
                forall|k: int|
                    0 <= k < i ==> same_indices(
                        (#[trigger] children@[k])@,
                        children_among(all, k, i as int),
                    ),
            decreases rows.len() - i,
        {
            let row = rows[i];
            let ghost n = i as int;
            assert(all[n] == row@);
            let depth: usize = row.depth as usize;
            let nested: bool = if i == 0 {
                depth == 0
            } else {
                1 <= depth && depth <= path.len()
            };
            if !nested || row.start > row.end || row.end > source.len() {
                return None;
            }
            let ghost old_path = path@;
            let ghost old_children = children@;
            path.truncate(depth);
            assert(path@ =~= old_path.take(depth as int));
            let parent: Option<usize> = if depth == 0 {
                None
            } else {
                Some(path[depth - 1])
            };
            proof {
                if depth == 0 {
                    lemma_last_above(all, n, 0);
                } else {
                    assert(last_above(all, n, depth as nat) == Some(old_path[depth - 1] as int));
                }
                assert(opt_index(parent) == parent_of(all, n));
                assert forall|k: int| k != n implies #[trigger] children_among(all, k, n + 1) == if
                parent_of(all, n) == Some(k) {
                    children_among(all, k, n).push(n)
                } else {
                    children_among(all, k, n)
                } by {}
                lemma_children_among(all, n, n + 1);
                assert(children_among(all, n, n + 1).len() == 0) by {
                    if children_among(all, n, n + 1).len() > 0 {
                        assert(n < children_among(all, n, n + 1)[0] < n + 1);
                    }
                }
            }
            parents.push(parent);
            if let Some(p) = parent {
                children[p].push(i);
            }
            children.push(Vec::new());
            path.push(i);
            proof {
                assert forall|d: int| 1 <= d <= path@.len() implies last_above(
                    all,
                    n + 1,
                    d as nat,
                ) == Some(#[trigger] path@[d - 1] as int) by {
                    if d <= depth {
                        assert(path@[d - 1] == old_path[d - 1]);
                    }
                }
                assert forall|k: int| 0 <= k < n + 1 implies same_indices(
                    (#[trigger] children@[k])@,
                    children_among(all, k, n + 1),
                ) by {
                    if k < n {
                        assert(same_indices(old_children[k]@, children_among(all, k, n)));
                    }
                }
                assert forall|k: int| 0 <= k < n + 1 implies (#[trigger] all.take(n + 1)[k]).start
                    <= all.take(n + 1)[k].end && all.take(n + 1)[k].end <= source@.len() by {
                    if k < n {
                        assert(all.take(n)[k] == all[k]);
                    }
                }
            }
            i = i + 1;
        }
        assert(all.take(i as int) =~= all);
        Some(SyntaxTree { rows, parents, children, source })
    }

    /// The tree that `tree_sitter` parsed from `source`; none where a node of `tree` covers bytes
    /// outside `source`, as happens when the tree was parsed from other text.
    pub fn new(tree: &'a tree_sitter::Tree, source: &'a [u8]) -> (r: Option<SyntaxTree<'a>>)
        ensures
            r is Some <==> ranges_fit(tree_rows(*tree), source@.len()),
            r matches Some(t) ==> t@ == (TreeView { rows: tree_rows(*tree), source: source@ }),
    {
        let rows = read_rows(tree);
        SyntaxTree::arrange(rows, source)
    }

    /// The number of nodes.
    pub fn len(&self) -> (n: usize)
        ensures
            n == self@.len(),
            n >= 1,
    {
        proof {
            use_type_invariant(self);
        }
        self.rows.len()
    }

    /// Whether node `i` is of kind `kind`.
    pub fn is_kind(&self, i: usize, kind: &str) -> (r: bool)
        requires
            i < self@.len(),
        ensures
            r == (self@.kind(i as int) == kind@),
    {
        same(self.rows[i].kind, kind)
    }

    /// The line node `i` starts on, counted from one.
    pub fn line(&self, i: usize) -> (line: i64)
        requires
            i < self@.len(),
        ensures
            line == self@.line(i as int),
    {
        self.rows[i].row as i64 + 1
    }

    /// The parent of node `i`.
    pub fn parent(&self, i: usize) -> (p: Option<usize>)
        requires
            i < self@.len(),
        ensures
            opt_index(p) == self@.parent(i as int),
            p matches Some(j) ==> j < i,
    {
        proof {
            use_type_invariant(self);
            lemma_parent(self@, i as int);
        }
        let p = self.parents[i];
        assert(opt_index(self.parents@[i as int]) == self@.parent(i as int));
        p
    }

    /// The children of node `i`, in document order.
    pub fn children(&self, i: usize) -> (nodes: &Vec<usize>)
        requires
            i < self@.len(),
        ensures
            same_indices(nodes@, self@.children(i as int)),
            forall|k: int| 0 <= k < nodes@.len() ==> i < #[trigger] nodes@[k] < self@.len(),
    {
        proof {
            use_type_invariant(self);
            lemma_children(self@, i as int);
        }
        let nodes = &self.children[i];
        assert(same_indices(self.children@[i as int]@, self@.children(i as int)));
        assert forall|k: int| 0 <= k < nodes@.len() implies i < #[trigger] nodes@[k] < self@.len() by {
            assert(nodes@[k] as int == self@.children(i as int)[k]);
        }
        nodes
    }

    /// The named children of node `i`, in document order.
    pub fn named_children(&self, i: usize) -> (nodes: Vec<usize>)
        requires
            i < self@.len(),
        ensures
            same_indices(nodes@, self@.named_children(i as int)),
            forall|k: int| 0 <= k < nodes@.len() ==> i < #[trigger] nodes@[k] < self@.len(),
    {
        let kids = self.children(i);
        let ghost all = self@.children(i as int);
        let mut out: Vec<usize> = Vec::new();
        let mut k: usize = 0;
        while k < kids.len()
            invariant
                i < self@.len(),
                k <= kids@.len(),
                same_indices(kids@, all),
                forall|j: int| 0 <= j < kids@.len() ==> i < #[trigger] kids@[j] < self@.len(),
                forall|j: int| 0 <= j < out@.len() ==> i < #[trigger] out@[j] < self@.len(),
                same_indices(out@, self@.named_among(all.take(k as int))),
            decreases kids.len() - k,
        {
            let c = kids[k];
            assert(all.take(k + 1).drop_last() =~= all.take(k as int));
            if self.rows[c].named {
                out.push(c);
            }
            k = k + 1;
        }
        assert(all.take(k as int) =~= all);
        out
    }

    /// The child of node `i` that fills `field`.
    pub fn field_child(&self, i: usize, field: &str) -> (c: Option<usize>)
        requires
            i < self@.len(),
        ensures
            opt_index(c) == self@.field_child(i as int, field@),
            c matches Some(j) ==> i < j < self@.len(),
    {
        let kids = self.children(i);
        let ghost all = self@.children(i as int);
        let mut k: usize = 0;
        assert(all.skip(0) =~= all);
        while k < kids.len()
            invariant
                i < self@.len(),
                k <= kids@.len(),
                same_indices(kids@, all),
                all == self@.children(i as int),
                forall|j: int| 0 <= j < kids@.len() ==> i < #[trigger] kids@[j] < self@.len(),
                self@.field_child(i as int, field@) == self@.first_with_field(
                    all.skip(k as int),
                    field@,
                ),
            decreases kids.len() - k,
        {
            let c = kids[k];
            assert(all.skip(k as int)[0] == all[k as int]);
            assert(all.skip(k as int).skip(1) =~= all.skip(k + 1));
            if let Some(f) = self.rows[c].field {
                if same(f, field) {
                    return Some(c);
                }
            }
            k = k + 1;
        }
        None
    }

    /// The first child of node `i` that is of kind `kind`.
    pub fn kind_child(&self, i: usize, kind: &str) -> (c: Option<usize>)
        requires
            i < self@.len(),
        ensures
            opt_index(c) == self@.kind_child(i as int, kind@),
            c matches Some(j) ==> i < j < self@.len(),
    {
        let kids = self.children(i);
        let ghost all = self@.children(i as int);
        let mut k: usize = 0;
        assert(all.skip(0) =~= all);
        while k < kids.len()
            invariant
                i < self@.len(),
                k <= kids@.len(),
                same_indices(kids@, all),
                all == self@.children(i as int),
                forall|j: int| 0 <= j < kids@.len() ==> i < #[trigger] kids@[j] < self@.len(),
                self@.kind_child(i as int, kind@) == self@.first_of_kind(all.skip(k as int), kind@),
            decreases kids.len() - k,
        {
            let c = kids[k];
            assert(all.skip(k as int)[0] == all[k as int]);
            assert(all.skip(k as int).skip(1) =~= all.skip(k + 1));
            if self.is_kind(c, kind) {
                return Some(c);
            }
            k = k + 1;
        }
        None
    }

    /// Whether node `i` fills `field` of its parent.
    pub fn fills(&self, i: usize, field: &str) -> (r: bool)
        requires
            i < self@.len(),
        ensures
            r == (self@.rows[i as int].field == Some(field@)),
    {
        match self.rows[i].field {
            Some(f) => same(f, field),
            None => false,
        }
    }

    /// The text node `i` covers, where its bytes are valid UTF-8.
    pub fn text(&self, i: usize) -> (t: Option<String>)
        requires
            i < self@.len(),
        ensures
            opt_text(t) == self@.text(i as int),
    {
        proof {
            use_type_invariant(self);
        }
        let row = self.rows[i];
        assert(row@ == self@.rows[i as int]);
        let covered = vstd::slice::slice_subrange(self.source, row.start, row.end);
        match utf8_text(covered) {
            Some(t) => Some(t.to_owned()),
            None => None,
        }
    }

    /// The text of the child of node `i` that fills `field`.
    pub fn field_text(&self, i: usize, field: &str) -> (t: Option<String>)
        requires
            i < self@.len(),
        ensures
            opt_text(t) == self@.field_text(i as int, field@),
    {
        match self.field_child(i, field) {
            Some(c) => self.text(c),
            None => None,
        }
    }
}

} // verus!
