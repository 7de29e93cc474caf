//! Orders: text by its bytes, and the stable order of a list by a rank of its items.
use crate::text::lemma_same_bytes;
use vstd::prelude::*;
use vstd::string::*;
use vstd::utf8::*;

verus! {

/// Where one value stands relative to another.
#[derive(Debug, Clone, Copy, PartialEq, Eq, Structural)]
pub enum Placement {
    Before,
    Same,
    After,
}

/// Lexicographic order of byte strings: a proper prefix comes first, else the first differing byte
/// decides.
pub open spec fn bytes_before(a: Seq<u8>, b: Seq<u8>) -> bool
    decreases a.len(),
{
    if b.len() == 0 {
        false
    } else if a.len() == 0 {
        true
    } else if a[0] != b[0] {
        a[0] < b[0]
    } else {
        bytes_before(a.skip(1), b.skip(1))
    }
}

/// The order of text: that of the bytes of its UTF-8 encoding.
pub open spec fn text_before(a: Seq<char>, b: Seq<char>) -> bool {
    bytes_before(encode_utf8(a), encode_utf8(b))
}

proof fn lemma_bytes_by_first_difference(a: Seq<u8>, b: Seq<u8>)
    ensures
        bytes_before(a, b) <==> exists|k: int|
            0 <= k <= a.len() && k < b.len() && #[trigger] a.take(k) == b.take(k) && (k == a.len()
                || a[k] < b[k]),
    decreases a.len(),
{
    if b.len() > 0 {
        if a.len() == 0 {
            assert(a.take(0) =~= b.take(0));
        } else if a[0] < b[0] {
            assert(a.take(0) =~= b.take(0));
        } else if a[0] == b[0] {
            lemma_bytes_by_first_difference(a.skip(1), b.skip(1));
            if bytes_before(a, b) {
                let k = choose|k: int|
                    0 <= k <= a.skip(1).len() && k < b.skip(1).len() && #[trigger] a.skip(1).take(k)
                        == b.skip(1).take(k) && (k == a.skip(1).len() || a.skip(1)[k] < b.skip(
                        1,
                    )[k]);
                assert(a.take(k + 1) =~= seq![a[0]] + a.skip(1).take(k));
                assert(b.take(k + 1) =~= seq![b[0]] + b.skip(1).take(k));
            }
        }
        if exists|k: int|
            0 <= k <= a.len() && k < b.len() && #[trigger] a.take(k) == b.take(k) && (k == a.len()
                || a[k] < b[k]) {
            let k = choose|k: int|
                0 <= k <= a.len() && k < b.len() && #[trigger] a.take(k) == b.take(k) && (k
                    == a.len() || a[k] < b[k]);
            if k > 0 {
                assert(a[0] == a.take(k)[0]);
                assert(b[0] == b.take(k)[0]);
                assert(a.skip(1).take(k - 1) =~= a.take(k).skip(1));
                assert(b.skip(1).take(k - 1) =~= b.take(k).skip(1));
                assert(a.skip(1).take(k - 1) == b.skip(1).take(k - 1));
            }
        }
    }
}

/// Of two texts that one comes first which is a proper prefix of the other, or has the lower byte where
/// their encodings first differ.
pub proof fn text_order_is_decided_by_the_first_difference(a: Seq<char>, b: Seq<char>)
    ensures
        text_before(a, b) <==> exists|k: int|
            0 <= k <= encode_utf8(a).len() && k < encode_utf8(b).len() && #[trigger] encode_utf8(
                a,
            ).take(k) == encode_utf8(b).take(k) && (k == encode_utf8(a).len() || encode_utf8(a)[k]
                < encode_utf8(b)[k]),
{
    lemma_bytes_by_first_difference(encode_utf8(a), encode_utf8(b));
}

proof fn lemma_bytes_trichotomy(a: Seq<u8>, b: Seq<u8>)
    ensures
        bytes_before(a, b) ==> !bytes_before(b, a) && a != b,
        bytes_before(a, b) || a == b || bytes_before(b, a),
    decreases a.len(),
{
    if a.len() == 0 && b.len() == 0 {
        assert(a =~= b);
    } else if a.len() > 0 && b.len() > 0 && a[0] == b[0] {
        lemma_bytes_trichotomy(a.skip(1), b.skip(1));
        if a.skip(1) == b.skip(1) {
            assert(a =~= seq![a[0]] + a.skip(1));
            assert(b =~= seq![b[0]] + b.skip(1));
        }
    }
}

proof fn lemma_bytes_transitive(a: Seq<u8>, b: Seq<u8>, c: Seq<u8>)
    requires
        bytes_before(a, b),
        bytes_before(b, c),
    ensures
        bytes_before(a, c),
    decreases a.len(),
{
    if a.len() > 0 && b.len() > 0 && c.len() > 0 && a[0] == b[0] && b[0] == c[0] {
        lemma_bytes_transitive(a.skip(1), b.skip(1), c.skip(1));
    }
}

/// Of two texts exactly one comes first, unless they are the same.
pub proof fn lemma_text_trichotomy(a: Seq<char>, b: Seq<char>)
    ensures
        text_before(a, b) ==> !text_before(b, a) && a != b,
        text_before(a, b) || a == b || text_before(b, a),
{
    lemma_same_bytes(a, b);
    lemma_bytes_trichotomy(encode_utf8(a), encode_utf8(b));
}

/// The order of text is transitive.
pub proof fn lemma_text_transitive(a: Seq<char>, b: Seq<char>, c: Seq<char>)
    requires
        text_before(a, b),
        text_before(b, c),
    ensures
        text_before(a, c),
{
    lemma_bytes_transitive(encode_utf8(a), encode_utf8(b), encode_utf8(c));
}

proof fn lemma_bytes_common_prefix(a: Seq<u8>, b: Seq<u8>, i: int)
    requires
        0 <= i <= a.len(),
        i <= b.len(),
        forall|k: int| 0 <= k < i ==> a[k] == b[k],
    ensures
        bytes_before(a, b) == bytes_before(a.skip(i), b.skip(i)),
    decreases i,
{
    if i == 0 {
        assert(a.skip(0) =~= a);
        assert(b.skip(0) =~= b);
    } else {
        assert(forall|k: int| 0 <= k < i - 1 ==> a.skip(1)[k] == b.skip(1)[k]);
        lemma_bytes_common_prefix(a.skip(1), b.skip(1), i - 1);
        assert(a.skip(1).skip(i - 1) =~= a.skip(i));
        assert(b.skip(1).skip(i - 1) =~= b.skip(i));
    }
}

/// Where `a` stands relative to `b`.
pub fn place_text(a: &str, b: &str) -> (r: Placement)
    ensures
        r == (if text_before(a@, b@) {
            Placement::Before
        } else if a@ == b@ {
            Placement::Same
        } else {
            Placement::After
        }),
{
    let x = a.as_bytes();
    let y = b.as_bytes();
    let mut i: usize = 0;
    proof {
        lemma_same_bytes(a@, b@);
        lemma_bytes_trichotomy(x@, y@);
    }
    while i < x.len() && i < y.len()
        invariant
            i <= x.len(),
            i <= y.len(),
            x@ == encode_utf8(a@),
            y@ == encode_utf8(b@),
            forall|k: int| 0 <= k < i ==> x@[k] == y@[k],
            (a@ == b@) == (x@ == y@),
        decreases x.len() - i,
    {
        if x[i] != y[i] {
            proof {
                lemma_bytes_common_prefix(x@, y@, i as int);
            }
            return if x[i] < y[i] {
                Placement::Before
            } else {
                Placement::After
            };
        }
        i = i + 1;
    }
    proof {
        lemma_bytes_common_prefix(x@, y@, i as int);
    }
    if i < y.len() {
        Placement::Before
    } else if i < x.len() {
        Placement::After
    } else {
        assert(x@ =~= y@);
        Placement::Same
    }
}

/// A type whose values have a rank: a strict order in which values of one rank are not ordered.
pub trait Ranked: Sized {
    /// Whether `self` has a lower rank than `other`.
    spec fn ranks_before(&self, other: &Self) -> bool;

    /// Whether `self` has a lower rank than `other`.
    fn is_before(&self, other: &Self) -> (r: bool)
        ensures
            r == self.ranks_before(other),
    ;

    /// Two values are never each before the other.
    proof fn rank_is_asymmetric(a: &Self, b: &Self)
        ensures
            a.ranks_before(b) ==> !b.ranks_before(a),
    ;

    /// Not coming after is transitive.
    proof fn rank_is_transitive(a: &Self, b: &Self, c: &Self)
        requires
            !b.ranks_before(a),
            !c.ranks_before(b),
        ensures
            !c.ranks_before(a),
    ;
}

/// Whether item `i` of a list comes before item `j` when the list is sorted by rank and items of one
/// rank keep their order.
pub open spec fn sorts_before<T: Ranked>(items: Seq<T>, i: int, j: int) -> bool {
    items[i].ranks_before(&items[j]) || (!items[j].ranks_before(&items[i]) && i < j)
}

/// Whether `order` lists indices from `lo` to `hi`, each of them, in the sorted order of `items`.
pub open spec fn orders_range<T: Ranked>(
    items: Seq<T>,
    order: Seq<usize>,
    lo: int,
    hi: int,
) -> bool {
    &&& order.len() == hi - lo
    &&& forall|k: int| 0 <= k < order.len() ==> lo <= #[trigger] order[k] < hi
    &&& forall|k: int, l: int|
        0 <= k < l < order.len() ==> sorts_before(
            items,
            #[trigger] order[k] as int,
            #[trigger] order[l] as int,
        )
    &&& forall|i: usize| lo <= i < hi ==> #[trigger] order.contains(i)
}

/// Whether `order` is the sorted order of all of `items`.
pub open spec fn orders<T: Ranked>(items: Seq<T>, order: Seq<usize>) -> bool {
    orders_range(items, order, 0, items.len() as int)
}

proof fn lemma_sorts_before_transitive<T: Ranked>(items: Seq<T>, i: int, j: int, k: int)
    requires
        sorts_before(items, i, j),
        sorts_before(items, j, k),
    ensures
        sorts_before(items, i, k),
{
    T::rank_is_asymmetric(&items[i], &items[j]);
    T::rank_is_asymmetric(&items[j], &items[k]);
    T::rank_is_asymmetric(&items[i], &items[k]);
    T::rank_is_transitive(&items[i], &items[j], &items[k]);
    if !items[i].ranks_before(&items[k]) {
        if items[i].ranks_before(&items[j]) {
            // k is not after i, and j is not after k: then j is not after i.
            T::rank_is_transitive(&items[j], &items[k], &items[i]);
        } else if items[j].ranks_before(&items[k]) {
            T::rank_is_transitive(&items[k], &items[i], &items[j]);
        }
    }
}

fn merge<T: Ranked>(items: &Vec<T>, a: &Vec<usize>, b: &Vec<usize>, Ghost(lo): Ghost<int>, Ghost(
    mid,
): Ghost<int>, Ghost(hi): Ghost<int>) -> (out: Vec<usize>)
    requires
        0 <= lo <= mid <= hi <= items.len(),
        orders_range(items@, a@, lo, mid),
        orders_range(items@, b@, mid, hi),
    ensures
        orders_range(items@, out@, lo, hi),
{
    let mut out: Vec<usize> = Vec::new();
    let mut x: usize = 0;
    let mut y: usize = 0;
    while x < a.len() || y < b.len()
        invariant
            0 <= lo <= mid <= hi <= items.len(),
            orders_range(items@, a@, lo, mid),
            orders_range(items@, b@, mid, hi),
            x <= a.len(),
            y <= b.len(),
            out@.len() == x + y,
            forall|k: int| 0 <= k < out@.len() ==> lo <= #[trigger] out@[k] < hi,
            forall|k: int, l: int|
                0 <= k < l < out@.len() ==> sorts_before(
                    items@,
                    #[trigger] out@[k] as int,
                    #[trigger] out@[l] as int,
                ),
            forall|k: int, l: int|
                0 <= k < out@.len() && x <= l < a@.len() ==> sorts_before(
                    items@,
                    #[trigger] out@[k] as int,
                    #[trigger] a@[l] as int,
                ),
            forall|k: int, l: int|
                0 <= k < out@.len() && y <= l < b@.len() ==> sorts_before(
                    items@,
                    #[trigger] out@[k] as int,
                    #[trigger] b@[l] as int,
                ),
            forall|k: int| 0 <= k < x ==> out@.contains(#[trigger] a@[k]),
            forall|k: int| 0 <= k < y ==> out@.contains(#[trigger] b@[k]),
        decreases a.len() - x + b.len() - y,
    {
        let from_a: bool = if x >= a.len() {
            false
        } else if y >= b.len() {
            true
        } else {
            !items[b[y]].is_before(&items[a[x]])
        };
        let ghost before = out@;
        let next: usize = if from_a {
            a[x]
        } else {
            b[y]
        };
        proof {
            assert forall|l: int| x <= l < a@.len() && !(from_a && l == x) implies sorts_before(
                items@,
                next as int,
                #[trigger] a@[l] as int,
            ) by {
                if !from_a {
                    T::rank_is_asymmetric(&items@[b@[y as int] as int], &items@[a@[x as int] as int]);
                    assert(sorts_before(items@, next as int, a@[x as int] as int));
                    if l > x {
                        lemma_sorts_before_transitive(
                            items@,
                            next as int,
                            a@[x as int] as int,
                            a@[l] as int,
                        );
                    }
                }
            }
            assert forall|l: int| y <= l < b@.len() && !(!from_a && l == y) implies sorts_before(
                items@,
                next as int,
                #[trigger] b@[l] as int,
            ) by {
                if from_a {
                    assert(sorts_before(items@, next as int, b@[y as int] as int));
                    if l > y {
                        lemma_sorts_before_transitive(
                            items@,
                            next as int,
                            b@[y as int] as int,
                            b@[l] as int,
                        );
                    }
                }
            }
        }
        out.push(next);
        if from_a {
            x = x + 1;
        } else {
            y = y + 1;
        }
        proof {
            assert(out@[before.len() as int] == next);
            assert forall|k: int| 0 <= k < x implies out@.contains(#[trigger] a@[k]) by {
                if before.contains(a@[k]) {
                    let w = choose|w: int| 0 <= w < before.len() && before[w] == a@[k];
                    assert(out@[w] == a@[k]);
                }
            }
            assert forall|k: int| 0 <= k < y implies out@.contains(#[trigger] b@[k]) by {
                if before.contains(b@[k]) {
                    let w = choose|w: int| 0 <= w < before.len() && before[w] == b@[k];
                    assert(out@[w] == b@[k]);
                }
            }
        }
    }
    assert forall|i: usize| lo <= i < hi implies #[trigger] out@.contains(i) by {
        if i < mid {
            assert(a@.contains(i));
            let k = choose|k: int| 0 <= k < a@.len() && a@[k] == i;
            assert(out@.contains(a@[k]));
        } else {
            assert(b@.contains(i));
            let k = choose|k: int| 0 <= k < b@.len() && b@[k] == i;
            assert(out@.contains(b@[k]));
        }
    }
    out
}

fn sort_range<T: Ranked>(items: &Vec<T>, lo: usize, hi: usize) -> (out: Vec<usize>)
    requires
        lo <= hi <= items.len(),
    ensures
        orders_range(items@, out@, lo as int, hi as int),
    decreases hi - lo,
{
    if hi - lo < 2 {
        let mut out: Vec<usize> = Vec::new();
        if lo < hi {
            out.push(lo);
            assert(out@[0] == lo);
        }
        return out;
    }
    let mid: usize = lo + (hi - lo) / 2;
    let a = sort_range(items, lo, mid);
    let b = sort_range(items, mid, hi);
    merge(items, &a, &b, Ghost(lo as int), Ghost(mid as int), Ghost(hi as int))
}

/// The sorted order of `items`: the indices of its items by rank, those of one rank as they stood.
pub fn sorted_order<T: Ranked>(items: &Vec<T>) -> (order: Vec<usize>)
    ensures
        orders(items@, order@),
{
    sort_range(items, 0, items.len())
}

} // verus!
