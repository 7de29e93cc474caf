//! What a call resolves to, said of the definitions themselves.
use super::resolve::{
    ambiguous_among, fits_qualifier, fitting, named, picked, resolution, unresolved_among, PickView,
};
use super::CallView;
use crate::model::TargetView;
use vstd::prelude::*;

verus! {

// -------------------------------------------------------------------------------------------------
// One list of definitions
// -------------------------------------------------------------------------------------------------
/// A qualifier fits a definition exactly where it is the name of the type that the definition lies in,
/// or one of the names that this type extends or implements, wherever that stands among them.
pub proof fn qualifier_fits_the_type_and_each_supertype(c: TargetView, q: Seq<char>)
    ensures
        fits_qualifier(c, q) <==> c.scope == Some(q) || exists|k: int|
            0 <= k < c.scope_supers.len() && #[trigger] c.scope_supers[k] == q,
{
    if c.scope_supers.contains(q) {
        let k = choose|k: int| 0 <= k < c.scope_supers.len() && c.scope_supers[k] == q;
        assert(c.scope_supers[k] == q);
    }
}

/// Where the definitions of a name stand in a list.
proof fn lemma_places_of_name(all: Seq<TargetView>, name: Seq<char>) -> (at: Seq<int>)
    ensures
        at.len() == named(all, name).len(),
        forall|k: int|
            0 <= k < at.len() ==> 0 <= #[trigger] at[k] < all.len() && all[at[k]].name == name
                && named(all, name)[k] == all[at[k]],
        forall|j: int, k: int| 0 <= j < k < at.len() ==> #[trigger] at[j] < #[trigger] at[k],
        forall|j: int| 0 <= j < all.len() && (#[trigger] all[j]).name == name ==> at.contains(j),
    decreases all.len(),
{
    if all.len() == 0 {
        Seq::empty()
    } else {
        let rest = all.drop_last();
        let before = lemma_places_of_name(rest, name);
        let last = all.len() - 1;
        if all.last().name == name {
            let at = before.push(last);
            assert forall|j: int|
                0 <= j < all.len() && (#[trigger] all[j]).name == name implies at.contains(j) by {
                if j < last {
                    assert(rest[j] == all[j]);
                    assert(before.contains(j));
                    let k = choose|k: int| 0 <= k < before.len() && before[k] == j;
                    assert(at[k] == j);
                } else {
                    assert(at[before.len() as int] == j);
                }
            }
            assert forall|k: int| 0 <= k < at.len() implies 0 <= #[trigger] at[k] < all.len()
                && all[at[k]].name == name && named(all, name)[k] == all[at[k]] by {
                if k < before.len() {
                    assert(at[k] == before[k]);
                    assert(rest[before[k]] == all[before[k]]);
                }
            }
            at
        } else {
            assert forall|j: int|
                0 <= j < all.len() && (#[trigger] all[j]).name == name implies before.contains(j) by {
                assert(rest[j] == all[j]);
            }
            assert forall|k: int| 0 <= k < before.len() implies 0 <= #[trigger] before[k] < all.len()
                && all[before[k]].name == name && named(all, name)[k] == all[before[k]] by {
                assert(rest[before[k]] == all[before[k]]);
            }
            before
        }
    }
}

/// Where the definitions that a qualifier fits stand in a list.
proof fn lemma_places_of_fit(all: Seq<TargetView>, q: Seq<char>) -> (at: Seq<int>)
    ensures
        at.len() == fitting(all, q).len(),
        forall|k: int|
            0 <= k < at.len() ==> 0 <= #[trigger] at[k] < all.len() && fits_qualifier(all[at[k]], q)
                && fitting(all, q)[k] == all[at[k]],
        forall|j: int, k: int| 0 <= j < k < at.len() ==> #[trigger] at[j] < #[trigger] at[k],
        forall|j: int|
            0 <= j < all.len() && fits_qualifier(#[trigger] all[j], q) ==> at.contains(j),
    decreases all.len(),
{
    if all.len() == 0 {
        Seq::empty()
    } else {
        let rest = all.drop_last();
        let before = lemma_places_of_fit(rest, q);
        let last = all.len() - 1;
        if fits_qualifier(all.last(), q) {
            let at = before.push(last);
            assert forall|j: int| 0 <= j < all.len() && fits_qualifier(
                #[trigger] all[j],
                q,
            ) implies at.contains(j) by {
                if j < last {
                    assert(rest[j] == all[j]);
                    assert(before.contains(j));
                    let k = choose|k: int| 0 <= k < before.len() && before[k] == j;
                    assert(at[k] == j);
                } else {
                    assert(at[before.len() as int] == j);
                }
            }
            assert forall|k: int| 0 <= k < at.len() implies 0 <= #[trigger] at[k] < all.len()
                && fits_qualifier(all[at[k]], q) && fitting(all, q)[k] == all[at[k]] by {
                if k < before.len() {
                    assert(at[k] == before[k]);
                    assert(rest[before[k]] == all[before[k]]);
                }
            }
            at
        } else {
            assert forall|j: int| 0 <= j < all.len() && fits_qualifier(
                #[trigger] all[j],
                q,
            ) implies before.contains(j) by {
                assert(rest[j] == all[j]);
            }
            assert forall|k: int| 0 <= k < before.len() implies 0 <= #[trigger] before[k] < all.len()
                && fits_qualifier(all[before[k]], q) && fitting(all, q)[k] == all[before[k]] by {
                assert(rest[before[k]] == all[before[k]]);
            }
            before
        }
    }
}

/// A name that a list defines nowhere matches nothing.
pub proof fn undefined_name_matches_nothing(all: Seq<TargetView>, call: CallView)
    requires
        forall|j: int| 0 <= j < all.len() ==> (#[trigger] all[j]).name != call.name,
    ensures
        picked(named(all, call.name), call.qualifier) is NoMatch,
{
    let at = lemma_places_of_name(all, call.name);
    if at.len() > 0 {
        assert(all[at[0]].name == call.name);
    }
}

/// The only definition of a call's name in a list is what the call picks there: where the call has no
/// qualifier, where the definition lies in no type, and where the qualifier is the name of its type or
/// one of the names this type extends or implements.
pub proof fn only_definition_of_a_name_is_picked(all: Seq<TargetView>, call: CallView, w: int)
    requires
        0 <= w < all.len(),
        all[w].name == call.name,
        forall|j: int| 0 <= j < all.len() && j != w ==> (#[trigger] all[j]).name != call.name,
        ({
            ||| call.qualifier is None
            ||| all[w].scope is None
            ||| all[w].scope == call.qualifier
            ||| exists|k: int|
                0 <= k < all[w].scope_supers.len() && Some(#[trigger] all[w].scope_supers[k])
                    == call.qualifier
        }),
    ensures
        picked(named(all, call.name), call.qualifier) == PickView::One(all[w].node_id),
{
    lemma_single(all, call.name, w);
    if call.qualifier is Some && all[w].scope is Some && all[w].scope != call.qualifier {
        qualifier_fits_the_type_and_each_supertype(all[w], call.qualifier->0);
    }
}

/// The only definition of a call's name in a list does not match the call where it lies in a type, and
/// the qualifier is neither the name of that type nor one of those it extends or implements.
pub proof fn only_definition_in_another_type_is_no_match(all: Seq<TargetView>, call: CallView, w: int)
    requires
        0 <= w < all.len(),
        all[w].name == call.name,
        forall|j: int| 0 <= j < all.len() && j != w ==> (#[trigger] all[j]).name != call.name,
        call.qualifier is Some,
        all[w].scope is Some,
        all[w].scope != call.qualifier,
        forall|k: int|
            0 <= k < all[w].scope_supers.len() ==> Some(#[trigger] all[w].scope_supers[k])
                != call.qualifier,
    ensures
        picked(named(all, call.name), call.qualifier) is NoMatch,
{
    lemma_single(all, call.name, w);
    qualifier_fits_the_type_and_each_supertype(all[w], call.qualifier->0);
}

proof fn lemma_single(all: Seq<TargetView>, name: Seq<char>, w: int)
    requires
        0 <= w < all.len(),
        all[w].name == name,
        forall|j: int| 0 <= j < all.len() && j != w ==> (#[trigger] all[j]).name != name,
    ensures
        named(all, name) == seq![all[w]],
{
    let at = lemma_places_of_name(all, name);
    assert(at.contains(w));
    assert forall|k: int| 0 <= k < at.len() implies at[k] == w by {
        assert(all[at[k]].name == name);
    }
    if at.len() > 1 {
        assert(at[0] < at[1]);
    }
    assert(named(all, name) =~= seq![all[w]]);
}

proof fn lemma_two(all: Seq<TargetView>, name: Seq<char>, v: int, w: int)
    requires
        0 <= v < all.len(),
        0 <= w < all.len(),
        v != w,
        all[v].name == name,
        all[w].name == name,
    ensures
        named(all, name).len() >= 2,
{
    let at = lemma_places_of_name(all, name);
    assert(at.contains(v) && at.contains(w));
    let x = choose|x: int| 0 <= x < at.len() && at[x] == v;
    let y = choose|y: int| 0 <= y < at.len() && at[y] == w;
    assert(x != y);
}

/// Where among the definitions of a name those stand that a qualifier fits.
proof fn lemma_fit_places(all: Seq<TargetView>, name: Seq<char>, q: Seq<char>) -> (at: Seq<int>)
    ensures
        at.len() == fitting(named(all, name), q).len(),
        forall|k: int|
            0 <= k < at.len() ==> 0 <= #[trigger] at[k] < all.len() && all[at[k]].name == name
                && fits_qualifier(all[at[k]], q) && fitting(named(all, name), q)[k] == all[at[k]],
        forall|j: int, k: int| 0 <= j < k < at.len() ==> #[trigger] at[j] < #[trigger] at[k],
        forall|j: int|
            0 <= j < all.len() && (#[trigger] all[j]).name == name && fits_qualifier(all[j], q)
                ==> at.contains(j),
{
    let outer = lemma_places_of_name(all, name);
    let inner = lemma_places_of_fit(named(all, name), q);
    let at = Seq::new(inner.len(), |k: int| outer[inner[k]]);
    assert forall|j: int|
        0 <= j < all.len() && (#[trigger] all[j]).name == name && fits_qualifier(
            all[j],
            q,
        ) implies at.contains(j) by {
        assert(outer.contains(j));
        let x = choose|x: int| 0 <= x < outer.len() && outer[x] == j;
        assert(named(all, name)[x] == all[outer[x]]);
        assert(inner.contains(x));
        let y = choose|y: int| 0 <= y < inner.len() && inner[y] == x;
        assert(at[y] == j);
    }
    assert forall|k: int| 0 <= k < at.len() implies 0 <= #[trigger] at[k] < all.len()
        && all[at[k]].name == name && fits_qualifier(all[at[k]], q) && fitting(
        named(all, name),
        q,
    )[k] == all[at[k]] by {
        let x = inner[k];
        assert(0 <= x < outer.len());
        assert(named(all, name)[x] == all[outer[x]]);
    }
    at
}

/// Among several definitions of a call's name, the call picks the one that its qualifier fits, where it
/// fits no other.
pub proof fn one_fitting_definition_among_several_is_picked(
    all: Seq<TargetView>,
    call: CallView,
    w: int,
    other: int,
)
    requires
        0 <= w < all.len(),
        0 <= other < all.len(),
        w != other,
        all[w].name == call.name,
        all[other].name == call.name,
        call.qualifier is Some,
        fits_qualifier(all[w], call.qualifier->0),
        forall|j: int|
            0 <= j < all.len() && j != w && (#[trigger] all[j]).name == call.name
                ==> !fits_qualifier(all[j], call.qualifier->0),
    ensures
        picked(named(all, call.name), call.qualifier) == PickView::One(all[w].node_id),
{
    lemma_two(all, call.name, w, other);
    let at = lemma_fit_places(all, call.name, call.qualifier->0);
    assert(at.contains(w));
    assert forall|k: int| 0 <= k < at.len() implies at[k] == w by {
        assert(all[at[k]].name == call.name);
    }
    if at.len() > 1 {
        assert(at[0] < at[1]);
    }
}

/// Several definitions of a call's name leave the call ambiguous where it has no qualifier, where its
/// qualifier fits two of them, and where it fits none.
pub proof fn several_definitions_leave_a_call_ambiguous(
    all: Seq<TargetView>,
    call: CallView,
    v: int,
    w: int,
)
    requires
        0 <= v < all.len(),
        0 <= w < all.len(),
        v != w,
        all[v].name == call.name,
        all[w].name == call.name,
        ({
            ||| call.qualifier is None
            ||| call.qualifier is Some && fits_qualifier(all[v], call.qualifier->0)
                && fits_qualifier(all[w], call.qualifier->0)
            ||| call.qualifier is Some && forall|j: int|
                0 <= j < all.len() && (#[trigger] all[j]).name == call.name ==> !fits_qualifier(
                    all[j],
                    call.qualifier->0,
                )
        }),
    ensures
        picked(named(all, call.name), call.qualifier) is Ambiguous,
{
    lemma_two(all, call.name, v, w);
    if call.qualifier is Some {
        let q = call.qualifier->0;
        let at = lemma_fit_places(all, call.name, q);
        if fits_qualifier(all[v], q) && fits_qualifier(all[w], q) {
            assert(at.contains(v) && at.contains(w));
            let x = choose|x: int| 0 <= x < at.len() && at[x] == v;
            let y = choose|y: int| 0 <= y < at.len() && at[y] == w;
            assert(x != y);
        } else if at.len() > 0 {
            assert(all[at[0]].name == call.name);
        }
    }
}

// -------------------------------------------------------------------------------------------------
// The own file and everywhere
// -------------------------------------------------------------------------------------------------
/// The only definition of a call's name in the call's own file is what the call resolves to, whatever
/// stands elsewhere: where the call has no qualifier, where the definition lies in no type, and where
/// the qualifier is the name of its type or one of those it extends or implements.
pub proof fn only_definition_of_the_own_file_wins(
    local: Seq<TargetView>,
    everywhere: Seq<TargetView>,
    call: CallView,
    w: int,
)
    requires
        0 <= w < local.len(),
        local[w].name == call.name,
        forall|j: int| 0 <= j < local.len() && j != w ==> (#[trigger] local[j]).name != call.name,
        ({
            ||| call.qualifier is None
            ||| local[w].scope is None
            ||| local[w].scope == call.qualifier
            ||| exists|k: int|
                0 <= k < local[w].scope_supers.len() && Some(#[trigger] local[w].scope_supers[k])
                    == call.qualifier
        }),
    ensures
        resolution(local, everywhere, call) == Some(local[w].node_id),
{
    only_definition_of_a_name_is_picked(local, call, w);
}

/// A call that its own file does not settle resolves to what all definitions settle, and to nothing
/// where they settle nothing.
pub proof fn unsettled_call_is_left_to_all_definitions(
    local: Seq<TargetView>,
    everywhere: Seq<TargetView>,
    call: CallView,
    id: Seq<char>,
)
    requires
        !(picked(named(local, call.name), call.qualifier) is One),
    ensures
        resolution(local, everywhere, call) == Some(id) <==> picked(
            named(everywhere, call.name),
            call.qualifier,
        ) == PickView::One(id),
{
}

/// What a list picks for a call is one of its definitions of the call's name.
proof fn lemma_pick_stands(all: Seq<TargetView>, call: CallView, id: Seq<char>) -> (w: int)
    requires
        picked(named(all, call.name), call.qualifier) == PickView::One(id),
    ensures
        0 <= w < all.len(),
        all[w].name == call.name,
        all[w].node_id == id,
        call.qualifier is Some && all[w].scope is Some ==> fits_qualifier(
            all[w],
            call.qualifier->0,
        ),
{
    let at = lemma_places_of_name(all, call.name);
    if named(all, call.name).len() == 1 {
        at[0]
    } else {
        let fit = lemma_fit_places(all, call.name, call.qualifier->0);
        fit[0]
    }
}

/// The only definition of a call's name anywhere is what the call resolves to, from whatever file: where
/// the call has no qualifier, where the definition lies in no type, and where the qualifier is the name
/// of its type or one of the names that type extends or implements, wherever that stands among them.
pub proof fn only_definition_anywhere_is_resolved_to(
    local: Seq<TargetView>,
    everywhere: Seq<TargetView>,
    call: CallView,
    w: int,
)
    requires
        forall|j: int| 0 <= j < local.len() ==> everywhere.contains(#[trigger] local[j]),
        0 <= w < everywhere.len(),
        everywhere[w].name == call.name,
        forall|j: int|
            0 <= j < everywhere.len() && j != w ==> (#[trigger] everywhere[j]).name != call.name,
        ({
            ||| call.qualifier is None
            ||| everywhere[w].scope is None
            ||| everywhere[w].scope == call.qualifier
            ||| exists|k: int|
                0 <= k < everywhere[w].scope_supers.len() && Some(
                    #[trigger] everywhere[w].scope_supers[k],
                ) == call.qualifier
        }),
    ensures
        resolution(local, everywhere, call) == Some(everywhere[w].node_id),
{
    only_definition_of_a_name_is_picked(everywhere, call, w);
    if let PickView::One(id) = picked(named(local, call.name), call.qualifier) {
        let v = lemma_pick_stands(local, call, id);
        assert(everywhere.contains(local[v]));
    }
}

/// A call whose qualifier fits exactly one of the definitions of its name anywhere resolves to that one,
/// where none of them lies in its own file outside all types.
pub proof fn only_fitting_definition_anywhere_is_resolved_to(
    local: Seq<TargetView>,
    everywhere: Seq<TargetView>,
    call: CallView,
    w: int,
)
    requires
        forall|j: int| 0 <= j < local.len() ==> everywhere.contains(#[trigger] local[j]),
        forall|j: int|
            0 <= j < local.len() && (#[trigger] local[j]).name == call.name ==> local[j].scope is Some,
        call.qualifier is Some,
        0 <= w < everywhere.len(),
        everywhere[w].name == call.name,
        fits_qualifier(everywhere[w], call.qualifier->0),
        forall|j: int|
            0 <= j < everywhere.len() && j != w && (#[trigger] everywhere[j]).name == call.name
                ==> !fits_qualifier(everywhere[j], call.qualifier->0),
    ensures
        resolution(local, everywhere, call) == Some(everywhere[w].node_id),
{
    qualifier_fits_the_type_and_each_supertype(everywhere[w], call.qualifier->0);
    if forall|j: int|
        0 <= j < everywhere.len() && j != w ==> (#[trigger] everywhere[j]).name != call.name {
        only_definition_of_a_name_is_picked(everywhere, call, w);
    } else {
        let other = choose|j: int|
            0 <= j < everywhere.len() && j != w && (#[trigger] everywhere[j]).name == call.name;
        one_fitting_definition_among_several_is_picked(everywhere, call, w, other);
    }
    if let PickView::One(id) = picked(named(local, call.name), call.qualifier) {
        let v = lemma_pick_stands(local, call, id);
        assert(everywhere.contains(local[v]));
        let x = choose|x: int| 0 <= x < everywhere.len() && everywhere[x] == local[v];
        assert(everywhere[x].name == call.name);
    }
}

/// A call whose qualifier fits no definition of its name resolves to none, where every one of them lies
/// in a type.
pub proof fn call_qualified_by_another_type_resolves_to_nothing(
    local: Seq<TargetView>,
    everywhere: Seq<TargetView>,
    call: CallView,
)
    requires
        forall|j: int| 0 <= j < local.len() ==> everywhere.contains(#[trigger] local[j]),
        call.qualifier is Some,
        forall|j: int|
            0 <= j < everywhere.len() && (#[trigger] everywhere[j]).name == call.name
                ==> everywhere[j].scope is Some && !fits_qualifier(everywhere[j], call.qualifier->0),
    ensures
        resolution(local, everywhere, call) is None,
{
    if let PickView::One(id) = picked(named(local, call.name), call.qualifier) {
        let v = lemma_pick_stands(local, call, id);
        assert(everywhere.contains(local[v]));
        let x = choose|x: int| 0 <= x < everywhere.len() && everywhere[x] == local[v];
        assert(everywhere[x].name == call.name);
    }
    if let PickView::One(id) = picked(named(everywhere, call.name), call.qualifier) {
        let v = lemma_pick_stands(everywhere, call, id);
    }
}

/// A call without a qualifier resolves to none where its name has several definitions, and its own file
/// has none of them or several.
pub proof fn bare_call_of_a_name_with_several_definitions_resolves_to_nothing(
    local: Seq<TargetView>,
    everywhere: Seq<TargetView>,
    call: CallView,
    v: int,
    w: int,
)
    requires
        call.qualifier is None,
        0 <= v < everywhere.len(),
        0 <= w < everywhere.len(),
        v != w,
        everywhere[v].name == call.name,
        everywhere[w].name == call.name,
        (forall|j: int| 0 <= j < local.len() ==> (#[trigger] local[j]).name != call.name) || exists|
            x: int,
            y: int,
        |
            0 <= x < y < local.len() && (#[trigger] local[x]).name == call.name && (
            #[trigger] local[y]).name == call.name,
    ensures
        resolution(local, everywhere, call) is None,
{
    several_definitions_leave_a_call_ambiguous(everywhere, call, v, w);
    if forall|j: int| 0 <= j < local.len() ==> (#[trigger] local[j]).name != call.name {
        undefined_name_matches_nothing(local, call);
    } else {
        let (x, y) = choose|x: int, y: int|
            0 <= x < y < local.len() && (#[trigger] local[x]).name == call.name && (
            #[trigger] local[y]).name == call.name;
        several_definitions_leave_a_call_ambiguous(local, call, x, y);
    }
}

/// A call of a name that is defined nowhere resolves to none.
pub proof fn call_of_an_undefined_name_resolves_to_nothing(
    local: Seq<TargetView>,
    everywhere: Seq<TargetView>,
    call: CallView,
)
    requires
        forall|j: int| 0 <= j < local.len() ==> (#[trigger] local[j]).name != call.name,
        forall|j: int| 0 <= j < everywhere.len() ==> (#[trigger] everywhere[j]).name != call.name,
    ensures
        resolution(local, everywhere, call) is None,
{
    undefined_name_matches_nothing(local, call);
    undefined_name_matches_nothing(everywhere, call);
}

/// One call more counts as ambiguous exactly where neither its own file nor all definitions settle it
/// and one of them leaves it ambiguous; as unresolved exactly where neither knows a definition it may
/// mean.
pub proof fn each_call_counts_by_what_becomes_of_it(
    local: Seq<TargetView>,
    everywhere: Seq<TargetView>,
    calls: Seq<CallView>,
    call: CallView,
)
    ensures
        ({
            let near = picked(named(local, call.name), call.qualifier);
            let far = picked(named(everywhere, call.name), call.qualifier);
            let settled = near is One || far is One;
            let torn = near is Ambiguous || far is Ambiguous;
            &&& settled || torn ==> unresolved_among(local, everywhere, calls.push(call))
                == unresolved_among(local, everywhere, calls)
            &&& !settled && !torn ==> unresolved_among(local, everywhere, calls.push(call))
                == unresolved_among(local, everywhere, calls) + 1
            &&& settled || !torn ==> ambiguous_among(local, everywhere, calls.push(call))
                == ambiguous_among(local, everywhere, calls)
            &&& !settled && torn ==> ambiguous_among(local, everywhere, calls.push(call))
                == ambiguous_among(local, everywhere, calls) + 1
        }),
{
    assert(calls.push(call).drop_last() =~= calls);
}

} // verus!
