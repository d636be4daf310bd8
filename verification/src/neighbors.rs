use vstd::prelude::*;
use vstd::relations::injective_on;
use vstd::set_lib::{lemma_int_range, lemma_map_size, lemma_subset_equality, set_int_range};

verus! {

/// One indexed point as seen from a query: how far away it is, and whose point it is.
#[derive(Clone, Copy, Debug, PartialEq, Eq, Structural)]
pub struct Neighbor {
    /// Distance from the query; a smaller number is nearer.
    pub distance: u64,
    /// Identity the point was inserted with.
    pub identity: usize,
}

/// Whether entry `a` comes before entry `b` in nearest-neighbor order: it is
/// strictly nearer, or equally near and inserted earlier.
pub open spec fn precedes(measured: Seq<Neighbor>, a: int, b: int) -> bool {
    measured[a].distance < measured[b].distance || (measured[a].distance
        == measured[b].distance && a < b)
}

/// Number of entries among the first `upto` that come before entry `target`.
pub open spec fn count_preceding(measured: Seq<Neighbor>, target: int, upto: int) -> nat
    decreases upto,
{
    if upto <= 0 {
        0
    } else {
        count_preceding(measured, target, upto - 1) + if precedes(measured, upto - 1, target) {
            1nat
        } else {
            0nat
        }
    }
}

/// Place of entry `target` in nearest-neighbor order: the number of entries
/// that come before it.
pub open spec fn place_of(measured: Seq<Neighbor>, target: int) -> nat {
    count_preceding(measured, target, measured.len() as int)
}

/// No more than `upto` entries are counted, and the target never counts itself.
pub proof fn lemma_count_preceding_bound(measured: Seq<Neighbor>, target: int, upto: int)
    requires
        0 <= upto,
    ensures
        count_preceding(measured, target, upto) <= upto,
        0 <= target < upto ==> count_preceding(measured, target, upto) < upto,
    decreases upto,
{
    if upto > 0 {
        lemma_count_preceding_bound(measured, target, upto - 1);
    }
}

/// Every entry's place is an index into the sequence.
pub proof fn lemma_place_in_range(measured: Seq<Neighbor>, target: int)
    requires
        0 <= target < measured.len(),
    ensures
        place_of(measured, target) < measured.len(),
{
    lemma_count_preceding_bound(measured, target, measured.len() as int);
}

/// An entry that comes before another has no more entries before it, and
/// fewer once it is itself among those counted.
pub proof fn lemma_count_preceding_monotone(measured: Seq<Neighbor>, a: int, b: int, upto: int)
    requires
        precedes(measured, a, b),
        0 <= upto,
    ensures
        count_preceding(measured, a, upto) <= count_preceding(measured, b, upto),
        0 <= a < upto ==> count_preceding(measured, a, upto) < count_preceding(measured, b, upto),
    decreases upto,
{
    if upto > 0 {
        lemma_count_preceding_monotone(measured, a, b, upto - 1);
    }
}

/// An entry that comes before another has the smaller place.
pub proof fn lemma_precedes_orders_places(measured: Seq<Neighbor>, a: int, b: int)
    requires
        0 <= a < measured.len(),
        precedes(measured, a, b),
    ensures
        place_of(measured, a) < place_of(measured, b),
{
    lemma_count_preceding_monotone(measured, a, b, measured.len() as int);
}

/// Two different entries never share a place.
pub proof fn lemma_places_distinct(measured: Seq<Neighbor>, a: int, b: int)
    requires
        0 <= a < measured.len(),
        0 <= b < measured.len(),
        a != b,
    ensures
        place_of(measured, a) != place_of(measured, b),
{
    if precedes(measured, a, b) {
        lemma_precedes_orders_places(measured, a, b);
    } else {
        assert(precedes(measured, b, a));
        lemma_precedes_orders_places(measured, b, a);
    }
}

/// Every index into the sequence is the place of some entry.
pub proof fn lemma_every_place_taken(measured: Seq<Neighbor>, place: int)
    requires
        0 <= place < measured.len(),
    ensures
        exists|j: int| 0 <= j < measured.len() && place_of(measured, j) == place,
{
    let n = measured.len() as int;
    let entries = set_int_range(0, n);
    let to_place = |j: int| place_of(measured, j) as int;
    let places = entries.map(to_place);
    lemma_int_range(0, n);
    assert(injective_on(to_place, entries)) by {
        assert forall|a: int, b: int|
            entries.contains(a) && entries.contains(b) && #[trigger] to_place(a)
                == #[trigger] to_place(b) implies a == b by {
            if a != b {
                lemma_places_distinct(measured, a, b);
            }
        }
    }
    lemma_map_size(entries, places, to_place);
    assert(places.subset_of(entries)) by {
        assert forall|p: int| places.contains(p) implies entries.contains(p) by {
            let j = choose|j: int| entries.contains(j) && p == to_place(j);
            lemma_place_in_range(measured, j);
        }
    }
    lemma_subset_equality(places, entries);
    assert(entries.contains(place));
    assert(places.contains(place));
    let j = choose|j: int| entries.contains(j) && place == to_place(j);
    assert(0 <= j < measured.len() && place_of(measured, j) == place);
}

/// The entry that stands at `place` in nearest-neighbor order.
pub open spec fn source_at(measured: Seq<Neighbor>, place: int) -> int {
    choose|j: int| 0 <= j < measured.len() && place_of(measured, j) == place
}

/// The nearest-neighbor sequence of a set of measured entries given in
/// insertion order: every entry, each at its place.
pub open spec fn nearest_order(measured: Seq<Neighbor>) -> Seq<Neighbor> {
    Seq::new(measured.len(), |place: int| measured[source_at(measured, place)])
}

/// `source_at` undoes `place_of`.
pub proof fn lemma_source_at_place(measured: Seq<Neighbor>, j: int)
    requires
        0 <= j < measured.len(),
    ensures
        source_at(measured, place_of(measured, j) as int) == j,
{
    let place = place_of(measured, j) as int;
    let found = source_at(measured, place);
    assert(0 <= found < measured.len() && place_of(measured, found) == place);
    if found != j {
        lemma_places_distinct(measured, found, j);
    }
}

/// `place_of` undoes `source_at`.
pub proof fn lemma_place_of_source(measured: Seq<Neighbor>, place: int)
    requires
        0 <= place < measured.len(),
    ensures
        0 <= source_at(measured, place) < measured.len(),
        place_of(measured, source_at(measured, place)) == place,
{
    lemma_every_place_taken(measured, place);
}

/// The sequence holds every measured entry, each exactly where the number of
/// entries before it says.
pub proof fn lemma_nearest_order_places(measured: Seq<Neighbor>, j: int)
    requires
        0 <= j < measured.len(),
    ensures
        place_of(measured, j) < measured.len(),
        nearest_order(measured)[place_of(measured, j) as int] == measured[j],
{
    lemma_place_in_range(measured, j);
    lemma_source_at_place(measured, j);
}

/// The sequence never steps back in distance, and equally distant entries
/// keep their insertion order.
pub proof fn lemma_nearest_order_sorted(measured: Seq<Neighbor>, first: int, second: int)
    requires
        0 <= first < second < measured.len(),
    ensures
        nearest_order(measured)[first].distance <= nearest_order(measured)[second].distance,
        precedes(measured, source_at(measured, first), source_at(measured, second)),
{
    let a = source_at(measured, first);
    let b = source_at(measured, second);
    lemma_place_of_source(measured, first);
    lemma_place_of_source(measured, second);
    if !precedes(measured, a, b) {
        assert(a != b);
        assert(precedes(measured, b, a));
        lemma_precedes_orders_places(measured, b, a);
    }
}

/// An entry stands first exactly when no entry comes before it.
pub proof fn lemma_place_zero(measured: Seq<Neighbor>, target: int, upto: int)
    requires
        0 <= upto,
    ensures
        count_preceding(measured, target, upto) == 0 <==> forall|t: int|
            0 <= t < upto ==> !precedes(measured, t, target),
    decreases upto,
{
    if upto > 0 {
        lemma_place_zero(measured, target, upto - 1);
    }
}

/// Whether `sources` names entries of `measured` so that each comes before
/// all that follow it.
pub open spec fn in_nearest_order(measured: Seq<Neighbor>, sources: Seq<usize>) -> bool {
    forall|a: int, b: int|
        0 <= a < b < sources.len() ==> precedes(
            measured,
            #[trigger] sources[a] as int,
            #[trigger] sources[b] as int,
        )
}

/// In a run of entries in nearest order, the entry at place `k` has at least
/// `k` entries before it.
proof fn lemma_places_climb(measured: Seq<Neighbor>, sources: Seq<usize>, k: int)
    requires
        forall|t: int| 0 <= t < sources.len() ==> sources[t] < measured.len(),
        in_nearest_order(measured, sources),
        0 <= k < sources.len(),
    ensures
        place_of(measured, sources[k] as int) >= k,
    decreases k,
{
    if k > 0 {
        lemma_places_climb(measured, sources, k - 1);
        lemma_precedes_orders_places(measured, sources[k - 1] as int, sources[k] as int);
    }
}

/// In a run that names as many entries as there are, all in nearest order,
/// the entry at place `k` has at most `k` entries before it.
proof fn lemma_places_capped(measured: Seq<Neighbor>, sources: Seq<usize>, k: int)
    requires
        sources.len() == measured.len(),
        forall|t: int| 0 <= t < sources.len() ==> sources[t] < measured.len(),
        in_nearest_order(measured, sources),
        0 <= k < sources.len(),
    ensures
        place_of(measured, sources[k] as int) <= k,
    decreases sources.len() - k,
{
    if k + 1 < sources.len() {
        lemma_places_capped(measured, sources, k + 1);
        lemma_precedes_orders_places(measured, sources[k] as int, sources[k + 1] as int);
    } else {
        lemma_place_in_range(measured, sources[k] as int);
    }
}

/// As many entries as there are, named in nearest order, are named each at
/// its place: there is one nearest order only.
pub proof fn lemma_nearest_order_is_unique(measured: Seq<Neighbor>, sources: Seq<usize>)
    requires
        sources.len() == measured.len(),
        forall|t: int| 0 <= t < sources.len() ==> sources[t] < measured.len(),
        in_nearest_order(measured, sources),
    ensures
        forall|k: int| 0 <= k < sources.len() ==> source_at(measured, k) == #[trigger] sources[k],
{
    assert forall|k: int| 0 <= k < sources.len() implies source_at(measured, k)
        == #[trigger] sources[k] by {
        lemma_places_climb(measured, sources, k);
        lemma_places_capped(measured, sources, k);
        lemma_source_at_place(measured, sources[k] as int);
    }
}

/// The identities of a sequence of entries, in the same order.
pub open spec fn identities_of(sequence: Seq<Neighbor>) -> Seq<usize> {
    sequence.map_values(|entry: Neighbor| entry.identity)
}

/// Place of the first entry of `sequence` that carries `identity`, if any does.
pub open spec fn first_place_of(sequence: Seq<Neighbor>, identity: usize) -> Option<int> {
    identities_of(sequence).index_of_first(identity)
}

/// `first_place_of` is the one place that carries the identity and has no
/// such place before it.
pub proof fn lemma_first_place_of(sequence: Seq<Neighbor>, identity: usize)
    ensures
        first_place_of(sequence, identity) matches Some(place) ==> 0 <= place < sequence.len()
            && sequence[place].identity == identity,
        first_place_of(sequence, identity) matches Some(place) ==> forall|q: int|
            0 <= q < place ==> sequence[q].identity != identity,
        first_place_of(sequence, identity) is None ==> forall|q: int|
            0 <= q < sequence.len() ==> sequence[q].identity != identity,
{
    let ids = identities_of(sequence);
    ids.index_of_first_ensures(identity);
    match first_place_of(sequence, identity) {
        Some(place) => {
            assert(ids[place] == sequence[place].identity);
            assert forall|q: int| 0 <= q < place implies sequence[q].identity != identity by {
                assert(ids[q] == sequence[q].identity);
            }
        },
        None => {
            assert forall|q: int| 0 <= q < sequence.len() implies sequence[q].identity
                != identity by {
                assert(ids[q] == sequence[q].identity);
                assert(ids.contains(ids[q]));
            }
        },
    }
}

/// A place that carries the identity, with none before it that does, is the
/// first place of that identity.
pub proof fn lemma_first_place_is(sequence: Seq<Neighbor>, identity: usize, place: int)
    requires
        0 <= place < sequence.len(),
        sequence[place].identity == identity,
        forall|q: int| 0 <= q < place ==> sequence[q].identity != identity,
    ensures
        first_place_of(sequence, identity) == Some(place),
{
    lemma_first_place_of(sequence, identity);
}

/// With no entry that carries the identity there is no first place.
pub proof fn lemma_first_place_none(sequence: Seq<Neighbor>, identity: usize)
    requires
        forall|q: int| 0 <= q < sequence.len() ==> sequence[q].identity != identity,
    ensures
        first_place_of(sequence, identity) is None,
{
    lemma_first_place_of(sequence, identity);
}

/// Where one entry alone carries its identity, the rank of that identity is
/// the entry's place.
pub proof fn lemma_first_place_when_unique(measured: Seq<Neighbor>, j: int)
    requires
        0 <= j < measured.len(),
        forall|t: int|
            0 <= t < measured.len() && t != j ==> measured[t].identity != measured[j].identity,
    ensures
        first_place_of(nearest_order(measured), measured[j].identity) == Some(
            place_of(measured, j) as int,
        ),
{
    let sequence = nearest_order(measured);
    let place = place_of(measured, j) as int;
    lemma_nearest_order_places(measured, j);
    assert forall|q: int| 0 <= q < place implies sequence[q].identity
        != measured[j].identity by {
        lemma_place_of_source(measured, q);
    }
    lemma_first_place_is(sequence, measured[j].identity, place);
}

} // verus!
