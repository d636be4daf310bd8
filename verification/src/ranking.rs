use crate::neighbors::{
    count_preceding, first_place_of, in_nearest_order, lemma_first_place_is,
    lemma_first_place_none, lemma_nearest_order_is_unique, lemma_nearest_order_places,
    lemma_nearest_order_sorted, lemma_place_in_range, lemma_place_of_source,
    lemma_precedes_orders_places, nearest_order, place_of, precedes, source_at, Neighbor,
};
use vstd::prelude::*;

verus! {

/// Tells whether entry `a` comes before entry `b`.
fn comes_before(measured: &Vec<Neighbor>, a: usize, b: usize) -> (yes: bool)
    requires
        a < measured.len(),
        b < measured.len(),
    ensures
        yes == precedes(measured@, a as int, b as int),
{
    let near: u64 = measured[a].distance;
    let far: u64 = measured[b].distance;
    near < far || (near == far && a < b)
}

/// Merges two runs of entries, each in nearest order, into one.
fn merge_runs(
    measured: &Vec<Neighbor>,
    left: &Vec<usize>,
    right: &Vec<usize>,
) -> (merged: Vec<usize>)
    requires
        left.len() + right.len() <= measured.len(),
        forall|i: int| 0 <= i < left.len() ==> left@[i] < measured.len(),
        forall|j: int| 0 <= j < right.len() ==> right@[j] < measured.len(),
        forall|i: int, j: int|
            0 <= i < left.len() && 0 <= j < right.len() ==> left@[i] != right@[j],
        in_nearest_order(measured@, left@),
        in_nearest_order(measured@, right@),
    ensures
        merged.len() == left.len() + right.len(),
        forall|k: int|
            0 <= k < merged.len() ==> left@.contains(#[trigger] merged@[k]) || right@.contains(
                merged@[k],
            ),
        in_nearest_order(measured@, merged@),
{
    let mut merged: Vec<usize> = Vec::new();
    let mut i: usize = 0;
    let mut j: usize = 0;
    while i < left.len() || j < right.len()
        invariant
            i <= left.len(),
            j <= right.len(),
            left.len() + right.len() <= measured.len(),
            merged.len() == i + j,
            forall|t: int| 0 <= t < left.len() ==> left@[t] < measured.len(),
            forall|t: int| 0 <= t < right.len() ==> right@[t] < measured.len(),
            forall|s: int, t: int|
                0 <= s < left.len() && 0 <= t < right.len() ==> left@[s] != right@[t],
            in_nearest_order(measured@, left@),
            in_nearest_order(measured@, right@),
            in_nearest_order(measured@, merged@),
            forall|k: int|
                0 <= k < merged.len() ==> left@.contains(#[trigger] merged@[k])
                    || right@.contains(merged@[k]),
            forall|k: int, t: int|
                0 <= k < merged.len() && i <= t < left.len() ==> precedes(
                    measured@,
                    #[trigger] merged@[k] as int,
                    #[trigger] left@[t] as int,
                ),
            forall|k: int, t: int|
                0 <= k < merged.len() && j <= t < right.len() ==> precedes(
                    measured@,
                    #[trigger] merged@[k] as int,
                    #[trigger] right@[t] as int,
                ),
        decreases left.len() - i + right.len() - j,
    {
        let take_left: bool = if i == left.len() {
            false
        } else if j == right.len() {
            true
        } else {
            comes_before(measured, left[i], right[j])
        };
        let ghost before = merged@;
        if take_left {
            let next: usize = left[i];
            merged.push(next);
            i = i + 1;
            proof {
                assert(left@.contains(next));
                assert forall|k: int, t: int|
                    0 <= k < merged.len() && j <= t < right.len() implies precedes(
                    measured@,
                    #[trigger] merged@[k] as int,
                    #[trigger] right@[t] as int,
                ) by {
                    if k == before.len() && t > j {
                        assert(precedes(measured@, right@[j as int] as int, right@[t] as int));
                    }
                }
            }
        } else {
            let next: usize = right[j];
            merged.push(next);
            j = j + 1;
            proof {
                assert(right@.contains(next));
                assert forall|k: int, t: int|
                    0 <= k < merged.len() && i <= t < left.len() implies precedes(
                    measured@,
                    #[trigger] merged@[k] as int,
                    #[trigger] left@[t] as int,
                ) by {
                    if k == before.len() {
                        assert(left@[i as int] != next);
                        assert(precedes(measured@, next as int, left@[i as int] as int));
                        if t > i {
                            assert(precedes(measured@, left@[i as int] as int, left@[t] as int));
                        }
                    }
                }
            }
        }
    }
    merged
}

/// Names the entries from `low` up to `high`, in nearest order.
fn ordered_run(measured: &Vec<Neighbor>, low: usize, high: usize) -> (run: Vec<usize>)
    requires
        low <= high <= measured.len(),
    ensures
        run.len() == high - low,
        forall|k: int| 0 <= k < run.len() ==> low <= #[trigger] run@[k] < high,
        in_nearest_order(measured@, run@),
    decreases high - low,
{
    if high - low <= 1 {
        let mut run: Vec<usize> = Vec::new();
        if low < high {
            run.push(low);
        }
        return run;
    }
    let middle: usize = low + (high - low) / 2;
    let left: Vec<usize> = ordered_run(measured, low, middle);
    let right: Vec<usize> = ordered_run(measured, middle, high);
    let run: Vec<usize> = merge_runs(measured, &left, &right);
    run
}

/// Puts measured entries, given in insertion order, into nearest-neighbor
/// order: by distance, equally distant ones in insertion order. A merge sort.
pub fn order_neighbors(measured: &Vec<Neighbor>) -> (ordered: Vec<Neighbor>)
    ensures
        ordered@ == nearest_order(measured@),
        ordered.len() == measured.len(),
        forall|j: int|
            0 <= j < measured.len() ==> ordered@[#[trigger] place_of(measured@, j) as int]
                == measured@[j],
        forall|first: int, second: int|
            0 <= first < second < ordered.len() ==> ordered@[first].distance
                <= ordered@[second].distance,
{
    let sources: Vec<usize> = ordered_run(measured, 0, measured.len());
    proof {
        lemma_nearest_order_is_unique(measured@, sources@);
    }
    let mut ordered: Vec<Neighbor> = Vec::new();
    let mut place: usize = 0;
    while place < sources.len()
        invariant
            place <= sources.len(),
            sources.len() == measured.len(),
            ordered.len() == place,
            forall|k: int|
                0 <= k < sources.len() ==> source_at(measured@, k) == #[trigger] sources@[k]
                    && sources@[k] < measured.len(),
            forall|k: int| 0 <= k < place ==> ordered@[k] == nearest_order(measured@)[k],
        decreases sources.len() - place,
    {
        ordered.push(measured[sources[place]]);
        place = place + 1;
    }
    proof {
        assert(ordered@ == nearest_order(measured@));
        assert forall|j: int| 0 <= j < measured.len() implies ordered@[#[trigger] place_of(
            measured@,
            j,
        ) as int] == measured@[j] by {
            lemma_nearest_order_places(measured@, j);
        }
        assert forall|first: int, second: int|
            0 <= first < second < ordered.len() implies ordered@[first].distance
            <= ordered@[second].distance by {
            lemma_nearest_order_sorted(measured@, first, second);
        }
    }
    ordered
}

/// Scans a sequence in order for the first entry that carries `identity`.
pub fn first_place(sequence: &Vec<Neighbor>, identity: usize) -> (found: Option<usize>)
    ensures
        found matches Some(place) ==> first_place_of(sequence@, identity) == Some(place as int),
        found is None ==> first_place_of(sequence@, identity) is None,
{
    let mut place: usize = 0;
    while place < sequence.len()
        invariant
            place <= sequence.len(),
            forall|q: int| 0 <= q < place ==> sequence@[q].identity != identity,
        decreases sequence.len() - place,
    {
        if sequence[place].identity == identity {
            proof {
                lemma_first_place_is(sequence@, identity, place as int);
            }
            return Some(place);
        }
        place = place + 1;
    }
    proof {
        lemma_first_place_none(sequence@, identity);
    }
    None
}

/// Counts the entries that come before entry `target` in nearest-neighbor order.
fn count_before(measured: &Vec<Neighbor>, target: usize) -> (count: usize)
    requires
        target < measured.len(),
    ensures
        count == place_of(measured@, target as int),
        count < measured.len(),
{
    let mut count: usize = 0;
    let mut other: usize = 0;
    while other < measured.len()
        invariant
            other <= measured.len(),
            target < measured.len(),
            count == count_preceding(measured@, target as int, other as int),
            count <= other,
        decreases measured.len() - other,
    {
        if comes_before(measured, other, target) {
            count = count + 1;
        }
        other = other + 1;
    }
    proof {
        lemma_place_in_range(measured@, target as int);
    }
    count
}

/// Finds the entry that carries `identity` and comes before every other entry
/// that does.
fn foremost_with_identity(measured: &Vec<Neighbor>, identity: usize) -> (found: Option<usize>)
    ensures
        found matches Some(best) ==> best < measured.len() && measured@[best as int].identity
            == identity,
        found matches Some(best) ==> forall|t: int|
            0 <= t < measured.len() && t != best && measured@[t].identity == identity
                ==> precedes(measured@, best as int, t),
        found is None ==> forall|t: int|
            0 <= t < measured.len() ==> measured@[t].identity != identity,
{
    let mut found: Option<usize> = None;
    let mut j: usize = 0;
    while j < measured.len()
        invariant
            j <= measured.len(),
            found matches Some(best) ==> best < j && measured@[best as int].identity == identity,
            found matches Some(best) ==> forall|t: int|
                0 <= t < j && t != best && measured@[t].identity == identity ==> precedes(
                    measured@,
                    best as int,
                    t,
                ),
            found is None ==> forall|t: int| 0 <= t < j ==> measured@[t].identity != identity,
        decreases measured.len() - j,
    {
        if measured[j].identity == identity {
            match found {
                Some(best) => {
                    if measured[j].distance < measured[best].distance {
                        proof {
                            assert forall|t: int|
                                0 <= t < j && measured@[t].identity == identity implies precedes(
                                measured@,
                                j as int,
                                t,
                            ) by {
                                if t != best {
                                    assert(precedes(measured@, best as int, t));
                                }
                            }
                        }
                        found = Some(j);
                    } else {
                        assert(precedes(measured@, best as int, j as int));
                    }
                },
                None => {
                    found = Some(j);
                },
            }
        }
        j = j + 1;
    }
    found
}

/// Rank of `identity` among measured entries given in insertion order: the
/// place of the first entry of the nearest-neighbor sequence that carries
/// it. The sequence itself is not built: two passes over the entries find
/// the entry and count those before it.
pub fn nearest_rank(measured: &Vec<Neighbor>, identity: usize) -> (rank: Option<usize>)
    ensures
        rank is Some <==> exists|j: int|
            0 <= j < measured.len() && measured@[j].identity == identity,
        rank matches Some(place) ==> place < measured.len(),
        rank matches Some(place) ==> first_place_of(nearest_order(measured@), identity) == Some(
            place as int,
        ),
        rank is None ==> first_place_of(nearest_order(measured@), identity) is None,
{
    match foremost_with_identity(measured, identity) {
        Some(best) => {
            let place: usize = count_before(measured, best);
            proof {
                let sequence = nearest_order(measured@);
                lemma_nearest_order_places(measured@, best as int);
                assert forall|q: int| 0 <= q < place implies sequence[q].identity
                    != identity by {
                    let t = source_at(measured@, q);
                    lemma_place_of_source(measured@, q);
                    if measured@[t].identity == identity {
                        lemma_precedes_orders_places(measured@, best as int, t);
                    }
                }
                lemma_first_place_is(sequence, identity, place as int);
            }
            Some(place)
        },
        None => {
            proof {
                let sequence = nearest_order(measured@);
                assert forall|q: int| 0 <= q < sequence.len() implies sequence[q].identity
                    != identity by {
                    lemma_place_of_source(measured@, q);
                }
                lemma_first_place_none(sequence, identity);
            }
            None
        },
    }
}

} // verus!
