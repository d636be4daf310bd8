use crate::error::RankError;
use crate::index::{single_valued, SpatialIndex};
use crate::neighbors::{
    first_place_of, lemma_first_place_when_unique, lemma_place_in_range, lemma_place_zero,
    nearest_order, place_of, precedes, Neighbor,
};
use vstd::prelude::*;

verus! {

/// A table of points: one row for each entity, one column for each coordinate.
#[derive(Clone, Debug)]
pub struct PointSet<C> {
    columns: usize,
    rows: Vec<Vec<C>>,
}

impl<C> PointSet<C> {
    /// Number of coordinates of every row.
    pub closed spec fn columns_of(&self) -> nat {
        self.columns as nat
    }

    /// The rows, in order.
    pub closed spec fn rows_of(&self) -> Seq<Vec<C>> {
        self.rows@
    }

    /// What holds of every point set: each row has as many coordinates as the
    /// set has columns.
    pub open spec fn well_formed(&self) -> bool {
        forall|i: int|
            0 <= i < self.rows_of().len() ==> (#[trigger] self.rows_of()[i])@.len()
                == self.columns_of()
    }

    /// Whether two point sets have as many rows and as many columns as each other.
    pub open spec fn same_shape(&self, other: &PointSet<C>) -> bool {
        self.rows_of().len() == other.rows_of().len() && self.columns_of() == other.columns_of()
    }

    /// A point set of `columns` columns made of `rows`. A row of another
    /// length is turned away.
    pub fn new(columns: usize, rows: Vec<Vec<C>>) -> (made: Result<PointSet<C>, RankError>)
        ensures
            made is Ok <==> forall|i: int|
                0 <= i < rows@.len() ==> (#[trigger] rows@[i])@.len() == columns,
            made matches Err(error) ==> error == RankError::DimensionMismatch,
            made matches Ok(set) ==> set.well_formed() && set.columns_of() == columns
                && set.rows_of() == rows@,
    {
        let mut i: usize = 0;
        while i < rows.len()
            invariant
                i <= rows.len(),
                forall|t: int| 0 <= t < i ==> (#[trigger] rows@[t])@.len() == columns,
            decreases rows.len() - i,
        {
            if rows[i].len() != columns {
                return Err(RankError::DimensionMismatch);
            }
            i = i + 1;
        }
        Ok(PointSet { columns, rows })
    }

    /// Number of rows.
    pub fn row_count(&self) -> (count: usize)
        ensures
            count == self.rows_of().len(),
    {
        self.rows.len()
    }

    /// Number of columns.
    pub fn column_count(&self) -> (count: usize)
        ensures
            count == self.columns_of(),
    {
        self.columns
    }

    /// Row `i`, if there is one.
    pub fn row(&self, i: usize) -> (row: Option<&Vec<C>>)
        ensures
            row is Some <==> i < self.rows_of().len(),
            row matches Some(point) ==> *point == self.rows_of()[i as int],
    {
        if i < self.rows.len() {
            Some(&self.rows[i])
        } else {
            None
        }
    }
}

/// A mean of ranks, kept exact as the sum of the ranks and their number.
#[derive(Clone, Copy, Debug, PartialEq, Eq, Structural)]
pub struct MeanRank {
    /// Sum of the ranks of all entities.
    pub total: u128,
    /// Number of entities.
    pub count: usize,
}

impl MeanRank {
    /// Whether the mean lies between 0 and `count - 1`.
    pub open spec fn in_range(self) -> bool {
        self.count >= 1 && self.total <= self.count * (self.count - 1)
    }
}

/// Whether `entries` is what measuring `query` against the rows of `set_a`
/// gives: entry `j` carries identity `j` and a distance that `distance`
/// returned for `query` and row `j`.
pub open spec fn row_measured<C, F: Fn(&Vec<C>, &Vec<C>) -> u64>(
    set_a: &PointSet<C>,
    query: &Vec<C>,
    distance: &F,
    entries: Seq<Neighbor>,
) -> bool {
    &&& entries.len() == set_a.rows_of().len()
    &&& forall|j: int|
        0 <= j < entries.len() ==> (#[trigger] entries[j]).identity == j && distance.ensures(
            (query, &set_a.rows_of()[j]),
            entries[j].distance,
        )
}

/// Whether `table` holds, for each row of `set_b`, what measuring it against
/// the rows of `set_a` gives.
pub open spec fn table_measured<C, F: Fn(&Vec<C>, &Vec<C>) -> u64>(
    set_a: &PointSet<C>,
    set_b: &PointSet<C>,
    distance: &F,
    table: Seq<Seq<Neighbor>>,
) -> bool {
    &&& table.len() == set_b.rows_of().len()
    &&& forall|i: int|
        0 <= i < table.len() ==> row_measured(
            set_a,
            &set_b.rows_of()[i],
            distance,
            #[trigger] table[i],
        )
}

/// Rank of `entity` among the entries measured for its row: the number of
/// points that come before the entity's own in nearest-neighbor order.
pub open spec fn entity_rank(entries: Seq<Neighbor>, entity: int) -> nat {
    place_of(entries, entity)
}

/// Sum of the ranks of the first `upto` entities, entity `i` being ranked
/// among the entries of row `i`.
pub open spec fn rank_total(table: Seq<Seq<Neighbor>>, upto: int) -> nat
    decreases upto,
{
    if upto <= 0 {
        0
    } else {
        rank_total(table, upto - 1) + entity_rank(table[upto - 1], upto - 1)
    }
}

/// The rank of an entity is the place of the first entry that carries its
/// identity in the nearest-neighbor sequence of its row.
pub proof fn lemma_entity_rank_is_first_place(entries: Seq<Neighbor>, entity: usize)
    requires
        entity < entries.len(),
        forall|j: int| 0 <= j < entries.len() ==> (#[trigger] entries[j]).identity == j,
    ensures
        first_place_of(nearest_order(entries), entity) == Some(
            entity_rank(entries, entity as int) as int,
        ),
{
    assert(entries[entity as int].identity == entity);
    lemma_first_place_when_unique(entries, entity as int);
}

/// Whether `distance` may be called on each row of `set_b` with each row of
/// `set_a`. Nothing is asked of it for sets of different shapes, which are
/// turned away before any call.
pub open spec fn comparable<C, F: Fn(&Vec<C>, &Vec<C>) -> u64>(
    set_a: &PointSet<C>,
    set_b: &PointSet<C>,
    distance: &F,
) -> bool {
    set_a.same_shape(set_b) ==> forall|i: int, j: int|
        0 <= i < set_b.rows_of().len() && 0 <= j < set_a.rows_of().len() ==> distance.requires(
            (&#[trigger] set_b.rows_of()[i], &#[trigger] set_a.rows_of()[j]),
        )
}

/// What `rank_distance` returns for two point sets and a distance.
pub open spec fn is_rank_distance<C, F: Fn(&Vec<C>, &Vec<C>) -> u64>(
    set_a: &PointSet<C>,
    set_b: &PointSet<C>,
    distance: &F,
    result: Result<MeanRank, RankError>,
) -> bool {
    if !set_a.same_shape(set_b) {
        result == Err::<MeanRank, RankError>(RankError::ShapeMismatch)
    } else if set_a.rows_of().len() == 0 {
        result == Err::<MeanRank, RankError>(RankError::EmptyInputError)
    } else if set_a.columns_of() == 0 {
        result == Err::<MeanRank, RankError>(RankError::ConfigurationError)
    } else {
        &&& result matches Ok(mean)
        &&& mean.count == set_a.rows_of().len()
        &&& exists|table: Seq<Seq<Neighbor>>|
            table_measured(set_a, set_b, distance, table) && mean.total == rank_total(
                table,
                table.len() as int,
            )
    }
}

/// No rank exceeds the number of other points, so the sum of `upto` ranks is
/// at most `upto` times that number.
pub proof fn lemma_rank_total_bound(table: Seq<Seq<Neighbor>>, upto: int)
    requires
        0 <= upto <= table.len(),
        forall|i: int| 0 <= i < table.len() ==> (#[trigger] table[i]).len() == table.len(),
    ensures
        rank_total(table, upto) <= upto * (table.len() - 1),
    decreases upto,
{
    if upto > 0 {
        lemma_rank_total_bound(table, upto - 1);
        lemma_place_in_range(table[upto - 1], upto - 1);
        assert(upto * (table.len() - 1) == (upto - 1) * (table.len() - 1) + (table.len() - 1))
            by (nonlinear_arith);
    }
}

/// The rank distance from `set_a` to `set_b`: the mean, over all entities, of
/// the place that the entity's row of `set_a` takes in the nearest-neighbor
/// sequence of its row of `set_b` among all rows of `set_a`.
///
/// Sets of different shapes are a `ShapeMismatch`, sets without rows an
/// `EmptyInputError`, sets without columns a `ConfigurationError`. Every row
/// of `set_b` is measured once against every row of `set_a`; no sequence is
/// built.
pub fn rank_distance<C, F: Fn(&Vec<C>, &Vec<C>) -> u64>(
    set_a: &PointSet<C>,
    set_b: &PointSet<C>,
    distance: &F,
) -> (result: Result<MeanRank, RankError>)
    requires
        set_a.well_formed(),
        set_b.well_formed(),
        comparable(set_a, set_b, distance),
    ensures
        is_rank_distance(set_a, set_b, distance, result),
        result matches Ok(mean) ==> mean.in_range(),
{
    let n: usize = set_a.rows.len();
    if n != set_b.rows.len() || set_a.columns != set_b.columns {
        return Err(RankError::ShapeMismatch);
    }
    if n == 0 {
        return Err(RankError::EmptyInputError);
    }
    let mut index: SpatialIndex<C> = match SpatialIndex::new(set_a.columns) {
        Ok(index) => index,
        Err(error) => {
            return Err(error);
        },
    };
    let mut i: usize = 0;
    while i < n
        invariant
            i <= n,
            n == set_a.rows_of().len(),
            set_a.well_formed(),
            index.well_formed(),
            index.dimension_of() == set_a.columns_of(),
            index.points_of() == set_a.rows_of().subrange(0, i as int),
            index.identities_of() == Seq::new(i as nat, |j: int| j as usize),
        decreases n - i,
    {
        assert(set_a.rows_of()[i as int]@.len() == set_a.columns_of());
        match index.insert(&set_a.rows[i], i) {
            Ok(()) => {},
            Err(error) => {
                return Err(error);
            },
        }
        assert(index.points_of() == set_a.rows_of().subrange(0, i + 1));
        assert(index.identities_of() == Seq::new((i + 1) as nat, |j: int| j as usize));
        i = i + 1;
    }
    assert(index.points_of() == set_a.rows_of());
    let ghost own = Seq::new(n as nat, |j: int| j as usize);
    let ghost mut table: Seq<Seq<Neighbor>> = Seq::empty();
    let mut total: u128 = 0;
    let mut i: usize = 0;
    while i < n
        invariant
            i <= n,
            1 <= n == set_a.rows_of().len(),
            set_a.same_shape(set_b),
            set_b.well_formed(),
            comparable(set_a, set_b, distance),
            index.well_formed(),
            index.dimension_of() == set_a.columns_of(),
            index.points_of() == set_a.rows_of(),
            index.identities_of() == own,
            own == Seq::new(n as nat, |j: int| j as usize),
            table.len() == i,
            forall|t: int|
                0 <= t < i ==> row_measured(
                    set_a,
                    &set_b.rows_of()[t],
                    distance,
                    #[trigger] table[t],
                ),
            total == rank_total(table, i as int),
            total <= i * (n - 1),
        decreases n - i,
    {
        let query: &Vec<C> = &set_b.rows[i];
        assert(query@.len() == index.dimension_of()) by {
            assert(set_b.rows_of()[i as int]@.len() == set_b.columns_of());
        }
        assert(own[i as int] == i);
        let place: usize = match index.rank_of(query, i, distance) {
            Ok(place) => place,
            Err(error) => {
                return Err(error);
            },
        };
        proof {
            let entries = choose|entries: Seq<Neighbor>|
                index.measured_by(query, distance, entries) && first_place_of(
                    nearest_order(entries),
                    i,
                ) == Some(place as int);
            assert forall|j: int| 0 <= j < entries.len() implies (#[trigger] entries[j]).identity
                == j by {
                assert(entries[j].identity == own[j]);
            }
            lemma_entity_rank_is_first_place(entries, i);
            assert(place == entity_rank(entries, i as int));
            assert(row_measured(set_a, query, distance, entries));
            let earlier = table;
            table = table.push(entries);
            lemma_rank_total_unchanged(earlier, table, i as int);
            assert((i + 1) * (n - 1) == i * (n - 1) + (n - 1)) by (nonlinear_arith);
            assert((i + 1) * (n - 1) <= n * (n - 1)) by (nonlinear_arith)
                requires
                    i + 1 <= n,
                    n >= 1,
            ;
            assert(n * (n - 1) <= u128::MAX) by (nonlinear_arith)
                requires
                    1 <= n <= 0xffff_ffff_ffff_ffff,
            ;
        }
        total = total + place as u128;
        i = i + 1;
    }
    proof {
        assert(table_measured(set_a, set_b, distance, table));
    }
    Ok(MeanRank { total, count: n })
}

/// The first `upto` ranks are those of the first `upto` rows alone.
proof fn lemma_rank_total_unchanged(
    earlier: Seq<Seq<Neighbor>>,
    later: Seq<Seq<Neighbor>>,
    upto: int,
)
    requires
        0 <= upto <= earlier.len() <= later.len(),
        forall|i: int| 0 <= i < upto ==> earlier[i] == later[i],
    ensures
        rank_total(earlier, upto) == rank_total(later, upto),
    decreases upto,
{
    if upto > 0 {
        lemma_rank_total_unchanged(earlier, later, upto - 1);
    }
}

/// The sum of ranks is zero exactly when, for every entity, no point comes
/// before the entity's own in the sequence of its row.
pub proof fn lemma_rank_total_zero(table: Seq<Seq<Neighbor>>, upto: int)
    requires
        0 <= upto,
    ensures
        rank_total(table, upto) == 0 <==> forall|i: int, t: int|
            0 <= i < upto && 0 <= t < table[i].len() ==> !precedes(table[i], t, i),
    decreases upto,
{
    if upto > 0 {
        let last = upto - 1;
        lemma_rank_total_zero(table, last);
        lemma_place_zero(table[last], last, table[last].len() as int);
    }
}

/// The mean rank of any two point sets lies between 0 and the number of
/// entities less one.
pub proof fn lemma_rank_distance_in_range<C, F: Fn(&Vec<C>, &Vec<C>) -> u64>(
    set_a: &PointSet<C>,
    set_b: &PointSet<C>,
    distance: &F,
    result: Result<MeanRank, RankError>,
)
    requires
        is_rank_distance(set_a, set_b, distance, result),
    ensures
        result matches Ok(mean) ==> mean.in_range(),
{
    if let Ok(mean) = result {
        let table = choose|table: Seq<Seq<Neighbor>>|
            table_measured(set_a, set_b, distance, table) && mean.total == rank_total(
                table,
                table.len() as int,
            );
        lemma_rank_total_bound(table, table.len() as int);
    }
}

/// With a distance that gives one number only for each pair of points, the
/// same point sets always have the same rank distance.
pub proof fn lemma_rank_distance_deterministic<C, F: Fn(&Vec<C>, &Vec<C>) -> u64>(
    set_a: &PointSet<C>,
    set_b: &PointSet<C>,
    distance: &F,
    first: Result<MeanRank, RankError>,
    second: Result<MeanRank, RankError>,
)
    requires
        single_valued(distance),
        is_rank_distance(set_a, set_b, distance, first),
        is_rank_distance(set_a, set_b, distance, second),
    ensures
        first == second,
{
    if let Ok(mean) = first {
        let other = second->Ok_0;
        let table = choose|table: Seq<Seq<Neighbor>>|
            table_measured(set_a, set_b, distance, table) && mean.total == rank_total(
                table,
                table.len() as int,
            );
        let again = choose|again: Seq<Seq<Neighbor>>|
            table_measured(set_a, set_b, distance, again) && other.total == rank_total(
                again,
                again.len() as int,
            );
        assert forall|i: int| 0 <= i < table.len() implies table[i] == again[i] by {
            assert(row_measured(set_a, &set_b.rows_of()[i], distance, table[i]));
            assert(row_measured(set_a, &set_b.rows_of()[i], distance, again[i]));
            assert forall|j: int| 0 <= j < table[i].len() implies table[i][j] == again[i][j] by {
                assert(table[i][j].identity == j);
                assert(again[i][j].identity == j);
            }
            assert(table[i] =~= again[i]);
        }
        assert(table =~= again);
    }
}

/// Whether `distance` puts a point nearer to an equal point than to any
/// other.
pub open spec fn nearest_to_itself<C, F: Fn(&Vec<C>, &Vec<C>) -> u64>(distance: &F) -> bool {
    forall|p: &Vec<C>, same: &Vec<C>, other: &Vec<C>, near: u64, far: u64|
        p@ == same@ && p@ != other@ && #[trigger] distance.ensures((p, same), near)
            && #[trigger] distance.ensures((p, other), far) ==> near < far
}

/// Two point sets with equal rows, no row occurring twice, have rank distance
/// zero under a distance that puts each point nearest to itself.
pub proof fn lemma_equal_sets_rank_zero<C, F: Fn(&Vec<C>, &Vec<C>) -> u64>(
    set_a: &PointSet<C>,
    set_b: &PointSet<C>,
    distance: &F,
    result: Result<MeanRank, RankError>,
)
    requires
        is_rank_distance(set_a, set_b, distance, result),
        set_a.same_shape(set_b),
        set_a.rows_of().len() >= 1,
        set_a.columns_of() >= 1,
        forall|i: int|
            0 <= i < set_a.rows_of().len() ==> set_a.rows_of()[i]@ == set_b.rows_of()[i]@,
        forall|i: int, j: int|
            0 <= i < set_a.rows_of().len() && 0 <= j < set_a.rows_of().len() && i != j
                ==> set_a.rows_of()[i]@ != set_a.rows_of()[j]@,
        nearest_to_itself(distance),
    ensures
        result matches Ok(mean) && mean.total == 0 && mean.count == set_a.rows_of().len(),
{
    let mean = result->Ok_0;
    let table = choose|table: Seq<Seq<Neighbor>>|
        table_measured(set_a, set_b, distance, table) && mean.total == rank_total(
            table,
            table.len() as int,
        );
    assert forall|i: int, t: int|
        0 <= i < table.len() && 0 <= t < table[i].len() implies !precedes(table[i], t, i) by {
        assert(row_measured(set_a, &set_b.rows_of()[i], distance, table[i]));
        if t != i {
            let p = &set_b.rows_of()[i];
            assert(distance.ensures((p, &set_a.rows_of()[i]), table[i][i].distance));
            assert(distance.ensures((p, &set_a.rows_of()[t]), table[i][t].distance));
            assert(set_a.rows_of()[i]@ != set_a.rows_of()[t]@);
        }
    }
    lemma_rank_total_zero(table, table.len() as int);
}

/// Where a row of `set_b` equals some row of `set_a` but not the row of its
/// own entity, the rank distance is above zero under a distance that puts
/// each point nearest to itself.
pub proof fn lemma_moved_row_rank_positive<C, F: Fn(&Vec<C>, &Vec<C>) -> u64>(
    set_a: &PointSet<C>,
    set_b: &PointSet<C>,
    distance: &F,
    result: Result<MeanRank, RankError>,
    entity: int,
    other: int,
)
    requires
        is_rank_distance(set_a, set_b, distance, result),
        set_a.same_shape(set_b),
        set_a.columns_of() >= 1,
        0 <= entity < set_a.rows_of().len(),
        0 <= other < set_a.rows_of().len(),
        set_b.rows_of()[entity]@ == set_a.rows_of()[other]@,
        set_b.rows_of()[entity]@ != set_a.rows_of()[entity]@,
        nearest_to_itself(distance),
    ensures
        result matches Ok(mean) && mean.total > 0,
{
    let mean = result->Ok_0;
    let table = choose|table: Seq<Seq<Neighbor>>|
        table_measured(set_a, set_b, distance, table) && mean.total == rank_total(
            table,
            table.len() as int,
        );
    let entries = table[entity];
    assert(row_measured(set_a, &set_b.rows_of()[entity], distance, entries));
    let query = &set_b.rows_of()[entity];
    assert(distance.ensures((query, &set_a.rows_of()[other]), entries[other].distance));
    assert(distance.ensures((query, &set_a.rows_of()[entity]), entries[entity].distance));
    assert(precedes(entries, other, entity));
    lemma_rank_total_zero(table, table.len() as int);
}

} // verus!
