use crate::error::RankError;
use crate::neighbors::{first_place_of, nearest_order, Neighbor};
use crate::ranking::{nearest_rank, order_neighbors};
use vstd::prelude::*;

verus! {

/// An exact nearest-neighbor index over points of one fixed dimension. The
/// index looks at the points it was given; it keeps no copy of them.
#[derive(Clone, Debug)]
pub struct SpatialIndex<'a, C> {
    dimension: usize,
    points: Vec<&'a Vec<C>>,
    identities: Vec<usize>,
}

impl<'a, C> SpatialIndex<'a, C> {
    /// Number of coordinates of every indexed point.
    pub closed spec fn dimension_of(&self) -> nat {
        self.dimension as nat
    }

    /// The indexed points, in insertion order.
    pub closed spec fn points_of(&self) -> Seq<Vec<C>> {
        Seq::new(self.points@.len(), |j: int| *self.points@[j])
    }

    /// The identities of the indexed points, in insertion order.
    pub closed spec fn identities_of(&self) -> Seq<usize> {
        self.identities@
    }

    /// What holds of every index: a positive dimension, one identity for each
    /// point, and no point of another dimension.
    pub open spec fn well_formed(&self) -> bool {
        &&& self.dimension_of() >= 1
        &&& self.points_of().len() == self.identities_of().len()
        &&& forall|j: int|
            0 <= j < self.points_of().len() ==> (#[trigger] self.points_of()[j])@.len()
                == self.dimension_of()
    }

    /// Whether `distance` may be called on `query` and each indexed point.
    /// Nothing is asked of it for a query of another dimension, which is
    /// turned away before any call.
    pub open spec fn measurable<F: Fn(&Vec<C>, &Vec<C>) -> u64>(
        &self,
        query: &Vec<C>,
        distance: &F,
    ) -> bool {
        query@.len() == self.dimension_of() ==> forall|j: int|
            0 <= j < self.points_of().len() ==> distance.requires(
                (query, &#[trigger] self.points_of()[j]),
            )
    }

    /// Whether `entries` is what measuring gives: for each indexed point, in
    /// insertion order, its identity and a distance that `distance` returned
    /// for `query` and that point.
    pub open spec fn measured_by<F: Fn(&Vec<C>, &Vec<C>) -> u64>(
        &self,
        query: &Vec<C>,
        distance: &F,
        entries: Seq<Neighbor>,
    ) -> bool {
        &&& entries.len() == self.points_of().len()
        &&& forall|j: int|
            0 <= j < entries.len() ==> (#[trigger] entries[j]).identity == self.identities_of()[j]
                && distance.ensures((query, &self.points_of()[j]), entries[j].distance)
    }

    /// Whether `ordered` is a nearest-neighbor sequence of `query`: what
    /// measuring gives, put in nearest-neighbor order.
    pub open spec fn is_nearest_sequence<F: Fn(&Vec<C>, &Vec<C>) -> u64>(
        &self,
        query: &Vec<C>,
        distance: &F,
        ordered: Seq<Neighbor>,
    ) -> bool {
        exists|entries: Seq<Neighbor>|
            self.measured_by(query, distance, entries) && ordered == nearest_order(entries)
    }

    /// An empty index for points of `dimension` coordinates.
    pub fn new(dimension: usize) -> (made: Result<SpatialIndex<'a, C>, RankError>)
        ensures
            dimension == 0 <==> made is Err,
            made matches Err(error) ==> error == RankError::ConfigurationError,
            made matches Ok(index) ==> index.well_formed() && index.dimension_of() == dimension,
            made matches Ok(index) ==> index.points_of() == Seq::<Vec<C>>::empty(),
            made matches Ok(index) ==> index.identities_of() == Seq::<usize>::empty(),
    {
        if dimension == 0 {
            return Err(RankError::ConfigurationError);
        }
        Ok(SpatialIndex { dimension, points: Vec::new(), identities: Vec::new() })
    }

    /// Dimension of the index.
    pub fn dimension(&self) -> (dimension: usize)
        ensures
            dimension == self.dimension_of(),
    {
        self.dimension
    }

    /// Number of indexed points.
    pub fn len(&self) -> (count: usize)
        ensures
            count == self.points_of().len(),
    {
        self.points.len()
    }

    /// Adds one point with its identity. A point of another dimension is
    /// turned away and the index stays as it was.
    pub fn insert(&mut self, point: &'a Vec<C>, identity: usize) -> (done: Result<(), RankError>)
        requires
            old(self).well_formed(),
        ensures
            final(self).well_formed(),
            final(self).dimension_of() == old(self).dimension_of(),
            point@.len() == old(self).dimension_of() <==> done is Ok,
            done matches Err(error) ==> error == RankError::DimensionMismatch,
            done is Err ==> final(self).points_of() == old(self).points_of(),
            done is Err ==> final(self).identities_of() == old(self).identities_of(),
            done is Ok ==> final(self).points_of() == old(self).points_of().push(*point),
            done is Ok ==> final(self).identities_of() == old(self).identities_of().push(
                identity,
            ),
    {
        if point.len() != self.dimension {
            return Err(RankError::DimensionMismatch);
        }
        self.points.push(point);
        self.identities.push(identity);
        assert(self.points_of() == old(self).points_of().push(*point));
        Ok(())
    }

    /// Measures the distance from `query` to every indexed point, in
    /// insertion order.
    pub fn measure<F: Fn(&Vec<C>, &Vec<C>) -> u64>(
        &self,
        query: &Vec<C>,
        distance: &F,
    ) -> (measured: Result<Vec<Neighbor>, RankError>)
        requires
            self.well_formed(),
            self.measurable(query, distance),
        ensures
            query@.len() == self.dimension_of() <==> measured is Ok,
            measured matches Err(error) ==> error == RankError::DimensionMismatch,
            measured matches Ok(entries) ==> self.measured_by(query, distance, entries@),
    {
        if query.len() != self.dimension {
            return Err(RankError::DimensionMismatch);
        }
        let mut entries: Vec<Neighbor> = Vec::new();
        let mut j: usize = 0;
        while j < self.points.len()
            invariant
                j <= self.points.len(),
                self.well_formed(),
                self.measurable(query, distance),
                query@.len() == self.dimension_of(),
                entries.len() == j,
                forall|t: int|
                    0 <= t < j ==> (#[trigger] entries@[t]).identity == self.identities_of()[t]
                        && distance.ensures((query, &self.points_of()[t]), entries@[t].distance),
            decreases self.points.len() - j,
        {
            assert(*self.points@[j as int] == self.points_of()[j as int]);
            let apart: u64 = distance(query, self.points[j]);
            entries.push(Neighbor { distance: apart, identity: self.identities[j] });
            j = j + 1;
        }
        Ok(entries)
    }

    /// The nearest-neighbor sequence of `query`: every indexed point with
    /// its distance, nearest first, equally distant ones in insertion order.
    pub fn nearest_sequence<F: Fn(&Vec<C>, &Vec<C>) -> u64>(
        &self,
        query: &Vec<C>,
        distance: &F,
    ) -> (sequence: Result<Vec<Neighbor>, RankError>)
        requires
            self.well_formed(),
            self.measurable(query, distance),
        ensures
            query@.len() == self.dimension_of() <==> sequence is Ok,
            sequence matches Err(error) ==> error == RankError::DimensionMismatch,
            sequence matches Ok(ordered) ==> self.is_nearest_sequence(query, distance, ordered@),
            sequence matches Ok(ordered) ==> ordered.len() == self.points_of().len(),
            sequence matches Ok(ordered) ==> forall|first: int, second: int|
                0 <= first < second < ordered.len() ==> ordered@[first].distance
                    <= ordered@[second].distance,
    {
        match self.measure(query, distance) {
            Ok(entries) => Ok(order_neighbors(&entries)),
            Err(error) => Err(error),
        }
    }

    /// Rank of `identity` for `query`: the place of the first entry of the
    /// nearest-neighbor sequence that carries it.
    pub fn rank_of<F: Fn(&Vec<C>, &Vec<C>) -> u64>(
        &self,
        query: &Vec<C>,
        identity: usize,
        distance: &F,
    ) -> (rank: Result<usize, RankError>)
        requires
            self.well_formed(),
            self.measurable(query, distance),
        ensures
            rank is Ok <==> query@.len() == self.dimension_of()
                && self.identities_of().contains(identity),
            query@.len() != self.dimension_of() <==> rank == Err::<usize, RankError>(
                RankError::DimensionMismatch,
            ),
            query@.len() == self.dimension_of() && !self.identities_of().contains(identity)
                <==> rank == Err::<usize, RankError>(RankError::InvariantViolation),
            rank matches Ok(place) ==> place < self.points_of().len(),
            rank matches Ok(place) ==> exists|entries: Seq<Neighbor>|
                self.measured_by(query, distance, entries) && first_place_of(
                    nearest_order(entries),
                    identity,
                ) == Some(place as int),
    {
        match self.measure(query, distance) {
            Ok(entries) => {
                match nearest_rank(&entries, identity) {
                    Some(place) => {
                        proof {
                            let j = choose|j: int|
                                0 <= j < entries.len() && entries@[j].identity == identity;
                            assert(self.identities_of()[j] == identity);
                        }
                        Ok(place)
                    },
                    None => {
                        proof {
                            if self.identities_of().contains(identity) {
                                let j = choose|j: int|
                                    0 <= j < self.identities_of().len() && self.identities_of()[j]
                                        == identity;
                                assert(entries@[j].identity == identity);
                            }
                        }
                        Err(RankError::InvariantViolation)
                    },
                }
            },
            Err(error) => Err(error),
        }
    }
}

/// Whether `distance` gives one number only for each pair of points.
pub open spec fn single_valued<C, F: Fn(&Vec<C>, &Vec<C>) -> u64>(distance: &F) -> bool {
    forall|p: &Vec<C>, q: &Vec<C>, one: u64, other: u64|
        #[trigger] distance.ensures((p, q), one) && #[trigger] distance.ensures((p, q), other)
            ==> one == other
}

/// With a distance that gives one number only for each pair of points, an
/// index has one nearest-neighbor sequence only for each query.
pub proof fn lemma_nearest_sequence_deterministic<C, F: Fn(&Vec<C>, &Vec<C>) -> u64>(
    index: &SpatialIndex<C>,
    query: &Vec<C>,
    distance: &F,
    first: Seq<Neighbor>,
    second: Seq<Neighbor>,
)
    requires
        single_valued(distance),
        index.is_nearest_sequence(query, distance, first),
        index.is_nearest_sequence(query, distance, second),
    ensures
        first == second,
{
    let entries = choose|entries: Seq<Neighbor>|
        index.measured_by(query, distance, entries) && first == nearest_order(entries);
    let again = choose|again: Seq<Neighbor>|
        index.measured_by(query, distance, again) && second == nearest_order(again);
    assert(entries =~= again);
}

} // verus!
