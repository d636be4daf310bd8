use kdtree::distance::squared_euclidean;
use rank_distance::error::RankError;
use rank_distance::index::SpatialIndex;
use rank_distance::neighbors::Neighbor;
use rank_distance::ranking::first_place;

fn real_key(p: &Vec<f64>, q: &Vec<f64>) -> u64 {
    squared_euclidean(p, q).to_bits()
}

fn line_key(p: &Vec<i64>, q: &Vec<i64>) -> u64 {
    let mut sum: u64 = 0;
    for (x, y) in p.iter().zip(q.iter()) {
        let gap: u64 = x.abs_diff(*y);
        sum += gap * gap;
    }
    sum
}

fn near(distance: u64, identity: usize) -> Neighbor {
    Neighbor { distance, identity }
}

#[test]
fn index_of_dimension_zero_is_refused() {
    let made: Result<SpatialIndex<f64>, RankError> = SpatialIndex::new(0);
    assert_eq!(made.err(), Some(RankError::ConfigurationError));
}

#[test]
fn new_index_is_empty() {
    let index: SpatialIndex<f64> = SpatialIndex::new(3).unwrap();
    assert_eq!(index.dimension(), 3);
    assert_eq!(index.len(), 0);
}

#[test]
fn insert_keeps_points_of_the_right_dimension() {
    let points: Vec<Vec<i64>> = vec![vec![1, 2], vec![3, 4], vec![5, 6]];
    let mut index: SpatialIndex<i64> = SpatialIndex::new(2).unwrap();
    for (identity, point) in points.iter().enumerate() {
        assert_eq!(index.insert(point, identity), Ok(()));
    }
    assert_eq!(index.len(), 3);
    assert_eq!(index.dimension(), 2);
}

#[test]
fn insert_turns_away_another_dimension() {
    let short: Vec<i64> = vec![1];
    let long: Vec<i64> = vec![1, 2, 3];
    let right: Vec<i64> = vec![1, 2];
    let mut index: SpatialIndex<i64> = SpatialIndex::new(2).unwrap();
    assert_eq!(index.insert(&short, 0), Err(RankError::DimensionMismatch));
    assert_eq!(index.insert(&long, 1), Err(RankError::DimensionMismatch));
    assert_eq!(index.len(), 0);
    assert_eq!(index.insert(&right, 2), Ok(()));
    assert_eq!(index.len(), 1);
    assert_eq!(index.nearest_sequence(&vec![1, 2], &line_key), Ok(vec![near(0, 2)]));
}

#[test]
fn measure_follows_insertion_order() {
    let points: Vec<Vec<i64>> = vec![vec![3, 0], vec![0, 0], vec![0, 4]];
    let mut index: SpatialIndex<i64> = SpatialIndex::new(2).unwrap();
    index.insert(&points[0], 30).unwrap();
    index.insert(&points[1], 10).unwrap();
    index.insert(&points[2], 20).unwrap();
    let measured = index.measure(&vec![0, 1], &line_key);
    assert_eq!(measured, Ok(vec![near(10, 30), near(1, 10), near(9, 20)]));
}

#[test]
fn nearest_sequence_goes_from_near_to_far() {
    let points: Vec<Vec<f64>> =
        vec![vec![0.0, 0.0], vec![1.0, 1.0], vec![2.0, 2.0], vec![3.0, 3.0]];
    let mut index: SpatialIndex<f64> = SpatialIndex::new(2).unwrap();
    for (identity, point) in points.iter().enumerate() {
        index.insert(point, identity).unwrap();
    }
    let from_first = index.nearest_sequence(&points[0], &real_key).unwrap();
    assert_eq!(
        from_first,
        vec![
            near(0.0f64.to_bits(), 0),
            near(2.0f64.to_bits(), 1),
            near(8.0f64.to_bits(), 2),
            near(18.0f64.to_bits(), 3),
        ]
    );
    let from_last = index.nearest_sequence(&points[3], &real_key).unwrap();
    assert_eq!(
        from_last,
        vec![
            near(0.0f64.to_bits(), 3),
            near(2.0f64.to_bits(), 2),
            near(8.0f64.to_bits(), 1),
            near(18.0f64.to_bits(), 0),
        ]
    );
}

#[test]
fn nearest_sequence_holds_every_point_once() {
    let points: Vec<Vec<i64>> =
        vec![vec![5], vec![-5], vec![0], vec![12], vec![-1], vec![7], vec![5]];
    let mut index: SpatialIndex<i64> = SpatialIndex::new(1).unwrap();
    for (identity, point) in points.iter().enumerate() {
        index.insert(point, identity).unwrap();
    }
    let sequence = index.nearest_sequence(&vec![1], &line_key).unwrap();
    assert_eq!(sequence.len(), points.len());
    for pair in sequence.windows(2) {
        assert!(pair[0].distance <= pair[1].distance);
    }
    let mut seen: Vec<usize> = sequence.iter().map(|entry| entry.identity).collect();
    seen.sort();
    assert_eq!(seen, vec![0, 1, 2, 3, 4, 5, 6]);
    for entry in sequence.iter() {
        assert_eq!(entry.distance, line_key(&vec![1], &points[entry.identity]));
    }
}

#[test]
fn equally_distant_points_keep_insertion_order() {
    let points: Vec<Vec<i64>> = vec![vec![2, 0], vec![0, 2], vec![-2, 0], vec![0, -2], vec![1, 0]];
    let mut index: SpatialIndex<i64> = SpatialIndex::new(2).unwrap();
    index.insert(&points[0], 9).unwrap();
    index.insert(&points[1], 8).unwrap();
    index.insert(&points[2], 7).unwrap();
    index.insert(&points[3], 6).unwrap();
    index.insert(&points[4], 5).unwrap();
    let sequence = index.nearest_sequence(&vec![0, 0], &line_key);
    assert_eq!(sequence, Ok(vec![near(1, 5), near(4, 9), near(4, 8), near(4, 7), near(4, 6)]));
}

#[test]
fn empty_index_gives_an_empty_sequence() {
    let index: SpatialIndex<f64> = SpatialIndex::new(2).unwrap();
    assert_eq!(index.nearest_sequence(&vec![0.5, 0.5], &real_key), Ok(vec![]));
    assert_eq!(index.measure(&vec![0.5, 0.5], &real_key), Ok(vec![]));
}

#[test]
fn query_of_another_dimension_is_turned_away() {
    let point: Vec<f64> = vec![1.0, 2.0];
    let mut index: SpatialIndex<f64> = SpatialIndex::new(2).unwrap();
    index.insert(&point, 0).unwrap();
    let short: Vec<f64> = vec![1.0];
    let long: Vec<f64> = vec![1.0, 2.0, 3.0];
    assert_eq!(index.nearest_sequence(&short, &real_key), Err(RankError::DimensionMismatch));
    assert_eq!(index.nearest_sequence(&long, &real_key), Err(RankError::DimensionMismatch));
    assert_eq!(index.measure(&short, &real_key), Err(RankError::DimensionMismatch));
    assert_eq!(index.rank_of(&long, 0, &real_key), Err(RankError::DimensionMismatch));
}

#[test]
fn each_query_has_its_own_sequence() {
    let points: Vec<Vec<i64>> = vec![vec![0], vec![10]];
    let mut index: SpatialIndex<i64> = SpatialIndex::new(1).unwrap();
    index.insert(&points[0], 0).unwrap();
    index.insert(&points[1], 1).unwrap();
    let left = index.nearest_sequence(&vec![1], &line_key);
    let right = index.nearest_sequence(&vec![9], &line_key);
    let again = index.nearest_sequence(&vec![1], &line_key);
    assert_eq!(left, Ok(vec![near(1, 0), near(81, 1)]));
    assert_eq!(right, Ok(vec![near(1, 1), near(81, 0)]));
    assert_eq!(again, left);
}

#[test]
fn rank_of_is_the_place_in_the_sequence() {
    let points: Vec<Vec<i64>> = vec![vec![4], vec![-1], vec![9], vec![2], vec![2], vec![-6]];
    let mut index: SpatialIndex<i64> = SpatialIndex::new(1).unwrap();
    for (identity, point) in points.iter().enumerate() {
        index.insert(point, identity + 100).unwrap();
    }
    let query: Vec<i64> = vec![3];
    let sequence = index.nearest_sequence(&query, &line_key).unwrap();
    for identity in 100..106 {
        let rank = index.rank_of(&query, identity, &line_key).unwrap();
        assert_eq!(Some(rank), first_place(&sequence, identity));
        assert_eq!(sequence[rank].identity, identity);
    }
    assert_eq!(index.rank_of(&query, 100, &line_key), Ok(0));
    assert_eq!(index.rank_of(&query, 103, &line_key), Ok(1));
    assert_eq!(index.rank_of(&query, 104, &line_key), Ok(2));
    assert_eq!(index.rank_of(&query, 101, &line_key), Ok(3));
    assert_eq!(index.rank_of(&query, 102, &line_key), Ok(4));
    assert_eq!(index.rank_of(&query, 105, &line_key), Ok(5));
}

#[test]
fn rank_of_a_shared_identity_is_its_first_place() {
    let points: Vec<Vec<i64>> = vec![vec![8], vec![1], vec![3], vec![2]];
    let mut index: SpatialIndex<i64> = SpatialIndex::new(1).unwrap();
    index.insert(&points[0], 7).unwrap();
    index.insert(&points[1], 4).unwrap();
    index.insert(&points[2], 7).unwrap();
    index.insert(&points[3], 7).unwrap();
    let query: Vec<i64> = vec![0];
    assert_eq!(
        index.nearest_sequence(&query, &line_key),
        Ok(vec![near(1, 4), near(4, 7), near(9, 7), near(64, 7)])
    );
    assert_eq!(index.rank_of(&query, 7, &line_key), Ok(1));
    assert_eq!(index.rank_of(&query, 4, &line_key), Ok(0));
}

#[test]
fn rank_of_a_missing_identity_is_an_invariant_violation() {
    let points: Vec<Vec<i64>> = vec![vec![8], vec![1]];
    let mut index: SpatialIndex<i64> = SpatialIndex::new(1).unwrap();
    index.insert(&points[0], 0).unwrap();
    index.insert(&points[1], 1).unwrap();
    assert_eq!(index.rank_of(&vec![0], 2, &line_key), Err(RankError::InvariantViolation));
    let none: SpatialIndex<i64> = SpatialIndex::new(1).unwrap();
    assert_eq!(none.rank_of(&vec![0], 0, &line_key), Err(RankError::InvariantViolation));
}
