use kdtree::distance::squared_euclidean;
use kdtree::KdTree;
use rank_distance::index::SpatialIndex;
use rank_distance::metrics::{rank_distance, PointSet};
use rank_distance::neighbors::Neighbor;

fn bits_of_squared(p: &Vec<f64>, q: &Vec<f64>) -> u64 {
    squared_euclidean(p, q).to_bits()
}

fn scattered(count: usize, columns: usize, seed: u64) -> Vec<Vec<f64>> {
    let mut state: u64 = seed;
    let mut rows: Vec<Vec<f64>> = Vec::new();
    for _ in 0..count {
        let mut row: Vec<f64> = Vec::new();
        for _ in 0..columns {
            state = state.wrapping_mul(6364136223846793005).wrapping_add(1442695040888963407);
            row.push((state >> 11) as f64 / (1u64 << 53) as f64 * 200.0 - 100.0);
        }
        rows.push(row);
    }
    rows
}

fn tree_of(rows: &Vec<Vec<f64>>, columns: usize) -> KdTree<f64, usize, Vec<f64>> {
    let mut tree: KdTree<f64, usize, Vec<f64>> = KdTree::new(columns);
    for (identity, row) in rows.iter().enumerate() {
        tree.add(row.clone(), identity).unwrap();
    }
    tree
}

#[test]
fn sequence_agrees_with_a_kd_tree() {
    let rows = scattered(150, 3, 7);
    let queries = scattered(10, 3, 99);
    let tree = tree_of(&rows, 3);
    let mut index: SpatialIndex<f64> = SpatialIndex::new(3).unwrap();
    for (identity, row) in rows.iter().enumerate() {
        index.insert(row, identity).unwrap();
    }
    for query in queries.iter() {
        let expected: Vec<Neighbor> = tree
            .iter_nearest(query, &squared_euclidean)
            .unwrap()
            .map(|(apart, identity)| Neighbor { distance: apart.to_bits(), identity: *identity })
            .collect();
        let sequence = index.nearest_sequence(query, &bits_of_squared).unwrap();
        assert_eq!(sequence.len(), 150);
        assert_eq!(sequence, expected);
    }
}

#[test]
fn rank_distance_agrees_with_a_kd_tree() {
    let rows_a = scattered(120, 4, 2024);
    let mut rows_b = scattered(120, 4, 2024);
    let nudges = scattered(120, 4, 5);
    for (row, nudge) in rows_b.iter_mut().zip(nudges.iter()) {
        for (value, by) in row.iter_mut().zip(nudge.iter()) {
            *value += by * 0.3;
        }
    }
    let tree = tree_of(&rows_a, 4);
    let mut sum: usize = 0;
    for (identity, row) in rows_b.iter().enumerate() {
        sum += tree
            .iter_nearest(row, &squared_euclidean)
            .unwrap()
            .position(|found| *found.1 == identity)
            .unwrap();
    }
    let expected: f64 = sum as f64 / rows_a.len() as f64;
    let set_a = PointSet::new(4, rows_a).unwrap();
    let set_b = PointSet::new(4, rows_b).unwrap();
    let mean = rank_distance(&set_a, &set_b, &bits_of_squared).unwrap();
    assert_eq!(mean.count, 120);
    assert_eq!(mean.total, sum as u128);
    assert!(mean.total > 0);
    assert_eq!(mean.total as f64 / mean.count as f64, expected);
}
