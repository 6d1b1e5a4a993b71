use neighbourhood::KdIndexTree;
use neighbourhood::KdTree;

fn dist_sq(p: &[i64], q: &[i64]) -> u128 {
    let mut acc: u128 = 0;
    for i in 0..p.len() {
        let d = (p[i] - q[i]).unsigned_abs() as u128;
        acc += d * d;
    }
    acc
}

#[test]
fn knn_returns_true_nearest_sorted() {
    let data = vec![
        vec![0i64, 0],
        vec![10, 0],
        vec![0, 10],
        vec![7, 7],
        vec![-3, -4],
        vec![20, 20],
    ];
    let tree = KdTree::new(data.clone(), 2);
    let q = vec![0, 0];

    // Squared distances to the origin: 0, 25, 98, 100, 100, 800.
    let three = tree.knn(&q, 3);
    let dists: Vec<u128> = three.iter().map(|e| e.0).collect();
    assert_eq!(dists, vec![0, 25, 98]);
    assert_eq!(three[0].1, vec![0, 0]);
    assert_eq!(three[1].1, vec![-3, -4]);
    assert_eq!(three[2].1, vec![7, 7]);

    // k past the point count returns everything, still sorted.
    let all = tree.knn(&q, 100);
    assert_eq!(all.len(), 6);
    let dists: Vec<u128> = all.iter().map(|e| e.0).collect();
    assert_eq!(dists, vec![0, 25, 98, 100, 100, 800]);
    for e in &all {
        assert_eq!(e.0, dist_sq(&e.1, &q));
    }

    // k = 0 yields an empty result.
    assert!(tree.knn(&q, 0).is_empty());
    assert!(tree.knn_by_index(&q, 0).is_empty());
}

#[test]
fn knn_by_index_matches_knn() {
    let data = vec![
        vec![5i64, 5, 5],
        vec![-5, -5, -5],
        vec![1, 2, 3],
        vec![9, -9, 0],
        vec![2, 2, 2],
    ];
    let tree = KdTree::new(data, 2 + 1);
    let q = vec![1, 1, 1];
    let by_point = tree.knn(&q, 4);
    let by_index = tree.knn_by_index(&q, 4);
    let rows = tree.data();
    assert_eq!(by_point.len(), by_index.len());
    for (pe, ie) in by_point.iter().zip(by_index.iter()) {
        assert_eq!(pe.0, ie.0);
        assert_eq!(pe.1, rows[ie.1]);
        assert_eq!(pe.0, dist_sq(&pe.1, &q));
    }
}

#[test]
fn knn_with_large_k_uses_every_point_once() {
    // More than twenty points and k past twenty exercise the binary-search
    // insertion strategy; the result must still be every point, sorted.
    let mut data = vec![];
    for x in 0..30i64 {
        data.push(vec![x * x, x]);
    }
    let tree = KdTree::new(data.clone(), 2);
    let q = vec![40, 3];
    let found = tree.knn_by_index(&q, 25);
    assert_eq!(found.len(), 25);
    for w in found.windows(2) {
        assert!(w[0].0 <= w[1].0);
    }
    let mut seen: Vec<usize> = found.iter().map(|e| e.1).collect();
    seen.sort();
    seen.dedup();
    assert_eq!(seen.len(), 25);

    // Every reported distance is among the 25 smallest of all 30.
    let mut all: Vec<u128> = data.iter().map(|p| dist_sq(p, &q)).collect();
    all.sort();
    let reported: Vec<u128> = found.iter().map(|e| e.0).collect();
    assert_eq!(reported, all[..25].to_vec());
}

#[test]
fn knn_tie_distances_are_reported_exactly() {
    // Four points at the same distance from the origin: with k = 2 the
    // reported distances are that tie value twice, whichever two points the
    // traversal prefers.
    let data = vec![
        vec![1i64, 0],
        vec![-1, 0],
        vec![0, 1],
        vec![0, -1],
        vec![5, 5],
    ];
    let tree = KdTree::new(data, 2);
    let q = vec![0, 0];
    let found = tree.knn(&q, 2);
    let dists: Vec<u128> = found.iter().map(|e| e.0).collect();
    assert_eq!(dists, vec![1, 1]);
}

#[test]
fn filtered_knn_respects_predicate() {
    let data = vec![
        vec![0i64, 0],
        vec![1, 0],
        vec![2, 0],
        vec![3, 0],
        vec![4, 0],
        vec![5, 0],
    ];
    let tree = KdIndexTree::new(&data, 2);
    let q = vec![0, 0];

    let evens_only = |i: usize| i % 2 == 0;
    let found = tree.filtered_knn_by_index(&q, 2, &evens_only);
    assert_eq!(found.len(), 2);
    for e in &found {
        assert!(e.1 % 2 == 0);
        assert_eq!(e.0, dist_sq(&data[e.1], &q));
    }

    // The filtered result equals the full ranking restricted to accepted
    // indices, cut to the first k.
    let full = tree.knn_by_index(&q, data.len());
    let expected: Vec<(u128, usize)> = full.into_iter().filter(|e| e.1 % 2 == 0).take(2).collect();
    assert_eq!(found, expected);

    // A predicate that rejects everything yields an empty result.
    let none = |_i: usize| false;
    assert!(tree.filtered_knn_by_index(&q, 3, &none).is_empty());

    // A predicate that accepts everything reproduces the plain query.
    let all = |_i: usize| true;
    assert_eq!(
        tree.filtered_knn_by_index(&q, 4, &all),
        tree.knn_by_index(&q, 4)
    );

    // k = 0 yields an empty result without consulting the predicate.
    assert!(tree.filtered_knn_by_index(&q, 0, &all).is_empty());
}

#[test]
fn knn_consistent_between_thresholds() {
    let mut data = vec![];
    for x in -3..4i64 {
        for y in -3..4i64 {
            data.push(vec![x * 7, y * 7 - x]);
        }
    }
    let q = vec![4, 4];
    let baseline: Vec<u128> = KdTree::with_brute_force_size(data.clone(), 2, 0)
        .knn(&q, 8)
        .into_iter()
        .map(|e| e.0)
        .collect();
    for bfs in [1usize, 5, 34, 200] {
        let tree = KdTree::with_brute_force_size(data.clone(), 2, bfs);
        let dists: Vec<u128> = tree.knn(&q, 8).into_iter().map(|e| e.0).collect();
        assert_eq!(dists, baseline);
    }
}
