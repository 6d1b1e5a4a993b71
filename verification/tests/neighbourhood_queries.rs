use neighbourhood::KdIndexTree;
use neighbourhood::KdTree;
use neighbourhood::COORD_LIMIT;

/// Scale a floating-point coordinate to the fixed-point grid the indices
/// store (one decimal digit of precision).
fn fix(x: f64) -> i64 {
    (x * 10.0).round() as i64
}

fn dist_sq(p: &[i64], q: &[i64]) -> u128 {
    let mut acc: u128 = 0;
    for i in 0..p.len() {
        let d = (p[i] - q[i]).unsigned_abs() as u128;
        acc += d * d;
    }
    acc
}

fn grid_points() -> Vec<Vec<i64>> {
    let mut data = vec![];
    let line = [-2.0, -1.0, 0.0, 1.0, 2.0];
    for x in line {
        for y in line {
            for z in line {
                data.push(vec![fix(x), fix(y), fix(z)]);
            }
        }
    }
    data
}

#[test]
fn kd_tree_simple_neighbourhood_query_test() {
    let data = grid_points();
    let kd_tree = KdTree::new(data, 3);

    let eps = fix(1.2);
    let point = vec![0, 0, 0];
    let neighbourhood = kd_tree.neighbourhood(&point, eps);
    assert_eq!(neighbourhood.len(), 7);
    for pt in neighbourhood {
        assert!(dist_sq(&point, &pt) <= (eps * eps) as u128);
    }
}

#[test]
fn kd_index_tree_simple_neighbourhood_query_test() {
    let data = grid_points();
    let kd_index_tree = KdIndexTree::new(&data, 3);

    let eps = fix(1.2);
    let point = vec![0, 0, 0];
    let neighbourhood = kd_index_tree.neighbourhood_by_index(&point, eps);
    assert_eq!(neighbourhood.len(), 7);
    for index in neighbourhood {
        assert!(dist_sq(&point, &data[index]) < (eps * eps) as u128);
    }
}

#[test]
fn mod_simple_neighbourhood_query_test() {
    let data = grid_points();
    let kd_tree = KdTree::new(data, 3);

    let eps = fix(1.2);
    let point = vec![0, 0, 0];
    let neighbourhood = kd_tree.neighbourhood(&point, eps);
    assert_eq!(neighbourhood.len(), 7);
    for pt in neighbourhood {
        assert!(dist_sq(&point, &pt) <= (eps * eps) as u128);
    }
}

#[test]
fn grid_origin_scenario() {
    // A 5x5x5 unit grid queried at the origin with radius 1.2 holds exactly
    // the origin and its six axis-aligned unit neighbours.
    let data = grid_points();
    let point = vec![0, 0, 0];
    let eps = fix(1.2);

    let owning = KdTree::new(grid_points(), 3);
    assert_eq!(owning.count_neighbourhood(&point, eps), 7);
    let mut found = owning.neighbourhood(&point, eps);
    assert_eq!(found.len(), 7);
    found.sort();
    let mut expected = vec![
        vec![0, 0, 0],
        vec![-10, 0, 0],
        vec![10, 0, 0],
        vec![0, -10, 0],
        vec![0, 10, 0],
        vec![0, 0, -10],
        vec![0, 0, 10],
    ];
    expected.sort();
    assert_eq!(found, expected);

    let borrowing = KdIndexTree::new(&data, 3);
    assert_eq!(borrowing.count_neighbourhood(&point, eps), 7);
}

#[test]
fn threshold_does_not_change_results() {
    let data = grid_points();
    let point = vec![5, -3, 2];
    let eps = 17;
    let baseline = {
        let mut r = KdTree::with_brute_force_size(grid_points(), 3, 0).neighbourhood(&point, eps);
        r.sort();
        r
    };
    assert!(!baseline.is_empty());
    for bfs in [1usize, 2, 3, 13, 34, 125, 1000] {
        let tree = KdTree::with_brute_force_size(grid_points(), 3, bfs);
        let mut r = tree.neighbourhood(&point, eps);
        r.sort();
        assert_eq!(r, baseline);
        let idx_tree = KdIndexTree::with_brute_force_size(&data, 3, bfs);
        assert_eq!(idx_tree.count_neighbourhood(&point, eps), baseline.len());
    }
}

#[test]
fn count_agrees_with_neighbourhood() {
    let data = vec![
        vec![3, 1],
        vec![-7, 2],
        vec![0, 0],
        vec![4, 4],
        vec![3, 1],
        vec![-2, -9],
        vec![8, -1],
    ];
    let tree = KdTree::new(data.clone(), 2);
    let idx_tree = KdIndexTree::new(&data, 2);
    for eps in [-3i64, 0, 1, 4, 5, 9, 100] {
        for q in [vec![0i64, 0], vec![3, 1], vec![-5, -5]] {
            let found = tree.neighbourhood(&q, eps);
            assert_eq!(tree.count_neighbourhood(&q, eps), found.len());
            assert_eq!(idx_tree.count_neighbourhood(&q, eps), found.len());
            assert_eq!(idx_tree.neighbourhood_by_index(&q, eps).len(), found.len());
        }
    }
}

#[test]
fn input_order_does_not_change_result_sets() {
    let data = grid_points();
    let mut reversed = data.clone();
    reversed.reverse();
    let t1 = KdTree::new(data, 3);
    let t2 = KdTree::new(reversed, 3);
    for (q, eps) in [
        (vec![0i64, 0, 0], 12i64),
        (vec![15, 15, 15], 20),
        (vec![-20, 0, 10], 14),
    ] {
        let mut r1 = t1.neighbourhood(&q, eps);
        let mut r2 = t2.neighbourhood(&q, eps);
        r1.sort();
        r2.sort();
        assert_eq!(r1, r2);
        assert_eq!(t1.count_neighbourhood(&q, eps), t2.count_neighbourhood(&q, eps));
    }
}

#[test]
fn empty_index_boundary() {
    let empty: Vec<Vec<i64>> = vec![];
    let tree = KdTree::new(empty.clone(), 3);
    assert!(tree.is_empty());
    assert_eq!(tree.len(), 0);
    assert_eq!(tree.count_neighbourhood(&vec![0, 0, 0], 100), 0);
    assert!(tree.neighbourhood(&vec![0, 0, 0], 100).is_empty());
    assert!(tree.knn(&vec![0, 0, 0], 5).is_empty());

    let idx_tree = KdIndexTree::new(&empty, 3);
    assert!(idx_tree.is_empty());
    assert_eq!(idx_tree.len(), 0);
    assert_eq!(idx_tree.count_neighbourhood(&vec![0, 0, 0], 100), 0);
    assert!(idx_tree.neighbourhood_by_index(&vec![0, 0, 0], 100).is_empty());
    assert!(idx_tree.knn_by_index(&vec![0, 0, 0], 5).is_empty());
}

#[test]
fn zero_radius_matches_only_coincident_points() {
    let data = vec![vec![1, 2], vec![1, 2], vec![0, 0], vec![3, 4]];
    let tree = KdTree::new(data.clone(), 2);
    assert_eq!(tree.count_neighbourhood(&vec![1, 2], 0), 2);
    assert_eq!(tree.count_neighbourhood(&vec![3, 4], 0), 1);
    assert_eq!(tree.count_neighbourhood(&vec![2, 2], 0), 0);
    let found = tree.neighbourhood(&vec![1, 2], 0);
    assert_eq!(found, vec![vec![1, 2], vec![1, 2]]);

    // A negative radius matches nothing, even a coincident point.
    assert_eq!(tree.count_neighbourhood(&vec![1, 2], -1), 0);
    assert!(tree.neighbourhood(&vec![1, 2], -1).is_empty());
}

#[test]
fn repeated_queries_return_identical_results() {
    let data = grid_points();
    let tree = KdTree::new(grid_points(), 3);
    let idx_tree = KdIndexTree::new(&data, 3);
    let q = vec![3, -4, 5];
    let eps = 15;
    assert_eq!(tree.neighbourhood(&q, eps), tree.neighbourhood(&q, eps));
    assert_eq!(tree.count_neighbourhood(&q, eps), tree.count_neighbourhood(&q, eps));
    assert_eq!(tree.knn(&q, 9), tree.knn(&q, 9));
    assert_eq!(
        idx_tree.neighbourhood_by_index(&q, eps),
        idx_tree.neighbourhood_by_index(&q, eps)
    );
    assert_eq!(idx_tree.knn_by_index(&q, 9), idx_tree.knn_by_index(&q, 9));
}

#[test]
fn owning_and_borrowing_variants_agree() {
    let data = grid_points();
    let owning = KdTree::new(data.clone(), 3);
    let borrowing = KdIndexTree::new(&data, 3);
    for (q, eps, k) in [
        (vec![0i64, 0, 0], 12i64, 7usize),
        (vec![8, -13, 20], 16, 3),
        (vec![-20, -20, -20], 35, 10),
    ] {
        let mut r1 = owning.neighbourhood(&q, eps);
        let mut r2: Vec<Vec<i64>> = borrowing
            .neighbourhood_by_index(&q, eps)
            .into_iter()
            .map(|i| data[i].clone())
            .collect();
        r1.sort();
        r2.sort();
        assert_eq!(r1, r2);
        assert_eq!(
            owning.count_neighbourhood(&q, eps),
            borrowing.count_neighbourhood(&q, eps)
        );
        let knn1: Vec<u128> = owning.knn(&q, k).into_iter().map(|e| e.0).collect();
        let knn2: Vec<u128> = borrowing.knn_by_index(&q, k).into_iter().map(|e| e.0).collect();
        assert_eq!(knn1, knn2);
    }
}

#[test]
fn extreme_coordinates_stay_exact() {
    // Opposite corners of the whole accepted coordinate range: the squared
    // diagonal distance is 3 * (2 * COORD_LIMIT)^2, computed exactly.
    let lo = -COORD_LIMIT;
    let hi = COORD_LIMIT;
    let data = vec![vec![lo, lo, lo], vec![hi, hi, hi], vec![0, 0, 0]];
    let tree = KdTree::new(data.clone(), 3);

    let span = (hi - lo) as u128;
    let diagonal_sq = 3 * span * span;
    let corner = vec![lo, lo, lo];
    let found = tree.knn(&corner, 3);
    assert_eq!(found.len(), 3);
    assert_eq!(found[0].0, 0);
    assert_eq!(found[2].0, diagonal_sq);

    // The largest radius matches everything; a tiny one only the corner.
    assert_eq!(tree.count_neighbourhood(&corner, i64::MAX), 3);
    assert_eq!(tree.count_neighbourhood(&corner, 1), 1);

    let idx_tree = KdIndexTree::new(&data, 3);
    assert_eq!(idx_tree.count_neighbourhood(&corner, i64::MAX), 3);
}

#[test]
fn one_dimensional_index() {
    let data = vec![vec![5i64], vec![-5], vec![0], vec![20], vec![-20]];
    let tree = KdTree::new(data.clone(), 1);
    assert_eq!(tree.count_neighbourhood(&vec![0], 5), 3);
    let nearest = tree.knn(&vec![4], 2);
    assert_eq!(nearest[0].1, vec![5]);
    assert_eq!(nearest[0].0, 1);
    assert_eq!(nearest[1].1, vec![0]);
    assert_eq!(nearest[1].0, 16);
}
