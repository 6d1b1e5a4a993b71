use neighbourhood::KdIndexTree;
use neighbourhood::KdTree;
use neighbourhood::UnifiedKdTreeTestApi;

fn sample_points() -> Vec<Vec<i64>> {
    vec![
        vec![0i64, 0, 0],
        vec![10, 0, 0],
        vec![0, 10, 0],
        vec![0, 0, 10],
        vec![10, 10, 10],
        vec![-10, 0, 0],
    ]
}

#[test]
fn unified_api_agrees_across_variants() {
    let data = sample_points();
    let owning = KdTree::new(data.clone(), 3);
    let borrowing = KdIndexTree::new(&data, 3);
    for (q, eps) in [
        (vec![0i64, 0, 0], 10i64),
        (vec![5, 5, 5], 9),
        (vec![-10, -10, -10], 0),
    ] {
        let mut r1 = owning.query_within(&q, eps, &data);
        let mut r2 = borrowing.query_within(&q, eps, &data);
        r1.sort();
        r2.sort();
        assert_eq!(r1, r2);
        assert_eq!(owning.count_within(&q, eps), borrowing.count_within(&q, eps));
        assert_eq!(owning.count_within(&q, eps), r1.len());
    }
}

#[test]
fn unified_api_reports_exact_matches() {
    let data = sample_points();
    let borrowing = KdIndexTree::new(&data, 3);
    let q = vec![0, 0, 0];
    let mut found = borrowing.query_within(&q, 10, &data);
    found.sort();
    let mut expected = vec![
        vec![0i64, 0, 0],
        vec![10, 0, 0],
        vec![0, 10, 0],
        vec![0, 0, 10],
        vec![-10, 0, 0],
    ];
    expected.sort();
    assert_eq!(found, expected);
    assert_eq!(borrowing.count_within(&q, 10), 5);
}
