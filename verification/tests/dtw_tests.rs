use aeneas_rust::dtw::{
    _compute_accumulated_cost_matrix_in_place, _compute_best_path, _compute_cost_matrix,
    _compute_norm2, _nonnegative_difference, _three_way_argmin, _three_way_min, align, PathCell,
    MOVE0, MOVE1, MOVE2,
};
use aeneas_rust::errors::AlignError;
use aeneas_rust::features::FeatureMatrix;
use aeneas_rust::fixed::{isqrt, INF_COST, MAX_COST};

fn matrix_from(rows: usize, cols: Vec<Vec<i64>>) -> FeatureMatrix {
    FeatureMatrix::from_columns(rows, cols).unwrap()
}

/// Thirteen-coefficient columns whose directions fan out, so frames at
/// distinct positions are strictly apart in cosine distance.
fn fanned_columns(count: usize) -> Vec<Vec<i64>> {
    (0..count)
        .map(|k| {
            let theta = 0.03 * k as f64;
            let mut col = vec![0i64; 13];
            col[0] = (1_000_000.0 * theta.cos()).round() as i64;
            col[1] = (1_000_000.0 * theta.sin()).round() as i64;
            col
        })
        .collect()
}

#[test]
fn test_nonnegative_difference() {
    assert_eq!(_nonnegative_difference(10, 3), 7);
    assert_eq!(_nonnegative_difference(3, 10), 0);
    assert_eq!(_nonnegative_difference(5, 5), 0);
}

#[test]
fn test_three_way_min() {
    assert_eq!(_three_way_min(3, 1, 2), 1);
    assert_eq!(_three_way_min(1, 2, 3), 1);
    assert_eq!(_three_way_min(3, 2, 1), 1);
    assert_eq!(_three_way_min(INF_COST, INF_COST, 5), 5);
}

#[test]
fn test_three_way_argmin_tie_break() {
    // Ties go up first, then left, then diagonally.
    assert_eq!(_three_way_argmin(1, 1, 1), MOVE0);
    assert_eq!(_three_way_argmin(2, 1, 1), MOVE1);
    assert_eq!(_three_way_argmin(2, 2, 1), MOVE2);
}

#[test]
fn test_isqrt() {
    assert_eq!(isqrt(0), 0);
    assert_eq!(isqrt(1), 1);
    assert_eq!(isqrt(15), 3);
    assert_eq!(isqrt(16), 4);
    assert_eq!(isqrt(2_500_000_000_000_000_000), 1_581_138_830);
}

#[test]
fn test_from_columns_rejects_ragged() {
    assert!(FeatureMatrix::from_columns(2, vec![vec![1, 2], vec![3]]).is_err());
    assert!(FeatureMatrix::from_columns(0, vec![]).is_err());
    assert!(FeatureMatrix::from_columns(1, vec![vec![4_000_000]]).is_err());
}

#[test]
fn test_compute_norm2() {
    let f = matrix_from(2, vec![vec![3, 4], vec![0, 0], vec![1, 1]]);
    let norms = _compute_norm2(&f);
    assert_eq!(norms, vec![5, 0, 1]);
}

#[test]
fn test_cost_self_is_zero() {
    // A frame scored against an identical frame costs exactly zero.
    let f1 = matrix_from(2, vec![vec![300, 400]]);
    let f2 = matrix_from(2, vec![vec![300, 400]]);
    let (cost, edges) = _compute_cost_matrix(&f1, &f2, 1);
    assert_eq!(edges, vec![0]);
    assert_eq!(cost, vec![vec![0]]);
}

#[test]
fn test_cost_zero_norm_gets_maximal_distance() {
    // A zero-energy (silent) frame has no direction; the maximal
    // cosine distance is substituted, never a division by zero.
    let f1 = matrix_from(2, vec![vec![0, 0]]);
    let f2 = matrix_from(2, vec![vec![300, 400]]);
    let (cost, _) = _compute_cost_matrix(&f1, &f2, 1);
    assert_eq!(cost, vec![vec![MAX_COST]]);
}

#[test]
fn test_cost_opposite_direction() {
    // Opposite directions are two fixed-point units apart.
    let f1 = matrix_from(2, vec![vec![100, 0]]);
    let f2 = matrix_from(2, vec![vec![-100, 0]]);
    let (cost, _) = _compute_cost_matrix(&f1, &f2, 1);
    assert_eq!(cost, vec![vec![MAX_COST]]);
}

#[test]
fn test_accumulated_cost_matrix() {
    let mut cost = vec![vec![1, 2], vec![3, 4]];
    let edges = vec![0usize, 0usize];
    _compute_accumulated_cost_matrix_in_place(&mut cost, &edges);
    // Row zero is a prefix sum; each later cell adds the cheapest of
    // its three predecessors.
    assert_eq!(cost, vec![vec![1, 3], vec![4, 5]]);
}

#[test]
fn test_accumulated_cost_monotonic_rows() {
    // The accumulated cost in a row is never below the minimum of the
    // previous row.
    let mut cost = vec![vec![5, 1, 2], vec![0, 7, 3], vec![2, 2, 2]];
    let edges = vec![0usize, 0, 0];
    _compute_accumulated_cost_matrix_in_place(&mut cost, &edges);
    for i in 1..3 {
        let prev_min = *cost[i - 1].iter().min().unwrap();
        for j in 0..3 {
            assert!(cost[i][j] >= prev_min);
        }
    }
}

#[test]
fn test_best_path_small() {
    let mut cost = vec![vec![1, 2], vec![3, 4]];
    let edges = vec![0usize, 0usize];
    _compute_accumulated_cost_matrix_in_place(&mut cost, &edges);
    let path = _compute_best_path(&cost, &edges, 2, 2, 2);
    assert_eq!(path, vec![PathCell { i: 0, j: 0 }, PathCell { i: 1, j: 1 }]);
}

#[test]
fn test_align_identical_matrices_diagonal() {
    // Two identical 50-frame, 13-coefficient matrices with band width
    // 50: the path is the exact diagonal.
    let f1 = matrix_from(13, fanned_columns(50));
    let f2 = matrix_from(13, fanned_columns(50));
    let path = align(&f1, &f2, 50).unwrap();
    let expected: Vec<PathCell> = (0..50).map(|k| PathCell { i: k, j: k }).collect();
    assert_eq!(path, expected);
}

#[test]
fn test_align_identical_matrices_narrow_band() {
    // The diagonal lies inside the band for a self-alignment whatever
    // the band width, so even a narrow band yields the diagonal.
    let f1 = matrix_from(13, fanned_columns(20));
    let f2 = matrix_from(13, fanned_columns(20));
    let path = align(&f1, &f2, 3).unwrap();
    let expected: Vec<PathCell> = (0..20).map(|k| PathCell { i: k, j: k }).collect();
    assert_eq!(path, expected);
}

#[test]
fn test_align_deterministic() {
    let f1 = matrix_from(13, fanned_columns(30));
    let f2 = matrix_from(13, fanned_columns(40));
    let p1 = align(&f1, &f2, 10).unwrap();
    let p2 = align(&f1, &f2, 10).unwrap();
    assert_eq!(p1, p2);
}

#[test]
fn test_align_path_validity() {
    // The path starts at (0, 0), ends at (n - 1, m - 1), and each step
    // advances one or both coordinates by exactly one.
    let f1 = matrix_from(13, fanned_columns(23));
    let f2 = matrix_from(13, fanned_columns(31));
    let path = align(&f1, &f2, 31).unwrap();
    assert_eq!((path[0].i, path[0].j), (0, 0));
    let last = path.last().unwrap();
    assert_eq!((last.i, last.j), (22, 30));
    for w in path.windows(2) {
        let di = w[1].i - w[0].i;
        let dj = w[1].j - w[0].j;
        assert!((di == 1 && dj == 0) || (di == 0 && dj == 1) || (di == 1 && dj == 1));
    }
}

#[test]
fn test_align_shape_mismatch() {
    let f1 = matrix_from(2, vec![vec![100, 200]]);
    let f2 = matrix_from(3, vec![vec![100, 200, 300]]);
    assert_eq!(align(&f1, &f2, 1), Err(AlignError::ShapeMismatch));
}

#[test]
fn test_align_band_too_narrow_terminal() {
    // One frame against a hundred with a five-wide band: the band's
    // last row cannot reach the terminal column.
    let f1 = matrix_from(1, vec![vec![100]]);
    let f2 = matrix_from(1, (0..100).map(|k| vec![100 + k]).collect());
    assert_eq!(align(&f1, &f2, 5), Err(AlignError::BandTooNarrow));
}

#[test]
fn test_align_band_too_narrow_gap() {
    // Two frames against a hundred with a three-wide band: consecutive
    // band rows do not overlap, so no unit-step path can connect them.
    let f1 = matrix_from(1, vec![vec![100], vec![200]]);
    let f2 = matrix_from(1, (0..100).map(|k| vec![100 + k]).collect());
    assert_eq!(align(&f1, &f2, 3), Err(AlignError::BandTooNarrow));
}
