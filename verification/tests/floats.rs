use kdtree::distance::{box_dist, fold_scalar};
use kdtree::error::KDTreeError;
use kdtree::lanes::{grouped_dist, lane_box_dist, point_dist};
use kdtree::layout::BBox;
use kdtree::metric::{Dist, Metric};
use kdtree::node::{unpack_split, Node};
use kdtree::scalar::Scalar;
use kdtree::tree::Tree;

#[derive(Clone, Copy, Debug, PartialEq)]
struct F64(f64);

impl Scalar for F64 {
    fn zero() -> Self {
        F64(0.0)
    }

    fn one() -> Self {
        F64(1.0)
    }

    fn infinity() -> Self {
        F64(f64::INFINITY)
    }

    fn neg_infinity() -> Self {
        F64(f64::NEG_INFINITY)
    }

    fn lt(self, other: Self) -> bool {
        self.0 < other.0
    }

    fn le(self, other: Self) -> bool {
        self.0 <= other.0
    }

    fn precedes(self, other: Self) -> bool {
        self.0.total_cmp(&other.0).is_lt()
    }

    fn plus(self, other: Self) -> Self {
        F64(self.0 + other.0)
    }

    fn minus(self, other: Self) -> Self {
        F64(self.0 - other.0)
    }

    fn times(self, other: Self) -> Self {
        F64(self.0 * other.0)
    }

    fn abs(self) -> Self {
        F64(self.0.abs())
    }

    fn power(self, exponent: Self) -> Self {
        F64(self.0.powf(exponent.0))
    }

    fn sqrt(self) -> Self {
        F64(self.0.sqrt())
    }

    fn root(self, degree: Self) -> Self {
        F64(self.0.powf(1.0 / degree.0))
    }

    fn ratio_reaches(self, whole: Self, num: u32, den: u32) -> bool {
        self.0 / whole.0 >= num as f64 / den as f64
    }

    fn text(self) -> String {
        format!("{}", self.0)
    }
}

fn wrap(values: &[f64]) -> Vec<F64> {
    values.iter().map(|&v| F64(v)).collect()
}

fn unwrap(values: &[F64]) -> Vec<f64> {
    values.iter().map(|v| v.0).collect()
}

/// Numbers between zero and one that follow from a seed.
fn noise(seed: u64, n: usize) -> Vec<f64> {
    let mut state = seed;
    (0..n)
        .map(|_| {
            state = state.wrapping_mul(6364136223846793005).wrapping_add(1442695040888963407);
            (state >> 11) as f64 / (1u64 << 53) as f64
        })
        .collect()
}

/// Small whole numbers, so that many coordinates and distances coincide.
fn grid(seed: u64, n: usize, side: f64) -> Vec<f64> {
    noise(seed, n).iter().map(|v| (v * side).floor()).collect()
}

fn plain_distance(p: f64, a: &[f64], b: &[f64]) -> f64 {
    let gaps = a.iter().zip(b).map(|(x, y)| (x - y).abs());
    if p == f64::INFINITY {
        gaps.fold(0.0, f64::max)
    } else if p == 1.0 {
        gaps.fold(0.0, |sum, gap| sum + gap)
    } else if p == 2.0 {
        gaps.fold(0.0, |sum, gap| sum + gap * gap).sqrt()
    } else {
        gaps.fold(0.0, |sum, gap| sum + gap.powf(p)).powf(1.0 / p)
    }
}

/// Every row with its distance, nearest first.
fn ranked(p: f64, data: &[f64], ndim: usize, q: &[f64]) -> Vec<(f64, usize)> {
    let mut all: Vec<(f64, usize)> = data
        .chunks(ndim)
        .enumerate()
        .map(|(i, row)| (plain_distance(p, q, row), i))
        .collect();
    all.sort_by(|a, b| a.0.total_cmp(&b.0).then_with(|| a.1.cmp(&b.1)));
    all
}

fn tree_of(data: &[f64], ndim: usize, leafsize: usize, parallel: bool) -> Tree<F64> {
    match Tree::new(wrap(data), ndim, leafsize, parallel) {
        Ok(tree) => tree,
        Err(error) => panic!("{}", error.message()),
    }
}

fn nearest(
    tree: &Tree<F64>,
    queries: &[f64],
    k: usize,
    p: f64,
    max_distance: Option<f64>,
    eps: f64,
    parallel: bool,
) -> (Vec<f64>, Vec<i64>) {
    match tree.query(&wrap(queries), k, F64(p), max_distance.map(F64), F64(eps), parallel) {
        Ok((distances, indices)) => (unwrap(&distances), indices),
        Err(error) => panic!("{}", error.message()),
    }
}

fn close(a: f64, b: f64) -> bool {
    a == b || (a - b).abs() <= 1e-12 * a.abs().max(b.abs())
}

#[test]
fn build_rejects_empty_inputs() {
    assert!(Tree::<F64>::new(Vec::new(), 2, 32, true).is_err());
}

#[test]
fn build_allocation_count_does_not_scale_with_n() {
    let n = 1000;
    let ndim = 8;
    let leafsize = 16;
    let data: Vec<F64> = (0..n * ndim).map(|i| F64((i as f64) * 0.001)).collect();

    let info = allocation_counter::measure(move || {
        assert!(Tree::new(data, ndim, leafsize, false).is_ok());
    });

    assert!(
        info.count_total < 20,
        "expected < 20 allocations, got {}",
        info.count_total
    );
}

#[test]
fn parallel_build_matches_serial_build() {
    let (n, ndim, leafsize) = (2_000, 5, 8);
    let data: Vec<f64> = (0..n * ndim)
        .map(|i| ((i * 2_654_435_761_usize) % 10_007) as f64)
        .collect();

    let serial = tree_of(&data, ndim, leafsize, false);
    let parallel = tree_of(&data, ndim, leafsize, true);

    assert_eq!(serial.data, parallel.data);
    assert_eq!(serial.indices, parallel.indices);
    assert_eq!(serial.nodes.len(), parallel.nodes.len());
    for id in 0..serial.nodes.len() {
        let (a, b) = (serial.boxes.of(id as u32), parallel.boxes.of(id as u32));
        assert_eq!(a.lo, b.lo);
        assert_eq!(a.hi, b.hi);
        match (serial.nodes[id], parallel.nodes[id]) {
            (Node::Leaf { start: s0, end: e0 }, Node::Leaf { start: s1, end: e1 }) => {
                assert_eq!((s0, e0), (s1, e1))
            }
            (
                Node::Inner {
                    left: l0,
                    right: r0,
                    split_dim: d0,
                    split_value: v0,
                },
                Node::Inner {
                    left: l1,
                    right: r1,
                    split_dim: d1,
                    split_value: v1,
                },
            ) => assert_eq!(
                (l0, r0, unpack_split(d0), v0),
                (l1, r1, unpack_split(d1), v1)
            ),
            _ => panic!("node {id} differs in kind"),
        }
    }
}

#[test]
fn query_radius_finds_all_matches() {
    let data = [0.0, 0.0, 1.0, 0.0, 3.0, 0.0, 4.0, 0.0];
    let tree = tree_of(&data, 2, 2, false);

    let (indices, distances) =
        match tree.query_radius_one(&wrap(&[0.0, 0.0]), F64(1.1), F64(2.0), true) {
            Ok(found) => found,
            Err(error) => panic!("{}", error.message()),
        };

    assert_eq!(indices, vec![0, 1]);
    assert_eq!(distances[0].0, 0.0);
    assert_eq!(distances[1].0, 1.0);
}

#[test]
fn query_pairs_returns_unique_pairs() {
    let data = [0.0, 0.0, 0.5, 0.0, 2.0, 0.0, 2.2, 0.0];
    let tree = tree_of(&data, 2, 2, false);

    let pairs = match tree.query_pairs(F64(0.6), F64(2.0)) {
        Ok(pairs) => pairs,
        Err(error) => panic!("{}", error.message()),
    };

    assert_eq!(pairs, vec![[0, 1], [2, 3]]);
}

#[test]
fn node_stays_within_one_cache_slot() {
    assert!(std::mem::size_of::<Node<F64>>() <= 24);
}

#[test]
fn two_questions_about_three_points() {
    let tree = tree_of(&[0.0, 0.0, 1.0, 0.0, 3.0, 0.0], 2, 32, false);
    let (distances, indices) = nearest(&tree, &[0.2, 0.0, 2.8, 0.0], 2, 2.0, None, 0.0, false);
    assert_eq!(indices, vec![0, 1, 2, 1]);
    assert!(close(distances[0], 0.2));
    assert!(close(distances[1], 0.8));
    assert!((distances[2] - 0.2).abs() < 1e-12);
    assert!((distances[3] - 1.8).abs() < 1e-12);
}

#[test]
fn every_width_and_metric_agrees_with_a_full_search() {
    for ndim in 1..=18 {
        let data = noise(ndim as u64, 150 * ndim);
        let queries = noise(99 + ndim as u64, 12 * ndim);
        let tree = tree_of(&data, ndim, 7, false);
        for p in [1.0, 2.0, 3.5, f64::INFINITY] {
            for k in [1, 4] {
                let (distances, indices) = nearest(&tree, &queries, k, p, None, 0.0, false);
                for (i, q) in queries.chunks(ndim).enumerate() {
                    let all = ranked(p, &data, ndim, q);
                    for j in 0..k {
                        assert_eq!(indices[i * k + j], all[j].1 as i64);
                        assert!(close(distances[i * k + j], all[j].0));
                    }
                }
            }
        }
    }
}

#[test]
fn ties_go_to_the_smaller_row_number() {
    for ndim in [1, 2, 3, 5, 8] {
        let data = grid(7, 300 * ndim, 4.0);
        let queries = grid(8, 20 * ndim, 4.0);
        for leafsize in [1, 3, 16, 400] {
            let tree = tree_of(&data, ndim, leafsize, false);
            for p in [1.0, 2.0, f64::INFINITY] {
                for k in [1, 10] {
                    let (distances, indices) = nearest(&tree, &queries, k, p, None, 0.0, false);
                    for (i, q) in queries.chunks(ndim).enumerate() {
                        let all = ranked(p, &data, ndim, q);
                        for j in 0..k {
                            assert_eq!(indices[i * k + j], all[j].1 as i64);
                            assert_eq!(distances[i * k + j], all[j].0);
                        }
                    }
                }
            }
        }
    }
}

#[test]
fn questions_outside_the_box_are_answered() {
    let ndim = 3;
    let data = noise(5, 500 * ndim);
    let queries: Vec<f64> = noise(6, 40 * ndim).iter().map(|v| v * 9.0 - 4.0).collect();
    let tree = tree_of(&data, ndim, 4, false);
    for p in [1.0, 2.0, 4.0, f64::INFINITY] {
        let (_, indices) = nearest(&tree, &queries, 3, p, None, 0.0, false);
        for (i, q) in queries.chunks(ndim).enumerate() {
            let all = ranked(p, &data, ndim, q);
            for j in 0..3 {
                assert_eq!(indices[i * 3 + j], all[j].1 as i64);
            }
        }
    }
}

#[test]
fn points_on_a_line_are_visited_by_their_boxes() {
    let ndim = 4;
    let data: Vec<f64> = noise(11, 400)
        .iter()
        .flat_map(|t| [*t, 2.0 * t, 3.0 * t, -t])
        .collect();
    let tree = tree_of(&data, ndim, 8, false);
    let flagged = tree.nodes.iter().filter(|node| match node {
        Node::Inner { split_dim, .. } => unpack_split(*split_dim).1,
        Node::Leaf { .. } => false,
    });
    assert!(flagged.count() > 0);
    let queries = noise(12, 30 * ndim);
    for p in [1.0, 2.0, 3.0, f64::INFINITY] {
        for k in [1, 6] {
            let (_, indices) = nearest(&tree, &queries, k, p, None, 0.0, false);
            for (i, q) in queries.chunks(ndim).enumerate() {
                let all = ranked(p, &data, ndim, q);
                for j in 0..k {
                    assert_eq!(indices[i * k + j], all[j].1 as i64);
                }
            }
        }
    }
}

#[test]
fn flat_data_is_not_visited_by_boxes() {
    let tree = tree_of(&noise(13, 2000 * 2), 2, 8, false);
    match tree.nodes[0] {
        Node::Inner { split_dim, .. } => assert!(!unpack_split(split_dim).1),
        Node::Leaf { .. } => panic!("the root of many points is an inner node"),
    }
}

#[test]
fn slots_without_a_point_are_filled_up() {
    let tree = tree_of(&[0.0, 2.0, 5.0], 1, 2, false);
    let (distances, indices) = nearest(&tree, &[1.9], 5, 1.0, None, 0.0, false);
    assert_eq!(indices, vec![1, 0, 2, 3, 3]);
    assert_eq!(distances[3], f64::INFINITY);
    assert_eq!(distances[4], f64::INFINITY);
}

#[test]
fn points_past_the_greatest_distance_do_not_count() {
    let tree = tree_of(&[0.0, 2.0, 5.0], 1, 1, false);
    let (distances, indices) = nearest(&tree, &[1.0], 3, 2.0, Some(1.0), 0.0, false);
    assert_eq!(indices, vec![0, 1, 3]);
    assert_eq!(distances, vec![1.0, 1.0, f64::INFINITY]);
    let (_, none) = nearest(&tree, &[1.0], 1, 2.0, Some(0.5), 0.0, false);
    assert_eq!(none, vec![3]);
}

/// A bound to a cell takes one contribution out and puts another in, and each
/// step rounds, here to just above the distance of the point behind it.
#[test]
fn rounding_may_hide_a_point_at_the_edge_of_reach() {
    let far = 2.0 + 2.0 * f64::EPSILON;
    let low = 0.6 * f64::EPSILON;
    let data = [1.0, low, far, low];
    let tree = tree_of(&data, 2, 1, false);
    assert_eq!(plain_distance(1.0, &[0.0, 0.0], &data[2..]), far);
    let (_, indices) = nearest(&tree, &[0.0, 0.0], 2, 1.0, Some(far), 0.0, false);
    assert_eq!(indices, vec![0, 2]);
    let (_, indices) = nearest(&tree, &[0.0, 0.0], 2, 1.0, None, 0.0, false);
    assert_eq!(indices, vec![0, 1]);
    match tree.query_radius_one(&wrap(&[0.0, 0.0]), F64(far), F64(1.0), true) {
        Ok((indices, _)) => assert_eq!(indices, vec![0, 1]),
        Err(error) => panic!("{}", error.message()),
    }
}

#[test]
fn an_approximate_answer_is_near_enough() {
    let ndim = 3;
    let data = noise(21, 800 * ndim);
    let queries = noise(22, 60 * ndim);
    let tree = tree_of(&data, ndim, 4, false);
    for p in [1.0, 2.0, f64::INFINITY] {
        for eps in [0.1, 1.0, 5.0] {
            let (distances, _) = nearest(&tree, &queries, 1, p, None, eps, false);
            for (i, q) in queries.chunks(ndim).enumerate() {
                let best = ranked(p, &data, ndim, q)[0].0;
                assert!(best <= distances[i] + 1e-12);
                assert!(distances[i] <= (1.0 + eps) * best + 1e-12);
            }
        }
    }
}

#[test]
fn many_threads_answer_as_one_does() {
    for ndim in [2, 11] {
        let data = noise(31, 700 * ndim);
        let queries = noise(32, 200 * ndim);
        let tree = tree_of(&data, ndim, 8, true);
        for k in [1, 5] {
            let serial = nearest(&tree, &queries, k, 2.0, None, 0.0, false);
            let parallel = nearest(&tree, &queries, k, 2.0, None, 0.0, true);
            assert_eq!(serial, parallel);
        }
    }
}

#[test]
fn the_leaf_size_changes_no_answer() {
    let ndim = 3;
    let data = grid(41, 300 * ndim, 6.0);
    let queries = grid(42, 40 * ndim, 6.0);
    let first = nearest(&tree_of(&data, ndim, 1, false), &queries, 7, 2.0, None, 0.0, false);
    for leafsize in [2, 5, 64, 1000] {
        let tree = tree_of(&data, ndim, leafsize, true);
        assert_eq!(first, nearest(&tree, &queries, 7, 2.0, None, 0.0, true));
    }
}

#[test]
fn the_original_order_comes_back() {
    for ndim in [1, 2, 7, 16, 19] {
        let data = noise(51, 333 * ndim);
        let tree = tree_of(&data, ndim, 5, false);
        assert_eq!(unwrap(&tree.original_data()), data);
        assert_ne!(unwrap(&tree.data), data);
    }
}

#[test]
fn positions_lead_back_to_rows() {
    let ndim = 3;
    let data = grid(52, 200 * ndim, 5.0);
    let tree = tree_of(&data, ndim, 4, false);
    let mut seen = vec![false; 200];
    for (pos, &row) in tree.indices.iter().enumerate() {
        assert!(!seen[row as usize]);
        seen[row as usize] = true;
        let row = row as usize;
        assert_eq!(
            unwrap(&tree.data[pos * ndim..(pos + 1) * ndim]),
            data[row * ndim..(row + 1) * ndim].to_vec()
        );
    }
}

#[test]
fn boxes_are_tight() {
    let ndim = 5;
    let data = noise(53, 300 * ndim);
    let tree = tree_of(&data, ndim, 6, false);
    for (id, node) in tree.nodes.iter().enumerate() {
        if let Node::Leaf { start, end } = node {
            let bounds = tree.boxes.of(id as u32);
            for d in 0..ndim {
                let column: Vec<f64> = (*start as usize..*end as usize)
                    .map(|pos| tree.data[pos * ndim + d].0)
                    .collect();
                let lo = column.iter().copied().fold(f64::INFINITY, f64::min);
                let hi = column.iter().copied().fold(f64::NEG_INFINITY, f64::max);
                assert_eq!((bounds.lo[d].0, bounds.hi[d].0), (lo, hi));
            }
        }
    }
}

#[test]
fn nodes_lie_in_preorder() {
    let tree = tree_of(&noise(54, 1000 * 2), 2, 9, false);
    for (id, node) in tree.nodes.iter().enumerate() {
        match node {
            Node::Leaf { start, end } => assert!(end > start && end - start <= 9),
            Node::Inner { left, right, .. } => {
                assert_eq!(*left as usize, id + 1);
                assert!(right > left);
            }
        }
    }
}

#[test]
fn equal_points_split_evenly() {
    let data = vec![3.0; 64];
    let tree = tree_of(&data, 1, 1, false);
    assert_eq!(tree.nodes.len(), 127);
    let (distances, indices) = nearest(&tree, &[3.0], 4, 2.0, None, 0.0, false);
    assert_eq!(indices, vec![0, 1, 2, 3]);
    assert_eq!(distances, vec![0.0; 4]);
}

#[test]
fn a_radius_query_agrees_with_a_full_search() {
    for ndim in [1, 2, 3, 9] {
        let data = grid(61, 250 * ndim, 5.0);
        let queries = grid(62, 10 * ndim, 5.0);
        let tree = tree_of(&data, ndim, 6, false);
        for p in [1.0, 2.0, 3.0, f64::INFINITY] {
            for q in queries.chunks(ndim) {
                let radius = 2.0;
                let want: Vec<(f64, usize)> = ranked(p, &data, ndim, q)
                    .into_iter()
                    .filter(|entry| entry.0 <= radius)
                    .collect();
                match tree.query_radius_one(&wrap(q), F64(radius), F64(p), true) {
                    Ok((indices, distances)) => {
                        assert_eq!(indices.len(), want.len());
                        for (j, entry) in want.iter().enumerate() {
                            assert!(close(distances[j].0, entry.0));
                        }
                        let mut rows = indices.clone();
                        rows.sort_unstable();
                        let mut expected: Vec<usize> = want.iter().map(|e| e.1).collect();
                        expected.sort_unstable();
                        assert_eq!(rows, expected);
                    }
                    Err(error) => panic!("{}", error.message()),
                }
            }
        }
    }
}

#[test]
fn the_leaf_size_changes_no_ball() {
    let data = grid(66, 300 * 2, 12.0);
    let q = wrap(&[5.0, 6.0]);
    let first = tree_of(&data, 2, 1, false).query_radius_one(&q, F64(3.0), F64(2.0), true);
    for leafsize in [2, 9, 500] {
        let tree = tree_of(&data, 2, leafsize, true);
        assert_eq!(first, tree.query_radius_one(&q, F64(3.0), F64(2.0), true));
    }
}

#[test]
fn an_unsorted_radius_query_finds_the_same_points() {
    let data = grid(63, 200 * 2, 8.0);
    let tree = tree_of(&data, 2, 4, false);
    let q = wrap(&[3.0, 3.0]);
    let sorted = tree.query_radius_one(&q, F64(2.5), F64(2.0), true);
    let unsorted = tree.query_radius_one(&q, F64(2.5), F64(2.0), false);
    match (sorted, unsorted) {
        (Ok((mut a, _)), Ok((mut b, _))) => {
            assert_ne!(a, b);
            a.sort_unstable();
            b.sort_unstable();
            assert_eq!(a, b);
        }
        _ => panic!("both queries are valid"),
    }
}

#[test]
fn an_unsorted_radius_query_visits_the_right_side_first() {
    let tree = tree_of(&[0.0, 1.0, 2.0, 3.0], 1, 2, false);
    match tree.query_radius_one(&wrap(&[1.5]), F64(9.0), F64(2.0), false) {
        Ok((indices, _)) => assert_eq!(indices, vec![2, 3, 0, 1]),
        Err(error) => panic!("{}", error.message()),
    }
}

#[test]
fn many_radius_queries_at_once() {
    let ndim = 2;
    let data = noise(64, 300 * ndim);
    let queries = noise(65, 50 * ndim);
    let tree = tree_of(&data, ndim, 8, false);
    let serial = tree.query_radius_many(&wrap(&queries), 50, F64(0.2), F64(2.0), true, false);
    let parallel = tree.query_radius_many(&wrap(&queries), 50, F64(0.2), F64(2.0), true, true);
    match (serial, parallel) {
        (Ok(serial), Ok(parallel)) => {
            assert_eq!(serial, parallel);
            for (i, q) in queries.chunks(ndim).enumerate() {
                match tree.query_radius_one(&wrap(q), F64(0.2), F64(2.0), true) {
                    Ok((indices, distances)) => {
                        assert_eq!(serial.0[i], indices);
                        assert_eq!(serial.1[i], distances);
                    }
                    Err(error) => panic!("{}", error.message()),
                }
            }
        }
        _ => panic!("both queries are valid"),
    }
}

#[test]
fn the_first_bad_question_refuses_all() {
    let tree = tree_of(&[0.0, 0.0, 1.0, 1.0], 2, 2, false);
    let queries = wrap(&[0.0, 0.0, 1.0, f64::NAN, 1.0, 1.0]);
    for parallel in [false, true] {
        assert_eq!(
            tree.query_radius_many(&queries, 3, F64(1.0), F64(2.0), true, parallel),
            Err(KDTreeError::NonFiniteData)
        );
        assert_eq!(
            tree.query_radius_many(&queries, 3, F64(-1.0), F64(2.0), true, parallel),
            Err(KDTreeError::InvalidRadius(F64(-1.0)))
        );
        assert_eq!(
            tree.query_radius_many(&queries, 2, F64(1.0), F64(2.0), true, parallel),
            Err(KDTreeError::InvalidShape(
                "queries must be a contiguous row-major matrix"
            ))
        );
        assert_eq!(
            tree.query_radius_many(&[], 0, F64(-1.0), F64(2.0), true, parallel),
            Ok((Vec::new(), Vec::new()))
        );
    }
}

#[test]
fn pairs_agree_with_a_full_search() {
    for ndim in [1, 2, 4] {
        let data = grid(71, 120 * ndim, 6.0);
        for leafsize in [1, 5, 200] {
            let tree = tree_of(&data, ndim, leafsize, false);
            for p in [1.0, 2.0, f64::INFINITY] {
                let mut want = Vec::new();
                for i in 0..120 {
                    for j in i + 1..120 {
                        let (a, b) = (&data[i * ndim..(i + 1) * ndim], &data[j * ndim..(j + 1) * ndim]);
                        if plain_distance(p, a, b) <= 1.0 {
                            want.push([i, j]);
                        }
                    }
                }
                assert_eq!(tree.query_pairs(F64(1.0), F64(p)), Ok(want));
            }
        }
    }
}

#[test]
fn pairs_and_radius_queries_agree() {
    let ndim = 2;
    let data = grid(72, 60 * ndim, 9.0);
    let tree = tree_of(&data, ndim, 4, false);
    let pairs = match tree.query_pairs(F64(2.0), F64(2.0)) {
        Ok(pairs) => pairs,
        Err(error) => panic!("{}", error.message()),
    };
    for i in 0..60 {
        let q = wrap(&data[i * ndim..(i + 1) * ndim]);
        match tree.query_radius_one(&q, F64(2.0), F64(2.0), true) {
            Ok((indices, _)) => {
                for j in 0..60 {
                    if j != i {
                        let pair = [i.min(j), i.max(j)];
                        assert_eq!(indices.contains(&j), pairs.contains(&pair));
                    }
                }
            }
            Err(error) => panic!("{}", error.message()),
        }
    }
}

fn refused(data: &[f64], ndim: usize, leafsize: usize) -> KDTreeError<F64> {
    match Tree::new(wrap(data), ndim, leafsize, false) {
        Ok(_) => panic!("the build is refused"),
        Err(error) => error,
    }
}

#[test]
fn a_build_says_why_it_is_refused() {
    assert_eq!(refused(&[1.0], 1, 0), KDTreeError::InvalidLeafsize);
    assert_eq!(refused(&[], 0, 0), KDTreeError::InvalidLeafsize);
    assert_eq!(refused(&[], 1, 1), KDTreeError::EmptyData);
    assert_eq!(refused(&[1.0], 0, 1), KDTreeError::EmptyData);
    assert_eq!(
        refused(&[1.0, 2.0, 3.0], 2, 1),
        KDTreeError::InvalidShape("data length must be a multiple of ndim")
    );
    for bad in [f64::NAN, f64::INFINITY, f64::NEG_INFINITY] {
        for at in [0, 7, 8, 20] {
            let mut data = noise(81, 21);
            data[at] = bad;
            assert_eq!(refused(&data, 3, 4), KDTreeError::NonFiniteData);
            assert_eq!(refused(&data, 21, 4), KDTreeError::NonFiniteData);
        }
    }
}

#[test]
fn a_query_says_why_it_is_refused() {
    let tree = tree_of(&[0.0, 0.0, 1.0, 1.0], 2, 2, false);
    let ask = |queries: &[f64], k: usize, p: f64, reach: Option<f64>, eps: f64| match tree.query(
        &wrap(queries),
        k,
        F64(p),
        reach.map(F64),
        F64(eps),
        false,
    ) {
        Ok(_) => panic!("the query is refused"),
        Err(error) => error,
    };
    let shape = KDTreeError::InvalidShape("queries must be a contiguous row-major matrix");
    let q = [0.0, 0.0];
    assert_eq!(ask(&[], 0, 0.0, None, -1.0), KDTreeError::InvalidK);
    assert_eq!(ask(&[], 1, 2.0, None, 0.0), shape);
    assert_eq!(ask(&[1.0], 1, 2.0, None, 0.0), shape);
    assert_eq!(ask(&[1.0, f64::NAN], 1, 2.0, None, -1.0), KDTreeError::NonFiniteData);
    assert_eq!(ask(&q, 1, 0.0, Some(-1.0), -0.5), KDTreeError::InvalidEps(F64(-0.5)));
    assert_eq!(
        ask(&q, 1, 0.0, None, f64::INFINITY),
        KDTreeError::InvalidEps(F64(f64::INFINITY))
    );
    assert_eq!(ask(&q, 1, 0.0, Some(-1.0), 0.0), KDTreeError::InvalidMaxDistance(F64(-1.0)));
    assert!(matches!(
        ask(&q, 1, 2.0, Some(f64::NAN), 0.0),
        KDTreeError::InvalidMaxDistance(_)
    ));
    assert_eq!(ask(&q, 1, 0.5, None, 0.0), KDTreeError::InvalidMetric(F64(0.5)));
    assert_eq!(
        ask(&q, 1, f64::NEG_INFINITY, None, 0.0),
        KDTreeError::InvalidMetric(F64(f64::NEG_INFINITY))
    );
    assert!(matches!(ask(&q, 1, f64::NAN, None, 0.0), KDTreeError::InvalidMetric(_)));
}

#[test]
fn radius_and_pair_queries_say_why_they_are_refused() {
    let tree = tree_of(&[0.0, 0.0, 1.0, 1.0], 2, 2, false);
    let one = |q: &[f64], radius: f64, p: f64| tree.query_radius_one(&wrap(q), F64(radius), F64(p), true);
    assert_eq!(
        one(&[f64::NAN], -1.0, 0.0),
        Err(KDTreeError::DimensionMismatch { expected: 2, got: 1 })
    );
    assert_eq!(one(&[0.0, f64::NAN], -1.0, 0.0), Err(KDTreeError::NonFiniteData));
    assert_eq!(one(&[0.0, 0.0], -1.0, 0.0), Err(KDTreeError::InvalidRadius(F64(-1.0))));
    assert_eq!(
        one(&[0.0, 0.0], f64::INFINITY, 0.0),
        Err(KDTreeError::InvalidRadius(F64(f64::INFINITY)))
    );
    assert_eq!(one(&[0.0, 0.0], 1.0, 0.0), Err(KDTreeError::InvalidMetric(F64(0.0))));
    assert_eq!(
        tree.query_pairs(F64(-1.0), F64(0.0)),
        Err(KDTreeError::InvalidRadius(F64(-1.0)))
    );
    assert_eq!(
        tree.query_pairs(F64(1.0), F64(0.9)),
        Err(KDTreeError::InvalidMetric(F64(0.9)))
    );
}

#[test]
fn errors_speak() {
    let said = |error: KDTreeError<F64>| error.message();
    assert_eq!(said(KDTreeError::EmptyData), "data must contain at least one point");
    assert_eq!(said(KDTreeError::InvalidLeafsize), "leafsize must be greater than zero");
    assert_eq!(said(KDTreeError::InvalidK), "k must be greater than zero");
    assert_eq!(
        said(KDTreeError::InvalidRadius(F64(-1.5))),
        "radius must be finite and non-negative, got -1.5"
    );
    assert_eq!(
        said(KDTreeError::InvalidMetric(F64(0.5))),
        "p must be finite and >= 1, or infinity, got 0.5"
    );
    assert_eq!(
        said(KDTreeError::InvalidEps(F64(f64::INFINITY))),
        "eps must be finite and non-negative, got inf"
    );
    assert_eq!(
        said(KDTreeError::InvalidMaxDistance(F64(f64::NAN))),
        "max_distance must be finite and non-negative, or infinity, got NaN"
    );
    assert_eq!(said(KDTreeError::NonFiniteData), "all coordinates must be finite");
    assert_eq!(said(KDTreeError::InvalidShape("as it stands")), "as it stands");
    assert_eq!(
        said(KDTreeError::DimensionMismatch { expected: 10, got: 907 }),
        "dimension mismatch: expected 10, got 907"
    );
    assert_eq!(
        said(KDTreeError::TooManyPoints(5000000000)),
        "too many points for 32-bit row numbers: 5000000000"
    );
    assert_eq!(
        said(KDTreeError::TooManyNodes(4294967296)),
        "too many nodes for 32-bit node numbers: 4294967296"
    );
}

#[test]
fn exponents_pick_their_metric() {
    assert!(matches!(Metric::new(F64(1.0)), Ok(Metric::L1)));
    assert!(matches!(Metric::new(F64(2.0)), Ok(Metric::L2)));
    assert!(matches!(Metric::new(F64(f64::INFINITY)), Ok(Metric::LInf)));
    assert!(matches!(Metric::new(F64(2.5)), Ok(Metric::LP(F64(2.5)))));
}

#[test]
fn an_inner_node_gives_back_what_it_packs() {
    for (dim, by_box) in [(0, false), (0, true), (5, true), (0x7fff_ffff, false), (0x7fff_ffff, true)] {
        match Node::inner(1, 9, dim, by_box, F64(0.5)) {
            Node::Inner { left, right, split_dim, split_value } => {
                assert_eq!((left, right, split_value), (1, 9, F64(0.5)));
                assert_eq!(unpack_split(split_dim), (dim, by_box));
            }
            Node::Leaf { .. } => panic!("an inner node is no leaf"),
        }
    }
}

/// So large that adding one to it changes nothing and adding two does.
const LARGE: f64 = 1e16;

#[test]
fn rows_of_four_add_up_in_pairs_where_they_fill_a_group() {
    let row = [1.0, LARGE, 1.0, 0.0];
    let tree = tree_of(&[row, row, row].concat(), 4, 8, false);
    let (distances, indices) = nearest(&tree, &[0.0; 4], 3, 1.0, None, 0.0, false);
    assert_eq!(indices, vec![2, 0, 1]);
    assert_eq!(distances, vec![LARGE, LARGE + 2.0, LARGE + 2.0]);
    let apart = tree_of(&[row, row, row].concat(), 4, 1, false);
    let (distances, indices) = nearest(&apart, &[0.0; 4], 3, 1.0, None, 0.0, false);
    assert_eq!(indices, vec![0, 1, 2]);
    assert_eq!(distances, vec![LARGE; 3]);
}

#[test]
fn rows_of_eight_add_up_in_pairs_where_they_fill_a_group() {
    let row = [LARGE, 0.0, 1.0, 1.0, 0.0, 0.0, 0.0, 0.0];
    let tree = tree_of(&row.repeat(9), 8, 16, false);
    let (distances, indices) = nearest(&tree, &[0.0; 8], 9, 1.0, None, 0.0, false);
    assert_eq!(indices, vec![8, 0, 1, 2, 3, 4, 5, 6, 7]);
    assert_eq!(distances[0], LARGE);
    assert_eq!(distances[1..], [LARGE + 2.0; 8]);
}

#[test]
fn long_rows_add_up_a_step_at_a_time() {
    let mut row = vec![0.0; 17];
    row[0] = LARGE;
    row[2] = 1.0;
    row[6] = 1.0;
    row[8 + 3] = 1.0;
    row[8 + 7] = 1.0;
    row[16] = 1.0;
    let tree = tree_of(&row, 17, 4, false);
    let (distances, _) = nearest(&tree, &[0.0; 17], 1, 1.0, None, 0.0, false);
    assert_eq!(distances, vec![LARGE + 4.0]);
    let zero = wrap(&[0.0; 17]);
    let whole = point_dist(Metric::L1, &zero, &wrap(&row), Dist::infinity());
    assert_eq!(whole.get().0, LARGE + 4.0);
    let partial = point_dist(Metric::L1, &zero, &wrap(&row), Dist::from_repr(F64(1.0)));
    assert_eq!(partial.get().0, LARGE + 2.0);
    assert_eq!(fold_scalar(Metric::L1, Dist::zero(), &zero, &wrap(&row)).get().0, LARGE);
}

#[test]
fn groups_measure_rows_in_pairs() {
    let zero = wrap(&[0.0; 8]);
    let row = wrap(&[1.0, LARGE, 1.0, 0.0, 0.0, 0.0, 0.0, 0.0]);
    assert_eq!(grouped_dist(Metric::L1, &zero[..4], &row[..4]).get().0, LARGE + 2.0);
    assert_eq!(grouped_dist(Metric::L1, &zero, &row).get().0, LARGE);
    assert_eq!(grouped_dist(Metric::L1, &zero[..3], &row[..3]).get().0, LARGE);
    assert_eq!(grouped_dist(Metric::LInf, &zero, &row).get().0, LARGE);
}

#[test]
fn boxes_add_up_across_lanes() {
    let mut offsets = vec![0.0; 17];
    offsets[0] = LARGE;
    offsets[2] = 1.0;
    offsets[8 + 6] = 1.0;
    offsets[16] = 2.0;
    let q = wrap(&offsets);
    let zero = wrap(&[0.0; 17]);
    let bounds = BBox { lo: &zero, hi: &zero };
    assert_eq!(lane_box_dist(Metric::L1, &q, bounds).get().0, LARGE + 4.0);
    assert_eq!(box_dist(Metric::L1, &q, bounds).get().0, LARGE + 2.0);
    assert_eq!(lane_box_dist(Metric::LInf, &q, bounds).get().0, LARGE);
    let short = BBox { lo: &zero[..3], hi: &zero[..3] };
    assert_eq!(lane_box_dist(Metric::L1, &q[..3], short).get().0, LARGE);
}

#[test]
fn split_values_follow_the_total_order() {
    let split = |data: &[f64]| match tree_of(data, 1, 1, false).nodes[0] {
        Node::Inner { split_value, .. } => split_value.0,
        Node::Leaf { .. } => panic!("the root of several points is an inner node"),
    };
    assert!(split(&[0.0, -0.0]).is_sign_positive());
    assert!(split(&[-0.0, 0.0]).is_sign_positive());
    assert!(split(&[0.0, -0.0, -0.0, -0.0]).is_sign_negative());
    assert!(split(&[-0.0, 0.0, 0.0, -0.0]).is_sign_positive());
}

#[test]
fn refusals_come_before_limits() {
    let huge = 1usize << 40;
    assert_eq!(refused(&[], huge, 1), KDTreeError::EmptyData);
    assert_eq!(
        refused(&[1.0, 2.0, 3.0], huge, 1),
        KDTreeError::InvalidShape("data length must be a multiple of ndim")
    );
    let tree = tree_of(&[0.0, 1.0], 1, 1, false);
    assert_eq!(
        tree.query(&wrap(&[0.0, 1.0, 2.0]), usize::MAX, F64(2.0), None, F64(-1.0), false),
        Err(KDTreeError::InvalidEps(F64(-1.0)))
    );
}

#[test]
fn distances_come_in_ascending_order() {
    for ndim in [1, 4, 8, 11] {
        let tree = tree_of(&noise(91, 200 * ndim), ndim, 5, false);
        for p in [1.0, 2.0, 3.0, f64::INFINITY] {
            let (distances, _) = nearest(&tree, &noise(92, ndim), 250, p, None, 0.0, false);
            assert!(distances.windows(2).all(|pair| pair[0] <= pair[1]));
        }
    }
}

#[test]
fn fewer_points_are_a_prefix_of_more() {
    let data = grid(93, 200 * 3, 7.0);
    let tree = tree_of(&data, 3, 6, false);
    let q = [2.0, 3.0, 4.0];
    let (distances, indices) = nearest(&tree, &q, 220, 2.0, None, 0.0, false);
    for k in [1, 2, 17, 200, 210] {
        let (d, i) = nearest(&tree, &q, k, 2.0, None, 0.0, false);
        assert_eq!(d, distances[..k]);
        assert_eq!(i, indices[..k]);
    }
}

#[test]
fn an_approximate_answer_keeps_pace_with_the_exact_one() {
    let ndim = 3;
    let tree = tree_of(&noise(94, 300 * ndim), ndim, 4, false);
    for q in noise(95, 20 * ndim).chunks(ndim) {
        for p in [1.0, 2.0, f64::INFINITY] {
            let (exact, _) = nearest(&tree, q, 12, p, None, 0.0, false);
            let (near, _) = nearest(&tree, q, 12, p, None, 0.5, false);
            for (e, n) in exact.iter().zip(&near) {
                assert!(e <= n && *n <= 1.5 * e + 1e-12);
            }
            let (all, _) = nearest(&tree, q, 400, p, None, 0.5, false);
            assert_eq!(all.iter().filter(|d| d.is_finite()).count(), 300);
        }
    }
}

#[test]
fn a_larger_radius_loses_nothing() {
    let data = grid(96, 150 * 2, 10.0);
    let tree = tree_of(&data, 2, 4, false);
    let q = wrap(&[4.0, 5.0]);
    let mut matched: Vec<(usize, F64)> = Vec::new();
    let mut linked: Vec<[usize; 2]> = Vec::new();
    for radius in [0.0, 1.0, 1.5, 3.0] {
        match tree.query_radius_one(&q, F64(radius), F64(2.0), true) {
            Ok((indices, distances)) => {
                let now: Vec<(usize, F64)> = indices.into_iter().zip(distances).collect();
                assert!(matched.iter().all(|entry| now.contains(entry)));
                matched = now;
            }
            Err(error) => panic!("{}", error.message()),
        }
        match tree.query_pairs(F64(radius), F64(2.0)) {
            Ok(now) => {
                assert!(linked.iter().all(|pair| now.contains(pair)));
                linked = now;
            }
            Err(error) => panic!("{}", error.message()),
        }
    }
    assert!(matched.len() > 10 && linked.len() > 100);
}

#[test]
fn a_query_without_a_limit_is_full() {
    let n = 300;
    for ndim in [2, 3, 9] {
        let tree = tree_of(&noise(97, n * ndim), ndim, 4, false);
        for q in noise(98, 10 * ndim).chunks(ndim) {
            for p in [1.0, 2.0, 3.0, f64::INFINITY] {
                for (k, eps) in [(1, 0.0), (17, 0.0), (17, 0.75), (n, 2.0), (n + 5, 0.5)] {
                    let (distances, indices) = nearest(&tree, q, k, p, None, eps, false);
                    let found = k.min(n);
                    assert!(distances[..found].iter().all(|d| d.is_finite()));
                    assert!(distances[found..].iter().all(|d| d.is_infinite()));
                    let mut rows = indices[..found].to_vec();
                    rows.sort_unstable();
                    rows.dedup();
                    assert_eq!(rows.len(), found);
                    assert!(rows.iter().all(|row| *row < n as i64));
                    assert!(indices[found..].iter().all(|row| *row == n as i64));
                }
            }
        }
    }
}
