use kdtree::builder::count_nodes;
use kdtree::error::KDTreeError;
use kdtree::exact::{Int, TOP};
use kdtree::kernel::{all_finite, gcd};
use kdtree::layout::{axis_offset, point, swap_rows, BBox, Dyn, Fixed, Rows};
use kdtree::metric::{Dist, Metric};
use kdtree::node::{unpack_split, Node};
use kdtree::partition::{median, partition_rows};
use kdtree::best::{Best, Best1, BestK};
use kdtree::distance::{box_dist, fold_scalar, gap_dist};
use kdtree::lanes::{lane_box_dist, point_dist};
use kdtree::points::Points;
use kdtree::scalar::Scalar;
use kdtree::text::decimal;
use kdtree::tree::Tree;

fn ints(values: &[i64]) -> Vec<Int> {
    values.iter().map(|&v| Int::new(v)).collect()
}

fn raws(values: &[Int]) -> Vec<i64> {
    values.iter().map(|v| v.raw).collect()
}

fn tree_of(data: &[i64], ndim: usize, leafsize: usize, parallel: bool) -> Tree<Int> {
    match Tree::new(ints(data), ndim, leafsize, parallel) {
        Ok(tree) => tree,
        Err(error) => panic!("{}", error.message()),
    }
}

/// Whole numbers that follow from a seed.
fn numbers(seed: u64, n: usize, side: i64) -> Vec<i64> {
    let mut state = seed;
    (0..n)
        .map(|_| {
            state = state.wrapping_mul(6364136223846793005).wrapping_add(1442695040888963407);
            (state >> 33) as i64 % side
        })
        .collect()
}

#[test]
fn integers_saturate_at_the_infinities() {
    let inf = Int::new(TOP);
    assert_eq!(Int::new(TOP - 1).plus(Int::new(5)), inf);
    assert_eq!(Int::new(1 - TOP).minus(Int::new(5)), Int::new(-TOP));
    assert_eq!(Int::new(1 << 40).times(Int::new(1 << 40)), inf);
    assert_eq!(Int::new(10).power(Int::new(19)), inf);
    assert_eq!(Int::new(10).power(Int::new(18)).raw, 1_000_000_000_000_000_000);
    assert_eq!(inf.minus(inf).raw, i64::MIN);
    assert_eq!(inf.times(Int::new(0)).raw, i64::MIN);
    assert!(!Int::new(i64::MIN).le(Int::new(i64::MIN)));
}

#[test]
fn integer_roots_round_down() {
    for (x, root) in [(0, 0), (1, 1), (3, 1), (4, 2), (99, 9), (100, 10)] {
        assert_eq!(Int::new(x).sqrt().raw, root);
    }
    assert_eq!(Int::new(124).root(Int::new(3)).raw, 4);
    assert_eq!(Int::new(125).root(Int::new(3)).raw, 5);
    assert_eq!(Int::new(-1).sqrt().raw, i64::MIN);
}

#[test]
fn restoring_undoes_reducing_of_integers() {
    for p in [1, 2, 3, 5] {
        let m = match Metric::new(Int::new(p)) {
            Ok(m) => m,
            Err(error) => panic!("{}", error.message()),
        };
        for d in [0, 1, 2, 7, 1000] {
            assert_eq!(m.restore(m.reduce(Int::new(d))).raw, d);
        }
    }
}

#[test]
fn integers_have_their_text() {
    assert_eq!(Int::new(-120).text(), "-120");
    assert_eq!(Int::new(0).text(), "0");
    assert_eq!(Int::new(TOP).text(), "inf");
    assert_eq!(Int::new(-TOP).text(), "-inf");
    assert_eq!(Int::new(i64::MIN).text(), "NaN");
    assert_eq!(decimal(18446744073709551615), "18446744073709551615");
}

#[test]
fn integer_points_are_found_exactly() {
    let ndim = 3;
    let data = numbers(1, 400 * ndim, 50);
    let queries = numbers(2, 50 * ndim, 60);
    let tree = tree_of(&data, ndim, 6, false);
    for p in [1, 2, 3, TOP] {
        let k = 6;
        match tree.query(&ints(&queries), k, Int::new(p), None, Int::new(0), true) {
            Ok((_, indices)) => {
                for (i, q) in queries.chunks(ndim).enumerate() {
                    let mut all: Vec<(i64, usize)> = data
                        .chunks(ndim)
                        .enumerate()
                        .map(|(row, x)| {
                            let gaps = x.iter().zip(q).map(|(a, b)| (a - b).abs());
                            let dist = if p == TOP {
                                gaps.fold(0, i64::max)
                            } else {
                                gaps.map(|g| g.pow(p as u32)).sum()
                            };
                            (dist, row)
                        })
                        .collect();
                    all.sort_unstable();
                    for j in 0..k {
                        assert_eq!(indices[i * k + j], all[j].1 as i64);
                    }
                }
            }
            Err(error) => panic!("{}", error.message()),
        }
    }
}

#[test]
fn the_layout_is_one_for_all_data_of_a_size() {
    let a = tree_of(&numbers(3, 500, 1000), 1, 7, false);
    let b = tree_of(&numbers(4, 1500, 9), 3, 7, true);
    assert_eq!(a.nodes.len(), b.nodes.len());
    assert_eq!(a.nodes.len(), count_nodes(500, 7));
    for (x, y) in a.nodes.iter().zip(&b.nodes) {
        match (x, y) {
            (Node::Leaf { start, end }, Node::Leaf { start: s, end: e }) => {
                assert_eq!((start, end), (s, e))
            }
            (Node::Inner { left, right, .. }, Node::Inner { left: l, right: r, .. }) => {
                assert_eq!((left, right), (l, r))
            }
            _ => panic!("the nodes differ in kind"),
        }
    }
}

#[test]
fn builds_on_one_thread_and_on_many_are_the_same() {
    let data = numbers(5, 900 * 4, 20);
    let a = tree_of(&data, 4, 3, false);
    let b = tree_of(&data, 4, 3, true);
    assert_eq!(a.data, b.data);
    assert_eq!(a.indices, b.indices);
    assert_eq!(a.boxes.values, b.boxes.values);
    assert_eq!(raws(&a.original_data()), data);
}

#[test]
fn nodes_are_counted() {
    assert_eq!(count_nodes(1, 1), 1);
    assert_eq!(count_nodes(2, 1), 3);
    assert_eq!(count_nodes(5, 2), 5);
    assert_eq!(count_nodes(100, 100), 1);
}

#[test]
fn divisors() {
    assert_eq!(gcd(12, 8), 4);
    assert_eq!(gcd(7, 8), 1);
    assert_eq!(gcd(0, 8), 8);
    assert_eq!(gcd(8, 0), 8);
}

#[test]
fn finite_values_are_told_apart() {
    for n in 0..20 {
        let mut values = vec![Int::new(3); n];
        assert!(all_finite(&values));
        for at in 0..n {
            for bad in [TOP, -TOP, i64::MIN] {
                values[at] = Int::new(bad);
                assert!(!all_finite(&values));
            }
            values[at] = Int::new(3);
        }
    }
}

#[test]
fn bounding_boxes_of_every_width() {
    for ndim in 1..=20 {
        let rows = 37;
        let values = numbers(ndim as u64, rows * ndim, 1000);
        let flat = ints(&values);
        let mut lo = vec![Int::new(0); ndim];
        let mut hi = vec![Int::new(0); ndim];
        Rows::new(&flat, Dyn(ndim)).bbox_into(&mut lo, &mut hi);
        for d in 0..ndim {
            let column = (0..rows).map(|i| values[i * ndim + d]);
            assert_eq!(Some(lo[d].raw), column.clone().min());
            assert_eq!(Some(hi[d].raw), column.max());
        }
        let bounds = BBox { lo: &lo, hi: &hi };
        let widest = bounds.widest_axis();
        for d in 0..ndim {
            assert!(bounds.extent(d).le(bounds.extent(widest)));
        }
        let mut bad = flat.clone();
        bad[rows * ndim - 1] = Int::new(TOP);
        assert!(Rows::new(&flat, Dyn(ndim)).bbox_checked_into(&mut lo, &mut hi));
        assert!(!Rows::new(&bad, Dyn(ndim)).bbox_checked_into(&mut lo, &mut hi));
    }
}

#[test]
fn blocks_of_rows() {
    let flat = ints(&[1, 2, 3, 4, 5, 6]);
    let rows = Rows::new(&flat, Fixed::<2>);
    assert_eq!(rows.len(), 3);
    assert_eq!(rows.ndim(), 2);
    assert_eq!(raws(rows.row(1)), vec![3, 4]);
    assert_eq!(raws(rows.slice(1, 3).row(1)), vec![5, 6]);
    assert_eq!(raws(point(&flat, 3, 1)), vec![4, 5, 6]);
    let mut moved = flat.clone();
    swap_rows(&mut moved, 2, 0, 2);
    assert_eq!(raws(&moved), vec![5, 6, 3, 4, 1, 2]);
}

#[test]
fn a_median_and_a_split_at_it() {
    let mut keys = ints(&[9, 1, 4, 2, 5, 4]);
    assert_eq!(median(&mut keys, 3).raw, 4);
    let mut flat = ints(&[5, 0, 1, 1, 4, 2, 4, 3, 2, 4, 9, 5]);
    let mut ids = vec![0, 1, 2, 3, 4, 5];
    partition_rows(&mut flat, 2, &mut ids, 0, Int::new(4), 3);
    for i in 0..6 {
        assert_eq!(flat[2 * i + 1].raw, ids[i] as i64);
        if i < 3 {
            assert!(flat[2 * i].raw <= 4);
        } else {
            assert!(flat[2 * i].raw >= 4);
        }
    }
}

#[test]
fn distances_between_points_and_boxes() {
    let (a, b) = (ints(&[0, 10, 3]), ints(&[4, 7, 3]));
    let (lo, hi) = (ints(&[2, 8, 0]), ints(&[3, 12, 1]));
    let bounds = BBox { lo: &lo, hi: &hi };
    let other = BBox { lo: &b, hi: &b };
    let metrics = [
        (Metric::L1, 7, 4, 4),
        (Metric::L2, 25, 8, 6),
        (Metric::LInf, 4, 2, 2),
        (Metric::LP(Int::new(3)), 91, 16, 10),
    ];
    for (m, points, to_box, between) in metrics {
        assert_eq!(fold_scalar(m, Dist::zero(), &a, &b).get().raw, points);
        assert_eq!(fold_scalar(m, Dist::zero(), &b, &a).get().raw, points);
        assert_eq!(point_dist(m, &a, &b, Dist::infinity()).get().raw, points);
        assert_eq!(box_dist(m, &a, bounds).get().raw, to_box);
        assert_eq!(lane_box_dist(m, &a, bounds).get().raw, to_box);
        assert_eq!(gap_dist(m, bounds, other).get().raw, between);
    }
    let start = Dist::from_repr(Int::new(5));
    assert_eq!(fold_scalar(Metric::L1, start, &a, &b).get().raw, 12);
    assert_eq!(fold_scalar(Metric::LInf, start, &a, &b).get().raw, 5);
    assert_eq!(axis_offset(Int::new(5), Int::new(1), Int::new(9)).raw, 0);
    assert_eq!(axis_offset(Int::new(0), Int::new(1), Int::new(9)).raw, 1);
    assert_eq!(axis_offset(Int::new(12), Int::new(1), Int::new(9)).raw, 3);
}

#[test]
fn a_distance_past_the_bound_stays_past_it() {
    let a = ints(&[0; 40]);
    let b = ints(&[1; 40]);
    let bound = Dist::from_repr(Int::new(10));
    assert!(bound.lt(point_dist(Metric::L1, &a, &b, bound)));
    assert_eq!(point_dist(Metric::L1, &a, &b, Dist::from_repr(Int::new(40))).get().raw, 40);
}

#[test]
fn one_axis_of_a_bound_is_exchanged() {
    let d = |v: i64| Dist::from_repr(Int::new(v));
    assert_eq!(Metric::L1.replace_axis(d(9), d(2), d(5)).get().raw, 12);
    assert_eq!(Metric::LInf.replace_axis(d(9), d(2), d(5)).get().raw, 9);
    assert_eq!(Metric::LInf.replace_axis(d(9), d(9), d(11)).get().raw, 11);
    assert_eq!(Metric::L2.fold(d(3), d(4)).get().raw, 7);
    assert_eq!(Metric::LInf.fold(d(3), d(4)).get().raw, 4);
}

/// Goes down every way through the tree, with what each axis contributes to the
/// bound of the cell, and checks every exchange of a contribution.
fn walk(tree: &Tree<Int>, q: &[Int], m: Metric<Int>, id: u32, axes: &mut Vec<Dist<Int>>) {
    if let Node::Inner { left, right, split_dim, split_value } = tree.nodes[id as usize] {
        let dim = unpack_split(split_dim).0;
        let diff = q[dim].minus(split_value);
        let (near, far) = if diff.le(Int::zero()) { (left, right) } else { (right, left) };
        let axis = m.reduce(diff.abs());
        assert!(axes[dim].le(axis));
        walk(tree, q, m, near, axes);
        let saved = std::mem::replace(&mut axes[dim], axis);
        walk(tree, q, m, far, axes);
        axes[dim] = saved;
    }
}

#[test]
fn no_descent_exchanges_an_axis_for_less() {
    let tree = tree_of(&numbers(6, 300 * 3, 40), 3, 2, false);
    let bounds = tree.boxes.of(0);
    for m in [Metric::L1, Metric::L2, Metric::LInf, Metric::LP(Int::new(3))] {
        for seed in 0..20 {
            let q: Vec<Int> = numbers(seed, 3, 80).iter().map(|v| Int::new(v - 20)).collect();
            let mut axes: Vec<Dist<Int>> = (0..3)
                .map(|d| m.reduce(axis_offset(q[d], bounds.lo[d], bounds.hi[d])))
                .collect();
            walk(&tree, &q, m, 0, &mut axes);
        }
    }
}

#[test]
fn arrays_become_points() {
    let made = |shape: &[usize], single: bool| Points::new(ints(&[1, 2, 3, 4]), shape, "as told", single);
    match made(&[2, 2], false) {
        Ok(points) => {
            assert_eq!((points.n_rows, points.ndim, points.single), (2, 2, false));
            assert_eq!(points.result_shape(3), Some((2, 3)));
            assert!(matches!(
                points.require_ndim(3),
                Err(KDTreeError::DimensionMismatch { expected: 3, got: 2 })
            ));
        }
        Err(error) => panic!("{}", error.message()),
    }
    match made(&[4], true) {
        Ok(points) => {
            assert_eq!((points.n_rows, points.ndim, points.single), (1, 4, true));
            assert_eq!(points.result_shape(3), None);
            assert!(points.require_ndim(4).is_ok());
        }
        Err(error) => panic!("{}", error.message()),
    }
    assert!(matches!(made(&[4], false), Err(KDTreeError::InvalidShape("as told"))));
    assert!(matches!(made(&[], true), Err(KDTreeError::InvalidShape("as told"))));
    assert!(matches!(made(&[1, 2, 2], true), Err(KDTreeError::InvalidShape("as told"))));
}

#[test]
fn a_tree_sums_itself_up() {
    let tree = tree_of(&[1, 2, 3, 4, 5, 6], 2, 10, false);
    assert_eq!(tree.summary(), "KDTree(n_points=3, ndim=2, leafsize=10)");
    assert_eq!((tree.n_points(), tree.ndim(), tree.leafsize()), (3, 2, 10));
}

#[test]
fn the_box_of_no_rows_holds_nothing() {
    for ndim in [1, 2, 9, 17] {
        let mut lo = vec![Int::new(7); ndim + 2];
        let mut hi = vec![Int::new(7); ndim + 3];
        let none: Vec<Int> = Vec::new();
        assert!(Rows::new(&none, Dyn(ndim)).bbox_checked_into(&mut lo, &mut hi));
        assert_eq!(raws(&lo[..ndim]), vec![TOP; ndim]);
        assert_eq!(raws(&hi[..ndim]), vec![-TOP; ndim]);
        assert_eq!(raws(&lo[ndim..]), vec![7; 2]);
        assert_eq!(raws(&hi[ndim..]), vec![7; 3]);
    }
}

#[test]
fn a_box_is_the_same_with_the_check_and_without() {
    for ndim in 1..=18 {
        let flat = ints(&numbers(70 + ndim as u64, 29 * ndim, 500));
        let mut one = (vec![Int::new(3); ndim + 1], vec![Int::new(4); ndim + 1]);
        let mut other = one.clone();
        let rows = Rows::new(&flat, Dyn(ndim));
        rows.bbox_into(&mut one.0, &mut one.1);
        assert!(rows.bbox_checked_into(&mut other.0, &mut other.1));
        assert_eq!(one, other);
        assert_eq!((one.0[ndim].raw, one.1[ndim].raw), (3, 4));
    }
}

#[test]
fn a_box_is_as_far_as_its_nearest_point() {
    let metrics = [Metric::L1, Metric::L2, Metric::LInf, Metric::LP(Int::new(3))];
    for ndim in [1, 3, 8, 19] {
        let lo = ints(&vec![10; ndim]);
        let hi = ints(&vec![20; ndim]);
        let bounds = BBox { lo: &lo, hi: &hi };
        for seed in 0..10 {
            let values = numbers(seed, ndim, 30);
            let clamped: Vec<i64> = values.iter().map(|v| *v.max(&10).min(&20)).collect();
            let (q, c) = (ints(&values), ints(&clamped));
            for m in metrics {
                let to_box = box_dist(m, &q, bounds).get();
                assert_eq!(to_box, lane_box_dist(m, &q, bounds).get());
                assert_eq!(to_box, fold_scalar(m, Dist::zero(), &q, &c).get());
                assert_eq!(to_box.raw == 0, values == clamped);
            }
        }
    }
}

/// What is kept of candidates, given by distances and row numbers.
fn kept<B: Best<Int>>(k: usize, offers: &[(i64, u32)]) -> (Vec<i64>, Vec<i64>) {
    let mut best = B::new(k);
    for (dist, row) in offers {
        best.consider(Dist::from_repr(Int::new(*dist)), *row);
    }
    let mut distances = vec![Int::new(0); k];
    let mut indices = vec![0; k];
    best.write_results(&mut distances, &mut indices, 99, Metric::L1);
    (raws(&distances), indices)
}

#[test]
fn the_best_candidates_are_kept_in_any_order() {
    let mut offers: Vec<(i64, u32)> = (0..40).map(|row| ((row as i64 * 7) % 11, row)).collect();
    let mut sorted = offers.clone();
    sorted.sort_unstable();
    for _ in 0..5 {
        for k in [1, 3, 40, 43] {
            let (distances, indices) = kept::<BestK<Int>>(k, &offers);
            for j in 0..k {
                let (dist, row) = sorted.get(j).map_or((TOP, 99), |o| (o.0, o.1 as i64));
                assert_eq!((distances[j], indices[j]), (dist, row));
            }
        }
        let one = kept::<Best1<Int>>(1, &offers);
        assert_eq!(one, (vec![sorted[0].0], vec![sorted[0].1 as i64]));
        offers.rotate_left(13);
        offers.reverse();
    }
}

#[test]
fn the_leaf_size_changes_no_exact_answer() {
    for ndim in [4, 8, 10] {
        let data = numbers(80, 120 * ndim, 12);
        let q = ints(&numbers(81, ndim, 12));
        let answer = |leafsize: usize, p: i64| {
            tree_of(&data, ndim, leafsize, false)
                .query(&q, 9, Int::new(p), None, Int::new(0), false)
        };
        for p in [1, 2, 3, TOP] {
            let first = answer(1, p);
            assert!(first.is_ok());
            for leafsize in [2, 3, 16, 500] {
                assert_eq!(first, answer(leafsize, p));
            }
        }
    }
}

#[test]
fn the_factor_carries_over_to_plain_integers() {
    let tree = tree_of(&numbers(82, 200, 5000), 1, 2, false);
    for p in [1, 2, 3, TOP] {
        for q in [0, 777, 2500, 6000] {
            let answer = |eps: i64| match tree.query(
                &ints(&[q]),
                20,
                Int::new(p),
                None,
                Int::new(eps),
                false,
            ) {
                Ok((distances, _)) => raws(&distances),
                Err(error) => panic!("{}", error.message()),
            };
            let exact = answer(0);
            for eps in [1, 3] {
                for (near, best) in answer(eps).iter().zip(&exact) {
                    assert!(best <= near && *near <= best * (1 + eps));
                }
            }
        }
    }
}
