use quadtree::QuadTree as Q;

/// A brute-force range query over a plain point list, using the library's
/// own containment predicate.
fn brute_force(points: &[(i32, i32)], b: (i32, i32, i32, i32)) -> Vec<(i32, i32)> {
    points
        .iter()
        .copied()
        .filter(|p| Q::contains(&b, p))
        .collect()
}

fn same_set(a: &[(i32, i32)], b: &[(i32, i32)]) -> bool {
    a.len() == b.len()
        && a.iter().all(|p| b.contains(p))
        && b.iter().all(|p| a.contains(p))
}

#[test]
fn contains_half_open_edges() {
    let b = (0, 5, 0, 5);
    // minimum edges inclusive
    assert!(Q::contains(&b, &(0, 0)));
    assert!(Q::contains(&b, &(0, 4)));
    assert!(Q::contains(&b, &(4, 0)));
    // maximum edges exclusive
    assert!(!Q::contains(&b, &(5, 0)));
    assert!(!Q::contains(&b, &(0, 5)));
    assert!(!Q::contains(&b, &(4, 5)));
    // clearly outside
    assert!(!Q::contains(&b, &(-1, 2)));
    assert!(!Q::contains(&b, &(2, -1)));
}

#[test]
fn intersects_open_intervals() {
    let a = (0, 5, 0, 5);
    // sharing only an edge does not count as intersecting
    assert!(!Q::intersects(&a, &(5, 9, 0, 5)));
    assert!(!Q::intersects(&a, &(0, 5, 5, 9)));
    assert!(Q::intersects(&a, &(4, 9, 4, 9)));
    assert!(Q::intersects(&a, &(-3, 1, -3, 1)));
    assert!(Q::intersects(&a, &(0, 5, 0, 5)));
    assert!(!Q::intersects(&a, &(6, 9, 1, 2)));
}

#[test]
fn out_of_bounds_insert_is_rejected() {
    let mut qt = Q::new((0, 10, 0, 10));
    assert!(qt.insert((3, 3)));
    assert!(!qt.insert((10, 3)));
    assert!(!qt.insert((3, 10)));
    assert!(!qt.insert((-1, 3)));
    assert_eq!(qt.size(), 1);
}

#[test]
fn duplicate_insert_reports_success() {
    let mut qt = Q::new((0, 10, 0, 10));
    assert!(qt.insert((2, 7)));
    assert!(qt.insert((2, 7)));
    assert_eq!(qt.size(), 1);
}

#[test]
fn duplicate_into_full_leaf_does_not_split_forever() {
    // With capacity 1 the leaf is full after one point; re-inserting the
    // same point must be recognized as a duplicate, not trigger splits.
    let mut qt = Q::with_node_capacity(1, (0, 2, 0, 2));
    assert!(qt.insert((1, 1)));
    assert!(qt.insert((1, 1)));
    assert!(qt.insert((1, 1)));
    assert_eq!(qt.size(), 1);
}

#[test]
fn search_exact_points() {
    let mut qt = Q::new((0, 5, 0, 5));
    qt.insert((1, 2));
    qt.insert((2, 2));
    qt.insert((2, 3));
    assert_eq!(qt.size(), 3);
    let points = qt.search(&(0, 3, 0, 3));
    assert!(same_set(&points, &[(1, 2), (2, 2)]));
}

#[test]
fn splits_keep_all_points() {
    // Capacity 1 forces a split on nearly every insertion.
    let mut qt = Q::with_node_capacity(1, (0, 16, 0, 16));
    let mut inserted = Vec::new();
    for i in 0..16 {
        for j in 0..16 {
            if (i + j) % 3 == 0 {
                assert!(qt.insert((i, j)));
                inserted.push((i, j));
            }
        }
    }
    assert_eq!(qt.size(), inserted.len());
    let all = qt.search(&(0, 16, 0, 16));
    assert!(same_set(&all, &inserted));
}

#[test]
fn equivalent_to_brute_force() {
    let mut qt = Q::with_node_capacity(4, (0, 30, 0, 30));
    let mut inserted = Vec::new();
    for i in 0..30 {
        for j in 0..30 {
            if (7 * i + 11 * j) % 5 < 2 {
                qt.insert((i, j));
                inserted.push((i, j));
            }
        }
    }
    for b in [(3, 17, 5, 25), (0, 30, 0, 30), (10, 11, 10, 11), (20, 40, -5, 9)] {
        let fast = qt.search(&b);
        let slow = brute_force(&inserted, b);
        assert!(same_set(&fast, &slow));
    }
}

#[test]
fn capacity_does_not_change_results() {
    let caps = [4, 16, 64, 256];
    let mut trees: Vec<Q<i32>> = caps
        .iter()
        .map(|&c| Q::with_node_capacity(c, (0, 50, 0, 50)))
        .collect();
    let mut inserted = Vec::new();
    for i in 0..50 {
        for j in 0..50 {
            if (i * j + 3 * i + j) % 4 == 0 {
                for t in trees.iter_mut() {
                    t.insert((i, j));
                }
                inserted.push((i, j));
            }
        }
    }
    let b = (7, 31, 12, 44);
    let expected = brute_force(&inserted, b);
    for t in trees.iter() {
        let got = t.search(&b);
        assert_eq!(got.len(), expected.len());
        assert!(same_set(&got, &expected));
    }
}

#[test]
fn negative_coordinates_and_truncating_midpoint() {
    // Exercises splits over regions with negative endpoints, where the
    // midpoint comes from division that truncates toward zero.
    let mut qt = Q::with_node_capacity(2, (-10, 10, -10, 10));
    let mut inserted = Vec::new();
    for i in -10..12 {
        for j in -12..10 {
            if (i + j) % 2 == 0 {
                let ok = qt.insert((i, j));
                let in_bounds = i < 10 && j >= -10;
                assert_eq!(ok, in_bounds);
                if in_bounds {
                    inserted.push((i, j));
                }
            }
        }
    }
    assert_eq!(qt.size(), inserted.len());
    let b = (-7, 3, -4, 8);
    assert!(same_set(&qt.search(&b), &brute_force(&inserted, b)));
}

#[test]
fn unsigned_and_wide_types() {
    let mut a: Q<u64> = Q::with_node_capacity(1, (0, 8, 0, 8));
    assert!(a.insert((0, 0)));
    assert!(a.insert((7, 7)));
    assert!(a.insert((3, 4)));
    assert!(!a.insert((8, 1)));
    assert_eq!(a.size(), 3);
    assert_eq!(a.search(&(0, 8, 0, 8)).len(), 3);
    assert_eq!(a.search(&(3, 4, 4, 5)), vec![(3, 4)]);

    let mut b: Q<usize> = Q::new((0, 1000, 0, 1000));
    for k in 0..100 {
        assert!(b.insert((k * 7 % 1000, k * 13 % 1000)));
    }
    assert_eq!(b.size(), 100);

    // near the top of the u64 range, where a naive midpoint sum would wrap
    let top = u64::MAX;
    let mut c: Q<u64> = Q::with_node_capacity(1, (top - 8, top, top - 8, top));
    assert!(c.insert((top - 1, top - 1)));
    assert!(c.insert((top - 8, top - 8)));
    assert!(c.insert((top - 4, top - 2)));
    assert!(!c.insert((top, top - 1)));
    assert_eq!(c.size(), 3);
    assert_eq!(c.search(&(top - 8, top, top - 8, top)).len(), 3);
}

#[test]
fn i32_extremes_midpoint_does_not_overflow() {
    // A region spanning the whole i32 range: splitting must not overflow.
    let lo = i32::MIN;
    let hi = i32::MAX;
    let mut qt: Q<i32> = Q::with_node_capacity(1, (lo, hi, lo, hi));
    assert!(qt.insert((lo, lo)));
    assert!(qt.insert((hi - 1, hi - 1)));
    assert!(qt.insert((0, 0)));
    assert!(qt.insert((-1, 1)));
    assert_eq!(qt.size(), 4);
    let everything = qt.search(&(lo, hi, lo, hi));
    assert!(same_set(&everything, &[(lo, lo), (hi - 1, hi - 1), (0, 0), (-1, 1)]));
}

#[test]
fn empty_tree_searches_empty() {
    let qt: Q<i32> = Q::new((0, 10, 0, 10));
    assert_eq!(qt.size(), 0);
    assert!(qt.search(&(0, 10, 0, 10)).is_empty());
    assert!(qt.search(&(20, 30, 20, 30)).is_empty());
}
