use quadtree::QuadTree as Q;
use std::time::{SystemTime, UNIX_EPOCH};

struct XorShift64 {
    a: u64,
}

impl XorShift64 {
    pub fn next(&mut self) -> u64 {
        let mut x = self.a;
        x ^= x << 13;
        x ^= x >> 7;
        x ^= x << 17;
        self.a = x;
        x % 1000
    }
}

fn get_rng() -> XorShift64 {
    // Pseudo random generator
    XorShift64 {
        a: SystemTime::now()
            .duration_since(UNIX_EPOCH)
            .expect("Time went backwards")
            .as_secs(),
    }
}

#[test]
fn types_work() {
    let _: Q<i32> = Q::new((0, 1, 0, 1));
    let _: Q<u32> = Q::new((0, 1, 0, 1));
    let _: Q<i64> = Q::new((0, 1, 0, 1));
    let _: Q<u64> = Q::new((0, 1, 0, 1));
    let _: Q<usize> = Q::new((0, 1, 0, 1));
}

#[test]
fn contains() {
    let qt = Q::new((0, 10, 0, 10));
    let b = qt.get_boundary();
    assert!(Q::contains(&b, &(0, 0)));
    assert!(Q::contains(&b, &(1, 2)));
    assert!(!Q::contains(&b, &(0, 10)));
    assert!(!Q::contains(&b, &(10, 10)));
    assert!(!Q::contains(&b, &(5, 11)));
}

#[test]
fn intersects() {
    let qt = Q::new((5, 10, 5, 10));
    let b = qt.get_boundary();
    assert!(Q::intersects(&b, &(6, 7, 6, 7)));
    assert!(Q::intersects(&b, &(9, 11, 9, 11)));
    assert!(!Q::intersects(&b, &(10, 11, 10, 11)));
    assert!(!Q::intersects(&b, &(4, 5, 4, 5)));
}

#[test]
fn insert_and_size() {
    let mut qt = Q::new((0, 10, 0, 10));
    let mut count = 0;
    for i in 0..10 {
        for j in 0..10 {
            qt.insert((i, j));
            count += 1;
        }
    }
    assert_eq!(qt.size(), count);
}

#[test]
fn simple_search() {
    let mut qt = Q::new((0, 5, 0, 5));
    qt.insert((1, 2));
    qt.insert((2, 2));
    qt.insert((2, 3)); // outside search area
    assert_eq!(qt.size(), 3);
    let points = qt.search(&(0, 3, 0, 3));
    assert_eq!(points.len(), 2);
}

#[test]
fn larger_search() {
    let mut qt = Q::new((0, 100, 0, 100));

    // We go outside, but they should be ignored.
    for i in 0..102 {
        for j in 0..102 {
            qt.insert((i, j));
        }
    }
    assert_eq!(qt.size(), 100 * 100);

    let search_boundary = (60, 120, 80, 150);
    let points = qt.search(&search_boundary);
    assert_eq!(points.len(), 40 * 20); // effective overlap is 40*20
}

/// This will overflow the stack if duplicates are not ignored. This happens because it will
/// keep trying to subdivide the node, but since 5 points are in the same place, it'll keep
/// having to subdivide and never get anywhere.
#[test]
fn ignores_duplicates() {
    let mut qt = Q::new((0, 10, 0, 10));
    qt.insert((1, 1));
    qt.insert((1, 1));
    qt.insert((1, 1));
    qt.insert((1, 1));
    qt.insert((1, 1)); //   \(>_<)/
    assert_eq!(qt.size(), 1);
}

#[test]
fn same_result_from_different_capacities() {
    let mut rng = get_rng();

    let mut qt1 = Q::with_node_capacity(4, (0, 1000, 0, 1000));
    let mut qt2 = Q::with_node_capacity(16, (0, 1000, 0, 1000));
    let mut qt3 = Q::with_node_capacity(64, (0, 1000, 0, 1000));
    let mut qt4 = Q::with_node_capacity(265, (0, 1000, 0, 1000));

    for _ in 0..100 {
        for _ in 0..100 {
            let p = (rng.next(), rng.next());
            qt1.insert(p);
            qt2.insert(p);
            qt3.insert(p);
            qt4.insert(p);
        }
    }

    // Define a search boundary
    let a = rng.next();
    let b = rng.next();
    let c = rng.next();
    let d = rng.next();
    let (x1, x2) = if a < b { (a, b) } else { (b, a) };
    let (y1, y2) = if c < d { (c, d) } else { (d, c) };
    let search_boundary = (x1, x2, y1, y2);

    let points1 = qt1.search(&search_boundary);
    let points2 = qt2.search(&search_boundary);
    let points3 = qt3.search(&search_boundary);
    let points4 = qt4.search(&search_boundary);

    assert_eq!(points1.len(), points2.len());
    assert_eq!(points1.len(), points3.len());
    assert_eq!(points1.len(), points4.len());

    // Go through each element in first result, and make sure each of them exists in the others
    for point in points1 {
        assert!(points2.iter().any(|p| *p == point));
        assert!(points3.iter().any(|p| *p == point));
        assert!(points4.iter().any(|p| *p == point));
    }
}

#[test]
fn lots_of_numbers() {
    // This test should probably be written as a fuzzy thing when I know how that stuff works.
    let mut rng = get_rng();
    let mut qt = Q::new((0, 1000, 0, 1000));

    // Insert 10,000 points
    for _ in 0..100 {
        for _ in 0..100 {
            let p = (rng.next(), rng.next());
            qt.insert(p);
        }
    }

    // Define a boundary that we want to search in
    let a = rng.next();
    let b = rng.next();
    let c = rng.next();
    let d = rng.next();
    let (x1, x2) = if a < b { (a, b) } else { (b, a) };
    let (y1, y2) = if c < d { (c, d) } else { (d, c) };
    let search_boundary = (x1, x2, y1, y2);

    // Make sure that everything that comes out of `search` is within out defined boundary.
    for (x, y) in qt.search(&search_boundary) {
        assert!(x >= x1);
        assert!(x < x2);
        assert!(y >= y1);
        assert!(y < y2);
    }
}
