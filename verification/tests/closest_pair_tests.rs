use algo::closest_pair::{ClosestPair, ClosestPairError, SarielHarPeled};
use algo::point::Point;

fn pts(coords: &[(i64, i64)]) -> Vec<Point> {
    let mut v = Vec::new();
    for &(x, y) in coords {
        v.push(Point { x, y });
    }
    v
}

fn d2(p: &Point, q: &Point) -> i64 {
    p.distance_squared(q)
}

/// Smallest pairwise squared distance, by brute force.
fn brute_force_min(points: &[Point]) -> i64 {
    let mut best = i64::MAX;
    for i in 0..points.len() {
        for j in (i + 1)..points.len() {
            let d = d2(&points[i], &points[j]);
            if d < best {
                best = d;
            }
        }
    }
    best
}

#[test]
fn closest_pair_simple() {
    let points = pts(&[(0, 0), (10, 10), (7, 7), (5, 5), (1, 1)]);
    let (i, j) = SarielHarPeled.closest_pair(&points).unwrap();
    assert_eq!(
        d2(&points[i], &points[j]),
        d2(&points[0], &points[4])
    );
}

#[test]
fn five_points_expected_pair() {
    // The closest pair is (0,0) and (1,1), at squared distance 2.
    let points = pts(&[(0, 0), (10, 10), (7, 7), (5, 5), (1, 1)]);
    let (i, j) = SarielHarPeled.closest_pair(&points).unwrap();
    assert_eq!(d2(&points[i], &points[j]), 2);
    let pair = if i < j { (i, j) } else { (j, i) };
    assert_eq!(pair, (0, 4));
}

#[test]
fn three_points_expected_pair() {
    // The closest pair is (10,10) and (7,7), at squared distance 18.
    let points = pts(&[(0, 0), (10, 10), (7, 7)]);
    let (i, j) = SarielHarPeled.closest_pair(&points).unwrap();
    assert_eq!(d2(&points[i], &points[j]), 18);
    let pair = if i < j { (i, j) } else { (j, i) };
    assert_eq!(pair, (1, 2));
}

#[test]
fn fewer_than_two_points_fails() {
    let none: Vec<Point> = Vec::new();
    assert_eq!(
        SarielHarPeled.closest_pair(&none),
        Err(ClosestPairError::InvalidArgument)
    );
    let one = pts(&[(3, 4)]);
    assert_eq!(
        SarielHarPeled.closest_pair(&one),
        Err(ClosestPairError::InvalidArgument)
    );
}

#[test]
fn exactly_two_points_returned_unconditionally() {
    let far = pts(&[(-1_000_000, 2), (999_999, -55)]);
    assert_eq!(SarielHarPeled.closest_pair(&far), Ok((0, 1)));
    // Even two coincident points are simply handed back.
    let same = pts(&[(4, 4), (4, 4)]);
    assert_eq!(SarielHarPeled.closest_pair(&same), Ok((0, 1)));
}

#[test]
fn coincident_points_detected() {
    let points = pts(&[(5, 9), (100, 100), (-3, 7), (5, 9), (50, -2)]);
    let (i, j) = SarielHarPeled.closest_pair(&points).unwrap();
    assert_ne!(i, j);
    assert_eq!(d2(&points[i], &points[j]), 0);
    assert_eq!(points[i], points[j]);
}

#[test]
fn coincident_seed_detected() {
    // The duplicate sits in the first two positions.
    let points = pts(&[(1, 1), (1, 1), (9, 9)]);
    let (i, j) = SarielHarPeled.closest_pair(&points).unwrap();
    assert_ne!(i, j);
    assert_eq!(d2(&points[i], &points[j]), 0);
}

#[test]
fn matches_brute_force() {
    let points = pts(&[
        (12, -7),
        (0, 0),
        (100, 41),
        (-55, 60),
        (13, -5),
        (87, 32),
        (-54, 61),
        (40, 40),
        (-1_000_000_000, 1_000_000_000),
        (999_999_999, -999_999_999),
        (3, 3),
        (2, 2),
    ]);
    let (i, j) = SarielHarPeled.closest_pair(&points).unwrap();
    assert_ne!(i, j);
    assert_eq!(d2(&points[i], &points[j]), brute_force_min(&points));
}

#[test]
fn repeated_runs_agree() {
    let points = pts(&[(8, 1), (2, 3), (5, 5), (2, 4), (9, 9), (0, 0)]);
    let (i1, j1) = SarielHarPeled.closest_pair(&points).unwrap();
    let (i2, j2) = SarielHarPeled.closest_pair(&points).unwrap();
    assert_eq!(
        d2(&points[i1], &points[j1]),
        d2(&points[i2], &points[j2])
    );
}

#[test]
fn permutation_keeps_min_distance() {
    let base = pts(&[(8, 1), (2, 3), (5, 5), (2, 4), (9, 9), (0, 0), (30, 30)]);
    let shuffled = pts(&[(9, 9), (0, 0), (2, 4), (30, 30), (8, 1), (5, 5), (2, 3)]);
    let (i1, j1) = SarielHarPeled.closest_pair(&base).unwrap();
    let (i2, j2) = SarielHarPeled.closest_pair(&shuffled).unwrap();
    assert_eq!(
        d2(&base[i1], &base[j1]),
        d2(&shuffled[i2], &shuffled[j2])
    );
    assert_eq!(d2(&base[i1], &base[j1]), 1);
}

#[test]
fn negative_coordinates() {
    let points = pts(&[(-10, -10), (-7, -7), (0, 0), (-11, -9)]);
    let (i, j) = SarielHarPeled.closest_pair(&points).unwrap();
    assert_eq!(d2(&points[i], &points[j]), 2);
    let pair = if i < j { (i, j) } else { (j, i) };
    assert_eq!(pair, (0, 3));
}
