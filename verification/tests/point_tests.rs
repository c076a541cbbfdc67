use algo::point::Point;

#[test]
fn add() {
    let r = Point { x: 1, y: 1 }.add(&Point { x: 2, y: 3 });
    assert_eq!(r.x, 3);
    assert_eq!(r.y, 4);
}

#[test]
fn sub() {
    let r = Point { x: 2, y: 2 }.sub(&Point { x: 0, y: 1 });
    assert_eq!(r.x, 2);
    assert_eq!(r.y, 1);
}

#[test]
fn mul() {
    let r = Point { x: 2, y: 2 }.mul(&Point { x: 0, y: 1 });
    assert_eq!(r.x, 0);
    assert_eq!(r.y, 2);
}

#[test]
fn div() {
    let r = Point { x: 2, y: 2 }.div(&Point { x: 2, y: 1 });
    assert_eq!(r.x, 1);
    assert_eq!(r.y, 2);
}

#[test]
fn div_fail() {
    Point { x: 2, y: 2 }.div(&Point { x: 0, y: 1 });
}

#[test]
fn neg() {
    let r = Point { x: 1, y: 2 }.neg();
    assert_eq!(r.x, -1);
    assert_eq!(r.y, -2);
}

#[test]
fn div_rounds_towards_zero() {
    let r = Point { x: -7, y: 7 }.div(&Point { x: 2, y: -2 });
    assert_eq!(r.x, -3);
    assert_eq!(r.y, -3);
}

#[test]
fn distance_squared_exact() {
    let p = Point { x: 1, y: 2 };
    let q = Point { x: 2, y: 1 };
    assert_eq!(p.distance_squared(&q), 2);
    assert_eq!(q.distance_squared(&p), 2);
    assert_eq!(p.distance_squared(&p), 0);
}

#[test]
fn distance_is_integer_part() {
    let o = Point { x: 0, y: 0 };
    // A 3-4-5 triangle: the distance is exactly 5.
    assert_eq!(o.distance(&Point { x: 3, y: 4 }), 5);
    // sqrt(2) = 1.41..: the integer part is 1.
    assert_eq!(o.distance(&Point { x: 1, y: 1 }), 1);
    assert_eq!(o.distance(&o), 0);
}

#[test]
fn dot_exact() {
    let p = Point { x: 1, y: 2 };
    let q = Point { x: 2, y: 1 };
    assert_eq!(p.dot(&q), 4);
    assert_eq!(p.dot(&Point { x: -2, y: 1 }), 0);
}
