use widget_registry::rect::{Point, Rect};

#[test]
fn containment() {
    let r = Rect(0, 0, 10, 10);
    assert!(r.contains(Point(5, 5)));
    assert!(r.contains(Point(0, 0)));
    assert!(r.contains(Point(10, 10)));
    assert!(!r.contains(Point(11, 5)));
    assert!(!r.contains(Point(5, 11)));
}

#[test]
fn containment_edges() {
    let r = Rect(3, 4, 3, 4);
    assert!(r.contains(Point(3, 4)));
    assert!(!r.contains(Point(2, 4)));
    assert!(!r.contains(Point(3, 5)));
}

#[test]
fn point_add_sub() {
    let p = Point(10, 20).add(Point(3, 4));
    assert_eq!((p.x, p.y), (13, 24));
    let q = Point(10, 20).sub(Point(3, 4));
    assert_eq!((q.x, q.y), (7, 16));
}

#[test]
fn point_saturating_ops() {
    let p = Point(u64::MAX - 1, 5).sat_add(Point(10, 10));
    assert_eq!((p.x, p.y), (u64::MAX, 15));
    let q = Point(3, 100).sat_sub(Point(10, 30));
    assert_eq!((q.x, q.y), (0, 70));
}

#[test]
fn rect_constructor() {
    let r = Rect(1, 2, 3, 4);
    assert_eq!((r.top_left.x, r.top_left.y), (1, 2));
    assert_eq!((r.bot_right.x, r.bot_right.y), (3, 4));
}
