use rogue_mapgen::rect::Rect;

#[test]
fn rect_new_sets_corners() {
    let r = Rect::new(2, 3, 4, 5);
    assert_eq!(r.x1, 2);
    assert_eq!(r.y1, 3);
    assert_eq!(r.x2, 6);
    assert_eq!(r.y2, 8);
}

#[test]
fn rect_intersect_overlapping_rooms() {
    let a = Rect::new(0, 0, 5, 5);
    let b = Rect::new(3, 3, 5, 5);
    assert!(a.intersect(&b));
    assert!(b.intersect(&a));
}

#[test]
fn rect_intersect_touching_edges_counts() {
    let a = Rect::new(0, 0, 5, 5);
    let b = Rect::new(5, 0, 5, 5);
    assert!(a.intersect(&b));
    let c = Rect::new(0, 5, 2, 2);
    assert!(a.intersect(&c));
}

#[test]
fn rect_intersect_disjoint_rooms() {
    let a = Rect::new(0, 0, 5, 5);
    let b = Rect::new(6, 0, 5, 5);
    assert!(!a.intersect(&b));
    assert!(!b.intersect(&a));
    let c = Rect::new(0, 6, 5, 5);
    assert!(!a.intersect(&c));
}

#[test]
fn rect_center_rounds_toward_zero() {
    assert_eq!(Rect::new(0, 0, 10, 6).center(), (5, 3));
    assert_eq!(Rect::new(1, 1, 6, 8).center(), (4, 5));
    assert_eq!(Rect::new(0, 0, 5, 5).center(), (2, 2));
    assert_eq!(Rect::new(-5, -5, 2, 2).center(), (-4, -4));
}

#[test]
fn rect_equality_is_by_corners() {
    assert_eq!(Rect::new(1, 2, 3, 4), Rect { x1: 1, x2: 4, y1: 2, y2: 6 });
    assert_ne!(Rect::new(1, 2, 3, 4), Rect::new(1, 2, 3, 5));
}
