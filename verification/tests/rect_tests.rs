use unobstructed::rect::Rect;

#[test]
fn new_keeps_its_arguments() {
    let r = Rect::new(3, -4, 5, 6);
    assert_eq!(r.x, 3);
    assert_eq!(r.y, -4);
    assert_eq!(r.width, 5);
    assert_eq!(r.height, 6);
}

#[test]
fn bounds_are_inclusive() {
    let r = Rect::new(3, -4, 5, 6);
    assert_eq!(r.left(), 3);
    assert_eq!(r.right(), 7);
    assert_eq!(r.bottom(), -4);
    assert_eq!(r.top(), 1);
}

#[test]
fn unit_rectangle_has_equal_bounds() {
    let r = Rect::new(2, 9, 1, 1);
    assert_eq!(r.left(), r.right());
    assert_eq!(r.bottom(), r.top());
}

#[test]
fn bounds_at_the_edge_of_the_grid() {
    let r = Rect::new(i64::MAX - 2, i64::MAX, 3, 1);
    assert!(r.is_well_formed());
    assert_eq!(r.right(), i64::MAX);
    assert_eq!(r.top(), i64::MAX);
}

#[test]
fn well_formedness_asks_for_cells_and_representable_bounds() {
    assert!(Rect::new(0, 0, 1, 1).is_well_formed());
    assert!(!Rect::new(0, 0, 0, 1).is_well_formed());
    assert!(!Rect::new(0, 0, 1, -3).is_well_formed());
    assert!(!Rect::new(i64::MAX, 0, 2, 1).is_well_formed());
    assert!(!Rect::new(0, i64::MAX - 1, 1, 3).is_well_formed());
    assert!(Rect::new(i64::MIN, i64::MIN, i64::MAX, i64::MAX).is_well_formed());
}

#[test]
fn overlapping_rectangles_intersect() {
    let a = Rect::new(0, 0, 10, 10);
    let b = Rect::new(5, 5, 10, 10);
    assert!(a.intersects(&b));
    assert!(b.intersects(&a));
}

#[test]
fn rectangles_that_share_a_boundary_coordinate_intersect() {
    let a = Rect::new(0, 0, 5, 5);
    let b = Rect::new(4, 4, 3, 3);
    assert!(a.intersects(&b));
    assert!(b.intersects(&a));
}

#[test]
fn rectangles_that_touch_edges_do_not_intersect() {
    let a = Rect::new(0, 0, 5, 5);
    let right = Rect::new(5, 0, 5, 5);
    let above = Rect::new(0, 5, 5, 5);
    assert_eq!(a.right(), right.left() - 1);
    assert!(!a.intersects(&right));
    assert!(!right.intersects(&a));
    assert!(!a.intersects(&above));
    assert!(!above.intersects(&a));
}

#[test]
fn far_rectangles_do_not_intersect() {
    let a = Rect::new(0, 0, 10, 10);
    let b = Rect::new(20, 20, 5, 5);
    assert!(!a.intersects(&b));
    assert!(!b.intersects(&a));
}

#[test]
fn contained_rectangle_intersects() {
    let a = Rect::new(0, 0, 10, 10);
    let b = Rect::new(3, 3, 2, 2);
    assert!(a.intersects(&b));
    assert!(b.intersects(&a));
    assert!(a.intersects(&a));
}
