use town_generator::Rect;

#[test]
fn new_sets_corners() {
    let r = Rect::new(3, 4, 5, 6);
    assert_eq!((r.x1, r.y1, r.x2, r.y2), (3, 4, 8, 10));
}

#[test]
fn center_of_even_room() {
    assert_eq!(Rect::new(10, 5, 6, 6).center(), (13, 8));
}

#[test]
fn center_truncates_odd_sums() {
    assert_eq!(Rect::new(10, 5, 7, 9).center(), (13, 9));
}

#[test]
fn center_rounds_toward_zero_below_zero() {
    assert_eq!(Rect::new(-5, -5, 1, 1).center(), (-4, -4));
    assert_eq!(Rect::new(-5, -5, 2, 2).center(), (-4, -4));
}

#[test]
fn touching_edges_intersect() {
    let a = Rect::new(0, 0, 5, 5);
    let right = Rect::new(5, 0, 5, 5);
    assert!(a.intersect(&right));
    assert!(right.intersect(&a));
    let below = Rect::new(2, 5, 3, 3);
    assert!(a.intersect(&below));
    assert!(below.intersect(&a));
    let corner = Rect::new(5, 5, 2, 2);
    assert!(a.intersect(&corner));
}

#[test]
fn separated_rects_do_not_intersect() {
    let a = Rect::new(0, 0, 5, 5);
    assert!(!a.intersect(&Rect::new(6, 0, 5, 5)));
    assert!(!a.intersect(&Rect::new(0, 6, 5, 5)));
    assert!(!a.intersect(&Rect::new(6, 6, 1, 1)));
    assert!(!Rect::new(6, 0, 5, 5).intersect(&a));
}

#[test]
fn overlapping_and_contained_rects_intersect() {
    let a = Rect::new(0, 0, 10, 10);
    assert!(a.intersect(&Rect::new(2, 2, 3, 3)));
    assert!(Rect::new(2, 2, 3, 3).intersect(&a));
    assert!(a.intersect(&Rect::new(8, 8, 5, 5)));
}
