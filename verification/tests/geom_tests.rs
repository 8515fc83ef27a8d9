use ahc001::geom::{PushDirection, Rect, L};
use ahc001::score::{score_value, SCALE};

#[test]
fn intersect_open_interiors() {
    let a = Rect::new(0, 10, 0, 10);
    let b = Rect::new(5, 15, 5, 15);
    let c = Rect::new(10, 20, 0, 10);
    let d = Rect::new(20, 30, 20, 30);
    assert!(a.intersect(&b));
    assert!(b.intersect(&a));
    // Touching edges do not count as intersecting.
    assert!(!a.intersect(&c));
    assert!(!c.intersect(&a));
    assert!(!a.intersect(&d));
}

#[test]
fn contain_is_half_open() {
    let r = Rect::new(2, 5, 3, 7);
    assert!(r.contain(2, 3));
    assert!(r.contain(4, 6));
    assert!(!r.contain(5, 3));
    assert!(!r.contain(2, 7));
    assert!(!r.contain(1, 3));
}

#[test]
fn slide_respects_bounds() {
    let r = Rect::new(0, 10, 0, 10);
    assert_eq!(r.slide_x(5), Some(Rect::new(5, 15, 0, 10)));
    assert_eq!(r.slide_x(-1), None);
    // slide allows the right edge to reach L exactly.
    assert_eq!(r.slide_x(L - 10), Some(Rect::new(L - 10, L, 0, 10)));
    assert_eq!(r.slide_x(L - 9), None);
    assert_eq!(r.slide_y(3), Some(Rect::new(0, 10, 3, 13)));
    assert_eq!(r.slide_y(-3), None);
}

#[test]
fn move_stays_strictly_inside() {
    let r = Rect::new(0, 10, 0, 10);
    // move rejects a right edge at L, one step earlier than slide.
    assert_eq!(r.move_x(L - 10), None);
    assert_eq!(r.move_x(L - 11), Some(Rect::new(L - 11, L - 1, 0, 10)));
    assert_eq!(r.move_y(-1), None);
    assert_eq!(r.move_y(5), Some(Rect::new(0, 10, 5, 15)));
}

#[test]
fn grow_single_edges() {
    let r = Rect::new(10, 20, 10, 20);
    assert_eq!(r.grow_x1(-5), Some(Rect::new(5, 20, 10, 20)));
    assert_eq!(r.grow_x1(9), Some(Rect::new(19, 20, 10, 20)));
    assert_eq!(r.grow_x1(10), None);
    assert_eq!(r.grow_x2(5), Some(Rect::new(10, 25, 10, 20)));
    assert_eq!(r.grow_x2(-9), Some(Rect::new(10, 11, 10, 20)));
    assert_eq!(r.grow_x2(-10), None);
    assert_eq!(r.grow_y1(-10), Some(Rect::new(10, 20, 0, 20)));
    assert_eq!(r.grow_y1(-11), None);
    assert_eq!(r.grow_y2(L - 20), Some(Rect::new(10, 20, 10, L)));
    assert_eq!(r.grow_y2(L - 19), None);
}

#[test]
fn grow_rect_reports_first_advancing_edge() {
    let old = Rect::new(10, 20, 10, 20);
    // Left edge advances.
    let n1 = Rect::new(5, 20, 10, 20);
    assert_eq!(
        old.grow_rect(&n1),
        Some((Rect::new(5, 10, 10, 20), PushDirection::X1))
    );
    // Bottom edge advances.
    let n2 = Rect::new(10, 20, 5, 20);
    assert_eq!(
        old.grow_rect(&n2),
        Some((Rect::new(10, 20, 5, 10), PushDirection::Y1))
    );
    // Right edge advances.
    let n3 = Rect::new(10, 25, 10, 20);
    assert_eq!(
        old.grow_rect(&n3),
        Some((Rect::new(20, 25, 10, 20), PushDirection::X2))
    );
    // Top edge advances.
    let n4 = Rect::new(10, 20, 10, 25);
    assert_eq!(
        old.grow_rect(&n4),
        Some((Rect::new(10, 20, 20, 25), PushDirection::Y2))
    );
    // A pure shrink has no grow strip.
    let n5 = Rect::new(11, 19, 11, 19);
    assert_eq!(old.grow_rect(&n5), None);
}

#[test]
fn push_by_retracts_matching_edge() {
    let r = Rect::new(10, 20, 10, 20);
    let grow = Rect::new(15, 25, 10, 20);
    assert_eq!(
        r.push_by(&grow, PushDirection::X1),
        Rect::new(10, 15, 10, 20)
    );
    assert_eq!(
        r.push_by(&grow, PushDirection::X2),
        Rect::new(25, 20, 10, 20)
    );
    let grow_y = Rect::new(10, 20, 15, 25);
    assert_eq!(
        r.push_by(&grow_y, PushDirection::Y1),
        Rect::new(10, 20, 10, 15)
    );
    assert_eq!(
        r.push_by(&grow_y, PushDirection::Y2),
        Rect::new(10, 20, 25, 20)
    );
}

#[test]
fn size_is_the_area() {
    assert_eq!(Rect::new(0, 1, 0, 1).size(), 1);
    assert_eq!(Rect::new(0, L, 0, L).size(), 100_000_000);
    assert_eq!(Rect::new(3, 7, 5, 10).size(), 20);
}

#[test]
fn score_exact_values() {
    // Maximum exactly at area == size.
    assert_eq!(score_value(400, 400), SCALE);
    assert_eq!(score_value(1, 400), 5_235);
    assert_eq!(score_value(399, 400), 1_048_569);
    assert_eq!(score_value(401, 400), 1_048_569);
    assert_eq!(score_value(200, 400), 786_432);
}

#[test]
fn score_monotone_toward_target() {
    // From below: area approaching size never lowers the score.
    let mut prev = score_value(1, 400);
    for a in 2..=400 {
        let s = score_value(a, 400);
        assert!(s >= prev);
        prev = s;
    }
    // From above: area receding from size never raises the score.
    let mut prev = score_value(400, 400);
    for a in 401..=800 {
        let s = score_value(a, 400);
        assert!(s <= prev);
        assert!(s < SCALE);
        prev = s;
    }
}

#[test]
fn score_symmetric_in_ratio() {
    assert_eq!(score_value(300, 700), score_value(700, 300));
    assert_eq!(score_value(300, 700), 706_183);
    assert_eq!(score_value(1, 99), score_value(99, 1));
}

#[test]
fn rect_score_uses_area() {
    let r = Rect::new(0, 20, 0, 20);
    assert_eq!(r.score(400), SCALE);
    assert_eq!(r.score(800), score_value(400, 800));
}
