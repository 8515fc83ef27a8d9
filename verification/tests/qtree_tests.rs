use ahc001::geom::{PushDirection, Rect, L};
use ahc001::qtree::{intersect, QTree};
use rand::RngCore;

fn exhaustive(grow: &Rect, rects: &Vec<Rect>) -> bool {
    rects.iter().any(|r| grow.intersect(r))
}

fn random_rect(rng: &mut rand_pcg::Mcg128Xsl64) -> Rect {
    let x1 = (rng.next_u32() % 9_990) as i32;
    let y1 = (rng.next_u32() % 9_990) as i32;
    let w = 1 + (rng.next_u32() % 3_000) as i32;
    let h = 1 + (rng.next_u32() % 3_000) as i32;
    Rect::new(x1, (x1 + w).min(L), y1, (y1 + h).min(L))
}

/// A disjoint configuration: rectangles laid out on a coarse grid with
/// random sizes inside their own slots.
fn random_disjoint_config(rng: &mut rand_pcg::Mcg128Xsl64, per_axis: i32) -> Vec<Rect> {
    let slot = L / per_axis;
    let mut rects = Vec::new();
    for gx in 0..per_axis {
        for gy in 0..per_axis {
            if rng.next_u32() % 4 == 0 {
                continue;
            }
            let x1 = gx * slot + (rng.next_u32() % (slot as u32 / 2)) as i32;
            let y1 = gy * slot + (rng.next_u32() % (slot as u32 / 2)) as i32;
            let w = 1 + (rng.next_u32() % (slot as u32 / 2)) as i32;
            let h = 1 + (rng.next_u32() % (slot as u32 / 2)) as i32;
            rects.push(Rect::new(x1, x1 + w, y1, y1 + h));
        }
    }
    rects
}

#[test]
fn query_matches_exhaustive_scan() {
    let mut rng = rand_pcg::Mcg128Xsl64::new(7);
    for per_axis in [4, 8, 20] {
        let rects = random_disjoint_config(&mut rng, per_axis);
        let qtree = QTree::new(&rects);
        for _ in 0..300 {
            let cand = random_rect(&mut rng);
            assert_eq!(qtree.intersect(&cand, &rects), exhaustive(&cand, &rects));
        }
    }
}

#[test]
fn query_matches_scan_after_updates() {
    let mut rng = rand_pcg::Mcg128Xsl64::new(11);
    let mut rects = random_disjoint_config(&mut rng, 8);
    let mut qtree = QTree::new(&rects);
    for round in 0..200 {
        // Replace one rectangle by a fresh one (ignoring disjointness:
        // the query is specified for any configuration).
        let i = (rng.next_u32() as usize) % rects.len();
        let old = rects[i];
        let new = if round % 3 == 0 { random_rect(&mut rng) } else { old };
        qtree.update(&new, &old, i, &rects);
        rects[i] = new;
        let cand = random_rect(&mut rng);
        assert_eq!(qtree.intersect(&cand, &rects), exhaustive(&cand, &rects));
    }
}

#[test]
fn free_intersect_is_the_scan() {
    let mut rng = rand_pcg::Mcg128Xsl64::new(13);
    let rects = random_disjoint_config(&mut rng, 6);
    for _ in 0..100 {
        let cand = random_rect(&mut rng);
        assert_eq!(intersect(&cand, &rects), exhaustive(&cand, &rects));
    }
}

#[test]
fn update_with_unchanged_rect_is_a_noop() {
    let rects = vec![
        Rect::new(0, 100, 0, 100),
        Rect::new(200, 300, 200, 300),
        Rect::new(6_000, 9_000, 6_000, 9_000),
    ];
    let mut qtree = QTree::new(&rects);
    let before = format!("{:?}", qtree);
    for i in 0..rects.len() {
        let r = rects[i];
        qtree.update(&r, &r, i, &rects);
    }
    assert_eq!(before, format!("{:?}", qtree));
}

#[test]
fn push_by_returns_complete_consistent_set() {
    // One rectangle grows rightward into two neighbours; both can shrink.
    let rects = vec![
        Rect::new(0, 100, 0, 200),
        Rect::new(120, 220, 0, 90),
        Rect::new(120, 220, 110, 200),
        Rect::new(500, 600, 500, 600),
    ];
    let points = vec![(50, 100), (200, 50), (200, 150), (550, 550)];
    let qtree = QTree::new(&rects);
    // The strip added when rectangle 0 grows to x2 == 150.
    let grow = Rect::new(100, 150, 0, 200);
    let pushed = qtree
        .push_by(&grow, PushDirection::X2, &rects, &points)
        .unwrap();
    let mut got: Vec<(usize, Rect)> = pushed.clone();
    got.sort_by_key(|e| e.0);
    assert_eq!(
        got,
        vec![
            (1, Rect::new(150, 220, 0, 90)),
            (2, Rect::new(150, 220, 110, 200)),
        ]
    );
    // Replacements still contain their targets and clear the strip.
    for &(j, p) in pushed.iter() {
        assert!(p.contain(points[j].0, points[j].1));
        assert!(!p.intersect(&grow));
    }
}

#[test]
fn push_by_rejects_when_target_would_be_evicted() {
    // The neighbour's target sits where the grow strip lands, so the
    // retracted rectangle would no longer contain it.
    let rects = vec![Rect::new(0, 100, 0, 100), Rect::new(120, 220, 0, 100)];
    let points = vec![(50, 50), (130, 50)];
    let qtree = QTree::new(&rects);
    let grow = Rect::new(100, 180, 0, 100);
    assert_eq!(
        qtree.push_by(&grow, PushDirection::X2, &rects, &points),
        None
    );
    // No side effects: the query borrows the state immutably, and the
    // configuration is untouched.
    assert_eq!(rects[0], Rect::new(0, 100, 0, 100));
    assert_eq!(rects[1], Rect::new(120, 220, 0, 100));
}

#[test]
fn push_by_far_rectangles_untouched() {
    let rects = vec![Rect::new(0, 100, 0, 100), Rect::new(5_000, 5_100, 5_000, 5_100)];
    let points = vec![(50, 50), (5_050, 5_050)];
    let qtree = QTree::new(&rects);
    let grow = Rect::new(100, 120, 0, 100);
    let pushed = qtree
        .push_by(&grow, PushDirection::X2, &rects, &points)
        .unwrap();
    assert!(pushed.is_empty());
}
