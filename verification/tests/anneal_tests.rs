use ahc001::anneal::{mc, run, ConfigError, McParams};
use ahc001::fixed::{accept_threshold, beta_fixed, exp2_fixed, log2_fixed};
use ahc001::input::{build_input, partition_sizes, InputError};
use ahc001::score::{score_value, SCALE};

#[test]
fn build_input_accepts_valid_triples() {
    let xyr = vec![(100, 100, 400i64), (200, 200, 400)];
    let inp = build_input(&xyr).unwrap();
    assert_eq!(inp.points, vec![(100, 100), (200, 200)]);
    assert_eq!(inp.sizes, vec![400, 400]);
    assert_eq!(inp.rects[0].x1, 100);
    assert_eq!(inp.rects[0].x2, 101);
    assert_eq!(inp.rects[1].y1, 200);
    assert_eq!(inp.rects[1].y2, 201);
}

#[test]
fn build_input_rejects_target_outside_grid() {
    let xyr = vec![(100, 100, 400i64), (10_000, 5, 400)];
    assert!(matches!(build_input(&xyr), Err(InputError::TargetOutOfGrid)));
    let xyr = vec![(-1, 100, 400i64)];
    assert!(matches!(build_input(&xyr), Err(InputError::TargetOutOfGrid)));
}

#[test]
fn build_input_rejects_non_positive_size() {
    let xyr = vec![(100, 100, 0i64)];
    assert!(matches!(build_input(&xyr), Err(InputError::SizeOutOfRange)));
}

#[test]
fn build_input_rejects_duplicate_targets() {
    let xyr = vec![(100, 100, 400i64), (200, 200, 300), (100, 100, 7)];
    assert!(matches!(build_input(&xyr), Err(InputError::DuplicateTarget)));
}

#[test]
fn validate_names_each_failure() {
    let good = McParams::default();
    assert_eq!(good.validate(), Ok(()));
    let mut p = McParams::default();
    p.temp0 = 0;
    assert_eq!(p.validate(), Err(ConfigError::BadTemperature));
    let mut p = McParams::default();
    p.grow_d1_start = -1;
    assert_eq!(p.validate(), Err(ConfigError::BadStepBound));
    let mut p = McParams::default();
    p.rect_grow_d1_weight = SCALE;
    p.rect_slide_weight = 1;
    assert_eq!(p.validate(), Err(ConfigError::BadWeights));
}

#[test]
fn run_rejects_invalid_params() {
    let xyr = vec![(100, 100, 400i64)];
    let inp = build_input(&xyr).unwrap();
    let mut p = McParams::default();
    p.temp1 = SCALE + 1;
    assert_eq!(run(&inp, Some(p), 5), Err(ConfigError::BadTemperature));
}

/// The end-to-end scenario: two rectangles with nearby targets and small
/// requested areas. After a short run both must be disjoint, contain their
/// targets, and beat the initial unit-box score.
#[test]
fn two_rectangles_improve_over_unit_boxes() {
    let xyr = vec![(100, 100, 400i64), (200, 200, 400)];
    let inp = build_input(&xyr).unwrap();
    let (total, best) = run(&inp, None, 50).unwrap();
    assert_eq!(best.len(), 2);
    assert!(best[0].contain(100, 100));
    assert!(best[1].contain(200, 200));
    assert!(!best[0].intersect(&best[1]));
    let initial = 2 * score_value(1, 400);
    assert!(total > initial);
    assert_eq!(total, best[0].score(400) + best[1].score(400));
}

/// Re-running with the same seed and configuration is bit-identical.
#[test]
fn rerun_with_same_seed_is_identical() {
    let xyr = vec![
        (100, 100, 400i64),
        (200, 200, 400),
        (5_000, 5_000, 1_000_000),
        (9_000, 1_000, 30_000),
    ];
    let inp = build_input(&xyr).unwrap();
    let first = run(&inp, None, 30).unwrap();
    let second = run(&inp, None, 30).unwrap();
    assert_eq!(first.0, second.0);
    assert_eq!(first.1, second.1);
    // The same holds when driving the loop with an explicit generator.
    let params = McParams::default();
    let mut rng_a = rand_pcg::Mcg128Xsl64::new(42);
    let mut rng_b = rand_pcg::Mcg128Xsl64::new(42);
    let a = mc(&mut rng_a, &params, &inp, 20);
    let b = mc(&mut rng_b, &params, &inp, 20);
    assert_eq!(a, b);
}

/// A committed configuration is valid at any budget: pairwise disjoint
/// and target-containing, with an exact total score.
#[test]
fn every_budget_yields_a_valid_configuration() {
    let xyr = vec![
        (50, 50, 10_000i64),
        (120, 60, 5_000),
        (3_000, 3_000, 2_000_000),
        (9_999, 9_999, 1),
        (7_500, 2_500, 123_456),
    ];
    let inp = build_input(&xyr).unwrap();
    for iters in [1u64, 5, 25] {
        let (total, best) = run(&inp, None, iters).unwrap();
        assert_eq!(best.len(), 5);
        let mut sum = 0i64;
        for j in 0..best.len() {
            assert!(best[j].contain(inp.points[j].0, inp.points[j].1));
            for k in 0..best.len() {
                if j != k {
                    assert!(!best[j].intersect(&best[k]));
                }
            }
            sum += best[j].score(inp.sizes[j]);
        }
        assert_eq!(total, sum);
    }
}

#[test]
fn fixed_point_exponential_anchor_values() {
    assert_eq!(exp2_fixed(0), SCALE as u64);
    assert_eq!(exp2_fixed(SCALE), 2 * SCALE as u64);
    assert_eq!(exp2_fixed(-SCALE), SCALE as u64 / 2);
    assert_eq!(log2_fixed(SCALE), 0);
    assert_eq!(log2_fixed(1), -20 * SCALE);
    assert_eq!(log2_fixed(2), -19 * SCALE);
    // A non-losing move is always accepted: the threshold saturates.
    assert_eq!(accept_threshold(0, 1 << 40), 1u64 << 63);
    // A steep loss at high inverse temperature is almost never accepted.
    assert!(accept_threshold(-SCALE, 1 << 40) < 1u64 << 33);
    // The schedule starts at beta == 1/temp0 and ends at 1/temp1.
    let b0 = beta_fixed(SCALE / 2, 1, 0, 100);
    assert_eq!(b0, 2 * SCALE as u64);
    let b1 = beta_fixed(SCALE / 2, SCALE / 4, 100, 100);
    assert_eq!(b1, 4 * SCALE as u64);
}

#[test]
fn partition_sizes_telescopes() {
    let q = vec![0i64, 10, 10, 25, 100];
    let r = partition_sizes(&q);
    assert_eq!(r, vec![10, 0, 15, 75]);
    let total: i64 = r.iter().sum();
    assert_eq!(total, 100);
}
