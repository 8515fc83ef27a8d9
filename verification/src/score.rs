//! The per-rectangle area-matching score, in fixed-point arithmetic.
//!
//! The score of a rectangle of area `a` against a requested area `r` is
//! `f(s)` where `s = min(a, r) / max(a, r)` and `f(s) = s·(2 − s)`
//! (equivalently `1 − (1 − s)²`): a smooth value in `[0, 1]`, strictly
//! increasing as the area approaches the request and equal to 1 exactly
//! at `a == r`. Values are scaled by `SCALE`, so a score is an integer
//! in `[0, SCALE]`.

use vstd::prelude::*;

use vstd::arithmetic::div_mod::{lemma_div_is_ordered, lemma_div_is_ordered_by_denominator,
    lemma_div_multiples_vanish, lemma_div_pos_is_pos, lemma_fundamental_div_mod_converse};
use vstd::arithmetic::mul::lemma_mul_inequality;

use crate::geom::{lemma_area_bounds, rect_wf, spec_area, Rect};

verus! {

/// The fixed-point unit: scores and ratios are scaled by this.
pub const SCALE: i64 = 1_048_576;

/// Largest admissible area or requested area: the whole coordinate space.
pub const MAX_AREA: i64 = 100_000_000;

/// The ratio `min(area, size) / max(area, size)`, scaled by `SCALE` and
/// rounded down.
pub open spec fn spec_ratio(area: int, size: int) -> int {
    if area <= size {
        area * SCALE as int / size
    } else {
        size * SCALE as int / area
    }
}

/// The score `s·(2 − s)` of the ratio `s`, scaled by `SCALE` and rounded
/// down.
pub open spec fn spec_score(area: int, size: int) -> int {
    spec_ratio(area, size) * (2 * SCALE as int - spec_ratio(area, size)) / SCALE as int
}

/// The ratio is a fraction in `[0, 1]`, equal to 1 exactly at equality.
proof fn lemma_ratio_bounds(area: int, size: int)
    requires
        1 <= area,
        1 <= size,
    ensures
        0 <= spec_ratio(area, size) <= SCALE as int,
        spec_ratio(area, size) == SCALE as int <==> area == size,
{
    let sc = SCALE as int;
    if area <= size {
        lemma_div_pos_is_pos(area * sc, size);
        lemma_mul_inequality(area, size, sc);
        lemma_div_is_ordered(area * sc, size * sc, size);
        lemma_div_multiples_vanish(sc, size);
        assert(size * sc == sc * size) by (nonlinear_arith);
        if area < size {
            // area·sc ≤ (size − 1)·sc, whose quotient by size is below sc.
            lemma_mul_inequality(area, size - 1, sc);
            lemma_div_is_ordered(area * sc, (size - 1) * sc, size);
            assert((size - 1) * sc == (sc - 1) * size + (size - sc)) by (nonlinear_arith);
            if size <= sc {
                assert((size - 1) * sc <= (sc - 1) * size + size - 1) by (nonlinear_arith)
                    requires size >= 1 && sc >= 1,
                ;
                lemma_div_is_ordered((size - 1) * sc, (sc - 1) * size + size - 1, size);
                lemma_fundamental_div_mod_converse((sc - 1) * size + size - 1, size, sc - 1, size - 1);
            } else {
                assert((size - 1) * sc < (sc - 1) * size + size) by (nonlinear_arith)
                    requires size > sc && sc >= 1,
                ;
                lemma_div_is_ordered((size - 1) * sc, (sc - 1) * size + size - 1, size);
                lemma_fundamental_div_mod_converse((sc - 1) * size + size - 1, size, sc - 1, size - 1);
            }
        } else {
            lemma_div_multiples_vanish(sc, size);
            assert(area * sc == sc * size) by (nonlinear_arith) requires area == size,;
        }
    } else {
        lemma_div_pos_is_pos(size * sc, area);
        lemma_mul_inequality(size, area - 1, sc);
        lemma_div_is_ordered(size * sc, (area - 1) * sc, area);
        assert((area - 1) * sc == (sc - 1) * area + (area - sc)) by (nonlinear_arith);
        if area <= sc {
            assert((area - 1) * sc <= (sc - 1) * area + area - 1) by (nonlinear_arith)
                requires area >= 1 && sc >= 1,
            ;
            lemma_div_is_ordered((area - 1) * sc, (sc - 1) * area + area - 1, area);
            lemma_fundamental_div_mod_converse((sc - 1) * area + area - 1, area, sc - 1, area - 1);
        } else {
            assert((area - 1) * sc < (sc - 1) * area + area) by (nonlinear_arith)
                requires area > sc && sc >= 1,
            ;
            lemma_div_is_ordered((area - 1) * sc, (sc - 1) * area + area - 1, area);
            lemma_fundamental_div_mod_converse((sc - 1) * area + area - 1, area, sc - 1, area - 1);
        }
    }
}

/// The transform `s ↦ s·(2·SCALE − s) / SCALE` is monotone on `[0, SCALE]`
/// and stays in `[0, SCALE]`, reaching `SCALE` exactly at `s == SCALE`.
proof fn lemma_transform_props(s: int)
    requires
        0 <= s <= SCALE as int,
    ensures
        0 <= s * (2 * SCALE as int - s) / SCALE as int <= SCALE as int,
        s == SCALE as int ==> s * (2 * SCALE as int - s) / SCALE as int == SCALE as int,
        s < SCALE as int ==> (s * (2 * SCALE as int - s) / SCALE as int) < SCALE as int,
{
    let sc = SCALE as int;
    lemma_div_pos_is_pos(s * (2 * sc - s), sc);
    assert(s * (2 * sc - s) >= 0) by (nonlinear_arith) requires 0 <= s <= sc,;
    if s == sc {
        assert(s * (2 * sc - s) == sc * sc) by (nonlinear_arith) requires s == sc,;
        lemma_div_multiples_vanish(sc, sc);
        assert(sc * sc == sc * sc);
    } else {
        assert(s * (2 * sc - s) <= sc * sc - 1) by (nonlinear_arith)
            requires 0 <= s < sc,
        ;
        lemma_div_is_ordered(s * (2 * sc - s), sc * sc - 1, sc);
        lemma_fundamental_div_mod_converse(sc * sc - 1, sc, sc - 1, sc - 1);
    }
}

/// The transform is monotone: a ratio closer to 1 scores at least as well.
proof fn lemma_transform_monotone(s1: int, s2: int)
    requires
        0 <= s1 <= s2 <= SCALE as int,
    ensures
        s1 * (2 * SCALE as int - s1) / SCALE as int
            <= s2 * (2 * SCALE as int - s2) / SCALE as int,
{
    let sc = SCALE as int;
    assert(s1 * (2 * sc - s1) <= s2 * (2 * sc - s2)) by (nonlinear_arith)
        requires 0 <= s1 <= s2 <= sc,
    ;
    lemma_div_is_ordered(s1 * (2 * sc - s1), s2 * (2 * sc - s2), sc);
}

/// The score is a value in `[0, SCALE]`.
pub proof fn lemma_score_bounds(area: int, size: int)
    requires
        1 <= area,
        1 <= size,
    ensures
        0 <= spec_score(area, size) <= SCALE as int,
{
    lemma_ratio_bounds(area, size);
    lemma_transform_props(spec_ratio(area, size));
}

/// The score reaches its maximum `SCALE` exactly when the area equals the
/// requested size.
pub proof fn lemma_score_max(area: int, size: int)
    requires
        1 <= area,
        1 <= size,
    ensures
        spec_score(area, size) <= SCALE as int,
        spec_score(area, size) == SCALE as int <==> area == size,
{
    lemma_ratio_bounds(area, size);
    lemma_transform_props(spec_ratio(area, size));
}

/// The score is symmetric under swapping the area and the requested size
/// inside the ratio.
pub proof fn lemma_score_symmetric(area: int, size: int)
    requires
        1 <= area,
        1 <= size,
    ensures
        spec_score(area, size) == spec_score(size, area),
{
}

/// Moving the area toward the requested size from below does not decrease
/// the score.
pub proof fn lemma_score_monotone_below(a1: int, a2: int, size: int)
    requires
        1 <= a1 <= a2 <= size,
    ensures
        spec_score(a1, size) <= spec_score(a2, size),
{
    let sc = SCALE as int;
    lemma_mul_inequality(a1, a2, sc);
    lemma_div_is_ordered(a1 * sc, a2 * sc, size);
    lemma_ratio_bounds(a1, size);
    lemma_ratio_bounds(a2, size);
    lemma_transform_monotone(spec_ratio(a1, size), spec_ratio(a2, size));
}

/// Moving the area toward the requested size from above does not decrease
/// the score.
pub proof fn lemma_score_monotone_above(a1: int, a2: int, size: int)
    requires
        1 <= size <= a2 <= a1,
    ensures
        spec_score(a1, size) <= spec_score(a2, size),
{
    let sc = SCALE as int;
    lemma_ratio_bounds(a1, size);
    lemma_ratio_bounds(a2, size);
    if size < a2 {
        lemma_div_pos_is_pos(size * sc, a1);
        lemma_div_is_ordered_by_denominator(size * sc, a2, a1);
        lemma_transform_monotone(spec_ratio(a1, size), spec_ratio(a2, size));
    } else {
        // a2 == size: the score at a2 is the maximum.
        lemma_transform_props(spec_ratio(a1, size));
        lemma_transform_props(spec_ratio(a2, size));
    }
}

/// Fixed-point score of an area against a requested size.
pub fn score_value(area: i64, size: i64) -> (s: i64)
    requires
        1 <= area <= MAX_AREA,
        1 <= size,
    ensures
        s == spec_score(area as int, size as int),
        0 <= s <= SCALE,
{
    proof {
        lemma_ratio_bounds(area as int, size as int);
        lemma_score_bounds(area as int, size as int);
    }
    let ratio = if area <= size {
        area * SCALE / size
    } else {
        size * SCALE / area
    };
    ratio * (2 * SCALE - ratio) / SCALE
}

impl Rect {
    /// Score of this rectangle against the requested area `r`.
    pub fn score(&self, r: i64) -> (s: i64)
        requires
            rect_wf(*self),
            1 <= r,
        ensures
            s == spec_score(spec_area(*self), r as int),
            0 <= s <= SCALE,
    {
        proof {
            lemma_area_bounds(*self);
        }
        let area = self.size();
        score_value(area, r)
    }
}

/// Every requested size is a positive integer.
pub open spec fn sizes_wf(sizes: Seq<i64>) -> bool {
    forall|j: int| 0 <= j < sizes.len() ==> 1 <= #[trigger] sizes[j]
}

/// Sum of the scores of the first `n` rectangles.
pub open spec fn sum_scores(rects: Seq<Rect>, sizes: Seq<i64>, n: int) -> int
    decreases n,
{
    if n <= 0 {
        0
    } else {
        sum_scores(rects, sizes, n - 1) + spec_score(spec_area(rects[n - 1]), sizes[n - 1] as int)
    }
}

/// The total score is the sum of per-rectangle scores, each in `[0, SCALE]`.
pub proof fn lemma_sum_scores_bounds(rects: Seq<Rect>, sizes: Seq<i64>, n: int)
    requires
        0 <= n <= rects.len(),
        rects.len() == sizes.len(),
        crate::qtree::rects_wf(rects),
        sizes_wf(sizes),
    ensures
        0 <= sum_scores(rects, sizes, n) <= n * SCALE as int,
    decreases n,
{
    if n > 0 {
        lemma_sum_scores_bounds(rects, sizes, n - 1);
        lemma_area_bounds(rects[n - 1]);
        lemma_score_bounds(spec_area(rects[n - 1]), sizes[n - 1] as int);
        assert((n - 1) * SCALE as int + SCALE as int == n * SCALE as int) by (nonlinear_arith);
    }
}

/// Replacing one rectangle changes the total score by exactly the change
/// of its own score.
pub proof fn lemma_sum_scores_update(rects: Seq<Rect>, sizes: Seq<i64>, i: int, new: Rect, n: int)
    requires
        0 <= i < n <= rects.len(),
        rects.len() == sizes.len(),
    ensures
        sum_scores(rects.update(i, new), sizes, n) == sum_scores(rects, sizes, n)
            - spec_score(spec_area(rects[i]), sizes[i] as int)
            + spec_score(spec_area(new), sizes[i] as int),
    decreases n,
{
    let rects1 = rects.update(i, new);
    if i == n - 1 {
        lemma_sum_scores_same(rects, rects1, sizes, n - 1);
    } else {
        lemma_sum_scores_update(rects, sizes, i, new, n - 1);
    }
}

/// Two configurations that agree on the first `n` rectangles have the same
/// partial score sum.
proof fn lemma_sum_scores_same(rects1: Seq<Rect>, rects2: Seq<Rect>, sizes: Seq<i64>, n: int)
    requires
        0 <= n <= rects1.len(),
        n <= rects2.len(),
        forall|j: int| 0 <= j < n ==> rects1[j] == rects2[j],
    ensures
        sum_scores(rects1, sizes, n) == sum_scores(rects2, sizes, n),
    decreases n,
{
    if n > 0 {
        lemma_sum_scores_same(rects1, rects2, sizes, n - 1);
    }
}

/// Total score of a configuration, and the per-rectangle score cache.
pub fn calc_score(rects: &Vec<Rect>, sizes: &Vec<i64>) -> (r: (i64, Vec<i64>))
    requires
        rects@.len() == sizes@.len(),
        rects@.len() <= 100_000_000,
        crate::qtree::rects_wf(rects@),
        sizes_wf(sizes@),
    ensures
        r.0 == sum_scores(rects@, sizes@, rects@.len() as int),
        r.1@.len() == rects@.len(),
        forall|j: int| 0 <= j < rects@.len() ==> r.1@[j] == spec_score(
            spec_area(#[trigger] rects@[j]), sizes@[j] as int),
        0 <= r.0 <= rects@.len() * SCALE as int,
{
    let n = rects.len();
    let mut score: i64 = 0;
    let mut scores: Vec<i64> = Vec::new();
    let mut i: usize = 0;
    while i < n
        invariant
            n == rects@.len(),
            rects@.len() == sizes@.len(),
            n <= 100_000_000,
            crate::qtree::rects_wf(rects@),
            sizes_wf(sizes@),
            i <= n,
            score == sum_scores(rects@, sizes@, i as int),
            0 <= score <= i as int * SCALE as int,
            scores@.len() == i as int,
            forall|j: int| 0 <= j < i as int ==> scores@[j] == spec_score(
                spec_area(#[trigger] rects@[j]), sizes@[j] as int),
        decreases n - i,
    {
        let s = rects[i].score(sizes[i]);
        proof {
            assert(i as int * SCALE as int + SCALE as int
                == (i as int + 1) * SCALE as int) by (nonlinear_arith);
            assert((i as int + 1) * SCALE as int <= 100_000_000i64 * SCALE as int)
                by (nonlinear_arith)
                requires i as int + 1 <= 100_000_000,
            ;
        }
        score = score + s;
        scores.push(s);
        i += 1;
    }
    (score, scores)
}

} // verus!
