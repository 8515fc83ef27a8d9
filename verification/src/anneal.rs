//! The simulated-annealing engine: proposes local edits, applies the
//! Metropolis acceptance rule under a geometric temperature schedule, and
//! tracks the best configuration seen.
//!
//! The engine's state invariant is the system's safety property: at every
//! committed configuration no two rectangles intersect and every rectangle
//! contains its target point — and the same holds of the best snapshot.

use vstd::prelude::*;

use vstd::arithmetic::div_mod::{lemma_div_is_ordered, lemma_div_multiples_vanish,
    lemma_div_pos_is_pos};
use vstd::arithmetic::power2::pow2;

use crate::fixed::{accept_threshold, beta_fixed};
use crate::geom::{contains_pt, expands_at_most_one_edge, lemma_grow_rect_covers,
    lemma_intersect_common_point, rect_wf, spec_area, spec_intersect, Rect};
use crate::input::{input_wf, lemma_input_config, Input};
use crate::qtree::{pairwise_disjoint, rects_wf, QTree};
use crate::rng::{rng_new, rng_next_u32, rng_next_u64};
use crate::score::{calc_score, lemma_score_bounds, lemma_sum_scores_bounds,
    lemma_sum_scores_update, sizes_wf, spec_score, sum_scores, SCALE};

verus! {

/// Tuning parameters of the annealing run: the temperature schedule
/// endpoints, the step-size interpolation bounds of each move kind, and
/// the move-kind selection weights. All values are fixed-point, scaled by
/// `SCALE`; temperatures lie in `(0, 1]` and weights are fractions of 1.
#[derive(Clone, Copy, Debug, PartialEq, Eq, Structural)]
pub struct McParams {
    pub temp0: i64,
    pub temp1: i64,
    pub slide_d_start: i64,
    pub slide_d_end: i64,
    pub grow_d1_start: i64,
    pub grow_d1_end: i64,
    pub grow_d2_start: i64,
    pub grow_d2_end: i64,
    pub rect_grow_d1_weight: i64,
    pub rect_slide_weight: i64,
}

/// Why a parameter record was rejected at startup.
#[derive(Clone, Copy, Debug, PartialEq, Eq, Structural)]
pub enum ConfigError {
    /// A temperature endpoint is outside `(0, 1]`.
    BadTemperature,
    /// A step-size bound is negative or above the grid size.
    BadStepBound,
    /// A move-kind weight is negative or the weights exceed 1.
    BadWeights,
}

/// Largest admissible step-size bound: the whole grid, in fixed point.
pub const MAX_STEP: i64 = 10_485_760_000;

/// The temperatures lie in `(0, 1]`.
pub open spec fn temps_wf(p: McParams) -> bool {
    &&& 1 <= p.temp0 <= SCALE
    &&& 1 <= p.temp1 <= SCALE
}

/// The step-size bounds are non-negative and within the grid.
pub open spec fn steps_wf(p: McParams) -> bool {
    &&& 0 <= p.slide_d_start <= MAX_STEP
    &&& 0 <= p.slide_d_end <= MAX_STEP
    &&& 0 <= p.grow_d1_start <= MAX_STEP
    &&& 0 <= p.grow_d1_end <= MAX_STEP
    &&& 0 <= p.grow_d2_start <= MAX_STEP
    &&& 0 <= p.grow_d2_end <= MAX_STEP
}

/// The move-kind weights are non-negative fractions summing to at most 1.
pub open spec fn weights_wf(p: McParams) -> bool {
    &&& 0 <= p.rect_grow_d1_weight
    &&& 0 <= p.rect_slide_weight
    &&& p.rect_grow_d1_weight + p.rect_slide_weight <= SCALE
}

/// A valid parameter record.
pub open spec fn params_wf(p: McParams) -> bool {
    temps_wf(p) && steps_wf(p) && weights_wf(p)
}

/// The hard-coded default parameter record.
pub open spec fn spec_default_params() -> McParams {
    McParams {
        temp0: 404_912,
        temp1: 1,
        slide_d_start: 555_081_283,
        slide_d_end: 391_547_865,
        grow_d1_start: 1_134_994_821,
        grow_d1_end: 280_882_034,
        grow_d2_start: 1_427_983_839,
        grow_d2_end: 85_193_066,
        rect_grow_d1_weight: 493_480,
        rect_slide_weight: 9_482,
    }
}

impl Default for McParams {
    /// The default parameter record, which is valid.
    fn default() -> (r: McParams)
        ensures
            r == spec_default_params(),
            params_wf(r),
    {
        McParams {
            temp0: 404_912,
            temp1: 1,
            slide_d_start: 555_081_283,
            slide_d_end: 391_547_865,
            grow_d1_start: 1_134_994_821,
            grow_d1_end: 280_882_034,
            grow_d2_start: 1_427_983_839,
            grow_d2_end: 85_193_066,
            rect_grow_d1_weight: 493_480,
            rect_slide_weight: 9_482,
        }
    }
}

impl McParams {
    /// Validates the record once at startup; an invalid record would
    /// otherwise leave the optimizer silently stuck.
    pub fn validate(&self) -> (r: Result<(), ConfigError>)
        ensures
            r is Ok <==> params_wf(*self),
            r == Err::<(), ConfigError>(ConfigError::BadTemperature) <==> !temps_wf(*self),
            r == Err::<(), ConfigError>(ConfigError::BadStepBound)
                <==> temps_wf(*self) && !steps_wf(*self),
            r == Err::<(), ConfigError>(ConfigError::BadWeights)
                <==> temps_wf(*self) && steps_wf(*self) && !weights_wf(*self),
    {
        if !(1 <= self.temp0 && self.temp0 <= SCALE && 1 <= self.temp1 && self.temp1 <= SCALE) {
            return Err(ConfigError::BadTemperature);
        }
        if !(0 <= self.slide_d_start && self.slide_d_start <= MAX_STEP
            && 0 <= self.slide_d_end && self.slide_d_end <= MAX_STEP
            && 0 <= self.grow_d1_start && self.grow_d1_start <= MAX_STEP
            && 0 <= self.grow_d1_end && self.grow_d1_end <= MAX_STEP
            && 0 <= self.grow_d2_start && self.grow_d2_start <= MAX_STEP
            && 0 <= self.grow_d2_end && self.grow_d2_end <= MAX_STEP) {
            return Err(ConfigError::BadStepBound);
        }
        if !(0 <= self.rect_grow_d1_weight && 0 <= self.rect_slide_weight
            && self.rect_grow_d1_weight <= SCALE && self.rect_slide_weight <= SCALE
            && self.rect_grow_d1_weight + self.rect_slide_weight <= SCALE) {
            return Err(ConfigError::BadWeights);
        }
        Ok(())
    }
}

/// The step-size bound at normalized time `t_num / t_den`: two more than
/// the linear interpolation between the start and end bounds, so that the
/// half-open sampling range `[1, bound)` is never empty.
pub open spec fn spec_step_bound(start: int, end: int, t_num: int, t_den: int) -> int {
    2 + (start * (t_den - t_num) + end * t_num) / t_den / SCALE as int
}

/// Interpolated step-size bound for one move kind.
fn step_bound(start: i64, end: i64, t_num: u64, t_den: u64) -> (b: i32)
    requires
        0 <= start <= MAX_STEP,
        0 <= end <= MAX_STEP,
        t_num <= t_den,
        1 <= t_den <= 0xFFFF_FFFF,
    ensures
        b as int == spec_step_bound(start as int, end as int, t_num as int, t_den as int),
        2 <= b <= 10_002,
{
    proof {
        let st = start as int;
        let en = end as int;
        let tn = t_num as int;
        let td = t_den as int;
        let num = st * (td - tn) + en * tn;
        assert(0 <= st * (td - tn) + en * tn
            && st * (td - tn) + en * tn <= MAX_STEP as int * td) by (nonlinear_arith)
            requires
                0 <= st <= MAX_STEP as int,
                0 <= en <= MAX_STEP as int,
                0 <= tn <= td,
        ;
        lemma_div_pos_is_pos(num, td);
        lemma_div_is_ordered(num, MAX_STEP as int * td, td);
        assert(MAX_STEP as int * td == td * MAX_STEP as int) by (nonlinear_arith);
        lemma_div_multiples_vanish(MAX_STEP as int, td);
        lemma_div_pos_is_pos(num / td, SCALE as int);
        lemma_div_is_ordered(num / td, MAX_STEP as int, SCALE as int);
    }
    let num: i128 = start as i128 * (t_den - t_num) as i128 + end as i128 * t_num as i128;
    let v = ((num / t_den as i128) / SCALE as i128) as i64;
    2 + v as i32
}

/// Copies a vector of plain values.
fn copy_vec<T: Copy>(v: &Vec<T>) -> (r: Vec<T>)
    ensures
        r@ == v@,
{
    let mut r: Vec<T> = Vec::new();
    let mut i: usize = 0;
    while i < v.len()
        invariant
            i <= v@.len(),
            r@.len() == i as int,
            forall|k: int| 0 <= k < i as int ==> r@[k] == v@[k],
        decreases v@.len() - i,
    {
        let x = v[i];
        r.push(x);
        i += 1;
    }
    proof {
        assert(r@ =~= v@);
    }
    r
}

/// A committed configuration is valid: well-formed rectangles, pairwise
/// disjoint, each containing its target point.
pub open spec fn config_ok(rects: Seq<Rect>, points: Seq<(i32, i32)>) -> bool {
    &&& rects.len() == points.len()
    &&& rects_wf(rects)
    &&& pairwise_disjoint(rects)
    &&& forall|j: int| 0 <= j < rects.len() ==> contains_pt(
            #[trigger] rects[j], points[j].0 as int, points[j].1 as int)
}

/// The engine's mutable state: the current configuration with its score
/// cache and spatial index, and the best configuration seen so far.
pub struct McState {
    pub rects: Vec<Rect>,
    pub points: Vec<(i32, i32)>,
    pub sizes: Vec<i64>,
    pub scores: Vec<i64>,
    pub score: i64,
    pub best: Vec<Rect>,
    pub best_score: i64,
    pub qtree: QTree,
}

impl McState {
    /// The engine invariant, re-established after every committed move:
    /// both the current and the best configuration are valid, the score
    /// cache is exact, and the spatial index matches the configuration.
    pub open spec fn wf(self) -> bool {
        let n = self.rects@.len();
        &&& 1 <= n <= 100_000_000
        &&& self.points@.len() == n
        &&& self.sizes@.len() == n
        &&& self.scores@.len() == n
        &&& self.best@.len() == n
        &&& config_ok(self.rects@, self.points@)
        &&& config_ok(self.best@, self.points@)
        &&& sizes_wf(self.sizes@)
        &&& forall|j: int| 0 <= j < n ==> self.scores@[j] == spec_score(
                spec_area(#[trigger] self.rects@[j]), self.sizes@[j] as int)
        &&& self.score == sum_scores(self.rects@, self.sizes@, n as int)
        &&& self.best_score == sum_scores(self.best@, self.sizes@, n as int)
        &&& self.best_score >= self.score
        &&& self.qtree.inv(self.rects@)
    }

    /// The parts of the state that no move ever changes.
    pub open spec fn same_problem(self, other: McState) -> bool {
        &&& self.points@ == other.points@
        &&& self.sizes@ == other.sizes@
        &&& self.rects@.len() == other.rects@.len()
    }

    /// Initial state: the instance's unit boxes, their scores, and the
    /// freshly built spatial index.
    pub fn new(input: &Input) -> (s: McState)
        requires
            input_wf(*input),
            1 <= input.rects@.len(),
        ensures
            s.wf(),
            s.rects@ == input.rects@,
            s.best@ == input.rects@,
            s.points@ == input.points@,
            s.sizes@ == input.sizes@,
    {
        proof {
            lemma_input_config(*input);
        }
        let rects = copy_vec(&input.rects);
        let points = copy_vec(&input.points);
        let sizes = copy_vec(&input.sizes);
        let (score, scores) = calc_score(&rects, &sizes);
        let qtree = QTree::new(&rects);
        let best = copy_vec(&rects);
        McState {
            rects,
            points,
            sizes,
            scores,
            score,
            best,
            best_score: score,
            qtree,
        }
    }

    /// One proposal: draw a candidate edit, test target containment, apply
    /// the Metropolis rule, check geometric feasibility via the spatial
    /// index, and commit on full acceptance. Whatever the generator draws,
    /// the engine invariant is preserved and the best score never drops.
    fn try_move(
        &mut self,
        rng: &mut rand_pcg::Mcg128Xsl64,
        params: &McParams,
        beta: u64,
        slide_bound: i32,
        grow1_bound: i32,
        grow2_bound: i32,
    )
        requires
            old(self).wf(),
            params_wf(*params),
            beta as int <= pow2(41) as int,
            2 <= slide_bound <= 10_002,
            2 <= grow1_bound <= 10_002,
            2 <= grow2_bound <= 10_002,
        ensures
            (*final(self)).wf(),
            old(self).same_problem(*final(self)),
            final(self).best_score >= old(self).best_score,
    {
        let n = self.rects.len();
        let i = (rng_next_u32(rng) as usize) % n;
        let rect = self.rects[i];
        let new_opt = propose(rng, &rect, params, slide_bound, grow1_bound, grow2_bound);
        let new = match new_opt {
            None => {
                return;
            },
            Some(new) => new,
        };
        let pt = self.points[i];
        if !new.contain(pt.0, pt.1) {
            return;
        }
        proof {
            crate::geom::lemma_area_bounds(self.rects@[i as int]);
            lemma_score_bounds(spec_area(self.rects@[i as int]), self.sizes@[i as int] as int);
        }
        let new_score = new.score(self.sizes[i]);
        let diff = new_score - self.scores[i];
        if diff < 0 {
            let draw = rng_next_u64(rng);
            let threshold = accept_threshold(diff, beta);
            if !((draw >> 1u64) < threshold) {
                return;
            }
        }
        let ghost old_rects = self.rects@;
        let ghost gi = i as int;
        match rect.grow_rect(&new) {
            Some(gd) => {
                let g = gd.0;
                if self.qtree.intersect(&g, &self.rects) {
                    return;
                }
                proof {
                    lemma_grow_rect_covers(rect, new);
                    assert forall|j: int| 0 <= j < n as int && j != gi implies
                        !spec_intersect(new, old_rects[j])
                        && !spec_intersect(#[trigger] old_rects[j], new) by {
                        lemma_intersect_common_point(new, old_rects[j]);
                        lemma_intersect_common_point(old_rects[j], new);
                        lemma_intersect_common_point(rect, old_rects[j]);
                        lemma_intersect_common_point(g, old_rects[j]);
                        assert(!spec_intersect(g, old_rects[j]));
                    }
                }
            },
            None => {
                proof {
                    lemma_grow_rect_covers(rect, new);
                    assert forall|j: int| 0 <= j < n as int && j != gi implies
                        !spec_intersect(new, old_rects[j])
                        && !spec_intersect(#[trigger] old_rects[j], new) by {
                        lemma_intersect_common_point(new, old_rects[j]);
                        lemma_intersect_common_point(old_rects[j], new);
                        lemma_intersect_common_point(rect, old_rects[j]);
                    }
                }
            },
        }
        // Commit: move index i in the spatial index, then replace the
        // rectangle, its cached score, and the running total.
        self.qtree.update(&new, &rect, i, &self.rects);
        self.rects[i] = new;
        self.scores[i] = new_score;
        proof {
            assert(self.rects@ == old_rects.update(gi, new));
            lemma_sum_scores_bounds(old_rects, self.sizes@, n as int);
            lemma_sum_scores_update(old_rects, self.sizes@, gi, new, n as int);
        }
        self.score = self.score + diff;
        proof {
            assert forall|a: int, b: int| #![trigger self.rects@[a], self.rects@[b]]
                0 <= a < n as int && 0 <= b < n as int && a != b implies
                !spec_intersect(self.rects@[a], self.rects@[b]) by {
                if a == gi {
                    assert(!spec_intersect(new, old_rects[b]));
                } else if b == gi {
                    assert(!spec_intersect(old_rects[a], new));
                } else {
                    assert(!spec_intersect(old_rects[a], old_rects[b]));
                }
            }
            assert forall|j: int| 0 <= j < n as int implies contains_pt(
                #[trigger] self.rects@[j], self.points@[j].0 as int,
                self.points@[j].1 as int) by {
                if j != gi {
                    assert(self.rects@[j] == old_rects[j]);
                }
            }
            assert forall|j: int| 0 <= j < n as int implies rect_wf(
                #[trigger] self.rects@[j]) by {
                if j != gi {
                    assert(self.rects@[j] == old_rects[j]);
                }
            }
        }
        if self.score > self.best_score {
            self.best_score = self.score;
            let b = copy_vec(&self.rects);
            self.best = b;
        }
    }

    /// One outer block: recomputes the temperature and the interpolated
    /// step bounds for the normalized time `t_num / t_den`, then runs a
    /// fixed number of proposals.
    pub fn run_block(
        &mut self,
        rng: &mut rand_pcg::Mcg128Xsl64,
        params: &McParams,
        t_num: u64,
        t_den: u64,
    )
        requires
            old(self).wf(),
            params_wf(*params),
            t_num <= t_den,
            1 <= t_den <= 0xFFFF_FFFF,
        ensures
            (*final(self)).wf(),
            old(self).same_problem(*final(self)),
            final(self).best_score >= old(self).best_score,
    {
        let ghost s0 = *self;
        let beta = beta_fixed(params.temp0, params.temp1, t_num, t_den);
        let slide_bound = step_bound(params.slide_d_start, params.slide_d_end, t_num, t_den);
        let grow1_bound = step_bound(params.grow_d1_start, params.grow_d1_end, t_num, t_den);
        let grow2_bound = step_bound(params.grow_d2_start, params.grow_d2_end, t_num, t_den);
        let mut it: u32 = 0;
        while it < 1000
            invariant
                self.wf(),
                s0.same_problem(*self),
                self.best_score >= s0.best_score,
                params_wf(*params),
                beta as int <= pow2(41) as int,
                2 <= slide_bound <= 10_002,
                2 <= grow1_bound <= 10_002,
                2 <= grow2_bound <= 10_002,
            decreases 1000 - it,
        {
            self.try_move(rng, params, beta, slide_bound, grow1_bound, grow2_bound);
            it += 1;
        }
    }
}

/// Draws one candidate edit for `rect`: a move kind by the weight table,
/// a step magnitude from the interpolated bound, and a direction. The
/// result, if any, is well-formed and advances at most one edge, whatever
/// the generator draws.
fn propose(
    rng: &mut rand_pcg::Mcg128Xsl64,
    rect: &Rect,
    params: &McParams,
    slide_bound: i32,
    grow1_bound: i32,
    grow2_bound: i32,
) -> (r: Option<Rect>)
    requires
        rect_wf(*rect),
        params_wf(*params),
        2 <= slide_bound <= 10_002,
        2 <= grow1_bound <= 10_002,
        2 <= grow2_bound <= 10_002,
    ensures
        r matches Some(nr) ==> rect_wf(nr) && expands_at_most_one_edge(*rect, nr),
{
    let pw = (rng_next_u32(rng) >> 12u32) as i64;
    if pw < params.rect_grow_d1_weight {
        // Single-edge grow or shrink.
        let d = 1 + (rng_next_u32(rng) % (grow1_bound as u32 - 1)) as i32;
        match rng_next_u32(rng) % 8 {
            0 => rect.grow_x1(d),
            1 => rect.grow_x1(-d),
            2 => rect.grow_x2(d),
            3 => rect.grow_x2(-d),
            4 => rect.grow_y1(d),
            5 => rect.grow_y1(-d),
            6 => rect.grow_y2(d),
            _ => rect.grow_y2(-d),
        }
    } else if pw < params.rect_grow_d1_weight + params.rect_slide_weight {
        // Translation.
        let d = 1 + (rng_next_u32(rng) % (slide_bound as u32 - 1)) as i32;
        match rng_next_u32(rng) % 4 {
            0 => rect.slide_x(d),
            1 => rect.slide_x(-d),
            2 => rect.slide_y(d),
            _ => rect.slide_y(-d),
        }
    } else {
        // Opposite-edge pair: one edge retracts, another advances.
        let d1 = 1 + (rng_next_u32(rng) % (grow2_bound as u32 - 1)) as i32;
        let kind = rng_next_u32(rng) % 12;
        let first = match kind {
            0 | 2 => rect.grow_x1(d1),
            1 | 3 => rect.grow_x1(-d1),
            4 | 6 => rect.grow_x2(d1),
            5 | 7 => rect.grow_x2(-d1),
            8 => rect.grow_x1(d1),
            9 => rect.grow_x1(-d1),
            10 => rect.grow_y1(d1),
            _ => rect.grow_y1(-d1),
        };
        let r1 = match first {
            None => {
                return None;
            },
            Some(r1) => r1,
        };
        let d2 = 1 + (rng_next_u32(rng) % (grow2_bound as u32 - 1)) as i32;
        match kind {
            0 => r1.grow_y1(-d2),
            1 => r1.grow_y1(d2),
            2 => r1.grow_y2(d2),
            3 => r1.grow_y2(-d2),
            4 => r1.grow_y1(d2),
            5 => r1.grow_y1(-d2),
            6 => r1.grow_y2(-d2),
            7 => r1.grow_y2(d2),
            8 => r1.grow_x2(d2),
            9 => r1.grow_x2(-d2),
            10 => r1.grow_y2(d2),
            _ => r1.grow_y2(-d2),
        }
    }
}

/// The main annealing loop: a deterministic number of outer blocks, each
/// of a fixed number of proposals, with the normalized time advancing
/// block by block. Returns the best score found and the best
/// configuration, which is valid: pairwise disjoint, every rectangle
/// containing its target point.
pub fn mc(
    rng: &mut rand_pcg::Mcg128Xsl64,
    params: &McParams,
    input: &Input,
    outer_iters: u64,
) -> (r: (i64, Vec<Rect>))
    requires
        input_wf(*input),
        1 <= input.rects@.len(),
        params_wf(*params),
        1 <= outer_iters <= 0xFFFF_FFFF,
    ensures
        r.1@.len() == input.rects@.len(),
        config_ok(r.1@, input.points@),
        r.0 == sum_scores(r.1@, input.sizes@, input.rects@.len() as int),
{
    let mut state = McState::new(input);
    let mut it: u64 = 0;
    while it < outer_iters
        invariant
            state.wf(),
            state.points@ == input.points@,
            state.sizes@ == input.sizes@,
            state.rects@.len() == input.rects@.len(),
            params_wf(*params),
            it <= outer_iters,
            1 <= outer_iters <= 0xFFFF_FFFF,
        decreases outer_iters - it,
    {
        state.run_block(rng, params, it, outer_iters);
        it += 1;
    }
    (state.best_score, state.best)
}

/// The parameters a run uses: the caller's record, or the default.
pub open spec fn chosen_params(params: Option<McParams>) -> McParams {
    match params {
        Some(p) => p,
        None => spec_default_params(),
    }
}

/// Runs the optimizer on a validated instance with a fixed seed: validates
/// the parameters, then anneals for the given number of outer blocks. The
/// result configuration is valid, and an invalid parameter record is
/// rejected up front.
pub fn run(input: &Input, params: Option<McParams>, outer_iters: u64) -> (r: Result<
    (i64, Vec<Rect>),
    ConfigError,
>)
    requires
        input_wf(*input),
        1 <= outer_iters <= 0xFFFF_FFFF,
    ensures
        r is Ok <==> params_wf(chosen_params(params)),
        r matches Ok(out) ==> {
            &&& out.1@.len() == input.rects@.len()
            &&& config_ok(out.1@, input.points@)
            &&& out.0 == sum_scores(out.1@, input.sizes@, input.rects@.len() as int)
        },
{
    let p = match params {
        Some(p) => p,
        None => McParams::default(),
    };
    match p.validate() {
        Err(e) => Err(e),
        Ok(()) => {
            if input.rects.len() == 0 {
                let empty: Vec<Rect> = Vec::new();
                Ok((0, empty))
            } else {
                let mut rng = rng_new(1);
                Ok(mc(&mut rng, &p, input, outer_iters))
            }
        },
    }
}

} // verus!
