//! Problem instances: target points with requested areas, validated once
//! at load time.
//!
//! Each rectangle starts as the unit box at its target point; a malformed
//! instance (a target outside the grid, a non-positive requested area, or
//! two identical targets) is rejected before the optimizer ever runs.

use vstd::prelude::*;

use crate::geom::{contains_pt, rect_wf, spec_intersect, Rect, L};
use crate::qtree::{pairwise_disjoint, rects_wf};
use crate::score::sizes_wf;

verus! {

/// A problem instance: parallel sequences of start rectangles, immutable
/// target points, and requested areas.
pub struct Input {
    pub rects: Vec<Rect>,
    pub points: Vec<(i32, i32)>,
    pub sizes: Vec<i64>,
}

/// Why an instance was rejected at load time.
#[derive(Clone, Copy, Debug, PartialEq, Eq, Structural)]
pub enum InputError {
    /// Some target point lies outside `[0, L)²`.
    TargetOutOfGrid,
    /// Some requested area is not a positive integer.
    SizeOutOfRange,
    /// Two rectangles share the same target point.
    DuplicateTarget,
}

/// The unit box whose lower-left corner is the point `(x, y)`.
pub open spec fn unit_box(x: i32, y: i32) -> Rect {
    Rect { x1: x, x2: (x + 1) as i32, y1: y, y2: (y + 1) as i32 }
}

/// A well-formed instance: parallel sequences, every target strictly in
/// the grid and distinct, every requested area positive, and every
/// rectangle the unit box at its target.
pub open spec fn input_wf(inp: Input) -> bool {
    let n = inp.rects@.len();
    &&& inp.points@.len() == n
    &&& inp.sizes@.len() == n
    &&& n <= 100_000_000
    &&& forall|j: int| 0 <= j < n ==> {
            let p = #[trigger] inp.points@[j];
            &&& 0 <= p.0 < L
            &&& 0 <= p.1 < L
            &&& inp.rects@[j] == unit_box(p.0, p.1)
            &&& 1 <= inp.sizes@[j]
        }
    &&& forall|j1: int, j2: int| #![trigger inp.points@[j1], inp.points@[j2]]
            0 <= j1 < j2 < n ==> inp.points@[j1] != inp.points@[j2]
}

/// A well-formed instance starts as a valid configuration: well-formed
/// unit boxes, pairwise disjoint, each containing its own target.
pub proof fn lemma_input_config(inp: Input)
    requires
        input_wf(inp),
    ensures
        rects_wf(inp.rects@),
        pairwise_disjoint(inp.rects@),
        sizes_wf(inp.sizes@),
        forall|j: int| 0 <= j < inp.rects@.len() ==> contains_pt(
            #[trigger] inp.rects@[j], inp.points@[j].0 as int, inp.points@[j].1 as int),
{
    let n = inp.rects@.len();
    assert forall|j: int| 0 <= j < n implies rect_wf(#[trigger] inp.rects@[j]) by {
        let p = inp.points@[j];
        assert(inp.rects@[j] == unit_box(p.0, p.1));
    }
    assert forall|j: int| 0 <= j < n implies 1 <= #[trigger] inp.sizes@[j] by {
        let p = inp.points@[j];
    }
    assert forall|a: int, b: int| #![trigger inp.rects@[a], inp.rects@[b]]
        0 <= a < n && 0 <= b < n && a != b implies !spec_intersect(
            inp.rects@[a], inp.rects@[b]) by {
        let pa = inp.points@[a];
        let pb = inp.points@[b];
        if a < b {
            assert(inp.points@[a] != inp.points@[b]);
        } else {
            assert(inp.points@[b] != inp.points@[a]);
        }
        assert(pa.0 != pb.0 || pa.1 != pb.1);
    }
}

/// Builds and validates an instance from `(x, y, r)` triples. Each
/// rectangle starts as the unit box at its target point. The first check
/// that fails names the error: targets in range, then areas positive,
/// then targets distinct.
pub fn build_input(xyr: &Vec<(i32, i32, i64)>) -> (r: Result<Input, InputError>)
    requires
        xyr@.len() <= 100_000_000,
    ensures
        r matches Ok(inp) ==> {
            &&& input_wf(inp)
            &&& inp.rects@.len() == xyr@.len()
            &&& forall|j: int| 0 <= j < xyr@.len() ==> {
                    let t = #[trigger] xyr@[j];
                    &&& inp.points@[j] == (t.0, t.1)
                    &&& inp.sizes@[j] == t.2
                    &&& inp.rects@[j] == unit_box(t.0, t.1)
                }
        },
        r == Err::<Input, InputError>(InputError::TargetOutOfGrid) <==> exists|j: int|
            0 <= j < xyr@.len() && !(0 <= (#[trigger] xyr@[j]).0 < L && 0 <= xyr@[j].1 < L),
        r == Err::<Input, InputError>(InputError::SizeOutOfRange) <==> {
            &&& forall|j: int| 0 <= j < xyr@.len() ==> 0 <= (#[trigger] xyr@[j]).0 < L
                    && 0 <= xyr@[j].1 < L
            &&& exists|j: int| 0 <= j < xyr@.len() && (#[trigger] xyr@[j]).2 < 1
        },
        r == Err::<Input, InputError>(InputError::DuplicateTarget) <==> {
            &&& forall|j: int| 0 <= j < xyr@.len() ==> 0 <= (#[trigger] xyr@[j]).0 < L
                    && 0 <= xyr@[j].1 < L && 1 <= xyr@[j].2
            &&& exists|j1: int, j2: int| 0 <= j1 < j2 < xyr@.len()
                    && ((#[trigger] xyr@[j1]).0, xyr@[j1].1)
                        == ((#[trigger] xyr@[j2]).0, xyr@[j2].1)
        },
{
    let n = xyr.len();
    let mut j: usize = 0;
    while j < n
        invariant
            n == xyr@.len(),
            j <= n,
            forall|k: int| 0 <= k < j as int ==> 0 <= (#[trigger] xyr@[k]).0 < L
                && 0 <= xyr@[k].1 < L,
        decreases n - j,
    {
        let t = xyr[j];
        if !(0 <= t.0 && t.0 < L && 0 <= t.1 && t.1 < L) {
            return Err(InputError::TargetOutOfGrid);
        }
        j += 1;
    }
    let mut j: usize = 0;
    while j < n
        invariant
            n == xyr@.len(),
            j <= n,
            forall|k: int| 0 <= k < n ==> 0 <= (#[trigger] xyr@[k]).0 < L
                && 0 <= xyr@[k].1 < L,
            forall|k: int| 0 <= k < j as int ==> 1 <= (#[trigger] xyr@[k]).2,
        decreases n - j,
    {
        if xyr[j].2 < 1 {
            return Err(InputError::SizeOutOfRange);
        }
        j += 1;
    }
    let mut j1: usize = 0;
    while j1 < n
        invariant
            n == xyr@.len(),
            j1 <= n,
            forall|k: int| 0 <= k < n ==> 0 <= (#[trigger] xyr@[k]).0 < L
                && 0 <= xyr@[k].1 < L && 1 <= xyr@[k].2,
            forall|a: int, b: int| #![trigger xyr@[a], xyr@[b]]
                0 <= a < j1 as int && a < b < n ==> ((xyr@[a]).0, xyr@[a].1)
                    != ((xyr@[b]).0, xyr@[b].1),
        decreases n - j1,
    {
        let mut j2: usize = j1 + 1;
        while j2 < n
            invariant
                n == xyr@.len(),
                j1 < n,
                j1 < j2 <= n,
                forall|k: int| 0 <= k < n ==> 0 <= (#[trigger] xyr@[k]).0 < L
                    && 0 <= xyr@[k].1 < L && 1 <= xyr@[k].2,
                forall|b: int| (j1 as int) < b < j2 as int ==> ((#[trigger] xyr@[b]).0, xyr@[b].1)
                    != ((xyr@[j1 as int]).0, xyr@[j1 as int].1),
            decreases n - j2,
        {
            let a = xyr[j1];
            let b = xyr[j2];
            if a.0 == b.0 && a.1 == b.1 {
                return Err(InputError::DuplicateTarget);
            }
            j2 += 1;
        }
        j1 += 1;
    }
    let mut rects: Vec<Rect> = Vec::new();
    let mut points: Vec<(i32, i32)> = Vec::new();
    let mut sizes: Vec<i64> = Vec::new();
    let mut j: usize = 0;
    while j < n
        invariant
            n == xyr@.len(),
            n <= 100_000_000,
            j <= n,
            rects@.len() == j as int,
            points@.len() == j as int,
            sizes@.len() == j as int,
            forall|k: int| 0 <= k < n ==> 0 <= (#[trigger] xyr@[k]).0 < L
                && 0 <= xyr@[k].1 < L && 1 <= xyr@[k].2,
            forall|k: int| 0 <= k < j as int ==> {
                let t = #[trigger] xyr@[k];
                &&& points@[k] == (t.0, t.1)
                &&& sizes@[k] == t.2
                &&& rects@[k] == unit_box(t.0, t.1)
            },
        decreases n - j,
    {
        let t = xyr[j];
        rects.push(Rect { x1: t.0, x2: t.0 + 1, y1: t.1, y2: t.1 + 1 });
        points.push((t.0, t.1));
        sizes.push(t.2);
        j += 1;
    }
    let inp = Input { rects, points, sizes };
    proof {
        assert forall|a: int, b: int| #![trigger inp.points@[a], inp.points@[b]]
            0 <= a < b < n as int implies inp.points@[a] != inp.points@[b] by {
            assert(((xyr@[a]).0, xyr@[a].1) != ((xyr@[b]).0, xyr@[b].1));
        }
        assert forall|j: int| 0 <= j < n as int implies {
            let p = #[trigger] inp.points@[j];
            &&& 0 <= p.0 < L
            &&& 0 <= p.1 < L
            &&& inp.rects@[j] == unit_box(p.0, p.1)
            &&& 1 <= inp.sizes@[j]
        } by {
            let t = xyr@[j];
            assert(inp.points@[j] == (t.0, t.1));
            assert(inp.rects@[j] == unit_box(t.0, t.1));
        }
    }
    Ok(inp)
}


/// Sum of the first `n` entries of a sequence.
pub open spec fn spec_sum(s: Seq<i64>, n: int) -> int
    decreases n,
{
    if n <= 0 {
        0
    } else {
        spec_sum(s, n - 1) + s[n - 1]
    }
}

/// Two sequences that agree on their first `n` entries have the same
/// partial sum.
proof fn lemma_spec_sum_same(s1: Seq<i64>, s2: Seq<i64>, n: int)
    requires
        0 <= n <= s1.len(),
        n <= s2.len(),
        forall|k: int| 0 <= k < n ==> s1[k] == s2[k],
    ensures
        spec_sum(s1, n) == spec_sum(s2, n),
    decreases n,
{
    if n > 0 {
        lemma_spec_sum_same(s1, s2, n - 1);
    }
}

/// Turns a non-decreasing sequence of cut points into the spans between
/// neighbouring cuts; the spans telescope to the distance between the
/// first and the last cut.
pub fn partition_sizes(q: &Vec<i64>) -> (r: Vec<i64>)
    requires
        q@.len() >= 1,
        forall|k: int| 0 <= k < q@.len() - 1 ==> #[trigger] q@[k] <= q@[k + 1],
        forall|k: int| 0 <= k < q@.len() ==> 0 <= #[trigger] q@[k] <= 100_000_000,
    ensures
        r@.len() == q@.len() - 1,
        forall|k: int| 0 <= k < r@.len() ==> #[trigger] r@[k] == q@[k + 1] - q@[k],
        spec_sum(r@, r@.len() as int) == q@[q@.len() - 1] - q@[0],
{
    let n = q.len();
    let mut r: Vec<i64> = Vec::new();
    let mut i: usize = 0;
    while i + 1 < n
        invariant
            n == q@.len(),
            n >= 1,
            i + 1 <= n,
            r@.len() == i as int,
            forall|k: int| 0 <= k < q@.len() - 1 ==> #[trigger] q@[k] <= q@[k + 1],
            forall|k: int| 0 <= k < q@.len() ==> 0 <= #[trigger] q@[k] <= 100_000_000,
            forall|k: int| 0 <= k < i as int ==> #[trigger] r@[k] == q@[k + 1] - q@[k],
            spec_sum(r@, i as int) == q@[i as int] - q@[0],
        decreases n - i,
    {
        let ghost r0 = r@;
        let d = q[i + 1] - q[i];
        r.push(d);
        proof {
            lemma_spec_sum_same(r0, r@, i as int);
        }
        i += 1;
    }
    r
}

} // verus!
