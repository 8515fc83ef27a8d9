//! The spatial interference index: a three-level hierarchy of buckets,
//! stored as a flat array of small vectors indexed by group id.
//!
//! Every registered rectangle index sits in exactly one bucket, the one
//! named by its group id. A collision query for a candidate rectangle
//! walks the candidate's ancestor chain and child cells, which is proved
//! here to be equivalent to an exhaustive pairwise scan.

use vstd::prelude::*;

use crate::geom::{contains_pt, lemma_covered_disjoint, lemma_push_by_shrinks, rect_wf,
    spec_intersect, spec_push_by, PushDirection, Rect};
use crate::grid::{children_gid_range, get_gid, parent_gid, spec_gid, spec_parent,
    lemma_gid_related, lemma_gid_bounds, LAYER2_OFFSET, NGRID};

verus! {

/// All rectangles of a configuration are well-formed.
pub open spec fn rects_wf(rects: Seq<Rect>) -> bool {
    forall|j: int| 0 <= j < rects.len() ==> rect_wf(#[trigger] rects[j])
}

/// Some registered rectangle intersects the candidate.
pub open spec fn spec_any_intersect(grow: Rect, rects: Seq<Rect>) -> bool {
    exists|j: int| 0 <= j < rects.len() && spec_intersect(grow, #[trigger] rects[j])
}

/// `h` lies on the ancestor chain of `g` (the chain has at most three
/// cells: `g` itself, its parent, and the root).
pub open spec fn on_chain(h: int, g: int) -> bool {
    h == g || h == spec_parent(g) || h == 0
}

#[derive(Debug)]
pub struct QTree {
    grid: Vec<Vec<usize>>,
}

impl QTree {
    /// Contents of bucket `g`.
    pub closed spec fn bucket(self, g: int) -> Seq<usize> {
        self.grid@[g]@
    }

    /// Number of buckets.
    pub closed spec fn num_buckets(self) -> int {
        self.grid@.len() as int
    }

    /// The index is consistent with the configuration `rects`: it has one
    /// bucket per cell, every entry is a valid index registered under its
    /// own group id, every rectangle is registered, and no bucket holds an
    /// index twice.
    pub open spec fn inv(self, rects: Seq<Rect>) -> bool {
        &&& rects.len() <= usize::MAX as int
        &&& self.num_buckets() == NGRID as int
        &&& forall|g: int, k: int| #![trigger self.bucket(g)[k]]
                0 <= g < NGRID as int && 0 <= k < self.bucket(g).len() ==> {
                    &&& (self.bucket(g)[k] as int) < rects.len()
                    &&& spec_gid(rects[self.bucket(g)[k] as int]) == g
                }
        &&& forall|j: int| 0 <= j < rects.len() ==> self.bucket(
                spec_gid(#[trigger] rects[j])).contains(j as usize)
        &&& forall|g: int, k1: int, k2: int| #![trigger self.bucket(g)[k1], self.bucket(g)[k2]]
                0 <= g < NGRID as int && 0 <= k1 < k2 < self.bucket(g).len() ==>
                    self.bucket(g)[k1] != self.bucket(g)[k2]
    }

    /// Some entry of bucket `g` intersects the candidate.
    pub open spec fn hit_in_bucket(self, g: int, grow: Rect, rects: Seq<Rect>) -> bool {
        exists|k: int| 0 <= k < self.bucket(g).len()
            && spec_intersect(grow, rects[#[trigger] self.bucket(g)[k] as int])
    }

    /// Builds the index for a configuration, registering every rectangle
    /// at its own group id.
    #[verifier::rlimit(30)]
    pub fn new(rects: &Vec<Rect>) -> (qt: QTree)
        requires
            rects_wf(rects@),
        ensures
            qt.inv(rects@),
    {
        let n = rects.len();
        let mut grid: Vec<Vec<usize>> = Vec::new();
        let mut g: usize = 0;
        while g < NGRID
            invariant
                g <= NGRID,
                grid@.len() == g as int,
                forall|gg: int| 0 <= gg < g as int ==> (#[trigger] grid@[gg])@.len() == 0,
            decreases NGRID - g,
        {
            grid.push(Vec::new());
            g += 1;
        }
        let mut qt = QTree { grid };
        let mut i: usize = 0;
        while i < n
            invariant
                rects_wf(rects@),
                n == rects@.len(),
                i <= n,
                qt.num_buckets() == NGRID as int,
                forall|g: int, k: int| #![trigger qt.bucket(g)[k]]
                    0 <= g < NGRID as int && 0 <= k < qt.bucket(g).len() ==> {
                        &&& (qt.bucket(g)[k] as int) < i as int
                        &&& spec_gid(rects@[qt.bucket(g)[k] as int]) == g
                    },
                forall|j: int| 0 <= j < i as int ==> qt.bucket(
                    spec_gid(#[trigger] rects@[j])).contains(j as usize),
                forall|g: int, k1: int, k2: int| #![trigger qt.bucket(g)[k1], qt.bucket(g)[k2]]
                    0 <= g < NGRID as int && 0 <= k1 < k2 < qt.bucket(g).len() ==>
                        qt.bucket(g)[k1] != qt.bucket(g)[k2],
            decreases n - i,
        {
            let ghost old_qt = qt;
            let gid = get_gid(&rects[i]) as usize;
            let bucket = &mut qt.grid[gid];
            bucket.push(i);
            proof {
                let gi = gid as int;
                assert(qt.bucket(gi) == old_qt.bucket(gi).push(i));
                assert forall|g: int| 0 <= g < NGRID as int && g != gi implies
                    qt.bucket(g) == old_qt.bucket(g) by {}
                assert forall|g: int, k: int| #![trigger qt.bucket(g)[k]]
                    0 <= g < NGRID as int && 0 <= k < qt.bucket(g).len() implies {
                        &&& (qt.bucket(g)[k] as int) < i as int + 1
                        &&& spec_gid(rects@[qt.bucket(g)[k] as int]) == g
                    } by {
                    if g == gi {
                        if k == qt.bucket(g).len() - 1 {
                            assert(qt.bucket(g)[k] == i);
                        } else {
                            assert(qt.bucket(g)[k] == old_qt.bucket(g)[k]);
                        }
                    } else {
                        assert(qt.bucket(g) == old_qt.bucket(g));
                    }
                }
                assert forall|j: int| 0 <= j < i as int + 1 implies qt.bucket(
                    spec_gid(#[trigger] rects@[j])).contains(j as usize) by {
                    let gj = spec_gid(rects@[j]);
                    if j < i as int {
                        let k = choose|k: int| 0 <= k < old_qt.bucket(gj).len()
                            && old_qt.bucket(gj)[k] == j as usize;
                        assert(qt.bucket(gj)[k] == j as usize);
                    } else {
                        assert(qt.bucket(gj)[qt.bucket(gj).len() - 1] == i);
                    }
                }
                assert forall|g: int, k1: int, k2: int|
                    #![trigger qt.bucket(g)[k1], qt.bucket(g)[k2]]
                    0 <= g < NGRID as int && 0 <= k1 < k2 < qt.bucket(g).len() implies
                    qt.bucket(g)[k1] != qt.bucket(g)[k2] by {
                    if g == gi {
                        assert(qt.bucket(g)[k1] == old_qt.bucket(g)[k1]);
                        if k2 == qt.bucket(g).len() - 1 {
                            assert(qt.bucket(g)[k2] == i);
                            assert((old_qt.bucket(g)[k1] as int) < i as int);
                        } else {
                            assert(qt.bucket(g)[k2] == old_qt.bucket(g)[k2]);
                        }
                    } else {
                        assert(qt.bucket(g) == old_qt.bucket(g));
                    }
                }
            }
            i += 1;
        }
        qt
    }

    /// Scans one bucket for a collision with the candidate.
    fn intersect_one_grid(&self, gid: u8, grow: &Rect, rects: &Vec<Rect>) -> (r: bool)
        requires
            self.inv(rects@),
            gid < NGRID as u8,
        ensures
            r == self.hit_in_bucket(gid as int, *grow, rects@),
    {
        let bucket = &self.grid[gid as usize];
        let mut k: usize = 0;
        while k < bucket.len()
            invariant
                self.inv(rects@),
                gid < NGRID as u8,
                bucket@ == self.bucket(gid as int),
                k <= bucket@.len(),
                forall|kk: int| 0 <= kk < k as int ==> !spec_intersect(
                    *grow, rects@[#[trigger] bucket@[kk] as int]),
            decreases bucket@.len() - k,
        {
            let j = bucket[k];
            if grow.intersect(&rects[j]) {
                return true;
            }
            k += 1;
        }
        false
    }

    /// Scans the bucket of `gid` and of every ancestor cell of `gid`.
    pub fn intersect_to_parent(&self, gid: u8, grow: &Rect, rects: &Vec<Rect>) -> (r: bool)
        requires
            self.inv(rects@),
            gid < NGRID as u8,
        ensures
            r == exists|h: int| 0 <= h < NGRID as int && on_chain(h, gid as int)
                && self.hit_in_bucket(h, *grow, rects@),
    {
        let ghost g0 = gid as int;
        let mut cur = gid;
        loop
            invariant
                self.inv(rects@),
                g0 == gid as int,
                0 <= g0 < NGRID as int,
                cur < NGRID as u8,
                on_chain(cur as int, g0),
                forall|h: int| 0 <= h < NGRID as int && on_chain(h, g0)
                    && !on_chain(h, cur as int) ==> !self.hit_in_bucket(h, *grow, rects@),
            ensures
                !(exists|h: int| 0 <= h < NGRID as int && on_chain(h, g0)
                    && self.hit_in_bucket(h, *grow, rects@)),
            decreases cur,
        {
            if self.intersect_one_grid(cur, grow, rects) {
                proof {
                    assert((cur as int) < NGRID as int && on_chain(cur as int, g0)
                        && self.hit_in_bucket(cur as int, *grow, rects@));
                }
                return true;
            }
            if cur == 0 {
                break;
            }
            cur = parent_gid(cur);
        }
        false
    }

    /// Scans the buckets of the child cells of `gid`, if it has any.
    pub fn intersect_to_children(&self, gid: u8, grow: &Rect, rects: &Vec<Rect>) -> (r: bool)
        requires
            self.inv(rects@),
            1 <= gid < NGRID as u8,
        ensures
            r == exists|h: int| LAYER2_OFFSET as int <= h < NGRID as int
                && spec_parent(h) == gid as int && self.hit_in_bucket(h, *grow, rects@),
    {
        if gid >= LAYER2_OFFSET {
            return false;
        }
        let range = children_gid_range(gid);
        let ghost start = range.start as int;
        let mut c = range.start;
        let end = range.end;
        proof {
            assert forall|h: int| LAYER2_OFFSET as int <= h < NGRID as int
                && spec_parent(h) == gid as int implies start <= h < end as int by {
                vstd::arithmetic::div_mod::lemma_fundamental_div_mod(h - 5, 4);
            }
        }
        while c < end
            invariant
                self.inv(rects@),
                1 <= gid < LAYER2_OFFSET,
                start == LAYER2_OFFSET as int + (gid as int - 1) * 4,
                end as int == start + 4,
                start <= c as int <= end as int,
                end <= NGRID as u8,
                forall|h: int| LAYER2_OFFSET as int <= h < NGRID as int
                    && spec_parent(h) == gid as int ==> start <= h < end as int,
                forall|h: int| start <= h < end as int ==> spec_parent(h) == gid as int,
                forall|h: int| start <= h < c as int ==> !self.hit_in_bucket(h, *grow, rects@),
            decreases end - c,
        {
            if self.intersect_one_grid(c, grow, rects) {
                proof {
                    assert(LAYER2_OFFSET as int <= c as int && (c as int) < NGRID as int
                        && spec_parent(c as int) == gid as int
                        && self.hit_in_bucket(c as int, *grow, rects@));
                }
                return true;
            }
            c += 1;
        }
        false
    }

    /// Collision query: does the candidate intersect any registered
    /// rectangle? Equivalent to the exhaustive pairwise scan.
    pub fn intersect(&self, grow: &Rect, rects: &Vec<Rect>) -> (r: bool)
        requires
            self.inv(rects@),
            rects_wf(rects@),
            rect_wf(*grow),
        ensures
            r == spec_any_intersect(*grow, rects@),
    {
        let gid = get_gid(grow);
        if gid == 0 {
            return intersect(grow, rects);
        }
        if self.intersect_to_parent(gid, grow, rects) {
            proof {
                self.lemma_hit_gives_witness(*grow, rects@);
            }
            return true;
        }
        if self.intersect_to_children(gid, grow, rects) {
            proof {
                self.lemma_hit_gives_witness(*grow, rects@);
            }
            return true;
        }
        proof {
            let g = gid as int;
            assert forall|j: int| 0 <= j < rects@.len() implies !spec_intersect(
                *grow, #[trigger] rects@[j]) by {
                if spec_intersect(*grow, rects@[j]) {
                    lemma_gid_related(*grow, rects@[j]);
                    lemma_gid_bounds(rects@[j]);
                    let h = spec_gid(rects@[j]);
                    assert(self.bucket(h).contains(j as usize));
                    let k = choose|k: int| 0 <= k < self.bucket(h).len()
                        && self.bucket(h)[k] == j as usize;
                    assert(j as usize as int == j);
                    assert(spec_intersect(*grow, rects@[self.bucket(h)[k] as int]));
                    assert(self.hit_in_bucket(h, *grow, rects@));
                    assert(on_chain(h, g)
                        || (LAYER2_OFFSET as int <= h && h < NGRID as int && spec_parent(h) == g));
                    assert(false);
                }
            }
        }
        false
    }

    /// A bucket hit names a registered rectangle that intersects the
    /// candidate.
    proof fn lemma_hit_gives_witness(self, grow: Rect, rects: Seq<Rect>)
        requires
            self.inv(rects),
        ensures
            forall|h: int| 0 <= h < NGRID as int && self.hit_in_bucket(h, grow, rects)
                ==> spec_any_intersect(grow, rects),
    {
        assert forall|h: int| 0 <= h < NGRID as int && self.hit_in_bucket(h, grow, rects)
            implies spec_any_intersect(grow, rects) by {
            let k = choose|k: int| 0 <= k < self.bucket(h).len()
                && spec_intersect(grow, rects[self.bucket(h)[k] as int]);
            assert((self.bucket(h)[k] as int) < rects.len());
        }
    }

    /// Moves index `i` from the bucket of its old group id to the bucket
    /// of its new one; a no-op when the two ids agree. The configuration
    /// itself is updated by the caller afterwards; the index is consistent
    /// with the configuration in which rectangle `i` is replaced by `new`.
    pub fn update(&mut self, new: &Rect, prev: &Rect, i: usize, rects: &Vec<Rect>)
        requires
            old(self).inv(rects@),
            rects_wf(rects@),
            i < rects@.len(),
            *prev == rects@[i as int],
            rect_wf(*new),
        ensures
            (*final(self)).inv(rects@.update(i as int, *new)),
            spec_gid(*new) == spec_gid(*prev) ==> *final(self) == *old(self),
    {
        let old_gid = get_gid(prev) as usize;
        let new_gid = get_gid(new) as usize;
        if old_gid == new_gid {
            proof {
                self.lemma_inv_after_same_gid(rects@, *new, i as int);
            }
            return;
        }
        let ghost qt0 = *self;
        let blen = self.grid[old_gid].len();
        let ghost k0 = choose|k0: int| 0 <= k0 < qt0.bucket(old_gid as int).len()
            && qt0.bucket(old_gid as int)[k0] == i;
        let mut k: usize = 0;
        loop
            invariant
                *self == qt0,
                self.inv(rects@),
                old_gid < NGRID,
                blen as int == self.bucket(old_gid as int).len(),
                0 <= k0 < blen as int,
                self.bucket(old_gid as int)[k0] == i,
                k as int <= k0,
            ensures
                k as int <= k0,
                (k as int) < blen as int,
                self.bucket(old_gid as int)[k as int] == i,
            decreases k0 - k,
        {
            if self.grid[old_gid][k] == i {
                break;
            }
            proof {
                assert(k as int != k0);
            }
            k += 1;
        }
        let bucket = &mut self.grid[old_gid];
        bucket.swap_remove(k);
        let bucket2 = &mut self.grid[new_gid];
        bucket2.push(i);
        proof {
            let g_old = old_gid as int;
            let g_new = new_gid as int;
            assert(self.bucket(g_old) == qt0.bucket(g_old).update(
                k as int, qt0.bucket(g_old).last()).drop_last());
            assert(self.bucket(g_new) == qt0.bucket(g_new).push(i));
            assert forall|g: int| 0 <= g < NGRID as int && g != g_old && g != g_new
                implies self.bucket(g) == qt0.bucket(g) by {}
            lemma_inv_after_move(qt0, *self, rects@, *new, i, k as int);
        }
    }

    /// Replacing rectangle `i` by one with the same group id keeps the
    /// untouched index consistent.
    proof fn lemma_inv_after_same_gid(self, rects: Seq<Rect>, new: Rect, i: int)
        requires
            self.inv(rects),
            0 <= i < rects.len(),
            spec_gid(new) == spec_gid(rects[i]),
        ensures
            self.inv(rects.update(i, new)),
    {
        let rects1 = rects.update(i, new);
        assert forall|j: int| 0 <= j < rects1.len() implies self.bucket(
            spec_gid(#[trigger] rects1[j])).contains(j as usize) by {
            assert(spec_gid(rects1[j]) == spec_gid(rects[j]));
        }
        assert forall|g: int, k: int| #![trigger self.bucket(g)[k]]
            0 <= g < NGRID as int && 0 <= k < self.bucket(g).len() implies {
                &&& (self.bucket(g)[k] as int) < rects1.len()
                &&& spec_gid(rects1[self.bucket(g)[k] as int]) == g
            } by {
            let j = self.bucket(g)[k] as int;
            assert(spec_gid(rects1[j]) == spec_gid(rects[j]));
        }
    }

    /// Collects, from one bucket, every rectangle that meets the grow
    /// strip, retracted out of its way; reports infeasibility as soon as a
    /// retraction would evict a target point.
    fn push_in_one_grid(
        &self,
        gid: u8,
        grow: &Rect,
        dir: PushDirection,
        rects: &Vec<Rect>,
        points: &Vec<(i32, i32)>,
        pushed: &mut Vec<(usize, Rect)>,
    ) -> (r: bool)
        requires
            self.inv(rects@),
            gid < NGRID as u8,
            points@.len() == rects@.len(),
            pushed_ok(old(pushed)@, *grow, dir, rects@, points@),
            pushed_distinct(old(pushed)@),
            forall|k: int| 0 <= k < old(pushed)@.len() ==> spec_gid(
                rects@[(#[trigger] old(pushed)@[k]).0 as int]) != gid as int,
        ensures
            pushed_ok(final(pushed)@, *grow, dir, rects@, points@),
            pushed_distinct(final(pushed)@),
            old(pushed)@.len() <= final(pushed)@.len(),
            forall|k: int| 0 <= k < old(pushed)@.len() ==> final(pushed)@[k]
                == old(pushed)@[k],
            forall|k: int| old(pushed)@.len() <= k < final(pushed)@.len() ==> spec_gid(
                rects@[(#[trigger] final(pushed)@[k]).0 as int]) == gid as int,
            r ==> exists|j: int| 0 <= j < rects@.len() && spec_gid(rects@[j]) == gid as int
                && push_fails(*grow, dir, rects@, points@, j),
            !r ==> forall|j: int| 0 <= j < rects@.len()
                && spec_gid(#[trigger] rects@[j]) == gid as int
                && spec_intersect(*grow, rects@[j]) ==> pushed_contains(final(pushed)@, j),
    {
        let bucket = &self.grid[gid as usize];
        let ghost p0 = pushed@;
        let mut k: usize = 0;
        while k < bucket.len()
            invariant
                self.inv(rects@),
                gid < NGRID as u8,
                points@.len() == rects@.len(),
                bucket@ == self.bucket(gid as int),
                k <= bucket@.len(),
                pushed_ok(pushed@, *grow, dir, rects@, points@),
                pushed_distinct(pushed@),
                p0 == old(pushed)@,
                p0.len() <= pushed@.len(),
                forall|kk: int| 0 <= kk < p0.len() ==> pushed@[kk] == p0[kk],
                forall|kk: int| 0 <= kk < p0.len() ==> spec_gid(
                    rects@[(#[trigger] p0[kk]).0 as int]) != gid as int,
                forall|kk: int| p0.len() <= kk < pushed@.len() ==> spec_gid(
                    rects@[(#[trigger] pushed@[kk]).0 as int]) == gid as int,
                forall|kk: int| p0.len() <= kk < pushed@.len() ==> exists|b: int|
                    0 <= b < k as int && bucket@[b] as int == (#[trigger] pushed@[kk]).0 as int,
                forall|b: int| 0 <= b < k as int && spec_intersect(
                    *grow, rects@[#[trigger] bucket@[b] as int]) ==> pushed_contains(
                        pushed@, bucket@[b] as int),
            decreases bucket@.len() - k,
        {
            let j = bucket[k];
            if grow.intersect(&rects[j]) {
                let p = rects[j].push_by(grow, dir);
                let pt = points[j];
                if !p.contain(pt.0, pt.1) {
                    proof {
                        assert(spec_gid(rects@[j as int]) == gid as int);
                        assert(push_fails(*grow, dir, rects@, points@, j as int));
                    }
                    return true;
                }
                let ghost before = pushed@;
                pushed.push((j, p));
                proof {
                    assert(pushed@[pushed@.len() - 1] == (j, p));
                    assert forall|k1: int, k2: int| #![trigger pushed@[k1], pushed@[k2]]
                        0 <= k1 < k2 < pushed@.len() implies pushed@[k1].0 != pushed@[k2].0 by {
                        if k2 == pushed@.len() - 1 {
                            if k1 < p0.len() {
                                assert(pushed@[k1] == before[k1] && before[k1] == p0[k1]);
                                assert(spec_gid(rects@[pushed@[k1].0 as int]) != gid as int);
                            } else {
                                let b = choose|b: int| 0 <= b < k as int
                                    && bucket@[b] as int == before[k1].0 as int;
                                assert(bucket@[b] != bucket@[k as int]);
                            }
                        } else {
                            assert(pushed@[k1] == before[k1] && pushed@[k2] == before[k2]);
                        }
                    }
                    assert forall|b: int| 0 <= b < k as int + 1 && spec_intersect(
                        *grow, rects@[#[trigger] bucket@[b] as int]) implies pushed_contains(
                            pushed@, bucket@[b] as int) by {
                        if b < k as int {
                            let kk = choose|kk: int| 0 <= kk < before.len()
                                && before[kk].0 as int == bucket@[b] as int;
                            assert(pushed@[kk].0 as int == bucket@[b] as int);
                        } else {
                            assert(pushed@[pushed@.len() - 1].0 as int == bucket@[b] as int);
                        }
                    }
                }
            }
            k += 1;
        }
        proof {
            assert forall|j: int| 0 <= j < rects@.len()
                && spec_gid(#[trigger] rects@[j]) == gid as int
                && spec_intersect(*grow, rects@[j]) implies pushed_contains(pushed@, j) by {
                assert(self.bucket(gid as int).contains(j as usize));
                let b = choose|b: int| 0 <= b < bucket@.len() && bucket@[b] == j as usize;
                assert(j as usize as int == j);
                assert(pushed_contains(pushed@, bucket@[b] as int));
            }
        }
        false
    }

    /// Runs the push collection over the bucket of `gid` and of every
    /// ancestor cell of `gid`.
    fn push_parent(
        &self,
        gid: u8,
        grow: &Rect,
        dir: PushDirection,
        rects: &Vec<Rect>,
        points: &Vec<(i32, i32)>,
        pushed: &mut Vec<(usize, Rect)>,
    ) -> (r: bool)
        requires
            self.inv(rects@),
            gid < NGRID as u8,
            points@.len() == rects@.len(),
            old(pushed)@.len() == 0,
        ensures
            pushed_ok(final(pushed)@, *grow, dir, rects@, points@),
            pushed_distinct(final(pushed)@),
            forall|k: int| 0 <= k < final(pushed)@.len() ==> on_chain(spec_gid(
                rects@[(#[trigger] final(pushed)@[k]).0 as int]), gid as int),
            r ==> exists|j: int| 0 <= j < rects@.len()
                && push_fails(*grow, dir, rects@, points@, j),
            !r ==> forall|j: int| 0 <= j < rects@.len()
                && on_chain(spec_gid(#[trigger] rects@[j]), gid as int)
                && spec_intersect(*grow, rects@[j]) ==> pushed_contains(final(pushed)@, j),
    {
        let ghost g0 = gid as int;
        let mut cur = gid;
        loop
            invariant_except_break
                forall|k: int| 0 <= k < pushed@.len() ==> !on_chain(spec_gid(
                    rects@[(#[trigger] pushed@[k]).0 as int]), cur as int),
                forall|j: int| 0 <= j < rects@.len()
                    && on_chain(spec_gid(#[trigger] rects@[j]), g0)
                    && !on_chain(spec_gid(rects@[j]), cur as int)
                    && spec_intersect(*grow, rects@[j]) ==> pushed_contains(pushed@, j),
            invariant
                self.inv(rects@),
                g0 == gid as int,
                0 <= g0 < NGRID as int,
                points@.len() == rects@.len(),
                cur < NGRID as u8,
                on_chain(cur as int, g0),
                pushed_ok(pushed@, *grow, dir, rects@, points@),
                pushed_distinct(pushed@),
                forall|k: int| 0 <= k < pushed@.len() ==> on_chain(spec_gid(
                    rects@[(#[trigger] pushed@[k]).0 as int]), g0),
            ensures
                pushed_ok(pushed@, *grow, dir, rects@, points@),
                pushed_distinct(pushed@),
                forall|k: int| 0 <= k < pushed@.len() ==> on_chain(spec_gid(
                    rects@[(#[trigger] pushed@[k]).0 as int]), g0),
                forall|j: int| 0 <= j < rects@.len()
                    && on_chain(spec_gid(#[trigger] rects@[j]), g0)
                    && spec_intersect(*grow, rects@[j]) ==> pushed_contains(pushed@, j),
            decreases cur,
        {
            let ghost before = pushed@;
            if self.push_in_one_grid(cur, grow, dir, rects, points, pushed) {
                return true;
            }
            proof {
                assert forall|j: int| 0 <= j < rects@.len()
                    && on_chain(spec_gid(#[trigger] rects@[j]), g0)
                    && !on_chain(spec_gid(rects@[j]), spec_parent(cur as int))
                    && spec_intersect(*grow, rects@[j]) implies pushed_contains(pushed@, j) by {
                    let h = spec_gid(rects@[j]);
                    if !on_chain(h, cur as int) {
                        let kk = choose|kk: int| 0 <= kk < before.len()
                            && before[kk].0 as int == j;
                        assert(pushed@[kk].0 as int == j);
                    }
                }
            }
            if cur == 0 {
                proof {
                    assert forall|j: int| 0 <= j < rects@.len()
                        && on_chain(spec_gid(#[trigger] rects@[j]), g0)
                        && spec_intersect(*grow, rects@[j]) implies pushed_contains(
                            pushed@, j) by {
                        assert(spec_gid(rects@[j]) != 0 ==> !on_chain(
                            spec_gid(rects@[j]), spec_parent(0)));
                    }
                }
                break;
            }
            cur = parent_gid(cur);
        }
        false
    }

    /// Runs the push collection over the buckets of the child cells of
    /// `gid`, if it has any.
    fn push_children(
        &self,
        gid: u8,
        grow: &Rect,
        dir: PushDirection,
        rects: &Vec<Rect>,
        points: &Vec<(i32, i32)>,
        pushed: &mut Vec<(usize, Rect)>,
    ) -> (r: bool)
        requires
            self.inv(rects@),
            rects_wf(rects@),
            1 <= gid < NGRID as u8,
            points@.len() == rects@.len(),
            pushed_ok(old(pushed)@, *grow, dir, rects@, points@),
            pushed_distinct(old(pushed)@),
            forall|k: int| 0 <= k < old(pushed)@.len() ==> on_chain(spec_gid(
                rects@[(#[trigger] old(pushed)@[k]).0 as int]), gid as int),
        ensures
            pushed_ok(final(pushed)@, *grow, dir, rects@, points@),
            pushed_distinct(final(pushed)@),
            old(pushed)@.len() <= final(pushed)@.len(),
            forall|k: int| 0 <= k < old(pushed)@.len() ==> final(pushed)@[k]
                == old(pushed)@[k],
            r ==> exists|j: int| 0 <= j < rects@.len()
                && push_fails(*grow, dir, rects@, points@, j),
            !r ==> forall|j: int| 0 <= j < rects@.len()
                && spec_gid(#[trigger] rects@[j]) >= LAYER2_OFFSET as int
                && spec_parent(spec_gid(rects@[j])) == gid as int
                && spec_intersect(*grow, rects@[j]) ==> pushed_contains(final(pushed)@, j),
    {
        if gid >= LAYER2_OFFSET {
            proof {
                assert forall|j: int| 0 <= j < rects@.len()
                    && spec_gid(#[trigger] rects@[j]) >= LAYER2_OFFSET as int
                    && spec_parent(spec_gid(rects@[j])) == gid as int implies false by {
                    lemma_gid_bounds(rects@[j]);
                    assert(spec_parent(spec_gid(rects@[j])) < LAYER2_OFFSET as int);
                }
            }
            return false;
        }
        proof {
            assert forall|k: int| 0 <= k < pushed@.len() implies spec_gid(
                rects@[(#[trigger] pushed@[k]).0 as int]) < LAYER2_OFFSET as int
                || spec_parent(spec_gid(rects@[(pushed@[k]).0 as int])) != gid as int by {
                let h = spec_gid(rects@[pushed@[k].0 as int]);
                if h >= LAYER2_OFFSET as int {
                    assert(on_chain(h, gid as int));
                    assert(spec_parent(gid as int) == 0);
                    assert(h == gid as int || h == 0);
                }
            }
        }
        let range = children_gid_range(gid);
        let ghost start = range.start as int;
        let ghost p0 = pushed@;
        let mut c = range.start;
        let end = range.end;
        proof {
            assert forall|h: int| LAYER2_OFFSET as int <= h < NGRID as int
                && spec_parent(h) == gid as int implies start <= h < end as int by {
                vstd::arithmetic::div_mod::lemma_fundamental_div_mod(h - 5, 4);
            }
        }
        while c < end
            invariant
                self.inv(rects@),
                1 <= gid < LAYER2_OFFSET,
                points@.len() == rects@.len(),
                start == LAYER2_OFFSET as int + (gid as int - 1) * 4,
                end as int == start + 4,
                start <= c as int <= end as int,
                end <= NGRID as u8,
                forall|h: int| LAYER2_OFFSET as int <= h < NGRID as int
                    && spec_parent(h) == gid as int ==> start <= h < end as int,
                forall|h: int| start <= h < end as int ==> spec_parent(h) == gid as int
                    && LAYER2_OFFSET as int <= h,
                pushed_ok(pushed@, *grow, dir, rects@, points@),
                pushed_distinct(pushed@),
                p0 == old(pushed)@,
                p0.len() <= pushed@.len(),
                forall|k: int| 0 <= k < p0.len() ==> pushed@[k] == p0[k],
                forall|k: int| 0 <= k < p0.len() ==> on_chain(spec_gid(
                    rects@[(#[trigger] p0[k]).0 as int]), gid as int),
                forall|k: int| 0 <= k < pushed@.len() ==> spec_gid(
                    rects@[(#[trigger] pushed@[k]).0 as int]) < c as int
                    || spec_gid(rects@[(pushed@[k]).0 as int]) >= end as int,
                forall|j: int| 0 <= j < rects@.len()
                    && start <= spec_gid(#[trigger] rects@[j]) < c as int
                    && spec_intersect(*grow, rects@[j]) ==> pushed_contains(pushed@, j),
            decreases end - c,
        {
            let ghost before = pushed@;
            if self.push_in_one_grid(c, grow, dir, rects, points, pushed) {
                return true;
            }
            proof {
                assert forall|j: int| 0 <= j < rects@.len()
                    && start <= spec_gid(#[trigger] rects@[j]) < c as int + 1
                    && spec_intersect(*grow, rects@[j]) implies pushed_contains(pushed@, j) by {
                    if spec_gid(rects@[j]) < c as int {
                        let kk = choose|kk: int| 0 <= kk < before.len()
                            && before[kk].0 as int == j;
                        assert(pushed@[kk].0 as int == j);
                    }
                }
            }
            c += 1;
        }
        false
    }

    /// Push-chain query: every rectangle that meets the grow strip is
    /// retracted out of its way; the complete list of replacements is
    /// returned, or `None` (with no side effects) when some retraction
    /// would evict a target point.
    pub fn push_by(
        &self,
        grow: &Rect,
        dir: PushDirection,
        rects: &Vec<Rect>,
        points: &Vec<(i32, i32)>,
    ) -> (r: Option<Vec<(usize, Rect)>>)
        requires
            self.inv(rects@),
            rects_wf(rects@),
            rect_wf(*grow),
            points@.len() == rects@.len(),
        ensures
            r matches Some(pushed) ==> {
                &&& pushed_ok(pushed@, *grow, dir, rects@, points@)
                &&& pushed_distinct(pushed@)
                &&& forall|j: int| 0 <= j < rects@.len() && spec_intersect(
                        *grow, #[trigger] rects@[j]) ==> pushed_contains(pushed@, j)
            },
            r is None ==> exists|j: int| 0 <= j < rects@.len()
                && push_fails(*grow, dir, rects@, points@, j),
    {
        let mut pushed: Vec<(usize, Rect)> = Vec::new();
        let gid = get_gid(grow);
        if gid == 0 {
            let n = rects.len();
            let mut j: usize = 0;
            while j < n
                invariant
                    self.inv(rects@),
                    points@.len() == rects@.len(),
                    n == rects@.len(),
                    j <= n,
                    pushed_ok(pushed@, *grow, dir, rects@, points@),
                    forall|k: int| 0 <= k < pushed@.len() ==> ((#[trigger] pushed@[k]).0 as int)
                        < j as int,
                    pushed_distinct(pushed@),
                    forall|jj: int| 0 <= jj < j as int && spec_intersect(
                        *grow, #[trigger] rects@[jj]) ==> pushed_contains(pushed@, jj),
                decreases n - j,
            {
                if grow.intersect(&rects[j]) {
                    let p = rects[j].push_by(grow, dir);
                    let pt = points[j];
                    if !p.contain(pt.0, pt.1) {
                        proof {
                            assert(push_fails(*grow, dir, rects@, points@, j as int));
                        }
                        return None;
                    }
                    let ghost before = pushed@;
                    pushed.push((j, p));
                    proof {
                        assert(pushed@[pushed@.len() - 1] == (j, p));
                        assert forall|jj: int| 0 <= jj < j as int + 1 && spec_intersect(
                            *grow, #[trigger] rects@[jj]) implies pushed_contains(
                                pushed@, jj) by {
                            if jj < j as int {
                                let kk = choose|kk: int| 0 <= kk < before.len()
                                    && before[kk].0 as int == jj;
                                assert(pushed@[kk].0 as int == jj);
                            } else {
                                assert(pushed@[pushed@.len() - 1].0 as int == jj);
                            }
                        }
                    }
                }
                j += 1;
            }
            return Some(pushed);
        }
        if self.push_parent(gid, grow, dir, rects, points, &mut pushed) {
            return None;
        }
        let ghost after_parent = pushed@;
        if self.push_children(gid, grow, dir, rects, points, &mut pushed) {
            return None;
        }
        proof {
            let g = gid as int;
            assert forall|j: int| 0 <= j < rects@.len() && spec_intersect(
                *grow, #[trigger] rects@[j]) implies pushed_contains(pushed@, j) by {
                lemma_gid_related(*grow, rects@[j]);
                lemma_gid_bounds(rects@[j]);
                let h = spec_gid(rects@[j]);
                if on_chain(h, g) {
                    assert(pushed_contains(after_parent, j));
                    let kk = choose|kk: int| 0 <= kk < after_parent.len()
                        && after_parent[kk].0 as int == j;
                    assert(pushed@[kk].0 as int == j);
                }
            }
        }
        Some(pushed)
    }

}

/// Moving one index from its old bucket (by unordered removal) to its new
/// bucket re-establishes the index invariant for the updated configuration.
#[verifier::rlimit(100)]
proof fn lemma_inv_after_move(qt0: QTree, qt1: QTree, rects: Seq<Rect>, new: Rect, i: usize, k: int)
    requires
        qt0.inv(rects),
        rects_wf(rects),
        (i as int) < rects.len(),
        0 <= spec_gid(new) < NGRID as int,
        0 <= spec_gid(rects[i as int]) < NGRID as int,
        spec_gid(new) != spec_gid(rects[i as int]),
        0 <= k < qt0.bucket(spec_gid(rects[i as int])).len(),
        qt0.bucket(spec_gid(rects[i as int]))[k] == i,
        qt1.num_buckets() == NGRID as int,
        qt1.bucket(spec_gid(rects[i as int])) == qt0.bucket(spec_gid(rects[i as int])).update(
            k, qt0.bucket(spec_gid(rects[i as int])).last()).drop_last(),
        qt1.bucket(spec_gid(new)) == qt0.bucket(spec_gid(new)).push(i),
        forall|g: int| 0 <= g < NGRID as int && g != spec_gid(rects[i as int])
            && g != spec_gid(new) ==> qt1.bucket(g) == qt0.bucket(g),
    ensures
        qt1.inv(rects.update(i as int, new)),
{
    let g_old = spec_gid(rects[i as int]);
    let g_new = spec_gid(new);
    let rects1 = rects.update(i as int, new);
    let s = qt0.bucket(g_old);
    let s1 = qt1.bucket(g_old);
    // Entries of the shrunk bucket come from the old bucket and exclude i.
    assert forall|kk: int| 0 <= kk < s1.len() implies s.contains(#[trigger] s1[kk])
        && s1[kk] != i by {
        if kk == k {
            assert(s1[kk] == s[s.len() - 1]);
            if s[s.len() - 1] == i {
                assert(s[k] == i);
                assert(k == s.len() - 1);
            }
        } else {
            assert(s1[kk] == s[kk]);
            if s[kk] == i {
                assert(s[k] == i);
            }
        }
    }
    // Every old entry other than i is still present.
    assert forall|j: usize| s.contains(j) && j != i implies s1.contains(j) by {
        let kk = choose|kk: int| 0 <= kk < s.len() && s[kk] == j;
        if kk == s.len() - 1 {
            assert(k < s.len() - 1 || s[k] == i);
            assert(s1[k] == j);
        } else if kk == k {
            assert(false);
        } else {
            assert(s1[kk] == j);
        }
    }
    assert(rects1.len() == rects.len());
    // Every rectangle is still registered.
    assert forall|j: int| 0 <= j < rects1.len() implies qt1.bucket(
        spec_gid(#[trigger] rects1[j])).contains(j as usize) by {
        if j == i as int {
            assert(qt1.bucket(g_new)[qt1.bucket(g_new).len() - 1] == i);
        } else {
            let gj = spec_gid(rects[j]);
            lemma_gid_bounds(rects[j]);
            assert(rects1[j] == rects[j]);
            assert(qt0.bucket(gj).contains(j as usize));
            assert(j as usize as int == j);
            assert(j as usize != i);
            if gj == g_old {
                assert(s1.contains(j as usize));
            } else if gj == g_new {
                let kk = choose|kk: int| 0 <= kk < qt0.bucket(gj).len()
                    && qt0.bucket(gj)[kk] == j as usize;
                assert(qt1.bucket(gj)[kk] == j as usize);
            } else {
                assert(qt1.bucket(gj) == qt0.bucket(gj));
            }
        }
    }
    // Every entry is valid and sits in the right bucket.
    assert forall|g: int, kk: int| #![trigger qt1.bucket(g)[kk]]
        0 <= g < NGRID as int && 0 <= kk < qt1.bucket(g).len() implies {
            &&& (qt1.bucket(g)[kk] as int) < rects1.len()
            &&& spec_gid(rects1[qt1.bucket(g)[kk] as int]) == g
        } by {
        if g == g_new && kk == qt1.bucket(g).len() - 1 {
            assert(qt1.bucket(g)[kk] == i);
            assert(rects1[i as int] == new);
        } else if g == g_old {
            let j = qt1.bucket(g)[kk];
            assert(s.contains(j) && j != i);
            let kk2 = choose|kk2: int| 0 <= kk2 < s.len() && s[kk2] == j;
            assert(qt0.bucket(g)[kk2] == j);
            assert(rects1[j as int] == rects[j as int]);
        } else {
            let j = qt1.bucket(g)[kk];
            assert(qt0.bucket(g)[kk] == j);
            assert(j != i);
            assert(rects1[j as int] == rects[j as int]);
        }
    }
    // No bucket holds an index twice.
    assert forall|g: int, k1: int, k2: int|
        #![trigger qt1.bucket(g)[k1], qt1.bucket(g)[k2]]
        0 <= g < NGRID as int && 0 <= k1 < k2 < qt1.bucket(g).len() implies
        qt1.bucket(g)[k1] != qt1.bucket(g)[k2] by {
        if g == g_old {
            let a = qt1.bucket(g)[k1];
            let b = qt1.bucket(g)[k2];
            if a == b {
                let ka1: int = if k1 == k { s.len() - 1 } else { k1 };
                let ka2: int = if k2 == k { s.len() - 1 } else { k2 };
                assert(s[ka1] == a && s[ka2] == b);
                assert(ka1 != ka2);
                if ka1 < ka2 {
                    assert(s[ka1] != s[ka2]);
                } else {
                    assert(s[ka2] != s[ka1]);
                }
            }
        } else if g == g_new {
            if k2 == qt1.bucket(g).len() - 1 {
                let a = qt1.bucket(g)[k1];
                assert(qt0.bucket(g)[k1] == a);
                assert(a != i);
            } else {
                assert(qt0.bucket(g)[k1] == qt1.bucket(g)[k1]);
                assert(qt0.bucket(g)[k2] == qt1.bucket(g)[k2]);
            }
        } else {
            assert(qt0.bucket(g)[k1] == qt1.bucket(g)[k1]);
            assert(qt0.bucket(g)[k2] == qt1.bucket(g)[k2]);
        }
    }
}

/// Exhaustive collision scan over the whole configuration.
pub fn intersect(new: &Rect, rects: &Vec<Rect>) -> (r: bool)
    ensures
        r == spec_any_intersect(*new, rects@),
{
    let mut j: usize = 0;
    while j < rects.len()
        invariant
            j <= rects@.len(),
            forall|jj: int| 0 <= jj < j as int ==> !spec_intersect(*new, #[trigger] rects@[jj]),
        decreases rects@.len() - j,
    {
        if new.intersect(&rects[j]) {
            return true;
        }
        j += 1;
    }
    false
}

/// No two rectangles of the configuration intersect.
pub open spec fn pairwise_disjoint(rects: Seq<Rect>) -> bool {
    forall|a: int, b: int| #![trigger rects[a], rects[b]]
        0 <= a < rects.len() && 0 <= b < rects.len() && a != b ==>
            !spec_intersect(rects[a], rects[b])
}

/// One entry of a push-chain result: a valid index whose rectangle meets
/// the grow strip, together with its retracted replacement, which still
/// contains its target point.
pub open spec fn pushed_entry_ok(
    e: (usize, Rect),
    grow: Rect,
    dir: PushDirection,
    rects: Seq<Rect>,
    points: Seq<(i32, i32)>,
) -> bool {
    &&& (e.0 as int) < rects.len()
    &&& spec_intersect(grow, rects[e.0 as int])
    &&& e.1 == spec_push_by(rects[e.0 as int], grow, dir)
    &&& contains_pt(e.1, points[e.0 as int].0 as int, points[e.0 as int].1 as int)
}

/// Every entry of a push-chain result is valid.
pub open spec fn pushed_ok(
    pushed: Seq<(usize, Rect)>,
    grow: Rect,
    dir: PushDirection,
    rects: Seq<Rect>,
    points: Seq<(i32, i32)>,
) -> bool {
    forall|k: int| 0 <= k < pushed.len() ==> pushed_entry_ok(
        #[trigger] pushed[k], grow, dir, rects, points)
}

/// No rectangle index appears twice in a push-chain result.
pub open spec fn pushed_distinct(pushed: Seq<(usize, Rect)>) -> bool {
    forall|k1: int, k2: int| #![trigger pushed[k1], pushed[k2]]
        0 <= k1 < k2 < pushed.len() ==> pushed[k1].0 != pushed[k2].0
}

/// Rectangle `j` appears in the push-chain result.
pub open spec fn pushed_contains(pushed: Seq<(usize, Rect)>, j: int) -> bool {
    exists|k: int| 0 <= k < pushed.len() && (#[trigger] pushed[k]).0 as int == j
}

/// Pushing rectangle `j` out of the way of the grow strip would evict its
/// target point, so the whole push is infeasible.
pub open spec fn push_fails(
    grow: Rect,
    dir: PushDirection,
    rects: Seq<Rect>,
    points: Seq<(i32, i32)>,
    j: int,
) -> bool {
    &&& spec_intersect(grow, rects[j])
    &&& !contains_pt(spec_push_by(rects[j], grow, dir), points[j].0 as int, points[j].1 as int)
}

/// A feasible push-chain result is mutually consistent: the replacements
/// do not overlap each other, and none overlaps any rectangle outside the
/// pushed set.
pub proof fn lemma_push_result_consistent(
    pushed: Seq<(usize, Rect)>,
    grow: Rect,
    dir: PushDirection,
    rects: Seq<Rect>,
    points: Seq<(i32, i32)>,
)
    requires
        pushed_ok(pushed, grow, dir, rects, points),
        pushed_distinct(pushed),
        pairwise_disjoint(rects),
    ensures
        forall|k1: int, k2: int| #![trigger pushed[k1], pushed[k2]]
            0 <= k1 < k2 < pushed.len() ==> !spec_intersect(pushed[k1].1, pushed[k2].1),
        forall|k: int, j: int| 0 <= k < pushed.len() && 0 <= j < rects.len()
            && j != (#[trigger] pushed[k]).0 as int ==> !spec_intersect(
                pushed[k].1, #[trigger] rects[j]),
{
    assert forall|k: int, j: int| 0 <= k < pushed.len() && 0 <= j < rects.len()
        && j != (#[trigger] pushed[k]).0 as int implies !spec_intersect(
            pushed[k].1, #[trigger] rects[j]) by {
        let jk = pushed[k].0 as int;
        lemma_push_by_shrinks(rects[jk], grow, dir);
        lemma_covered_disjoint(pushed[k].1, rects[jk], rects[j]);
    }
    assert forall|k1: int, k2: int| #![trigger pushed[k1], pushed[k2]]
        0 <= k1 < k2 < pushed.len() implies !spec_intersect(pushed[k1].1, pushed[k2].1) by {
        let j1 = pushed[k1].0 as int;
        let j2 = pushed[k2].0 as int;
        lemma_push_by_shrinks(rects[j1], grow, dir);
        lemma_push_by_shrinks(rects[j2], grow, dir);
        assert(!spec_intersect(pushed[k2].1, rects[j1]));
        lemma_covered_disjoint(pushed[k1].1, rects[j1], pushed[k2].1);
    }
}

} // verus!
