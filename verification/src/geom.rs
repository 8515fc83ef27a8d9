//! Geometry primitives: the rectangle type and its pure edit operations.

use vstd::prelude::*;

verus! {

/// Side length of the coordinate space; every rectangle lies in `[0, L]²`
/// with a strictly positive width and height.
pub const L: i32 = 10_000;

/// An axis-aligned rectangle `[x1, x2) × [y1, y2)` with integer boundaries.
#[derive(Clone, Copy, Debug, PartialEq, Eq, Structural)]
pub struct Rect {
    pub x1: i32,
    pub x2: i32,
    pub y1: i32,
    pub y2: i32,
}

/// The edge along which a grow strip advances into its neighbours.
#[derive(Clone, Copy, Debug, PartialEq, Eq, Structural)]
pub enum PushDirection {
    X1,
    X2,
    Y1,
    Y2,
}

/// A well-formed rectangle: non-empty and inside the coordinate space.
pub open spec fn rect_wf(r: Rect) -> bool {
    &&& 0 <= r.x1 < r.x2 <= L
    &&& 0 <= r.y1 < r.y2 <= L
}

/// Area of a rectangle.
pub open spec fn spec_area(r: Rect) -> int {
    (r.x2 - r.x1) * (r.y2 - r.y1)
}

/// Half-open point containment: `(x, y)` lies in `[x1, x2) × [y1, y2)`.
pub open spec fn contains_pt(r: Rect, x: int, y: int) -> bool {
    &&& r.x1 <= x < r.x2
    &&& r.y1 <= y < r.y2
}

/// Open-interior overlap: touching edges do not count as intersecting.
pub open spec fn spec_intersect(a: Rect, b: Rect) -> bool {
    &&& (if a.x2 < b.x2 { a.x2 } else { b.x2 }) > (if a.x1 > b.x1 { a.x1 } else { b.x1 })
    &&& (if a.y2 < b.y2 { a.y2 } else { b.y2 }) > (if a.y1 > b.y1 { a.y1 } else { b.y1 })
}

/// The strip that `new` adds beyond `old`, together with the edge it
/// advances, or `None` when `new` stays inside `old`. Only the first
/// advancing edge (in the fixed order x1, y1, x2, y2) is reported.
pub open spec fn spec_grow_rect(old: Rect, new: Rect) -> Option<(Rect, PushDirection)> {
    if old.x1 > new.x1 {
        Some((Rect { x1: new.x1, x2: old.x1, y1: new.y1, y2: new.y2 }, PushDirection::X1))
    } else if old.y1 > new.y1 {
        Some((Rect { x1: new.x1, x2: new.x2, y1: new.y1, y2: old.y1 }, PushDirection::Y1))
    } else if old.x2 < new.x2 {
        Some((Rect { x1: old.x2, x2: new.x2, y1: new.y1, y2: new.y2 }, PushDirection::X2))
    } else if old.y2 < new.y2 {
        Some((Rect { x1: new.x1, x2: new.x2, y1: old.y2, y2: new.y2 }, PushDirection::Y2))
    } else {
        None
    }
}

/// The rectangle obtained by retracting the edge of `r` that faces an
/// advancing grow strip to just outside the strip.
pub open spec fn spec_push_by(r: Rect, grow: Rect, dir: PushDirection) -> Rect {
    match dir {
        PushDirection::X1 => Rect { x1: r.x1, x2: grow.x1, y1: r.y1, y2: r.y2 },
        PushDirection::X2 => Rect { x1: grow.x2, x2: r.x2, y1: r.y1, y2: r.y2 },
        PushDirection::Y1 => Rect { x1: r.x1, x2: r.x2, y1: r.y1, y2: grow.y1 },
        PushDirection::Y2 => Rect { x1: r.x1, x2: r.x2, y1: grow.y2, y2: r.y2 },
    }
}

/// At most one of the four edges of `new` moves outward relative to `old`.
/// Every edit the move proposer emits has this shape: a slide retracts one
/// edge and advances the opposite one, a grow moves a single edge, and a
/// paired edit advances one edge while retracting another.
pub open spec fn expands_at_most_one_edge(old: Rect, new: Rect) -> bool {
    let ex1 = new.x1 < old.x1;
    let ex2 = new.x2 > old.x2;
    let ey1 = new.y1 < old.y1;
    let ey2 = new.y2 > old.y2;
    &&& (ex1 ==> !ex2 && !ey1 && !ey2)
    &&& (ex2 ==> !ey1 && !ey2)
    &&& (ey1 ==> !ey2)
}

impl Rect {
    pub fn new(x1: i32, x2: i32, y1: i32, y2: i32) -> (r: Rect)
        ensures
            r == (Rect { x1, x2, y1, y2 }),
    {
        Rect { x1, x2, y1, y2 }
    }

    pub fn size(&self) -> (s: i64)
        requires
            rect_wf(*self),
        ensures
            s == spec_area(*self),
            1 <= s <= 100_000_000,
    {
        let w = (self.x2 - self.x1) as i64;
        let h = (self.y2 - self.y1) as i64;
        proof {
            assert(1 <= w * h <= 100_000_000) by (nonlinear_arith)
                requires
                    1 <= w <= 10_000,
                    1 <= h <= 10_000,
            ;
        }
        w * h
    }

    pub fn intersect(&self, other: &Rect) -> (r: bool)
        ensures
            r == spec_intersect(*self, *other),
    {
        let mnx = if self.x2 < other.x2 { self.x2 } else { other.x2 };
        let mxx = if self.x1 > other.x1 { self.x1 } else { other.x1 };
        let mny = if self.y2 < other.y2 { self.y2 } else { other.y2 };
        let mxy = if self.y1 > other.y1 { self.y1 } else { other.y1 };
        mnx > mxx && mny > mxy
    }

    pub fn contain(&self, x: i32, y: i32) -> (r: bool)
        ensures
            r == contains_pt(*self, x as int, y as int),
    {
        self.x1 <= x && x < self.x2 && self.y1 <= y && y < self.y2
    }

    pub fn slide_x(&self, d: i32) -> (r: Option<Rect>)
        requires
            rect_wf(*self),
        ensures
            r is Some <==> 0 <= self.x1 + d && self.x2 + d <= L,
            r matches Some(nr) ==> {
                &&& nr.x1 == self.x1 + d
                &&& nr.x2 == self.x2 + d
                &&& nr.y1 == self.y1
                &&& nr.y2 == self.y2
                &&& rect_wf(nr)
            },
    {
        let nx1 = self.x1 as i64 + d as i64;
        let nx2 = self.x2 as i64 + d as i64;
        if nx1 < 0 || (L as i64) < nx2 {
            None
        } else {
            Some(Rect { x1: nx1 as i32, x2: nx2 as i32, y1: self.y1, y2: self.y2 })
        }
    }

    pub fn slide_y(&self, d: i32) -> (r: Option<Rect>)
        requires
            rect_wf(*self),
        ensures
            r is Some <==> 0 <= self.y1 + d && self.y2 + d <= L,
            r matches Some(nr) ==> {
                &&& nr.x1 == self.x1
                &&& nr.x2 == self.x2
                &&& nr.y1 == self.y1 + d
                &&& nr.y2 == self.y2 + d
                &&& rect_wf(nr)
            },
    {
        let ny1 = self.y1 as i64 + d as i64;
        let ny2 = self.y2 as i64 + d as i64;
        if ny1 < 0 || (L as i64) < ny2 {
            None
        } else {
            Some(Rect { x1: self.x1, x2: self.x2, y1: ny1 as i32, y2: ny2 as i32 })
        }
    }

    pub fn move_x(&self, d: i32) -> (r: Option<Rect>)
        requires
            rect_wf(*self),
        ensures
            r is Some <==> 0 <= self.x1 + d && self.x2 + d < L,
            r matches Some(nr) ==> {
                &&& nr.x1 == self.x1 + d
                &&& nr.x2 == self.x2 + d
                &&& nr.y1 == self.y1
                &&& nr.y2 == self.y2
                &&& rect_wf(nr)
            },
    {
        let nx1 = self.x1 as i64 + d as i64;
        let nx2 = self.x2 as i64 + d as i64;
        if nx1 < 0 || (L as i64) <= nx2 {
            None
        } else {
            Some(Rect { x1: nx1 as i32, x2: nx2 as i32, y1: self.y1, y2: self.y2 })
        }
    }

    pub fn move_y(&self, d: i32) -> (r: Option<Rect>)
        requires
            rect_wf(*self),
        ensures
            r is Some <==> 0 <= self.y1 + d && self.y2 + d < L,
            r matches Some(nr) ==> {
                &&& nr.x1 == self.x1
                &&& nr.x2 == self.x2
                &&& nr.y1 == self.y1 + d
                &&& nr.y2 == self.y2 + d
                &&& rect_wf(nr)
            },
    {
        let ny1 = self.y1 as i64 + d as i64;
        let ny2 = self.y2 as i64 + d as i64;
        if ny1 < 0 || (L as i64) <= ny2 {
            None
        } else {
            Some(Rect { x1: self.x1, x2: self.x2, y1: ny1 as i32, y2: ny2 as i32 })
        }
    }

    pub fn grow_x1(&self, d: i32) -> (r: Option<Rect>)
        requires
            rect_wf(*self),
        ensures
            r is Some <==> 0 <= self.x1 + d && self.x1 + d < self.x2,
            r matches Some(nr) ==> {
                &&& nr.x1 == self.x1 + d
                &&& nr.x2 == self.x2
                &&& nr.y1 == self.y1
                &&& nr.y2 == self.y2
                &&& rect_wf(nr)
            },
    {
        let nx1 = self.x1 as i64 + d as i64;
        if nx1 < 0 || (self.x2 as i64) <= nx1 {
            None
        } else {
            Some(Rect { x1: nx1 as i32, x2: self.x2, y1: self.y1, y2: self.y2 })
        }
    }

    pub fn grow_x2(&self, d: i32) -> (r: Option<Rect>)
        requires
            rect_wf(*self),
        ensures
            r is Some <==> self.x1 < self.x2 + d && self.x2 + d <= L,
            r matches Some(nr) ==> {
                &&& nr.x1 == self.x1
                &&& nr.x2 == self.x2 + d
                &&& nr.y1 == self.y1
                &&& nr.y2 == self.y2
                &&& rect_wf(nr)
            },
    {
        let nx2 = self.x2 as i64 + d as i64;
        if nx2 <= self.x1 as i64 || (L as i64) < nx2 {
            None
        } else {
            Some(Rect { x1: self.x1, x2: nx2 as i32, y1: self.y1, y2: self.y2 })
        }
    }

    pub fn grow_y1(&self, d: i32) -> (r: Option<Rect>)
        requires
            rect_wf(*self),
        ensures
            r is Some <==> 0 <= self.y1 + d && self.y1 + d < self.y2,
            r matches Some(nr) ==> {
                &&& nr.x1 == self.x1
                &&& nr.x2 == self.x2
                &&& nr.y1 == self.y1 + d
                &&& nr.y2 == self.y2
                &&& rect_wf(nr)
            },
    {
        let ny1 = self.y1 as i64 + d as i64;
        if ny1 < 0 || (self.y2 as i64) <= ny1 {
            None
        } else {
            Some(Rect { x1: self.x1, x2: self.x2, y1: ny1 as i32, y2: self.y2 })
        }
    }

    pub fn grow_y2(&self, d: i32) -> (r: Option<Rect>)
        requires
            rect_wf(*self),
        ensures
            r is Some <==> self.y1 < self.y2 + d && self.y2 + d <= L,
            r matches Some(nr) ==> {
                &&& nr.x1 == self.x1
                &&& nr.x2 == self.x2
                &&& nr.y1 == self.y1
                &&& nr.y2 == self.y2 + d
                &&& rect_wf(nr)
            },
    {
        let ny2 = self.y2 as i64 + d as i64;
        if ny2 <= self.y1 as i64 || (L as i64) < ny2 {
            None
        } else {
            Some(Rect { x1: self.x1, x2: self.x2, y1: self.y1, y2: ny2 as i32 })
        }
    }

    pub fn grow_rect(&self, new: &Rect) -> (r: Option<(Rect, PushDirection)>)
        ensures
            r == spec_grow_rect(*self, *new),
    {
        if self.x1 > new.x1 {
            return Some((
                Rect { x1: new.x1, x2: self.x1, y1: new.y1, y2: new.y2 },
                PushDirection::X1,
            ));
        }
        if self.y1 > new.y1 {
            return Some((
                Rect { x1: new.x1, x2: new.x2, y1: new.y1, y2: self.y1 },
                PushDirection::Y1,
            ));
        }
        if self.x2 < new.x2 {
            return Some((
                Rect { x1: self.x2, x2: new.x2, y1: new.y1, y2: new.y2 },
                PushDirection::X2,
            ));
        }
        if self.y2 < new.y2 {
            return Some((
                Rect { x1: new.x1, x2: new.x2, y1: self.y2, y2: new.y2 },
                PushDirection::Y2,
            ));
        }
        None
    }

    pub fn push_by(&self, grow: &Rect, dir: PushDirection) -> (r: Rect)
        ensures
            r == spec_push_by(*self, *grow, dir),
    {
        match dir {
            PushDirection::X1 => Rect { x1: self.x1, x2: grow.x1, y1: self.y1, y2: self.y2 },
            PushDirection::X2 => Rect { x1: grow.x2, x2: self.x2, y1: self.y1, y2: self.y2 },
            PushDirection::Y1 => Rect { x1: self.x1, x2: self.x2, y1: self.y1, y2: grow.y1 },
            PushDirection::Y2 => Rect { x1: self.x1, x2: self.x2, y1: grow.y2, y2: self.y2 },
        }
    }
}

/// Two rectangles intersect exactly when some integer point lies in both
/// half-open boxes.
pub proof fn lemma_intersect_common_point(a: Rect, b: Rect)
    ensures
        spec_intersect(a, b) <==> exists|x: int, y: int| contains_pt(a, x, y) && contains_pt(b, x, y),
{
    if spec_intersect(a, b) {
        let x: int = if a.x1 > b.x1 { a.x1 as int } else { b.x1 as int };
        let y: int = if a.y1 > b.y1 { a.y1 as int } else { b.y1 as int };
        assert(contains_pt(a, x, y) && contains_pt(b, x, y));
    }
}

/// Area bounds for a well-formed rectangle.
pub proof fn lemma_area_bounds(r: Rect)
    requires
        rect_wf(r),
    ensures
        1 <= spec_area(r) <= 100_000_000,
{
    assert(1 <= (r.x2 - r.x1) * (r.y2 - r.y1) <= 100_000_000) by (nonlinear_arith)
        requires
            1 <= r.x2 - r.x1 <= 10_000,
            1 <= r.y2 - r.y1 <= 10_000,
    ;
}

/// When at most one edge of `new` moved outward, `new` is covered by `old`
/// together with the reported grow strip; with no advancing edge, `new`
/// stays inside `old`.
pub proof fn lemma_grow_rect_covers(old: Rect, new: Rect)
    requires
        expands_at_most_one_edge(old, new),
    ensures
        spec_grow_rect(old, new) matches Some(gd) ==> forall|x: int, y: int|
            contains_pt(new, x, y) ==> contains_pt(old, x, y) || contains_pt(gd.0, x, y),
        spec_grow_rect(old, new) is None ==> forall|x: int, y: int|
            contains_pt(new, x, y) ==> contains_pt(old, x, y),
{
}

/// A rectangle whose points all lie in `outer` cannot intersect anything
/// disjoint from `outer`.
pub proof fn lemma_covered_disjoint(inner: Rect, outer: Rect, s: Rect)
    requires
        forall|x: int, y: int| contains_pt(inner, x, y) ==> contains_pt(outer, x, y),
        !spec_intersect(outer, s),
    ensures
        !spec_intersect(inner, s),
{
    lemma_intersect_common_point(inner, s);
    lemma_intersect_common_point(outer, s);
}

/// The retracted rectangle produced by a push stays inside the rectangle
/// it came from and clears the grow strip.
pub proof fn lemma_push_by_shrinks(r: Rect, grow: Rect, dir: PushDirection)
    requires
        spec_intersect(r, grow),
    ensures
        forall|x: int, y: int|
            contains_pt(spec_push_by(r, grow, dir), x, y) ==> contains_pt(r, x, y),
        !spec_intersect(spec_push_by(r, grow, dir), grow),
{
}

} // verus!
