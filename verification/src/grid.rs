//! Group-id arithmetic for the hierarchical bucket index.
//!
//! The square `[0, L]²` is cut into a three-level hierarchy: the root cell,
//! a 2×2 layer, and a 4×4 leaf layer. A point's leaf cell is found by
//! dividing each coordinate by `Q_MIN`; the two 2-bit cell coordinates are
//! bit-interleaved into a 4-bit code. A rectangle is registered at the
//! deepest cell that contains both of its corners; cells of all levels are
//! numbered by a flat group id: 0 for the root, 1..5 for the middle layer,
//! 5..21 for the leaves.

use vstd::prelude::*;

use crate::geom::{contains_pt, rect_wf, spec_intersect, Rect, L};

verus! {

/// Side length of a leaf cell; chosen so that coordinates up to `L`
/// inclusive fall into cell 0..4 on each axis.
pub const Q_MIN: i32 = 2_501;

/// First group id of the middle (2×2) layer.
pub const LAYER1_OFFSET: u8 = 1;

/// First group id of the leaf (4×4) layer.
pub const LAYER2_OFFSET: u8 = 5;

/// Total number of cells over all three levels.
pub const NGRID: usize = 21;

/// Bits of a 4-bit value spread to the even positions.
pub open spec fn spec_bit_separate(n: u8) -> u8 {
    (n % 2 + 4 * ((n / 2) % 2) + 16 * ((n / 4) % 2) + 64 * ((n / 8) % 2)) as u8
}

/// Interleaved code of the leaf cell `(cx, cy)`: even bits from `cx`,
/// odd bits from `cy`.
pub open spec fn spec_cell_code(cx: int, cy: int) -> int {
    cx % 2 + 2 * (cy % 2) + 4 * (cx / 2) + 8 * (cy / 2)
}

/// Leaf-cell code of the point `(x, y)`.
pub open spec fn spec_leaf_code(x: int, y: int) -> int {
    spec_cell_code(x / (Q_MIN as int), y / (Q_MIN as int))
}

/// Group id assigned to a rectangle whose corners carry the leaf codes
/// `c1` and `c2`: their common leaf if the codes agree, else their common
/// middle-layer cell if they share one, else the root.
pub open spec fn spec_gid_of_codes(c1: int, c2: int) -> int {
    if c1 == c2 {
        LAYER2_OFFSET as int + c2
    } else if c1 / 4 == c2 / 4 {
        LAYER1_OFFSET as int + c2 / 4
    } else {
        0
    }
}

/// Group id of a rectangle: a pure function of its two corners.
pub open spec fn spec_gid(r: Rect) -> int {
    spec_gid_of_codes(spec_leaf_code(r.x1 as int, r.y1 as int), spec_leaf_code(r.x2 as int, r.y2 as int))
}

/// Group id of the parent cell; the root is its own parent.
pub open spec fn spec_parent(g: int) -> int {
    if g >= LAYER2_OFFSET as int {
        LAYER1_OFFSET as int + (g - LAYER2_OFFSET as int) / 4
    } else {
        0
    }
}

/// Horizontal cell index of a group id within its own layer.
pub open spec fn gid_cx(g: int) -> int {
    if g < LAYER1_OFFSET as int {
        0
    } else if g < LAYER2_OFFSET as int {
        (g - LAYER1_OFFSET as int) % 2
    } else {
        (g - LAYER2_OFFSET as int) % 2 + 2 * (((g - LAYER2_OFFSET as int) / 4) % 2)
    }
}

/// Vertical cell index of a group id within its own layer.
pub open spec fn gid_cy(g: int) -> int {
    if g < LAYER1_OFFSET as int {
        0
    } else if g < LAYER2_OFFSET as int {
        (g - LAYER1_OFFSET as int) / 2
    } else {
        ((g - LAYER2_OFFSET as int) / 2) % 2 + 2 * ((g - LAYER2_OFFSET as int) / 8)
    }
}

/// Whether the point `(x, y)` lies in the region covered by cell `g`.
pub open spec fn pt_in_region(g: int, x: int, y: int) -> bool {
    if g < LAYER1_OFFSET as int {
        true
    } else if g < LAYER2_OFFSET as int {
        x / (2 * Q_MIN as int) == gid_cx(g) && y / (2 * Q_MIN as int) == gid_cy(g)
    } else {
        x / (Q_MIN as int) == gid_cx(g) && y / (Q_MIN as int) == gid_cy(g)
    }
}

/// Spreads the low four bits of `n` to the even bit positions.
pub fn bit_separate(n: u8) -> (r: u8)
    requires
        n < 16,
    ensures
        r == spec_bit_separate(n),
{
    let a = (n | (n << 2u8)) & 0b0011_0011;
    let b = (a | (a << 1u8)) & 0b0101_0101;
    proof {
        assert(b == n % 2 + 4 * ((n / 2) % 2) + 16 * ((n / 4) % 2) + 64 * ((n / 8) % 2))
            by (bit_vector)
            requires
                n < 16,
                a == (n | (n << 2u8)) & 0b0011_0011,
                b == (a | (a << 1u8)) & 0b0101_0101,
        ;
    }
    b
}

/// Leaf code of the point `(x, y)`.
pub fn point_to_leaf_gid(x: i32, y: i32) -> (r: u8)
    requires
        0 <= x <= L,
        0 <= y <= L,
    ensures
        r as int == spec_leaf_code(x as int, y as int),
        r < 16,
{
    let cx = (x / Q_MIN) as u8;
    let cy = (y / Q_MIN) as u8;
    assert(cx < 4 && cy < 4);
    let sx = bit_separate(cx);
    let sy = bit_separate(cy);
    let r = sx | (sy << 1u8);
    proof {
        assert(r == cx % 2 + 2 * (cy % 2) + 4 * (cx / 2) + 8 * (cy / 2) && r < 16)
            by (bit_vector)
            requires
                cx < 4,
                cy < 4,
                sx == cx % 2 + 4 * ((cx / 2) % 2),
                sy == cy % 2 + 4 * ((cy / 2) % 2),
                r == sx | (sy << 1u8),
        ;
    }
    r
}

/// Deepest common cell of the two leaf codes `i` and `j`.
pub fn leaf_leaf_to_gid(i: u8, j: u8) -> (r: u8)
    requires
        i < 16,
        j < 16,
    ensures
        r as int == spec_gid_of_codes(i as int, j as int),
        r < NGRID as u8,
{
    let n = i ^ j;
    if n == 0 {
        proof {
            assert(i == j) by (bit_vector)
                requires
                    i ^ j == 0,
            ;
        }
        return LAYER2_OFFSET + j;
    }
    let m = n >> 2u8;
    if m == 0 {
        proof {
            assert(i != j && i / 4 == j / 4 && j >> 2u8 == j / 4 && j >> 2u8 < 4) by (bit_vector)
                requires
                    i < 16,
                    j < 16,
                    i ^ j != 0,
                    (i ^ j) >> 2u8 == 0,
            ;
        }
        return LAYER1_OFFSET + (j >> 2u8);
    }
    proof {
        assert(i / 4 != j / 4) by (bit_vector)
            requires
                i < 16,
                j < 16,
                (i ^ j) >> 2u8 != 0,
        ;
    }
    0
}

/// Group id of a rectangle, from its two corner points.
pub fn get_gid(rect: &Rect) -> (r: u8)
    requires
        rect_wf(*rect),
    ensures
        r as int == spec_gid(*rect),
        r < NGRID as u8,
{
    leaf_leaf_to_gid(
        point_to_leaf_gid(rect.x1, rect.y1),
        point_to_leaf_gid(rect.x2, rect.y2),
    )
}

/// Group id of the parent cell; the root is its own parent.
pub fn parent_gid(gid: u8) -> (r: u8)
    requires
        gid < NGRID as u8,
    ensures
        r as int == spec_parent(gid as int),
        r < LAYER2_OFFSET,
{
    if gid >= LAYER2_OFFSET {
        return LAYER1_OFFSET + (gid - LAYER2_OFFSET) / 4;
    }
    0
}

/// Range of leaf group ids under the middle-layer cell `gid`.
pub fn children_gid_range(gid: u8) -> (r: core::ops::Range<u8>)
    requires
        LAYER1_OFFSET <= gid < LAYER2_OFFSET,
    ensures
        r.start as int == LAYER2_OFFSET as int + (gid as int - LAYER1_OFFSET as int) * 4,
        r.end == r.start + 4,
        forall|h: int| r.start as int <= h < r.end as int ==> spec_parent(h) == gid as int,
{
    let start = (gid - LAYER1_OFFSET) * 4 + LAYER2_OFFSET;
    let end = (gid - LAYER1_OFFSET + 1) * 4 + LAYER2_OFFSET;
    start..end
}

/// Interleaving and un-interleaving of leaf-cell coordinates agree.
proof fn lemma_cell_code_props(cx: int, cy: int)
    requires
        0 <= cx < 4,
        0 <= cy < 4,
    ensures
        0 <= spec_cell_code(cx, cy) < 16,
        gid_cx(LAYER2_OFFSET as int + spec_cell_code(cx, cy)) == cx,
        gid_cy(LAYER2_OFFSET as int + spec_cell_code(cx, cy)) == cy,
        spec_cell_code(cx, cy) / 4 == cx / 2 + 2 * (cy / 2),
{
    vstd::arithmetic::div_mod::lemma_fundamental_div_mod(cx, 2);
    vstd::arithmetic::div_mod::lemma_fundamental_div_mod(cy, 2);
    let a = cx % 2;
    let b = cy % 2;
    let d = cx / 2;
    let e = cy / 2;
    let c = spec_cell_code(cx, cy);
    assert(c == a + 2 * b + 4 * d + 8 * e);
    assert(0 <= a < 2 && 0 <= b < 2 && 0 <= d < 2 && 0 <= e < 2);
    vstd::arithmetic::div_mod::lemma_fundamental_div_mod_converse(c, 2, b + 2 * d + 4 * e, a);
    vstd::arithmetic::div_mod::lemma_fundamental_div_mod_converse(c, 4, d + 2 * e, a + 2 * b);
    vstd::arithmetic::div_mod::lemma_fundamental_div_mod_converse(c, 8, e, a + 2 * b + 4 * d);
    assert(c % 2 == a && c / 2 == b + 2 * d + 4 * e && c / 4 == d + 2 * e && c / 8 == e);
    vstd::arithmetic::div_mod::lemma_fundamental_div_mod_converse(b + 2 * d + 4 * e, 2, d + 2 * e, b);
    vstd::arithmetic::div_mod::lemma_fundamental_div_mod_converse(d + 2 * e, 2, e, d);
    assert((c / 2) % 2 == b && (c / 4) % 2 == d);
}

/// A leaf group id is recovered from its cell coordinates.
proof fn lemma_leaf_gid_inverse(g: int)
    requires
        LAYER2_OFFSET as int <= g < NGRID as int,
    ensures
        0 <= gid_cx(g) < 4,
        0 <= gid_cy(g) < 4,
        spec_cell_code(gid_cx(g), gid_cy(g)) == g - LAYER2_OFFSET as int,
        (g - LAYER2_OFFSET as int) / 4 == gid_cx(g) / 2 + 2 * (gid_cy(g) / 2),
{
    let c = g - 5;
    vstd::arithmetic::div_mod::lemma_fundamental_div_mod(c, 2);
    vstd::arithmetic::div_mod::lemma_fundamental_div_mod(c / 2, 2);
    vstd::arithmetic::div_mod::lemma_fundamental_div_mod(c / 4, 2);
    vstd::arithmetic::div_mod::lemma_div_denominator(c, 2, 2);
    vstd::arithmetic::div_mod::lemma_div_denominator(c, 4, 2);
    vstd::arithmetic::div_mod::lemma_div_denominator(c, 2, 4);
    let a = c % 2;
    let b = (c / 2) % 2;
    let d = (c / 4) % 2;
    let e = c / 8;
    assert(c / 2 / 2 == c / 4 && c / 4 / 2 == c / 8 && c / 2 / 4 == c / 8);
    assert(c == a + 2 * b + 4 * d + 8 * e);
    assert(0 <= a < 2 && 0 <= b < 2 && 0 <= d < 2 && 0 <= e < 2);
    let lx = a + 2 * d;
    let ly = b + 2 * e;
    assert(gid_cx(g) == lx && gid_cy(g) == ly);
    lemma_cell_code_props(lx, ly);
    vstd::arithmetic::div_mod::lemma_fundamental_div_mod_converse(lx, 2, d, a);
    vstd::arithmetic::div_mod::lemma_fundamental_div_mod_converse(ly, 2, e, b);
    assert(spec_cell_code(lx, ly) == a + 2 * b + 4 * d + 8 * e);
    vstd::arithmetic::div_mod::lemma_fundamental_div_mod_converse(c, 4, d + 2 * e, a + 2 * b);
    assert(c / 4 == d + 2 * e);
}

/// A middle-layer group id is recovered from its cell coordinates.
proof fn lemma_layer1_gid_inverse(g: int)
    requires
        LAYER1_OFFSET as int <= g < LAYER2_OFFSET as int,
    ensures
        0 <= gid_cx(g) < 2,
        0 <= gid_cy(g) < 2,
        g == LAYER1_OFFSET as int + gid_cx(g) + 2 * gid_cy(g),
{
    vstd::arithmetic::div_mod::lemma_fundamental_div_mod(g - 1, 2);
}

/// Group ids are bounded and come in the three level bands.
pub proof fn lemma_gid_bounds(r: Rect)
    requires
        rect_wf(r),
    ensures
        0 <= spec_gid(r) < NGRID as int,
{
    let qi = Q_MIN as int;
    let cx1 = r.x1 as int / qi;
    let cy1 = r.y1 as int / qi;
    let cx2 = r.x2 as int / qi;
    let cy2 = r.y2 as int / qi;
    assert(0 <= cx1 < 4 && 0 <= cy1 < 4 && 0 <= cx2 < 4 && 0 <= cy2 < 4);
    lemma_cell_code_props(cx1, cy1);
    lemma_cell_code_props(cx2, cy2);
}

/// Every point of a well-formed rectangle lies in the region of the cell
/// the rectangle is registered at.
pub proof fn lemma_rect_in_own_region(r: Rect, x: int, y: int)
    requires
        rect_wf(r),
        contains_pt(r, x, y),
    ensures
        pt_in_region(spec_gid(r), x, y),
{
    let qi = Q_MIN as int;
    let cx1 = r.x1 as int / qi;
    let cy1 = r.y1 as int / qi;
    let cx2 = r.x2 as int / qi;
    let cy2 = r.y2 as int / qi;
    assert(0 <= cx1 < 4 && 0 <= cy1 < 4 && 0 <= cx2 < 4 && 0 <= cy2 < 4);
    lemma_cell_code_props(cx1, cy1);
    lemma_cell_code_props(cx2, cy2);
    let c1 = spec_cell_code(cx1, cy1);
    let c2 = spec_cell_code(cx2, cy2);
    vstd::arithmetic::div_mod::lemma_div_is_ordered(r.x1 as int, x, qi);
    vstd::arithmetic::div_mod::lemma_div_is_ordered(x, r.x2 as int, qi);
    vstd::arithmetic::div_mod::lemma_div_is_ordered(r.y1 as int, y, qi);
    vstd::arithmetic::div_mod::lemma_div_is_ordered(y, r.y2 as int, qi);
    if c1 == c2 {
        assert(cx1 == cx2 && cy1 == cy2);
        assert(x / qi == cx2 && y / qi == cy2);
    } else if c1 / 4 == c2 / 4 {
        let g = spec_gid(r);
        assert(g == 1 + c2 / 4);
        assert(cx1 / 2 + 2 * (cy1 / 2) == cx2 / 2 + 2 * (cy2 / 2));
        assert(cx1 / 2 == cx2 / 2 && cy1 / 2 == cy2 / 2);
        lemma_layer1_gid_inverse(g);
        vstd::arithmetic::div_mod::lemma_fundamental_div_mod_converse(
            g - 1, 2, cy2 / 2, cx2 / 2);
        assert(gid_cx(g) == cx2 / 2 && gid_cy(g) == cy2 / 2);
        vstd::arithmetic::div_mod::lemma_div_denominator(x, qi, 2);
        vstd::arithmetic::div_mod::lemma_div_denominator(y, qi, 2);
        vstd::arithmetic::div_mod::lemma_div_is_ordered(cx1, x / qi, 2);
        vstd::arithmetic::div_mod::lemma_div_is_ordered(x / qi, cx2, 2);
        vstd::arithmetic::div_mod::lemma_div_is_ordered(cy1, y / qi, 2);
        vstd::arithmetic::div_mod::lemma_div_is_ordered(y / qi, cy2, 2);
        assert(x / (2 * qi) == (x / qi) / 2 && y / (2 * qi) == (y / qi) / 2);
        assert((x / qi) / 2 == cx2 / 2 && (y / qi) / 2 == cy2 / 2);
    }
}

/// When two well-formed rectangles intersect, the cell of the second is
/// the same as, an ancestor of, or a child of the cell of the first
/// (unless the first sits at the root, where every id is related anyway).
pub proof fn lemma_gid_related(a: Rect, b: Rect)
    requires
        rect_wf(a),
        rect_wf(b),
        spec_intersect(a, b),
    ensures
        spec_gid(a) != 0 ==> {
            let g = spec_gid(a);
            let h = spec_gid(b);
            ||| h == 0
            ||| h == g
            ||| h == spec_parent(g)
            ||| (g < LAYER2_OFFSET as int && h >= LAYER2_OFFSET as int && spec_parent(h) == g)
        },
{
    let g = spec_gid(a);
    let h = spec_gid(b);
    if g != 0 && h != 0 {
        crate::geom::lemma_intersect_common_point(a, b);
        let (x, y) = choose|x: int, y: int| contains_pt(a, x, y) && contains_pt(b, x, y);
        lemma_rect_in_own_region(a, x, y);
        lemma_rect_in_own_region(b, x, y);
        lemma_gid_bounds(a);
        lemma_gid_bounds(b);
        let qi = Q_MIN as int;
        vstd::arithmetic::div_mod::lemma_div_denominator(x, qi, 2);
        vstd::arithmetic::div_mod::lemma_div_denominator(y, qi, 2);
        assert(x / (2 * qi) == (x / qi) / 2 && y / (2 * qi) == (y / qi) / 2);
        if g >= 5 && h >= 5 {
            lemma_leaf_gid_inverse(g);
            lemma_leaf_gid_inverse(h);
            assert(gid_cx(g) == x / qi && gid_cx(h) == x / qi);
            assert(gid_cy(g) == y / qi && gid_cy(h) == y / qi);
            assert(g == h);
        } else if g >= 5 && h < 5 {
            lemma_leaf_gid_inverse(g);
            lemma_layer1_gid_inverse(h);
            assert(gid_cx(h) == (x / qi) / 2 == gid_cx(g) / 2);
            assert(gid_cy(h) == (y / qi) / 2 == gid_cy(g) / 2);
            assert(spec_parent(g) == 1 + (g - 5) / 4);
            assert((g - 5) / 4 == gid_cx(g) / 2 + 2 * (gid_cy(g) / 2));
            assert(h == 1 + gid_cx(h) + 2 * gid_cy(h));
            assert(h == spec_parent(g));
        } else if g < 5 && h >= 5 {
            lemma_layer1_gid_inverse(g);
            lemma_leaf_gid_inverse(h);
            assert(gid_cx(g) == (x / qi) / 2 == gid_cx(h) / 2);
            assert(gid_cy(g) == (y / qi) / 2 == gid_cy(h) / 2);
            assert((h - 5) / 4 == gid_cx(h) / 2 + 2 * (gid_cy(h) / 2));
            assert(spec_parent(h) == g);
        } else {
            lemma_layer1_gid_inverse(g);
            lemma_layer1_gid_inverse(h);
            assert(g == h);
        }
    }
}

} // verus!
