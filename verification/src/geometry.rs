//! Tile addressing and pyramid geometry.
//!
//! A pyramid level `L` splits the scene square `[-1, 1] x [-1, 1]` into
//! `L x L` tiles; tile `(x, y)` of level `L` spans `[-1 + 2x/L, -1 + 2(x+1)/L]`
//! horizontally and `[1 - 2(y+1)/L, 1 - 2y/L]` vertically (row 0 at the top).
//! All edges are exact rationals, so the intersection tests of the
//! level-of-detail pass need no floating point.

use vstd::prelude::*;

use crate::ratio::{lemma_rat_le_lt_trans, lemma_rat_lt_le_trans, Ratio};

verus! {

/// The address of one tile: the number of subdivisions per axis of its
/// level, and its `(x, y)` position inside that level.
#[derive(Debug, Clone, Copy)]
pub struct SectionInfo {
    pub subdivisions: u32,
    pub subdiv_pos: (u32, u32),
}

impl SectionInfo {
    /// The position indexes a tile of the level.
    pub open spec fn wf(self) -> bool {
        self.subdiv_pos.0 < self.subdivisions && self.subdiv_pos.1 < self.subdivisions
    }
}

impl PartialEq for SectionInfo {
    fn eq(&self, other: &SectionInfo) -> (r: bool) {
        self.subdivisions == other.subdivisions && self.subdiv_pos.0 == other.subdiv_pos.0
            && self.subdiv_pos.1 == other.subdiv_pos.1
    }
}

impl Eq for SectionInfo {

}

impl vstd::std_specs::cmp::PartialEqSpecImpl for SectionInfo {
    open spec fn obeys_eq_spec() -> bool {
        true
    }

    open spec fn eq_spec(&self, other: &SectionInfo) -> bool {
        *self == *other
    }
}

/// An axis-aligned rectangle in scene coordinates. Used both for tile
/// regions and for the camera viewport.
#[derive(Debug, Clone, Copy, PartialEq, Eq, Structural)]
pub struct Rect {
    pub left: Ratio,
    pub right: Ratio,
    pub bottom: Ratio,
    pub top: Ratio,
}

impl Rect {
    pub open spec fn wf(self) -> bool {
        self.left.wf() && self.right.wf() && self.bottom.wf() && self.top.wf()
    }
}

/// The scene region of tile `(x, y)` at a level of `s` subdivisions.
pub open spec fn tile_rect(s: int, x: int, y: int) -> Rect {
    Rect {
        left: Ratio { num: (2 * x - s) as i64, den: s as i64 },
        right: Ratio { num: (2 * x + 2 - s) as i64, den: s as i64 },
        bottom: Ratio { num: (s - 2 * y - 2) as i64, den: s as i64 },
        top: Ratio { num: (s - 2 * y) as i64, den: s as i64 },
    }
}

/// Whether two open rectangles overlap: each must start strictly before the
/// other ends, on both axes. Tiles that merely share an edge with the
/// viewport do not count as visible.
pub open spec fn intersects(t: Rect, vp: Rect) -> bool {
    t.left.spec_lt(vp.right) && vp.left.spec_lt(t.right) && vp.bottom.spec_lt(t.top)
        && t.bottom.spec_lt(vp.top)
}

/// `inner` lies within `outer`, edge for edge.
pub open spec fn rect_inside(inner: Rect, outer: Rect) -> bool {
    outer.left.spec_le(inner.left) && inner.right.spec_le(outer.right) && outer.bottom.spec_le(
        inner.bottom,
    ) && inner.top.spec_le(outer.top)
}

/// The viewport of a camera centered at `(cx, cy)` with the given zoom
/// and window aspect (width over height): `cy +- 1/zoom` vertically, and
/// `cx +- aspect/zoom` horizontally, since a window wider than it is
/// tall shows proportionally more of the scene on the x axis.
pub open spec fn camera_viewport(cx: Ratio, cy: Ratio, zoom: Ratio, aspect: Ratio) -> Rect {
    Rect {
        left: Ratio {
            num: (cx.num * zoom.num * aspect.den - cx.den * zoom.den * aspect.num) as i64,
            den: (cx.den * zoom.num * aspect.den) as i64,
        },
        right: Ratio {
            num: (cx.num * zoom.num * aspect.den + cx.den * zoom.den * aspect.num) as i64,
            den: (cx.den * zoom.num * aspect.den) as i64,
        },
        bottom: Ratio {
            num: (cy.num * zoom.num - cy.den * zoom.den) as i64,
            den: (cy.den * zoom.num) as i64,
        },
        top: Ratio {
            num: (cy.num * zoom.num + cy.den * zoom.den) as i64,
            den: (cy.den * zoom.num) as i64,
        },
    }
}

/// Bound on camera, zoom and aspect components under which the exact
/// viewport arithmetic stays within `i64`.
pub open spec fn camera_in_range(c: Ratio, zoom: Ratio, aspect: Ratio) -> bool {
    -0x100_0000 <= c.num <= 0x100_0000 && 0 < c.den <= 0x100_0000 && 0 < zoom.num <= 0x4_0000
        && 0 < zoom.den <= 0x4_0000 && 0 < aspect.num <= 0x4_0000 && 0 < aspect.den <= 0x4_0000
}

/// Compute the viewport of a camera exactly.
pub fn viewport_of_camera(cx: Ratio, cy: Ratio, zoom: Ratio, aspect: Ratio) -> (r: Rect)
    requires
        camera_in_range(cx, zoom, aspect),
        camera_in_range(cy, zoom, aspect),
    ensures
        r == camera_viewport(cx, cy, zoom, aspect),
        r.wf(),
{
    proof {
        lemma_product_in(cx.num as int, zoom.num as int, 0x100_0000, 0x4_0000);
        lemma_product_in(cx.num as int * zoom.num as int, aspect.den as int, 0x400_0000_0000, 0x4_0000);
        lemma_product_in(cx.den as int, zoom.den as int, 0x100_0000, 0x4_0000);
        lemma_product_in(cx.den as int * zoom.den as int, aspect.num as int, 0x400_0000_0000, 0x4_0000);
        lemma_product_in(cx.den as int, zoom.num as int, 0x100_0000, 0x4_0000);
        lemma_product_in(cx.den as int * zoom.num as int, aspect.den as int, 0x400_0000_0000, 0x4_0000);
        lemma_product_in(cy.num as int, zoom.num as int, 0x100_0000, 0x4_0000);
        lemma_product_in(cy.den as int, zoom.den as int, 0x100_0000, 0x4_0000);
        lemma_product_in(cy.den as int, zoom.num as int, 0x100_0000, 0x4_0000);
        assert(cx.den * zoom.num * aspect.den > 0 && cy.den * zoom.num > 0) by (nonlinear_arith)
            requires
                cx.den > 0 && cy.den > 0 && zoom.num > 0 && aspect.den > 0,
        {
        }
    }
    let x_center: i64 = cx.num * zoom.num * aspect.den;
    let x_half: i64 = cx.den * zoom.den * aspect.num;
    let x_den: i64 = cx.den * zoom.num * aspect.den;
    let y_half: i64 = cy.den * zoom.den;
    Rect {
        left: Ratio { num: x_center - x_half, den: x_den },
        right: Ratio { num: x_center + x_half, den: x_den },
        bottom: Ratio { num: cy.num * zoom.num - y_half, den: cy.den * zoom.num },
        top: Ratio { num: cy.num * zoom.num + y_half, den: cy.den * zoom.num },
    }
}

/// Factors within the given magnitudes keep their product within the
/// product of the magnitudes.
proof fn lemma_product_in(x: int, y: int, xb: int, yb: int)
    requires
        0 <= xb,
        0 <= yb,
        -xb <= x <= xb,
        -yb <= y <= yb,
    ensures
        -(xb * yb) <= x * y <= xb * yb,
{
    assert(-(xb * yb) <= x * y <= xb * yb) by (nonlinear_arith)
        requires
            0 <= xb && 0 <= yb && -xb <= x <= xb && -yb <= y <= yb,
    {
    }
}

/// The scene region of a tile, computed in machine integers.
pub fn section_rect(si: &SectionInfo) -> (r: Rect)
    requires
        si.subdivisions >= 1,
    ensures
        r == tile_rect(si.subdivisions as int, si.subdiv_pos.0 as int, si.subdiv_pos.1 as int),
        r.wf(),
{
    let s: i64 = si.subdivisions as i64;
    let x: i64 = si.subdiv_pos.0 as i64;
    let y: i64 = si.subdiv_pos.1 as i64;
    Rect {
        left: Ratio { num: 2 * x - s, den: s },
        right: Ratio { num: 2 * x + 2 - s, den: s },
        bottom: Ratio { num: s - 2 * y - 2, den: s },
        top: Ratio { num: s - 2 * y, den: s },
    }
}

/// Exact overlap test between a tile region and the viewport.
pub fn rect_intersects(t: &Rect, vp: &Rect) -> (r: bool)
    requires
        t.wf(),
        vp.wf(),
    ensures
        r == intersects(*t, *vp),
{
    t.left.lt(&vp.right) && vp.left.lt(&t.right) && vp.bottom.lt(&t.top) && t.bottom.lt(&vp.top)
}

/// A rectangle inside another intersects the viewport only if the outer
/// one does.
pub proof fn lemma_inside_intersects(inner: Rect, outer: Rect, vp: Rect)
    requires
        inner.wf(),
        outer.wf(),
        vp.wf(),
        rect_inside(inner, outer),
        intersects(inner, vp),
    ensures
        intersects(outer, vp),
{
    lemma_rat_le_lt_trans(outer.left, inner.left, vp.right);
    lemma_rat_lt_le_trans(vp.left, inner.right, outer.right);
    lemma_rat_lt_le_trans(vp.bottom, inner.top, outer.top);
    lemma_rat_le_lt_trans(outer.bottom, inner.bottom, vp.top);
}

/// A tile's region lies within the region of its parent tile, one level up.
pub proof fn lemma_child_inside_parent(s: int, x: int, y: int)
    requires
        2 <= s <= 0x1_0000_0000,
        s % 2 == 0,
        0 <= x < s,
        0 <= y < s,
    ensures
        rect_inside(tile_rect(s, x, y), tile_rect(s / 2, x / 2, y / 2)),
        tile_rect(s, x, y).wf(),
        tile_rect(s / 2, x / 2, y / 2).wf(),
{
    let h = s / 2;
    let px = x / 2;
    let py = y / 2;
    assert(s == 2 * h);
    assert(2 * px <= x && x <= 2 * px + 1);
    assert(2 * py <= y && y <= 2 * py + 1);
    assert((2 * px - h) * s <= (2 * x - s) * h) by (nonlinear_arith)
        requires
            s == 2 * h,
            h > 0,
            2 * px <= x,
    {
    }
    assert((2 * x + 2 - s) * h <= (2 * px + 2 - h) * s) by (nonlinear_arith)
        requires
            s == 2 * h,
            h > 0,
            x <= 2 * px + 1,
    {
    }
    assert((h - 2 * py - 2) * s <= (s - 2 * y - 2) * h) by (nonlinear_arith)
        requires
            s == 2 * h,
            h > 0,
            y <= 2 * py + 1,
    {
    }
    assert((s - 2 * y) * h <= (h - 2 * py) * s) by (nonlinear_arith)
        requires
            s == 2 * h,
            h > 0,
            2 * py <= y,
    {
    }
}

} // verus!
