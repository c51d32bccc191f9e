//! Level-of-detail selection.
//!
//! Given the camera viewport and the store's declared levels, compute the
//! target level for the current zoom and walk the quadtree from the single
//! level-1 tile downward to find every tile that must be resident.

use vstd::prelude::*;

use crate::format::{level_available, manifest_level_available, Manifest};
use crate::geometry::{
    intersects, lemma_child_inside_parent, lemma_inside_intersects, rect_inside, rect_intersects,
    section_rect, tile_rect, Rect, SectionInfo,
};
use crate::ratio::{lemma_rat_le_lt_trans, lemma_rat_lt_le_trans};

verus! {

broadcast use vstd::seq_lib::lemma_seq_contains_after_push, vstd::seq_lib::lemma_seq_concat_contains_all_elements;

/// Whether `n` is a power of two (levels of the pyramid are 1, 2, 4, ...).
pub open spec fn level_pow2(n: int) -> bool
    decreases n,
{
    if n <= 0 {
        false
    } else if n == 1 {
        true
    } else {
        n % 2 == 0 && level_pow2(n / 2)
    }
}

/// Every strict ancestor of tile `(x, y)` at a level of `s` subdivisions
/// intersects the viewport. This is what the top-down descent guarantees
/// about every tile it visits.
pub open spec fn lineage_intersects(s: int, x: int, y: int, vp: Rect) -> bool
    decreases s,
{
    if s <= 1 {
        true
    } else {
        intersects(tile_rect(s / 2, x / 2, y / 2), vp) && lineage_intersects(
            s / 2,
            x / 2,
            y / 2,
            vp,
        )
    }
}

/// Two distinct powers of two are at least a factor of two apart.
pub proof fn lemma_pow2_ge_double(n: int, m: int)
    requires
        level_pow2(n),
        level_pow2(m),
        m < n,
    ensures
        2 * m <= n,
    decreases n,
{
    if m == n / 2 {
    } else if m < n / 2 {
        lemma_pow2_ge_double(n / 2, m);
    } else {
        lemma_pow2_ge_double(m, n / 2);
    }
}

/// A tile that intersects the viewport has all of its ancestors
/// intersecting it too, because each tile's region lies within its
/// parent's.
pub proof fn lemma_intersects_lineage(s: int, x: int, y: int, vp: Rect)
    requires
        level_pow2(s),
        s <= 0x1_0000_0000,
        0 <= x < s,
        0 <= y < s,
        vp.wf(),
        intersects(tile_rect(s, x, y), vp),
    ensures
        lineage_intersects(s, x, y, vp),
    decreases s,
{
    if s > 1 {
        lemma_child_inside_parent(s, x, y);
        lemma_inside_intersects(tile_rect(s, x, y), tile_rect(s / 2, x / 2, y / 2), vp);
        lemma_intersects_lineage(s / 2, x / 2, y / 2, vp);
    }
}

/// Whether the tile at `si` must be resident for viewport `vp`, a target
/// level of `target` subdivisions, and the store's declared levels: its
/// level is one of the visited powers of two up to the target, the level is
/// available, and its region overlaps the viewport.
pub open spec fn required_section(si: SectionInfo, vp: Rect, target: int, m: Manifest) -> bool {
    level_pow2(si.subdivisions as int) && si.subdivisions <= target && si.wf() && level_available(
        m,
        si.subdivisions,
    ) && intersects(
        tile_rect(si.subdivisions as int, si.subdiv_pos.0 as int, si.subdiv_pos.1 as int),
        vp,
    )
}

/// At a level of `p` subdivisions, one tile's resolution maps to at least
/// 0.8 device pixels per source pixel: `p * tile_px / (screen_h * zoom) >=
/// 0.8`, with the zoom written as the ratio `zn / zd` and the comparison
/// cleared of divisions.
pub open spec fn density_reached(p: int, tile_px: int, screen_h: int, zn: int, zd: int) -> bool {
    10 * p * tile_px * zd >= 8 * screen_h * zn
}

/// The level the doubling search settles on when it starts at `p`
/// subdivisions: keep doubling until the density condition is met.
pub open spec fn target_from(p: int, tile_px: int, screen_h: int, zn: int, zd: int) -> int
    decreases vstd::math::max(8 * screen_h * zn - 10 * p * tile_px * zd, 0),
    when p >= 1 && tile_px >= 1 && screen_h >= 1 && zn >= 1 && zd >= 1
    via target_from_decreases
{
    if density_reached(p, tile_px, screen_h, zn, zd) {
        p
    } else {
        target_from(2 * p, tile_px, screen_h, zn, zd)
    }
}

#[via_fn]
proof fn target_from_decreases(p: int, tile_px: int, screen_h: int, zn: int, zd: int) {
    if p >= 1 && tile_px >= 1 && screen_h >= 1 && zn >= 1 && zd >= 1 {
        assert(10 * p * tile_px * zd >= 10 && 10 * (2 * p) * tile_px * zd == 2 * (10 * p * tile_px
            * zd)) by (nonlinear_arith)
            requires
                p >= 1 && tile_px >= 1 && zd >= 1,
        {
        }
    }
}

/// The density condition is monotone in the level.
proof fn lemma_density_monotone(p1: int, p2: int, tile_px: int, screen_h: int, zn: int, zd: int)
    requires
        0 <= p1 <= p2,
        tile_px >= 1,
        zd >= 1,
        density_reached(p1, tile_px, screen_h, zn, zd),
    ensures
        density_reached(p2, tile_px, screen_h, zn, zd),
{
    assert(10 * p1 * tile_px * zd <= 10 * p2 * tile_px * zd) by (nonlinear_arith)
        requires
            0 <= p1 <= p2 && tile_px >= 1 && zd >= 1,
    {
    }
}

/// A zoom no larger than another meets the density condition wherever the
/// larger one does.
proof fn lemma_density_zoom(p: int, tile_px: int, screen_h: int, zn1: int, zd1: int, zn2: int, zd2: int)
    requires
        p >= 1,
        tile_px >= 1,
        screen_h >= 1,
        zn1 >= 1,
        zd1 >= 1,
        zn2 >= 1,
        zd2 >= 1,
        zn1 * zd2 <= zn2 * zd1,
        density_reached(p, tile_px, screen_h, zn2, zd2),
    ensures
        density_reached(p, tile_px, screen_h, zn1, zd1),
{
    assert(10 * p * tile_px * zd1 >= 8 * screen_h * zn1) by (nonlinear_arith)
        requires
            p >= 1 && tile_px >= 1 && screen_h >= 1 && zn1 >= 1 && zd1 >= 1 && zn2 >= 1 && zd2
                >= 1,
            zn1 * zd2 <= zn2 * zd1,
            10 * p * tile_px * zd2 >= 8 * screen_h * zn2,
    {
        assert((10 * p * tile_px * zd2) * zd1 >= (8 * screen_h * zn2) * zd1);
        assert((8 * screen_h * zn2) * zd1 >= (8 * screen_h * zn1) * zd2);
        assert((10 * p * tile_px * zd1) * zd2 >= (8 * screen_h * zn1) * zd2);
    }
}

/// What the doubling search returns: a power-of-two multiple of its start,
/// the first of the chain to meet the density condition.
proof fn lemma_target_from_props(p: int, tile_px: int, screen_h: int, zn: int, zd: int)
    requires
        p >= 1,
        tile_px >= 1,
        screen_h >= 1,
        zn >= 1,
        zd >= 1,
        level_pow2(p),
    ensures
        ({
            let t = target_from(p, tile_px, screen_h, zn, zd);
            t >= p && level_pow2(t) && density_reached(t, tile_px, screen_h, zn, zd) && forall|
                q: int,
            |
                level_pow2(q) && p <= q < t ==> !density_reached(q, tile_px, screen_h, zn, zd)
        }),
    decreases vstd::math::max(8 * screen_h * zn - 10 * p * tile_px * zd, 0),
{
    let t = target_from(p, tile_px, screen_h, zn, zd);
    if density_reached(p, tile_px, screen_h, zn, zd) {
        assert(t == p);
    } else {
        assert(10 * p * tile_px * zd >= 10 && 10 * (2 * p) * tile_px * zd == 2 * (10 * p * tile_px
            * zd)) by (nonlinear_arith)
            requires
                p >= 1 && tile_px >= 1 && zd >= 1,
        {
        }
        lemma_target_from_props(2 * p, tile_px, screen_h, zn, zd);
        assert(t == target_from(2 * p, tile_px, screen_h, zn, zd));
        assert forall|q: int|
            level_pow2(q) && p <= q < t implies !density_reached(
            q,
            tile_px,
            screen_h,
            zn,
            zd,
        ) by {
            if q > p {
                lemma_pow2_ge_double(q, p);
            }
        }
    }
}

/// Increasing the zoom while holding everything else fixed never decreases
/// the chosen target level, clamped or not.
pub proof fn lemma_target_level_monotone(
    tile_px: int,
    screen_h: int,
    zn1: int,
    zd1: int,
    zn2: int,
    zd2: int,
)
    requires
        tile_px >= 1,
        screen_h >= 1,
        zn1 >= 1,
        zd1 >= 1,
        zn2 >= 1,
        zd2 >= 1,
        zn1 * zd2 <= zn2 * zd1,
    ensures
        target_from(1, tile_px, screen_h, zn1, zd1) <= target_from(1, tile_px, screen_h, zn2, zd2),
        forall|mx: int|
            vstd::math::min(target_from(1, tile_px, screen_h, zn1, zd1), mx) <= vstd::math::min(
                target_from(1, tile_px, screen_h, zn2, zd2),
                mx,
            ),
{
    let t1 = target_from(1, tile_px, screen_h, zn1, zd1);
    let t2 = target_from(1, tile_px, screen_h, zn2, zd2);
    lemma_target_from_props(1, tile_px, screen_h, zn1, zd1);
    lemma_target_from_props(1, tile_px, screen_h, zn2, zd2);
    if t1 > t2 {
        lemma_density_zoom(t2, tile_px, screen_h, zn1, zd1, zn2, zd2);
        assert(!density_reached(t2, tile_px, screen_h, zn1, zd1));
    }
}

/// Two nonnegative factors stay below the product of their bounds.
pub(crate) proof fn lemma_mul_le(a: int, b: int, ab: int, bb: int)
    requires
        0 <= a <= ab,
        0 <= b <= bb,
    ensures
        0 <= a * b <= ab * bb,
{
    assert(0 <= a * b <= ab * bb) by (nonlinear_arith)
        requires
            0 <= a <= ab && 0 <= b <= bb,
    {
    }
}

/// Compute the target level for a zoom: the smallest power-of-two level at
/// which one tile's resolution reaches 0.8 device pixels per source pixel
/// on a screen of `screen_h` pixels.
pub fn target_level(tile_px: u32, screen_h: u32, zoom: crate::ratio::Ratio) -> (r: u32)
    requires
        1 <= tile_px,
        1 <= screen_h,
        1 <= zoom.num <= 0x4000_0000,
        1 <= zoom.den <= 0x4000_0000,
        density_reached(0x4000_0000, tile_px as int, screen_h as int, zoom.num as int, zoom.den as int),
    ensures
        r as int == target_from(
            1,
            tile_px as int,
            screen_h as int,
            zoom.num as int,
            zoom.den as int,
        ),
        1 <= r <= 0x8000_0000,
        level_pow2(r as int),
{
    let tp: i128 = tile_px as i128;
    let zd: i128 = zoom.den as i128;
    proof {
        lemma_mul_le(8 * screen_h as int, zoom.num as int, 0x8_0000_0000, 0x4000_0000);
    }
    let rhs: i128 = 8 * (screen_h as i128) * (zoom.num as i128);
    let mut p: u32 = 1;
    loop
        invariant
            1 <= p <= 0x8000_0000,
            level_pow2(p as int),
            1 <= tile_px,
            1 <= screen_h,
            1 <= zoom.num <= 0x4000_0000,
            1 <= zoom.den <= 0x4000_0000,
            density_reached(
                0x4000_0000,
                tile_px as int,
                screen_h as int,
                zoom.num as int,
                zoom.den as int,
            ),
            tp == tile_px as int,
            zd == zoom.den as int,
            rhs == 8 * screen_h as int * zoom.num as int,
            target_from(1, tile_px as int, screen_h as int, zoom.num as int, zoom.den as int)
                == target_from(
                p as int,
                tile_px as int,
                screen_h as int,
                zoom.num as int,
                zoom.den as int,
            ),
        ensures
            1 <= p <= 0x8000_0000,
            level_pow2(p as int),
            p as int == target_from(
                1,
                tile_px as int,
                screen_h as int,
                zoom.num as int,
                zoom.den as int,
            ),
        decreases vstd::math::max(
            8 * screen_h as int * zoom.num as int - 10 * p as int * tile_px as int
                * zoom.den as int,
            0,
        ),
    {
        proof {
            lemma_mul_le(10 * p as int, tp as int, 0x5_0000_0000, 0x1_0000_0000);
            lemma_mul_le(10 * p as int * tp as int, zd as int, 0x8_0000_0000_0000_0000, 0x4000_0000);
        }
        let lhs: i128 = 10 * (p as i128) * tp * zd;
        if lhs >= rhs {
            break;
        }
        proof {
            if p >= 0x4000_0000 {
                lemma_density_monotone(
                    0x4000_0000,
                    p as int,
                    tile_px as int,
                    screen_h as int,
                    zoom.num as int,
                    zoom.den as int,
                );
            }
            assert(p < 0x4000_0000);
            assert(10 * (2 * p as int) * tile_px as int * zoom.den as int == 2 * (10 * p as int
                * tile_px as int * zoom.den as int) && 10 * p as int * tile_px as int
                * zoom.den as int >= 10) by (nonlinear_arith)
                requires
                    p >= 1 && tile_px >= 1 && zoom.den >= 1,
            {
            }
        }
        let ghost p_old = p as int;
        p = 2 * p;
        proof {
            let g = 8 * (screen_h as int) * (zoom.num as int);
            let t_i = tile_px as int;
            let zd_i = zoom.den as int;
            assert(vstd::math::max(g - 10 * (p as int) * t_i * zd_i, 0) < vstd::math::max(
                g - 10 * p_old * t_i * zd_i,
                0,
            )) by {
                assert(p as int == 2 * p_old);
                assert(10 * (2 * p_old) * t_i * zd_i == 2 * (10 * p_old * t_i * zd_i) && 10
                    * p_old * t_i * zd_i >= 10) by (nonlinear_arith)
                    requires
                        p_old >= 1 && t_i >= 1 && zd_i >= 1,
                {
                }
            }
        }
    }
    p
}


/// A nonempty viewport lying inside the single level-1 tile, with a
/// target level of 1, requires exactly the root tile `(1, 0, 0)`.
///
/// Level 1 must be available for this: a manifest that declares only
/// deeper levels makes the required set empty at target 1.
pub proof fn lemma_viewport_inside_root_requires_exactly_root(vp: Rect, m: Manifest)
    requires
        vp.wf(),
        vp.left.spec_lt(vp.right),
        vp.bottom.spec_lt(vp.top),
        rect_inside(vp, tile_rect(1, 0, 0)),
        level_available(m, 1),
    ensures
        forall|si: SectionInfo| #[trigger] required_section(si, vp, 1, m) <==> (si.subdivisions
            == 1 && si.subdiv_pos.0 == 0 && si.subdiv_pos.1 == 0),
{
    let root = tile_rect(1, 0, 0);
    assert(root.wf());
    lemma_rat_le_lt_trans(root.left, vp.left, vp.right);
    lemma_rat_lt_le_trans(vp.left, vp.right, root.right);
    lemma_rat_lt_le_trans(vp.bottom, vp.top, root.top);
    lemma_rat_le_lt_trans(root.bottom, vp.bottom, vp.top);
    assert(intersects(root, vp));
    assert forall|si: SectionInfo|
        si.subdivisions == 1 && si.subdiv_pos.0 == 0 && si.subdiv_pos.1 == 0 implies
        #[trigger] required_section(si, vp, 1, m) by {
        assert(level_pow2(1));
    }
}

/// One pass over the frontier of a level: which frontier tiles touch the
/// viewport, and which of them are required (when the level is available).
fn visit_level(frontier: &Vec<(u32, u32)>, s: u32, avail: bool, vp: &Rect) -> (r: (
    Vec<(u32, u32)>,
    Vec<SectionInfo>,
))
    requires
        1 <= s,
        vp.wf(),
        forall|p: (u32, u32)| #[trigger] frontier@.contains(p) ==> p.0 < s && p.1 < s,
    ensures
        forall|p: (u32, u32)| #[trigger] r.0@.contains(p) <==> (frontier@.contains(p) && intersects(
            tile_rect(s as int, p.0 as int, p.1 as int),
            *vp,
        )),
        forall|si: SectionInfo| #[trigger] r.1@.contains(si) <==> (avail && si.subdivisions == s
            && frontier@.contains(si.subdiv_pos) && intersects(
            tile_rect(s as int, si.subdiv_pos.0 as int, si.subdiv_pos.1 as int),
            *vp,
        )),
{
    let mut touched: Vec<(u32, u32)> = Vec::new();
    let mut added: Vec<SectionInfo> = Vec::new();
    let mut i: usize = 0;
    while i < frontier.len()
        invariant
            i <= frontier@.len(),
            1 <= s,
            vp.wf(),
            forall|p: (u32, u32)| #[trigger] frontier@.contains(p) ==> p.0 < s && p.1 < s,
            forall|p: (u32, u32)| #[trigger] touched@.contains(p) <==> (frontier@.take(
                i as int,
            ).contains(p) && intersects(tile_rect(s as int, p.0 as int, p.1 as int), *vp)),
            forall|si: SectionInfo| #[trigger] added@.contains(si) <==> (avail && si.subdivisions
                == s && frontier@.take(i as int).contains(si.subdiv_pos) && intersects(
                tile_rect(s as int, si.subdiv_pos.0 as int, si.subdiv_pos.1 as int),
                *vp,
            )),
        decreases frontier@.len() - i,
    {
        let p = frontier[i];
        proof {
            assert(frontier@.contains(frontier@[i as int]));
            assert(frontier@.take(i + 1 as int) =~= frontier@.take(i as int).push(
                frontier@[i as int],
            ));
        }
        let si = SectionInfo { subdivisions: s, subdiv_pos: p };
        let region = section_rect(&si);
        let touch = rect_intersects(&region, vp);
        if touch {
            touched.push(p);
            if avail {
                added.push(si);
            }
        }
        i = i + 1;
    }
    proof {
        assert(frontier@.take(frontier@.len() as int) =~= frontier@);
    }
    (touched, added)
}

/// Replace each touched tile of a level by its four children one level
/// down.
fn expand_frontier(touched: &Vec<(u32, u32)>, s: u32) -> (r: Vec<(u32, u32)>)
    requires
        1 <= s <= 0x7fff_ffff,
        forall|p: (u32, u32)| #[trigger] touched@.contains(p) ==> p.0 < s && p.1 < s,
    ensures
        forall|c: (u32, u32)| #[trigger] r@.contains(c) <==> exists|p: (u32, u32)|
            #[trigger] touched@.contains(p) && (c.0 == 2 * p.0 || c.0 == 2 * p.0 + 1) && (c.1 == 2
                * p.1 || c.1 == 2 * p.1 + 1),
{
    let mut r: Vec<(u32, u32)> = Vec::new();
    let mut i: usize = 0;
    while i < touched.len()
        invariant
            i <= touched@.len(),
            1 <= s <= 0x7fff_ffff,
            forall|p: (u32, u32)| #[trigger] touched@.contains(p) ==> p.0 < s && p.1 < s,
            forall|c: (u32, u32)| #[trigger] r@.contains(c) <==> exists|p: (u32, u32)|
                #[trigger] touched@.take(i as int).contains(p) && (c.0 == 2 * p.0 || c.0 == 2 * p.0
                    + 1) && (c.1 == 2 * p.1 || c.1 == 2 * p.1 + 1),
        decreases touched@.len() - i,
    {
        let p = touched[i];
        proof {
            assert(touched@.contains(touched@[i as int]));
            assert(touched@.take(i + 1 as int) =~= touched@.take(i as int).push(
                touched@[i as int],
            ));
        }
        let ghost r_old = r@;
        let cx: u32 = 2 * p.0;
        let cy: u32 = 2 * p.1;
        r.push((cx, cy));
        r.push((cx + 1, cy));
        r.push((cx, cy + 1));
        r.push((cx + 1, cy + 1));
        proof {
            let c1 = (cx, cy);
            let c2 = (((cx + 1) as u32), cy);
            let c3 = (cx, ((cy + 1) as u32));
            let c4 = (((cx + 1) as u32), ((cy + 1) as u32));
            assert(r@ == r_old.push(c1).push(c2).push(c3).push(c4));
            assert forall|c: (u32, u32)| #[trigger] r@.contains(c) implies exists|q: (u32, u32)|
                #[trigger] touched@.take(i + 1 as int).contains(q) && (c.0 == 2 * q.0 || c.0 == 2
                    * q.0 + 1) && (c.1 == 2 * q.1 || c.1 == 2 * q.1 + 1) by {
                if c == c1 || c == c2 || c == c3 || c == c4 {
                    assert(touched@.take(i + 1 as int).contains(p));
                } else {
                    assert(r_old.contains(c));
                    let q = choose|q: (u32, u32)|
                        #[trigger] touched@.take(i as int).contains(q) && (c.0 == 2 * q.0 || c.0
                            == 2 * q.0 + 1) && (c.1 == 2 * q.1 || c.1 == 2 * q.1 + 1);
                    assert(touched@.take(i + 1 as int).contains(q));
                }
            }
            assert forall|c: (u32, u32), q: (u32, u32)|
                #[trigger] touched@.take(i + 1 as int).contains(q) && (c.0 == 2 * q.0 || c.0 == 2
                    * q.0 + 1) && (c.1 == 2 * q.1 || c.1 == 2 * q.1 + 1) implies #[trigger] r@.contains(
                c,
            ) by {
                if q == p {
                    assert(c == c1 || c == c2 || c == c3 || c == c4);
                    assert(r@.contains(c));
                } else {
                    assert(touched@.take(i as int).contains(q));
                    assert(r_old.contains(c));
                }
            }
        }
        i = i + 1;
    }
    proof {
        assert(touched@.take(touched@.len() as int) =~= touched@);
    }
    r
}

/// Walk the quadtree from level 1 down to the target level and collect
/// every tile that must be resident: each tile of an available visited
/// level whose region overlaps the viewport.
pub fn required_sections(m: &Manifest, vp: &Rect, target: u32) -> (out: Vec<SectionInfo>)
    requires
        vp.wf(),
    ensures
        forall|si: SectionInfo| #[trigger] out@.contains(si) <==> required_section(
            si,
            *vp,
            target as int,
            *m,
        ),
{
    let mut out: Vec<SectionInfo> = Vec::new();
    if target == 0 {
        return out;
    }
    let mut frontier: Vec<(u32, u32)> = Vec::new();
    frontier.push((0, 0));
    proof {
        assert(frontier@ == Seq::<(u32, u32)>::empty().push((0u32, 0u32)));
    }
    let mut s: u32 = 1;
    loop
        invariant_except_break
            forall|si: SectionInfo| #[trigger] out@.contains(si) <==> (required_section(
                si,
                *vp,
                target as int,
                *m,
            ) && si.subdivisions < s),
        invariant
            1 <= s <= target,
            level_pow2(s as int),
            vp.wf(),
            forall|p: (u32, u32)| #[trigger] frontier@.contains(p) <==> (p.0 < s && p.1 < s
                && lineage_intersects(s as int, p.0 as int, p.1 as int, *vp)),
        ensures
            level_pow2(s as int),
            2 * s > target,
            forall|si: SectionInfo| #[trigger] out@.contains(si) <==> (required_section(
                si,
                *vp,
                target as int,
                *m,
            ) && si.subdivisions <= s),
        decreases target - s,
    {
        let avail = manifest_level_available(m, s);
        let (touched, mut added) = visit_level(&frontier, s, avail, vp);
        proof {
            assert forall|si: SectionInfo| #[trigger] added@.contains(si) implies required_section(
                si,
                *vp,
                target as int,
                *m,
            ) && si.subdivisions == s by {
                assert(frontier@.contains(si.subdiv_pos));
            }
            assert forall|si: SectionInfo|
                required_section(si, *vp, target as int, *m) && si.subdivisions == s implies
                #[trigger] added@.contains(si) by {
                lemma_intersects_lineage(
                    s as int,
                    si.subdiv_pos.0 as int,
                    si.subdiv_pos.1 as int,
                    *vp,
                );
                assert(frontier@.contains(si.subdiv_pos));
            }
        }
        let ghost out_old = out@;
        let ghost added_snap = added@;
        out.append(&mut added);
        proof {
            assert(out@ == out_old + added_snap);
            assert forall|si: SectionInfo| #[trigger] out@.contains(si) implies (required_section(
                si,
                *vp,
                target as int,
                *m,
            ) && si.subdivisions <= s) by {
                assert(out_old.contains(si) || added_snap.contains(si));
            }
            assert forall|si: SectionInfo|
                required_section(si, *vp, target as int, *m) && si.subdivisions
                    <= s implies #[trigger] out@.contains(si) by {
                if si.subdivisions < s {
                    assert(out_old.contains(si));
                } else {
                    assert(added_snap.contains(si));
                }
            }
        }
        if s > target / 2 {
            break;
        }
        let s2: u32 = 2 * s;
        proof {
            assert forall|si: SectionInfo|
                required_section(si, *vp, target as int, *m) && si.subdivisions
                    < s2 implies si.subdivisions <= s by {
                if si.subdivisions > s {
                    lemma_pow2_ge_double(si.subdivisions as int, s as int);
                }
            }
        }
        let new_frontier = expand_frontier(&touched, s);
        proof {
            assert forall|c: (u32, u32)| #[trigger] new_frontier@.contains(c) implies (c.0 < s2
                && c.1 < s2 && lineage_intersects(s2 as int, c.0 as int, c.1 as int, *vp)) by {
                let p = choose|p: (u32, u32)|
                    #[trigger] touched@.contains(p) && (c.0 == 2 * p.0 || c.0 == 2 * p.0 + 1) && (
                    c.1 == 2 * p.1 || c.1 == 2 * p.1 + 1);
                assert(frontier@.contains(p));
                assert(c.0 as int / 2 == p.0 as int && c.1 as int / 2 == p.1 as int);
            }
            assert forall|c: (u32, u32)|
                c.0 < s2 && c.1 < s2 && lineage_intersects(
                    s2 as int,
                    c.0 as int,
                    c.1 as int,
                    *vp,
                ) implies #[trigger] new_frontier@.contains(c) by {
                let p: (u32, u32) = (c.0 / 2, c.1 / 2);
                assert(c.0 as int / 2 == p.0 as int && c.1 as int / 2 == p.1 as int);
                assert(intersects(tile_rect(s as int, p.0 as int, p.1 as int), *vp)
                    && lineage_intersects(s as int, p.0 as int, p.1 as int, *vp));
                assert(frontier@.contains(p));
                assert(touched@.contains(p));
                assert(c.0 == 2 * p.0 || c.0 == 2 * p.0 + 1);
                assert(c.1 == 2 * p.1 || c.1 == 2 * p.1 + 1);
            }
        }
        frontier = new_frontier;
        s = s2;
    }
    proof {
        assert forall|si: SectionInfo|
            required_section(si, *vp, target as int, *m) implies si.subdivisions <= s by {
            if si.subdivisions > s {
                lemma_pow2_ge_double(si.subdivisions as int, s as int);
            }
        }
    }
    out
}


} // verus!
