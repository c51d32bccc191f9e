//! The offline pyramid builder.
//!
//! Given the tile files present in a folder, reconstruct every missing
//! coarser level bottom-up: each missing tile of level `L` is stitched
//! from its four children at level `2L` (blank where a child is missing)
//! and downsampled back to one tile. The deepest level is found by
//! parsing the `{level}_{x}x{y}.{format}` file names; the finished
//! pyramid's manifest declares every level from 1 up to one below the
//! deepest.

use vstd::prelude::*;

use vstd::arithmetic::div_mod::{lemma_fundamental_div_mod, lemma_fundamental_div_mod_converse};

use crate::format::{tile_name_chars, Manifest};
use crate::pixels::{lanczos_resized, resize_rgba};
use crate::text::{
    dec_rep, find_char, is_digit, lemma_dec_rep_props, parse_canonical_pair, parse_canonical_u32,
};

verus! {

broadcast use vstd::seq_lib::lemma_seq_contains_after_push;

/// Character-for-character string equality.
pub fn chars_equal(a: &str, b: &str) -> (r: bool)
    ensures
        r == (a@ == b@),
{
    let alen = a.unicode_len();
    let blen = b.unicode_len();
    if alen != blen {
        return false;
    }
    let mut i: usize = 0;
    while i < alen
        invariant
            0 <= i <= alen,
            alen == a@.len(),
            alen == b@.len(),
            forall|j: int| 0 <= j < i ==> a@[j] == b@[j],
        decreases alen - i,
    {
        if a.get_char(i) != b.get_char(i) {
            return false;
        }
        i = i + 1;
    }
    proof {
        assert(a@ =~= b@);
    }
    true
}

/// A digit character is not one of the separators of a tile file name.
proof fn lemma_digit_not_separator(c: char)
    requires
        is_digit(c),
    ensures
        c != '.' && c != '_' && c != 'x',
{
}

/// Where everything sits inside a canonical tile file name.
proof fn lemma_tile_name_structure(name: Seq<char>, l: u32, x: u32, y: u32, format: Seq<char>)
    requires
        name == tile_name_chars(l as int, x as int, y as int, format),
    ensures
        ({
            let dl = dec_rep(l as int);
            let dx = dec_rep(x as int);
            let dy = dec_rep(y as int);
            let sl = dl.len() + dx.len() + dy.len() + 2;
            name.len() == sl + 1 + format.len() && name[sl as int] == '.' && (forall|j: int|
                0 <= j < sl ==> name[j] != '.') && name.skip(sl + 1 as int) == format && dl.len() < sl
                && name[dl.len() as int] == '_' && (forall|j: int|
                0 <= j < dl.len() ==> name[j] != '_') && name.take(dl.len() as int) == dl
                && name.subrange(dl.len() + 1 as int, sl as int) == dx + seq!['x'] + dy
        }),
{
    let dl = dec_rep(l as int);
    let dx = dec_rep(x as int);
    let dy = dec_rep(y as int);
    let sl = dl.len() + dx.len() + dy.len() + 2;
    lemma_dec_rep_props(l as int);
    lemma_dec_rep_props(x as int);
    lemma_dec_rep_props(y as int);
    assert(name.len() == sl + 1 + format.len());
    assert(name[sl as int] == '.');
    assert forall|j: int| 0 <= j < sl implies name[j] != '.' by {
        if j < dl.len() {
            lemma_digit_not_separator(dl[j]);
        } else if j == dl.len() {
        } else if j < dl.len() + 1 + dx.len() {
            lemma_digit_not_separator(dx[j - dl.len() - 1]);
        } else if j == dl.len() + 1 + dx.len() {
        } else {
            lemma_digit_not_separator(dy[j - dl.len() - dx.len() - 2]);
        }
    }
    assert(name.skip(sl + 1 as int) =~= format);
    assert(name[dl.len() as int] == '_');
    assert forall|j: int| 0 <= j < dl.len() implies name[j] != '_' by {
        lemma_digit_not_separator(dl[j]);
    }
    assert(name.take(dl.len() as int) =~= dl);
    assert(name.subrange(dl.len() + 1 as int, sl as int) =~= dx + seq!['x'] + dy);
}

/// Parse a tile file name: exactly the names `tile_file_name` writes are
/// accepted, and give back the address they were written from.
///
/// This reads the `{level}_{x}x{y}.{format}` convention strictly, a
/// deliberate policy: a name with a non-canonical numeral (a leading
/// zero, a `+` sign) is not a tile of the pyramid, so the scan ignores
/// it and the builder fills that position itself.
pub fn parse_tile_name(name: &str, format: &str) -> (r: Option<(u32, u32, u32)>)
    ensures
        r matches Some(t) ==> name@ == tile_name_chars(
            t.0 as int,
            t.1 as int,
            t.2 as int,
            format@,
        ),
        forall|l: u32, x: u32, y: u32|
            name@ == tile_name_chars(l as int, x as int, y as int, format@) ==> r == Some(
                (l, x, y),
            ),
{
    let len = name.unicode_len();
    let dot = match find_char(name, '.') {
        Some(d) => d,
        None => {
            proof {
                assert forall|l: u32, x: u32, y: u32|
                    name@ != tile_name_chars(l as int, x as int, y as int, format@) by {
                    if name@ == tile_name_chars(l as int, x as int, y as int, format@) {
                        lemma_tile_name_structure(name@, l, x, y, format@);
                    }
                }
            }
            return None;
        },
    };
    let ext = name.substring_char(dot + 1, len);
    if !chars_equal(ext, format) {
        proof {
            assert forall|l: u32, x: u32, y: u32|
                name@ != tile_name_chars(l as int, x as int, y as int, format@) by {
                if name@ == tile_name_chars(l as int, x as int, y as int, format@) {
                    lemma_tile_name_structure(name@, l, x, y, format@);
                    let sl = dec_rep(l as int).len() + dec_rep(x as int).len() + dec_rep(
                        y as int,
                    ).len() + 2;
                    assert(dot == sl);
                    assert(ext@ =~= name@.skip(sl + 1 as int));
                }
            }
        }
        return None;
    }
    let stem = name.substring_char(0, dot);
    let us = match find_char(stem, '_') {
        Some(u) => u,
        None => {
            proof {
                assert forall|l: u32, x: u32, y: u32|
                    name@ != tile_name_chars(l as int, x as int, y as int, format@) by {
                    if name@ == tile_name_chars(l as int, x as int, y as int, format@) {
                        lemma_tile_name_structure(name@, l, x, y, format@);
                        let sl = dec_rep(l as int).len() + dec_rep(x as int).len() + dec_rep(
                            y as int,
                        ).len() + 2;
                        assert(dot == sl);
                        assert(stem@[dec_rep(l as int).len() as int] == '_');
                    }
                }
            }
            return None;
        },
    };
    let left = stem.substring_char(0, us);
    let stem_len = stem.unicode_len();
    let rest = stem.substring_char(us + 1, stem_len);
    proof {
        assert forall|l: u32, x: u32, y: u32|
            name@ == tile_name_chars(l as int, x as int, y as int, format@) implies (left@
            == dec_rep(l as int) && rest@ == dec_rep(x as int) + seq!['x'] + dec_rep(
            y as int,
        )) by {
            lemma_tile_name_structure(name@, l, x, y, format@);
            let dl = dec_rep(l as int);
            let sl = dl.len() + dec_rep(x as int).len() + dec_rep(y as int).len() + 2;
            assert(dot == sl);
            assert forall|j: int| 0 <= j < dl.len() implies stem@[j] != '_' by {
                assert(stem@[j] == name@[j]);
            }
            assert(stem@[dl.len() as int] == name@[dl.len() as int]);
            assert(stem@[dl.len() as int] == '_');
            assert(us == dl.len());
            assert(left@ =~= name@.take(dl.len() as int));
            assert(rest@ =~= name@.subrange(dl.len() + 1 as int, sl as int));
        }
    }
    let lev = match parse_canonical_u32(left) {
        Some(lev) => lev,
        None => {
            return None;
        },
    };
    let xy = match parse_canonical_pair(rest) {
        Some(p) => p,
        None => {
            return None;
        },
    };
    proof {
        assert(name@ =~= stem@ + seq![name@[dot as int]] + ext@);
        assert(stem@ =~= left@ + seq![stem@[us as int]] + rest@);
        assert(name@ =~= tile_name_chars(lev as int, xy.0 as int, xy.1 as int, format@));
    }
    Some((lev, xy.0, xy.1))
}

/// The addresses of every tile file among the given names.
pub fn scan_tile_names(names: &Vec<String>, format: &str) -> (r: Vec<(u32, u32, u32)>)
    ensures
        forall|t: (u32, u32, u32)| #[trigger] r@.contains(t) <==> exists|j: int|
            0 <= j < names@.len() && (#[trigger] names@[j])@ == tile_name_chars(
                t.0 as int,
                t.1 as int,
                t.2 as int,
                format@,
            ),
{
    let mut r: Vec<(u32, u32, u32)> = Vec::new();
    let mut i: usize = 0;
    while i < names.len()
        invariant
            0 <= i <= names@.len(),
            forall|t: (u32, u32, u32)| #[trigger] r@.contains(t) <==> exists|j: int|
                0 <= j < i && (#[trigger] names@[j])@ == tile_name_chars(
                    t.0 as int,
                    t.1 as int,
                    t.2 as int,
                    format@,
                ),
        decreases names@.len() - i,
    {
        let ghost r_pre = r@;
        match parse_tile_name(names[i].as_str(), format) {
            Some(t) => {
                r.push(t);
                proof {
                    assert forall|t2: (u32, u32, u32)| #[trigger] r@.contains(t2) implies exists|
                        j: int,
                    |
                        0 <= j < i + 1 && (#[trigger] names@[j])@ == tile_name_chars(
                            t2.0 as int,
                            t2.1 as int,
                            t2.2 as int,
                            format@,
                        ) by {
                        if r_pre.contains(t2) {
                            let j0 = choose|j: int|
                                0 <= j < i && (#[trigger] names@[j])@ == tile_name_chars(
                                    t2.0 as int,
                                    t2.1 as int,
                                    t2.2 as int,
                                    format@,
                                );
                            assert(0 <= j0 < i + 1 && names@[j0]@ == tile_name_chars(
                                t2.0 as int,
                                t2.1 as int,
                                t2.2 as int,
                                format@,
                            ));
                        } else {
                            assert(t2 == t);
                            assert(names@[i as int]@ == tile_name_chars(
                                t.0 as int,
                                t.1 as int,
                                t.2 as int,
                                format@,
                            ));
                        }
                    }
                    assert forall|t2: (u32, u32, u32)|
                        exists|j: int|
                            0 <= j < i + 1 && (#[trigger] names@[j])@ == tile_name_chars(
                                t2.0 as int,
                                t2.1 as int,
                                t2.2 as int,
                                format@,
                            ) implies #[trigger] r@.contains(t2) by {
                        let j0 = choose|j: int|
                            0 <= j < i + 1 && (#[trigger] names@[j])@ == tile_name_chars(
                                t2.0 as int,
                                t2.1 as int,
                                t2.2 as int,
                                format@,
                            );
                        if j0 < i {
                            assert(r_pre.contains(t2));
                        } else {
                            assert(t2 == t);
                        }
                    }
                }
            },
            None => {
                proof {
                    assert forall|t2: (u32, u32, u32)|
                        exists|j: int|
                            0 <= j < i + 1 && (#[trigger] names@[j])@ == tile_name_chars(
                                t2.0 as int,
                                t2.1 as int,
                                t2.2 as int,
                                format@,
                            ) implies #[trigger] r@.contains(t2) by {
                        let j0 = choose|j: int|
                            0 <= j < i + 1 && (#[trigger] names@[j])@ == tile_name_chars(
                                t2.0 as int,
                                t2.1 as int,
                                t2.2 as int,
                                format@,
                            );
                        assert(j0 < i);
                        assert(r_pre.contains(t2));
                    }
                }
            },
        }
        i = i + 1;
    }
    r
}

/// The deepest level among the scanned tiles, or nothing when there are
/// none.
pub fn deepest_level(tiles: &Vec<(u32, u32, u32)>) -> (r: Option<u32>)
    ensures
        r is Some <==> tiles@.len() > 0,
        r matches Some(d) ==> (exists|j: int| 0 <= j < tiles@.len() && (#[trigger] tiles@[j]).0 == d)
            && (forall|j: int| 0 <= j < tiles@.len() ==> (#[trigger] tiles@[j]).0 <= d),
{
    if tiles.len() == 0 {
        return None;
    }
    let mut best: u32 = tiles[0].0;
    let mut i: usize = 1;
    proof {
        assert(tiles@[0].0 == best);
    }
    let mut gwit: Ghost<int> = Ghost(0);
    while i < tiles.len()
        invariant
            1 <= i <= tiles@.len(),
            0 <= gwit@ < tiles@.len(),
            tiles@[gwit@].0 == best,
            forall|j: int| 0 <= j < i ==> (#[trigger] tiles@[j]).0 <= best,
        decreases tiles@.len() - i,
    {
        if tiles[i].0 > best {
            best = tiles[i].0;
            gwit = Ghost(i as int);
        }
        i = i + 1;
    }
    Some(best)
}

/// The levels the builder fills, finest first: `deepest / 2`, then half
/// of that, and so on down to level 1. Empty when there is nothing below
/// the deepest level.
pub fn fill_levels(deepest: u32) -> (r: Vec<u32>)
    ensures
        (r@.len() == 0) <==> deepest < 2,
        r@.len() > 0 ==> r@[0] == deepest / 2,
        forall|j: int| 1 <= j < r@.len() ==> #[trigger] r@[j] == r@[j - 1] / 2,
        forall|j: int| 0 <= j < r@.len() ==> r@[j] >= 1,
        r@.len() > 0 ==> r@.last() == 1,
{
    let mut r: Vec<u32> = Vec::new();
    let mut cur: u32 = deepest;
    while cur >= 2
        invariant
            r@.len() == 0 ==> cur == deepest,
            r@.len() > 0 ==> r@[0] == deepest / 2 && r@.last() == cur && cur >= 1,
            forall|j: int| 1 <= j < r@.len() ==> #[trigger] r@[j] == r@[j - 1] / 2,
            forall|j: int| 0 <= j < r@.len() ==> r@[j] >= 1,
            cur <= deepest,
        decreases cur,
    {
        cur = cur / 2;
        r.push(cur);
    }
    r
}

/// Every position of a level with no tile present there.
pub fn missing_at_level(present: &Vec<(u32, u32, u32)>, level: u32) -> (r: Vec<(u32, u32)>)
    ensures
        forall|p: (u32, u32)| #[trigger] r@.contains(p) <==> (p.0 < level && p.1 < level
            && !present@.contains((level, p.0, p.1))),
{
    let mut r: Vec<(u32, u32)> = Vec::new();
    let mut x: u32 = 0;
    while x < level
        invariant
            0 <= x <= level,
            forall|p: (u32, u32)| #[trigger] r@.contains(p) <==> (p.0 < x && p.1 < level
                && !present@.contains((level, p.0, p.1))),
        decreases level - x,
    {
        let mut y: u32 = 0;
        while y < level
            invariant
                0 <= x < level,
                0 <= y <= level,
                forall|p: (u32, u32)| #[trigger] r@.contains(p) <==> ((p.0 < x || (p.0 == x && p.1
                    < y)) && p.0 < level && p.1 < level && !present@.contains((level, p.0, p.1))),
            decreases level - y,
        {
            if !contains_triple(present, level, x, y) {
                r.push((x, y));
            }
            y = y + 1;
        }
        x = x + 1;
    }
    r
}

/// Whether an address is among the scanned tiles.
fn contains_triple(tiles: &Vec<(u32, u32, u32)>, level: u32, x: u32, y: u32) -> (r: bool)
    ensures
        r == tiles@.contains((level, x, y)),
{
    let mut i: usize = 0;
    while i < tiles.len()
        invariant
            0 <= i <= tiles@.len(),
            forall|j: int| 0 <= j < i ==> tiles@[j] != (level, x, y),
        decreases tiles@.len() - i,
    {
        let t = tiles[i];
        if t.0 == level && t.1 == x && t.2 == y {
            return true;
        }
        i = i + 1;
    }
    false
}

/// The four children of a tile, one level down: the level doubles and
/// each axis position doubles, covering the same region in four parts.
pub fn children_of(level: u32, x: u32, y: u32) -> (r: [(u32, u32, u32); 4])
    requires
        level <= 0x7fff_ffff,
        x < level,
        y < level,
    ensures
        r[0].0 == 2 * level && r[0].1 == 2 * x && r[0].2 == 2 * y,
        r[1].0 == 2 * level && r[1].1 == 2 * x + 1 && r[1].2 == 2 * y,
        r[2].0 == 2 * level && r[2].1 == 2 * x && r[2].2 == 2 * y + 1,
        r[3].0 == 2 * level && r[3].1 == 2 * x + 1 && r[3].2 == 2 * y + 1,
{
    let l2 = 2 * level;
    [(l2, 2 * x, 2 * y), (l2, 2 * x + 1, 2 * y), (l2, 2 * x, 2 * y + 1), (l2, 2 * x + 1, 2 * y + 1)]
}

/// The bytes a caller handed for one child, if any.
pub open spec fn opt_bytes(o: Option<&Vec<u8>>) -> Option<Seq<u8>> {
    match o {
        Option::Some(v) => Option::Some(v@),
        Option::None => Option::None,
    }
}

/// The linear index of byte `k` of pixel `(cc, rr)` of quadrant
/// `(qx, qy)` in the stitched 2x2 canvas.
pub open spec fn canvas_index(tile_px: int, qx: int, qy: int, rr: int, cc: int, k: int) -> int {
    ((qy * tile_px + rr) * (2 * tile_px) + qx * tile_px + cc) * 4 + k
}

/// One byte of the stitched canvas: the corresponding child byte, or 0
/// where that child is missing.
pub open spec fn quad_canvas_byte(
    c00: Option<Seq<u8>>,
    c10: Option<Seq<u8>>,
    c01: Option<Seq<u8>>,
    c11: Option<Seq<u8>>,
    tile_px: int,
    idx: int,
) -> u8 {
    let k = idx % 4;
    let col = (idx / 4) % (2 * tile_px);
    let row = (idx / 4) / (2 * tile_px);
    let qx = col / tile_px;
    let qy = row / tile_px;
    let cc = col % tile_px;
    let rr = row % tile_px;
    let child = if qx == 0 && qy == 0 {
        c00
    } else if qx == 1 && qy == 0 {
        c10
    } else if qx == 0 && qy == 1 {
        c01
    } else {
        c11
    };
    match child {
        Option::Some(c) => c[(rr * tile_px + cc) * 4 + k],
        Option::None => 0u8,
    }
}

/// The whole stitched canvas: `2 tile_px` pixels a side, four bytes per
/// pixel.
pub open spec fn quad_canvas(
    c00: Option<Seq<u8>>,
    c10: Option<Seq<u8>>,
    c01: Option<Seq<u8>>,
    c11: Option<Seq<u8>>,
    tile_px: int,
) -> Seq<u8> {
    Seq::new(
        (16 * tile_px * tile_px) as nat,
        |idx: int| quad_canvas_byte(c00, c10, c01, c11, tile_px, idx),
    )
}

/// A canvas index decomposes back into its coordinates, so distinct
/// coordinates mean distinct indices.
proof fn lemma_canvas_index_coords(tile_px: int, qx: int, qy: int, rr: int, cc: int, k: int)
    requires
        1 <= tile_px,
        0 <= qx < 2,
        0 <= qy < 2,
        0 <= rr < tile_px,
        0 <= cc < tile_px,
        0 <= k < 4,
    ensures
        ({
            let idx = canvas_index(tile_px, qx, qy, rr, cc, k);
            0 <= idx < 16 * tile_px * tile_px && idx % 4 == k && (idx / 4) % (2 * tile_px) == qx
                * tile_px + cc && (idx / 4) / (2 * tile_px) == qy * tile_px + rr && (qx * tile_px
                + cc) / tile_px == qx && (qx * tile_px + cc) % tile_px == cc && (qy * tile_px + rr)
                / tile_px == qy && (qy * tile_px + rr) % tile_px == rr
        }),
{
    let t = tile_px;
    let col = qx * t + cc;
    let row = qy * t + rr;
    assert(0 <= col < 2 * t && 0 <= row < 2 * t) by (nonlinear_arith)
        requires
            t >= 1 && 0 <= qx < 2 && 0 <= qy < 2 && 0 <= rr < t && 0 <= cc < t && col == qx * t
                + cc && row == qy * t + rr,
    {
    }
    let idx4 = row * (2 * t) + col;
    let idx = canvas_index(t, qx, qy, rr, cc, k);
    assert(idx == idx4 * 4 + k);
    assert(0 <= idx4 < 4 * t * t) by (nonlinear_arith)
        requires
            t >= 1 && 0 <= row < 2 * t && 0 <= col < 2 * t && idx4 == row * (2 * t) + col,
    {
    }
    lemma_fundamental_div_mod_converse(idx, 4, idx4, k);
    lemma_fundamental_div_mod_converse(idx4, 2 * t, row, col);
    lemma_fundamental_div_mod_converse(col, t, qx, cc);
    lemma_fundamental_div_mod_converse(row, t, qy, rr);
    assert(16 * t * t == 4 * (4 * t * t)) by (nonlinear_arith) {}
}

/// Copy one child tile into its quadrant of the canvas, leaving the
/// other three quadrants untouched.
fn blit_quadrant(canvas: &mut Vec<u8>, child: &Vec<u8>, tile_px: u32, qx: u32, qy: u32)
    requires
        1 <= tile_px <= 0x2000,
        qx < 2,
        qy < 2,
        old(canvas)@.len() == 16 * tile_px * tile_px,
        child@.len() == 4 * tile_px * tile_px,
    ensures
        final(canvas)@.len() == old(canvas)@.len(),
        forall|rr: int, cc: int, k: int|
            0 <= rr < tile_px && 0 <= cc < tile_px && 0 <= k < 4 ==> final(canvas)@[canvas_index(
                tile_px as int,
                qx as int,
                qy as int,
                rr,
                cc,
                k,
            )] == child@[(rr * tile_px + cc) * 4 + k],
        forall|qx2: int, qy2: int, rr: int, cc: int, k: int|
            0 <= qx2 < 2 && 0 <= qy2 < 2 && !(qx2 == qx && qy2 == qy) && 0 <= rr < tile_px && 0
                <= cc < tile_px && 0 <= k < 4 ==> final(canvas)@[canvas_index(
                tile_px as int,
                qx2,
                qy2,
                rr,
                cc,
                k,
            )] == old(canvas)@[canvas_index(tile_px as int, qx2, qy2, rr, cc, k)],
{
    let ghost snap = canvas@;
    let ghost t_i = tile_px as int;
    let t: usize = tile_px as usize;
    let mut rr: usize = 0;
    while rr < t
        invariant
            0 <= rr <= t,
            t == tile_px,
            1 <= tile_px <= 0x2000,
            qx < 2,
            qy < 2,
            canvas@.len() == snap.len(),
            snap.len() == 16 * tile_px * tile_px,
            child@.len() == 4 * tile_px * tile_px,
            t_i == tile_px as int,
            forall|rr2: int, cc: int, k: int|
                0 <= rr2 < rr && 0 <= cc < tile_px && 0 <= k < 4 ==> canvas@[canvas_index(
                    t_i,
                    qx as int,
                    qy as int,
                    rr2,
                    cc,
                    k,
                )] == child@[(rr2 * tile_px + cc) * 4 + k],
            forall|qx2: int, qy2: int, rr2: int, cc: int, k: int|
                0 <= qx2 < 2 && 0 <= qy2 < 2 && !(qx2 == qx && qy2 == qy) && 0 <= rr2 < tile_px
                    && 0 <= cc < tile_px && 0 <= k < 4 ==> canvas@[canvas_index(
                    t_i,
                    qx2,
                    qy2,
                    rr2,
                    cc,
                    k,
                )] == snap[canvas_index(t_i, qx2, qy2, rr2, cc, k)],
        decreases t - rr,
    {
        let mut cb: usize = 0;
        proof {
            assert(0 <= (qy as int) * t_i + (rr as int) <= 2 * t_i - 1 && 0 <= (qx as int) * t_i
                <= t_i && (((qy as int) * t_i + (rr as int)) * (2 * t_i) + (qx as int) * t_i) * 4
                + 4 * t_i <= 16 * t_i * t_i && 0 <= ((qy as int) * t_i + (rr as int)) * (2 * t_i)
                && (rr as int) * t_i * 4 + 4 * t_i <= 4 * t_i * t_i && 0 <= (rr as int) * t_i
                && 16 * t_i * t_i <= 0x4000_0000 && 4 * t_i * t_i <= 0x1000_0000) by (nonlinear_arith)
                requires
                    1 <= t_i <= 0x2000,
                    0 <= (qx as int) < 2,
                    0 <= (qy as int) < 2,
                    0 <= (rr as int) < t_i,
            {
            }
        }
        let row: usize = (qy as usize) * t + rr;
        let base: usize = (row * (2 * t) + (qx as usize) * t) * 4;
        let src_base: usize = rr * t * 4;
        while cb < 4 * t
            invariant
                0 <= cb <= 4 * t,
                0 <= rr < t,
                t == tile_px,
                1 <= tile_px <= 0x2000,
                qx < 2,
                qy < 2,
                canvas@.len() == snap.len(),
                snap.len() == 16 * tile_px * tile_px,
                child@.len() == 4 * tile_px * tile_px,
                t_i == tile_px as int,
                row == qy * tile_px + rr,
                base == ((qy * tile_px + rr) * (2 * tile_px) + qx * tile_px) * 4,
                src_base == rr * tile_px * 4,
                base + 4 * t_i <= 16 * t_i * t_i,
                src_base + 4 * t_i <= 4 * t_i * t_i,
                16 * t_i * t_i <= 0x4000_0000,
                4 * t_i * t_i <= 0x1000_0000,
                forall|rr2: int, cc: int, k: int|
                    0 <= rr2 < rr && 0 <= cc < tile_px && 0 <= k < 4 ==> canvas@[canvas_index(
                        t_i,
                        qx as int,
                        qy as int,
                        rr2,
                        cc,
                        k,
                    )] == child@[(rr2 * tile_px + cc) * 4 + k],
                forall|cc: int, k: int|
                    0 <= cc < tile_px && 0 <= k < 4 && cc * 4 + k < cb ==> canvas@[canvas_index(
                        t_i,
                        qx as int,
                        qy as int,
                        rr as int,
                        cc,
                        k,
                    )] == child@[(rr as int * tile_px + cc) * 4 + k],
                forall|qx2: int, qy2: int, rr2: int, cc: int, k: int|
                    0 <= qx2 < 2 && 0 <= qy2 < 2 && !(qx2 == qx && qy2 == qy) && 0 <= rr2 < tile_px
                        && 0 <= cc < tile_px && 0 <= k < 4 ==> canvas@[canvas_index(
                        t_i,
                        qx2,
                        qy2,
                        rr2,
                        cc,
                        k,
                    )] == snap[canvas_index(t_i, qx2, qy2, rr2, cc, k)],
            decreases 4 * t - cb,
        {
            let ghost pre = canvas@;
            let ghost cc_i = cb as int / 4;
            let ghost k_i = cb as int % 4;
            proof {
                lemma_fundamental_div_mod(cb as int, 4);
                lemma_canvas_index_coords(t_i, qx as int, qy as int, rr as int, cc_i, k_i);
                assert(base + cb == canvas_index(t_i, qx as int, qy as int, rr as int, cc_i, k_i));
                assert(src_base + cb == (rr as int * t_i + cc_i) * 4 + k_i);
            }
            let dst: usize = base + cb;
            let b: u8 = child[src_base + cb];
            canvas[dst] = b;
            proof {
                assert(canvas@ == pre.update(dst as int, b));
                assert forall|cc: int, k: int|
                    0 <= cc < tile_px && 0 <= k < 4 && cc * 4 + k < cb + 1 implies canvas@[canvas_index(
                    t_i,
                    qx as int,
                    qy as int,
                    rr as int,
                    cc,
                    k,
                )] == child@[(rr as int * tile_px + cc) * 4 + k] by {
                    lemma_canvas_index_coords(t_i, qx as int, qy as int, rr as int, cc, k);
                    if cc == cc_i && k == k_i {
                    } else {
                        assert(canvas_index(t_i, qx as int, qy as int, rr as int, cc, k)
                            != dst as int);
                    }
                }
                assert forall|rr2: int, cc: int, k: int|
                    0 <= rr2 < rr && 0 <= cc < tile_px && 0 <= k < 4 implies canvas@[canvas_index(
                    t_i,
                    qx as int,
                    qy as int,
                    rr2,
                    cc,
                    k,
                )] == child@[(rr2 * tile_px + cc) * 4 + k] by {
                    lemma_canvas_index_coords(t_i, qx as int, qy as int, rr2, cc, k);
                    assert(canvas_index(t_i, qx as int, qy as int, rr2, cc, k) != dst as int);
                }
                assert forall|qx2: int, qy2: int, rr2: int, cc: int, k: int|
                    0 <= qx2 < 2 && 0 <= qy2 < 2 && !(qx2 == qx && qy2 == qy) && 0 <= rr2 < tile_px
                        && 0 <= cc < tile_px && 0 <= k < 4 implies canvas@[canvas_index(
                    t_i,
                    qx2,
                    qy2,
                    rr2,
                    cc,
                    k,
                )] == snap[canvas_index(t_i, qx2, qy2, rr2, cc, k)] by {
                    lemma_canvas_index_coords(t_i, qx2, qy2, rr2, cc, k);
                    assert(canvas_index(t_i, qx2, qy2, rr2, cc, k) != dst as int);
                }
            }
            cb = cb + 1;
        }
        rr = rr + 1;
    }
}

/// Stitch up to four child tiles into one canvas twice the tile size,
/// blank where a child is missing.
pub fn compose_quad(
    c00: Option<&Vec<u8>>,
    c10: Option<&Vec<u8>>,
    c01: Option<&Vec<u8>>,
    c11: Option<&Vec<u8>>,
    tile_px: u32,
) -> (r: Vec<u8>)
    requires
        1 <= tile_px <= 0x2000,
        c00 matches Some(c) ==> c@.len() == 4 * tile_px * tile_px,
        c10 matches Some(c) ==> c@.len() == 4 * tile_px * tile_px,
        c01 matches Some(c) ==> c@.len() == 4 * tile_px * tile_px,
        c11 matches Some(c) ==> c@.len() == 4 * tile_px * tile_px,
    ensures
        r@ == quad_canvas(
            opt_bytes(c00),
            opt_bytes(c10),
            opt_bytes(c01),
            opt_bytes(c11),
            tile_px as int,
        ),
        r@.len() == 16 * tile_px * tile_px,
{
    let ghost t_i = tile_px as int;
    let t: usize = tile_px as usize;
    proof {
        crate::lod::lemma_mul_le(16 * t_i, t_i, 0x20000, 0x2000);
    }
    let mut canvas = crate::cache::zero_bytes(16 * t * t);
    if let Some(c) = c00 {
        blit_quadrant(&mut canvas, c, tile_px, 0, 0);
    }
    let ghost s1 = canvas@;
    if let Some(c) = c10 {
        blit_quadrant(&mut canvas, c, tile_px, 1, 0);
    }
    let ghost s2 = canvas@;
    if let Some(c) = c01 {
        blit_quadrant(&mut canvas, c, tile_px, 0, 1);
    }
    let ghost s3 = canvas@;
    if let Some(c) = c11 {
        blit_quadrant(&mut canvas, c, tile_px, 1, 1);
    }
    proof {
        let want = quad_canvas(opt_bytes(c00), opt_bytes(c10), opt_bytes(c01), opt_bytes(c11), t_i);
        assert forall|qx: int, qy: int, rr: int, cc: int, k: int|
            0 <= qx < 2 && 0 <= qy < 2 && 0 <= rr < tile_px && 0 <= cc < tile_px && 0 <= k
                < 4 implies canvas@[canvas_index(t_i, qx, qy, rr, cc, k)] == want[canvas_index(
            t_i,
            qx,
            qy,
            rr,
            cc,
            k,
        )] by {
            lemma_canvas_index_coords(t_i, qx, qy, rr, cc, k);
        }
        assert forall|idx: int| 0 <= idx < canvas@.len() implies canvas@[idx] == want[idx] by {
            let k = idx % 4;
            let q4 = idx / 4;
            let col = q4 % (2 * t_i);
            let row = q4 / (2 * t_i);
            let qx = col / t_i;
            let qy = row / t_i;
            let cc = col % t_i;
            let rr = row % t_i;
            lemma_fundamental_div_mod(idx, 4);
            lemma_fundamental_div_mod(q4, 2 * t_i);
            lemma_fundamental_div_mod(col, t_i);
            lemma_fundamental_div_mod(row, t_i);
            vstd::arithmetic::div_mod::lemma_mod_pos_bound(idx, 4);
            vstd::arithmetic::div_mod::lemma_mod_pos_bound(q4, 2 * t_i);
            vstd::arithmetic::div_mod::lemma_mod_pos_bound(col, t_i);
            vstd::arithmetic::div_mod::lemma_mod_pos_bound(row, t_i);
            assert(16 * t_i * t_i == 4 * (4 * t_i * t_i)) by (nonlinear_arith) {}
            assert(0 <= q4 < 4 * t_i * t_i);
            assert(0 <= row < 2 * t_i) by (nonlinear_arith)
                requires
                    t_i >= 1,
                    0 <= q4 < 4 * t_i * t_i,
                    q4 == (2 * t_i) * row + col,
                    0 <= col < 2 * t_i,
            {
            }
            assert(0 <= qx < 2) by (nonlinear_arith)
                requires
                    t_i >= 1,
                    0 <= col < 2 * t_i,
                    col == t_i * qx + cc,
                    0 <= cc < t_i,
            {
            }
            assert(0 <= qy < 2) by (nonlinear_arith)
                requires
                    t_i >= 1,
                    0 <= row < 2 * t_i,
                    row == t_i * qy + rr,
                    0 <= rr < t_i,
            {
            }
            assert(((qy * t_i + rr) * (2 * t_i) + qx * t_i + cc) * 4 + k == idx) by (nonlinear_arith)
                requires
                    idx == 4 * q4 + k,
                    q4 == (2 * t_i) * row + col,
                    col == t_i * qx + cc,
                    row == t_i * qy + rr,
            {
            }
            assert(canvas_index(t_i, qx, qy, rr, cc, k) == idx);
        }
        assert(canvas@ =~= want);
    }
    canvas
}

/// Build one missing tile from its four children: stitch them into a
/// double-size canvas and resample it down to one tile.
pub fn build_tile(
    c00: Option<&Vec<u8>>,
    c10: Option<&Vec<u8>>,
    c01: Option<&Vec<u8>>,
    c11: Option<&Vec<u8>>,
    tile_px: u32,
) -> (r: Vec<u8>)
    requires
        1 <= tile_px <= 0x2000,
        c00 matches Some(c) ==> c@.len() == 4 * tile_px * tile_px,
        c10 matches Some(c) ==> c@.len() == 4 * tile_px * tile_px,
        c01 matches Some(c) ==> c@.len() == 4 * tile_px * tile_px,
        c11 matches Some(c) ==> c@.len() == 4 * tile_px * tile_px,
    ensures
        r@ == lanczos_resized(
            quad_canvas(
                opt_bytes(c00),
                opt_bytes(c10),
                opt_bytes(c01),
                opt_bytes(c11),
                tile_px as int,
            ),
            (2 * tile_px) as u32,
            (2 * tile_px) as u32,
            tile_px,
            tile_px,
        ),
        r@.len() == tile_px * tile_px * 4,
{
    let canvas = compose_quad(c00, c10, c01, c11, tile_px);
    proof {
        assert(16 * (tile_px as int) * (tile_px as int) == (2 * tile_px as int) * (2
            * tile_px as int) * 4) by (nonlinear_arith) {}
    }
    resize_rgba(canvas, 2 * tile_px, 2 * tile_px, tile_px, tile_px)
}

/// The manifest the builder writes when the deepest present level is
/// `deepest`: every level from 1 up to one below the deepest is declared
/// available, and no render command is configured. The deepest level
/// itself is deliberately left undeclared, as the original data rather
/// than a built level.
pub fn built_manifest(deepest: u32, format: String) -> (r: Manifest)
    ensures
        r.available_levels@.len() == (if deepest >= 1 {
            deepest - 1
        } else {
            0
        }),
        forall|j: int|
            0 <= j < r.available_levels@.len() ==> r.available_levels@[j] == j + 1,
        r.format == format,
        r.render_command is None,
{
    let mut levels: Vec<u32> = Vec::new();
    let mut l: u32 = 1;
    while l < deepest
        invariant
            1 <= l,
            deepest >= 1 ==> l <= if deepest > 1 {
                deepest
            } else {
                1
            },
            deepest == 0 ==> l == 1,
            levels@.len() == l - 1,
            forall|j: int| 0 <= j < levels@.len() ==> levels@[j] == j + 1,
        decreases deepest - l,
    {
        levels.push(l);
        l = l + 1;
    }
    Manifest { available_levels: levels, format, render_command: None }
}


} // verus!
