//! The section cache: the live set of in-memory tile entries.
//!
//! Each update tick reconciles the cache against the level-of-detail
//! pass: it evicts every section whose level exceeds the current target,
//! keeps the rest, and creates a hidden placeholder section for every
//! newly required tile, handing the caller the list of addresses whose
//! loads it must start. A background load's result comes back through
//! `deposit`.

use vstd::prelude::*;

use crate::format::{seq_max_u32, FormattedBigImage, Manifest};
use crate::geometry::{camera_in_range, camera_viewport, viewport_of_camera, SectionInfo};
use crate::lod::{density_reached, required_section, required_sections, target_from, target_level};
use crate::pixels::TilePixels;
use crate::ratio::Ratio;

verus! {

broadcast use vstd::seq_lib::lemma_seq_contains_after_push, vstd::seq_lib::lemma_seq_concat_contains_all_elements;

/// One live cache entry: a tile's address, its current pixel buffer (a
/// blank placeholder until the load lands), and its state. `hidden` holds
/// until the first real pixels arrive, so a blank placeholder is never
/// composed; `loading` records that a background load is still owed.
#[derive(Debug)]
pub struct Section {
    pub position: SectionInfo,
    pub pixels: Vec<u8>,
    pub width: u32,
    pub height: u32,
    pub hidden: bool,
    pub loading: bool,
}

/// What a just-created section looks like: hidden, awaiting its load,
/// with a zeroed placeholder buffer of one tile.
pub open spec fn fresh_section(s: Section, tile_px: int) -> bool {
    s.hidden && s.loading && s.width == tile_px && s.height == tile_px && s.pixels@.len() == tile_px
        * tile_px * 4 && forall|k: int| 0 <= k < s.pixels@.len() ==> s.pixels@[k] == 0
}

/// The target level of one update tick: what the zoom asks for, clamped
/// to the deepest declared level when the manifest declares any.
pub open spec fn clamped_target(m: Manifest, tile_px: int, screen_h: int, zn: int, zd: int) -> int {
    let t = target_from(1, tile_px, screen_h, zn, zd);
    if m.available_levels@.len() == 0 {
        t
    } else {
        vstd::math::min(t, seq_max_u32(m.available_levels@) as int)
    }
}

/// The live set of sections, reconciled every update tick.
#[derive(Debug)]
pub struct SectionCache {
    pub sections: Vec<Section>,
    pub tile_px: u32,
}

impl SectionCache {
    /// At most one section per tile address, and a usable tile size.
    pub open spec fn wf(self) -> bool {
        (forall|i: int, j: int|
            0 <= i < j < self.sections@.len() ==> (#[trigger] self.sections@[i]).position != (
            #[trigger] self.sections@[j]).position) && 1 <= self.tile_px <= 0x4000
    }

    /// Whether some section sits at this address.
    pub open spec fn has_position(self, si: SectionInfo) -> bool {
        exists|i: int|
            0 <= i < self.sections@.len() && (#[trigger] self.sections@[i]).position == si
    }

    /// An empty cache for tiles of `tile_px` pixels a side.
    pub fn new(tile_px: u32) -> (r: SectionCache)
        requires
            1 <= tile_px <= 0x4000,
        ensures
            r.sections@.len() == 0,
            r.tile_px == tile_px,
            r.wf(),
    {
        SectionCache { sections: Vec::new(), tile_px }
    }

    /// How many sections are live.
    pub fn len(&self) -> (r: usize)
        ensures
            r == self.sections@.len(),
    {
        self.sections.len()
    }

    /// Whether a section for this address is live.
    pub fn has_section(&self, si: SectionInfo) -> (r: bool)
        ensures
            r == self.has_position(si),
    {
        let mut i: usize = 0;
        while i < self.sections.len()
            invariant
                0 <= i <= self.sections@.len(),
                forall|j: int| 0 <= j < i ==> (#[trigger] self.sections@[j]).position != si,
            decreases self.sections@.len() - i,
        {
            if self.sections[i].position == si {
                return true;
            }
            i = i + 1;
        }
        false
    }

    /// One reconciliation tick.
    ///
    /// Computes the target level for the camera, evicts every section
    /// whose level exceeds it, creates a fresh hidden section for every
    /// required tile not already live, and returns exactly the addresses
    /// of the sections it created, whose loads the caller must start.
    pub fn update(
        &mut self,
        img: &FormattedBigImage,
        cx: Ratio,
        cy: Ratio,
        zoom: Ratio,
        aspect: Ratio,
        screen_h: u32,
    ) -> (to_load: Vec<SectionInfo>)
        requires
            old(self).wf(),
            camera_in_range(cx, zoom, aspect),
            camera_in_range(cy, zoom, aspect),
            1 <= screen_h,
            density_reached(
                0x4000_0000,
                old(self).tile_px as int,
                screen_h as int,
                zoom.num as int,
                zoom.den as int,
            ),
        ensures
            ({
                let vp = camera_viewport(cx, cy, zoom, aspect);
                let target = clamped_target(
                    img.manifest,
                    old(self).tile_px as int,
                    screen_h as int,
                    zoom.num as int,
                    zoom.den as int,
                );
                final(self).wf() && final(self).tile_px == old(self).tile_px
                // eviction: no section outlives a target below its level
                && (forall|i: int|
                    0 <= i < final(self).sections@.len()
                        ==> (#[trigger] final(self).sections@[i]).position.subdivisions <= target)
                // every required tile has a live section
                && (forall|si: SectionInfo|
                    required_section(si, vp, target, img.manifest) ==> final(self).has_position(
                        si,
                    ))
                // each surviving section is an old one within the target,
                // or a fresh one for a required tile that had none
                && (forall|i: int|
                    0 <= i < final(self).sections@.len() ==> old(self).sections@.contains(
                        #[trigger] final(self).sections@[i],
                    ) || (fresh_section(final(self).sections@[i], old(self).tile_px as int)
                        && required_section(final(self).sections@[i].position, vp, target, img.manifest)
                        && !old(self).has_position(final(self).sections@[i].position)))
                // every old section within the target survives unchanged
                && (forall|i: int|
                    0 <= i < old(self).sections@.len()
                        && (#[trigger] old(self).sections@[i]).position.subdivisions <= target
                        ==> final(self).sections@.contains(old(self).sections@[i]))
                // the returned addresses are exactly the created ones
                && (forall|si: SectionInfo| #[trigger]
                    to_load@.contains(si) <==> (required_section(si, vp, target, img.manifest)
                        && !old(self).has_position(si)))
            }),
    {
        let ghost vp_spec = camera_viewport(cx, cy, zoom, aspect);
        let ghost target_spec = clamped_target(
            img.manifest,
            self.tile_px as int,
            screen_h as int,
            zoom.num as int,
            zoom.den as int,
        );
        let t0 = target_level(self.tile_px, screen_h, zoom);
        let target: u32 = match img.max_level_available() {
            Some(mx) => if mx < t0 {
                mx
            } else {
                t0
            },
            None => t0,
        };
        proof {
            assert(target as int == target_spec);
        }
        let vp = viewport_of_camera(cx, cy, zoom, aspect);
        let required = required_sections(&img.manifest, &vp, target);

        // Eviction: keep exactly the sections at or below the target.
        let ghost old_secs = self.sections@;
        let mut kept: Vec<Section> = Vec::new();
        proof {
            assert(self.sections@ =~= old_secs.take(self.sections@.len() as int));
        }
        loop
            invariant_except_break
                forall|j: int|
                    0 <= j < kept@.len() ==> exists|k: int|
                        self.sections@.len() <= k < old_secs.len() && old_secs[k] == (
                        #[trigger] kept@[j]),
            invariant
                self.tile_px == old(self).tile_px,
                1 <= self.tile_px <= 0x4000,
                self.sections@ == old_secs.take(self.sections@.len() as int),
                self.sections@.len() <= old_secs.len(),
                forall|i: int, j: int|
                    0 <= i < j < old_secs.len() ==> (#[trigger] old_secs[i]).position != (
                    #[trigger] old_secs[j]).position,
                forall|j: int|
                    0 <= j < kept@.len() ==> (#[trigger] kept@[j]).position.subdivisions <= target,
                forall|k: int|
                    self.sections@.len() <= k < old_secs.len() && (#[trigger] old_secs[k]).position.subdivisions
                        <= target ==> kept@.contains(old_secs[k]),
                forall|j1: int, j2: int|
                    0 <= j1 < j2 < kept@.len() ==> (#[trigger] kept@[j1]).position != (
                    #[trigger] kept@[j2]).position,
            ensures
                self.tile_px == old(self).tile_px,
                1 <= self.tile_px <= 0x4000,
                self.sections@.len() == 0,
                forall|j: int|
                    0 <= j < kept@.len() ==> old_secs.contains(#[trigger] kept@[j])
                        && kept@[j].position.subdivisions <= target,
                forall|k: int|
                    0 <= k < old_secs.len() && (#[trigger] old_secs[k]).position.subdivisions
                        <= target ==> kept@.contains(old_secs[k]),
                forall|j1: int, j2: int|
                    0 <= j1 < j2 < kept@.len() ==> (#[trigger] kept@[j1]).position != (
                    #[trigger] kept@[j2]).position,
            decreases self.sections@.len(),
        {
            let ghost pre_len = self.sections@.len() as int;
            proof {
                if self.sections@.len() > 0 {
                    assert(self.sections@.last() == old_secs[self.sections@.len() - 1]);
                }
            }
            match self.sections.pop() {
                None => {
                    proof {
                        assert forall|j: int| 0 <= j < kept@.len() implies old_secs.contains(
                            #[trigger] kept@[j],
                        ) by {
                            let k0 = choose|k: int|
                                pre_len <= k < old_secs.len() && old_secs[k] == kept@[j];
                            assert(old_secs[k0] == kept@[j]);
                        }
                    }
                    break;
                },
                Some(sec) => {
                    proof {
                        assert(old_secs.take(pre_len).drop_last() =~= old_secs.take(pre_len - 1));
                        assert(sec == old_secs[pre_len - 1]);
                    }
                    if sec.position.subdivisions > target {
                        proof {
                            let n = pre_len - 1;
                            assert forall|j: int| 0 <= j < kept@.len() implies exists|k: int|
                                n <= k < old_secs.len() && old_secs[k] == (
                                #[trigger] kept@[j]) by {
                                let k0 = choose|k: int|
                                    pre_len <= k < old_secs.len() && old_secs[k] == kept@[j];
                                assert(old_secs[k0] == kept@[j]);
                            }
                        }
                    } else {
                        let ghost kept_pre = kept@;
                        kept.push(sec);
                        proof {
                            let n = pre_len - 1;
                            assert forall|j: int| 0 <= j < kept@.len() implies exists|k: int|
                                n <= k < old_secs.len() && old_secs[k] == (
                                #[trigger] kept@[j]) by {
                                if j == kept@.len() - 1 {
                                    assert(old_secs[n] == kept@[j]);
                                } else {
                                    let k0 = choose|k: int|
                                        pre_len <= k < old_secs.len() && old_secs[k]
                                            == kept_pre[j];
                                    assert(old_secs[k0] == kept@[j]);
                                }
                            }
                            assert forall|j: int| 0 <= j < kept@.len() - 1 implies (
                            #[trigger] kept@[j]).position != sec.position by {
                                let k0 = choose|k: int|
                                    pre_len <= k < old_secs.len() && old_secs[k] == kept_pre[j];
                                assert(old_secs[k0] == kept@[j]);
                                assert(old_secs[n].position != old_secs[k0].position);
                            }
                        }
                    }
                },
            }
        }
        proof {
            assert(old_secs.take(0) =~= Seq::<Section>::empty());
        }
        self.sections = kept;

        // Creation: a fresh hidden section for every required tile that
        // has none, and the list of their addresses for the caller.
        let ghost kept_secs = self.sections@;
        let mut to_load: Vec<SectionInfo> = Vec::new();
        let mut i: usize = 0;
        while i < required.len()
            invariant
                0 <= i <= required@.len(),
                self.tile_px == old(self).tile_px,
                1 <= self.tile_px <= 0x4000,
                forall|si: SectionInfo| #[trigger]
                    required@.contains(si) <==> required_section(
                        si,
                        vp_spec,
                        target_spec,
                        img.manifest,
                    ),
                forall|si: SectionInfo|
                    required_section(si, vp_spec, target_spec, img.manifest)
                        ==> si.subdivisions <= target_spec,
                target_spec == target as int,
                // kept prefix is stable
                kept_secs.len() <= self.sections@.len(),
                forall|j: int| 0 <= j < kept_secs.len() ==> self.sections@[j] == kept_secs[j],
                // kept characterization carried over
                forall|j: int|
                    0 <= j < kept_secs.len() ==> old_secs.contains(#[trigger] kept_secs[j])
                        && kept_secs[j].position.subdivisions <= target,
                forall|k: int|
                    0 <= k < old_secs.len() && (#[trigger] old_secs[k]).position.subdivisions
                        <= target ==> kept_secs.contains(old_secs[k]),
                old_secs == old(self).sections@,
                forall|i1: int, i2: int|
                    0 <= i1 < i2 < old_secs.len() ==> (#[trigger] old_secs[i1]).position != (
                    #[trigger] old_secs[i2]).position,
                // created suffix characterization
                forall|j: int|
                    kept_secs.len() <= j < self.sections@.len() ==> fresh_section(
                        #[trigger] self.sections@[j],
                        self.tile_px as int,
                    ) && required_section(
                        self.sections@[j].position,
                        vp_spec,
                        target_spec,
                        img.manifest,
                    ) && !old(self).has_position(self.sections@[j].position),
                // distinct positions overall
                forall|i1: int, i2: int|
                    0 <= i1 < i2 < self.sections@.len() ==> (
                    #[trigger] self.sections@[i1]).position != (
                    #[trigger] self.sections@[i2]).position,
                // everything required so far is resident
                forall|j: int|
                    0 <= j < i ==> self.has_position(#[trigger] required@[j]),
                // each created section's address was handed out for loading
                forall|j: int|
                    kept_secs.len() <= j < self.sections@.len() ==> to_load@.contains(
                        (#[trigger] self.sections@[j]).position,
                    ),
                // to_load characterization
                forall|si: SectionInfo| #[trigger]
                    to_load@.contains(si) <==> (required@.take(i as int).contains(si) && !old(self).has_position(si)),
            decreases required@.len() - i,
        {
            let si = required[i];
            proof {
                assert(required@.contains(required@[i as int]));
                assert(required@.take(i + 1 as int) =~= required@.take(i as int).push(
                    required@[i as int],
                ));
            }
            let ghost to_load_pre = to_load@;
            let ghost secs_pre = self.sections@;
            let present = self.has_section(si);
            if !present {
                let side: usize = self.tile_px as usize;
                proof {
                    crate::lod::lemma_mul_le(side as int, side as int, 0x4000, 0x4000);
                }
                let byte_len: usize = side * side * 4;
                let pixels = zero_bytes(byte_len);
                let tile_px = self.tile_px;
                self.sections.push(
                    Section {
                        position: si,
                        pixels,
                        width: tile_px,
                        height: tile_px,
                        hidden: true,
                        loading: true,
                    },
                );
                to_load.push(si);
                proof {
                    // the created section's address was not live before
                    // this tick: its level is within the target, so an
                    // old section there would have been kept and found
                    assert(!old(self).has_position(si)) by {
                        if old(self).has_position(si) {
                            let k = choose|k: int|
                                0 <= k < old_secs.len() && (#[trigger] old_secs[k]).position == si;
                            assert(old_secs[k].position.subdivisions <= target);
                            assert(kept_secs.contains(old_secs[k]));
                            let j = choose|j: int|
                                0 <= j < kept_secs.len() && kept_secs[j] == old_secs[k];
                            assert(secs_pre[j].position == si);
                        }
                    }
                }
            }
            proof {
                // to_load still matches the processed prefix
                assert forall|si2: SectionInfo| #[trigger]
                    to_load@.contains(si2) implies (required@.take(i + 1 as int).contains(si2)
                    && !old(self).has_position(si2)) by {
                    if to_load_pre.contains(si2) {
                        assert(required@.take(i as int).contains(si2));
                    } else {
                        assert(si2 == si);
                    }
                }
                assert forall|si2: SectionInfo|
                    required@.take(i + 1 as int).contains(si2) && !old(self).has_position(
                        si2,
                    ) implies #[trigger] to_load@.contains(si2) by {
                    if required@.take(i as int).contains(si2) {
                        assert(to_load_pre.contains(si2));
                    } else {
                        assert(si2 == si);
                        if present {
                            // already live but not from before the tick:
                            // created earlier in this loop, so its
                            // address is already in the list
                            let k = choose|k: int|
                                0 <= k < secs_pre.len() && (#[trigger] secs_pre[k]).position
                                    == si2;
                            if k < kept_secs.len() {
                                let ko = choose|ko: int|
                                    0 <= ko < old_secs.len() && old_secs[ko] == kept_secs[k];
                                assert(old_secs[ko].position == si2);
                                assert(false);
                            } else {
                                assert(to_load_pre.contains(secs_pre[k].position));
                            }
                        }
                    }
                }
                // everything required so far is still resident
                assert forall|j: int| 0 <= j < i + 1 implies self.has_position(
                    #[trigger] required@[j],
                ) by {
                    if j < i {
                        let k = choose|k: int|
                            0 <= k < secs_pre.len() && (#[trigger] secs_pre[k]).position
                                == required@[j];
                        assert(self.sections@[k].position == required@[j]);
                    } else {
                        if present {
                            let k = choose|k: int|
                                0 <= k < secs_pre.len() && (#[trigger] secs_pre[k]).position == si;
                            assert(self.sections@[k].position == si);
                        } else {
                            assert(self.sections@[self.sections@.len() - 1].position == si);
                        }
                    }
                }
            }
            i = i + 1;
        }
        proof {
            assert(required@.take(required@.len() as int) =~= required@);
            // no survivor above the target
            assert forall|i2: int| 0 <= i2 < self.sections@.len() implies (
            #[trigger] self.sections@[i2]).position.subdivisions <= target_spec by {
                if i2 < kept_secs.len() {
                    assert(self.sections@[i2] == kept_secs[i2]);
                } else {
                    assert(required_section(
                        self.sections@[i2].position,
                        vp_spec,
                        target_spec,
                        img.manifest,
                    ));
                }
            }
            // every required tile is resident
            assert forall|si: SectionInfo|
                required_section(si, vp_spec, target_spec, img.manifest) implies self.has_position(
                si,
            ) by {
                assert(required@.contains(si));
                let j = choose|j: int| 0 <= j < required@.len() && required@[j] == si;
                assert(self.has_position(required@[j]));
            }
            // every old section within the target survives
            assert forall|k: int|
                0 <= k < old_secs.len() && (#[trigger] old_secs[k]).position.subdivisions
                    <= target implies self.sections@.contains(old_secs[k]) by {
                assert(kept_secs.contains(old_secs[k]));
                let j = choose|j: int| 0 <= j < kept_secs.len() && kept_secs[j] == old_secs[k];
                assert(self.sections@[j] == old_secs[k]);
            }
            // each survivor is an old section or a fresh required one
            assert forall|i2: int| 0 <= i2 < self.sections@.len() implies old(
                self,
            ).sections@.contains(#[trigger] self.sections@[i2]) || (fresh_section(
                self.sections@[i2],
                old(self).tile_px as int,
            ) && required_section(self.sections@[i2].position, vp_spec, target_spec, img.manifest)
                && !old(self).has_position(self.sections@[i2].position)) by {
                if i2 < kept_secs.len() {
                    let k0 = choose|k: int|
                        0 <= k < old_secs.len() && old_secs[k] == kept_secs[i2];
                    assert(old_secs.contains(kept_secs[i2]));
                }
            }
        }
        to_load
    }


    /// The visible sections' addresses in draw order, coarsest level
    /// first: finer tiles paint over the coarser tiles beneath them, so
    /// an already-loaded coarse level shows through until the finer
    /// tiles above it finish loading.
    pub fn draw_order(&self) -> (r: Vec<SectionInfo>)
        ensures
            forall|m: int, n: int|
                0 <= m < n < r@.len() ==> (#[trigger] r@[m]).subdivisions <= (
                #[trigger] r@[n]).subdivisions,
            forall|si: SectionInfo| #[trigger] r@.contains(si) <==> exists|k: int|
                0 <= k < self.sections@.len() && (#[trigger] self.sections@[k]).position == si
                    && !self.sections@[k].hidden,
    {
        let mut r: Vec<SectionInfo> = Vec::new();
        let mut i: usize = 0;
        while i < self.sections.len()
            invariant
                0 <= i <= self.sections@.len(),
                forall|m: int, n: int|
                    0 <= m < n < r@.len() ==> (#[trigger] r@[m]).subdivisions <= (
                    #[trigger] r@[n]).subdivisions,
                forall|si: SectionInfo| #[trigger] r@.contains(si) <==> exists|k: int|
                    0 <= k < i && (#[trigger] self.sections@[k]).position == si
                        && !self.sections@[k].hidden,
            decreases self.sections@.len() - i,
        {
            let ghost r_pre = r@;
            if !self.sections[i].hidden {
                let si = self.sections[i].position;
                let mut j: usize = 0;
                loop
                    invariant
                        0 <= j <= r@.len(),
                        r@ == r_pre,
                        forall|m: int|
                            0 <= m < j ==> (#[trigger] r@[m]).subdivisions <= si.subdivisions,
                    ensures
                        0 <= j <= r@.len(),
                        r@ == r_pre,
                        forall|m: int|
                            0 <= m < j ==> (#[trigger] r@[m]).subdivisions <= si.subdivisions,
                        j < r@.len() ==> r@[j as int].subdivisions > si.subdivisions,
                    decreases r@.len() - j,
                {
                    if j == r.len() {
                        break ;
                    }
                    if r[j].subdivisions > si.subdivisions {
                        break ;
                    }
                    j = j + 1;
                }
                r.insert(j, si);
                proof {
                    r_pre.insert_ensures(j as int, si);
                    assert(r_pre.subrange(0, j as int) + r_pre.subrange(
                        j as int,
                        r_pre.len() as int,
                    ) =~= r_pre);
                    assert forall|m: int, n: int|
                        0 <= m < n < r@.len() implies (#[trigger] r@[m]).subdivisions <= (
                    #[trigger] r@[n]).subdivisions by {
                        if n < j {
                        } else if n == j {
                            assert(r@[n] == si && r@[m] == r_pre[m]);
                        } else {
                            assert(r@[n] == r_pre[n - 1]);
                            if m < j {
                                assert(r@[m] == r_pre[m]);
                            } else if m == j {
                                assert(r@[m] == si);
                                assert(r_pre[j as int].subdivisions > si.subdivisions);
                                if n - 1 > j {
                                    assert(r_pre[j as int].subdivisions <= r_pre[n
                                        - 1].subdivisions);
                                }
                            } else {
                                assert(r@[m] == r_pre[m - 1]);
                            }
                        }
                    }
                    assert forall|si2: SectionInfo| #[trigger]
                        r@.contains(si2) implies (si2 == si || r_pre.contains(si2)) by {
                        let p = choose|p: int| 0 <= p < r@.len() && r@[p] == si2;
                        if p < j {
                            assert(r_pre[p] == si2);
                        } else if p > j {
                            assert(r_pre[p - 1] == si2);
                        }
                    }
                    assert forall|si2: SectionInfo|
                        si2 == si || r_pre.contains(si2) implies #[trigger] r@.contains(si2) by {
                        if si2 == si {
                            assert(r@[j as int] == si2);
                        } else {
                            let p = choose|p: int| 0 <= p < r_pre.len() && r_pre[p] == si2;
                            if p < j {
                                assert(r@[p] == si2);
                            } else {
                                assert(r@[p + 1] == si2);
                            }
                        }
                    }
                }
            }
            proof {
                assert forall|si2: SectionInfo| #[trigger]
                    r@.contains(si2) implies exists|k: int|
                    0 <= k < i + 1 && (#[trigger] self.sections@[k]).position == si2
                        && !self.sections@[k].hidden by {
                    if r_pre.contains(si2) {
                        let k0 = choose|k: int|
                            0 <= k < i && (#[trigger] self.sections@[k]).position == si2
                                && !self.sections@[k].hidden;
                        assert(0 <= k0 < i + 1 && self.sections@[k0].position == si2
                            && !self.sections@[k0].hidden);
                    } else {
                        assert(self.sections@[i as int].position == si2
                            && !self.sections@[i as int].hidden);
                    }
                }
                assert forall|si2: SectionInfo|
                    exists|k: int|
                        0 <= k < i + 1 && (#[trigger] self.sections@[k]).position == si2
                            && !self.sections@[k].hidden implies #[trigger] r@.contains(si2) by {
                    let k0 = choose|k: int|
                        0 <= k < i + 1 && (#[trigger] self.sections@[k]).position == si2
                            && !self.sections@[k].hidden;
                    if k0 < i {
                        assert(r_pre.contains(si2));
                    }
                }
            }
            i = i + 1;
        }
        r
    }

    /// Record the result of a background load for the section at `si`, if
    /// one is still live and still waiting.
    ///
    /// Real pixels replace the placeholder and reveal the section; an
    /// absent result only ends the wait, leaving the section hidden for
    /// good. A deposit for an address that was evicted, or that is not
    /// waiting, changes nothing: the late result is discarded harmlessly.
    pub fn deposit(&mut self, si: SectionInfo, result: Option<TilePixels>)
        requires
            old(self).wf(),
        ensures
            final(self).wf(),
            final(self).tile_px == old(self).tile_px,
            final(self).sections@.len() == old(self).sections@.len(),
            forall|i: int|
                0 <= i < old(self).sections@.len() && !((#[trigger] old(self).sections@[i]).position == si && old(self).sections@[i].loading) ==> final(self).sections@[i] == old(self).sections@[i],
            forall|i: int|
                0 <= i < old(self).sections@.len() && (#[trigger] old(self).sections@[i]).position == si && old(self).sections@[i].loading ==> ({
                    let n = final(self).sections@[i];
                    let o = old(self).sections@[i];
                    n.position == o.position && !n.loading && (match result {
                        Some(p) => n.pixels@ == p.data@ && n.width == p.width && n.height
                            == p.height && !n.hidden,
                        None => n.pixels@ == o.pixels@ && n.width == o.width && n.height
                            == o.height && n.hidden == o.hidden,
                    })
                }),
    {
        let mut i: usize = 0;
        while i < self.sections.len()
            invariant
                0 <= i <= self.sections@.len(),
                self.wf(),
                self.sections@ == old(self).sections@,
                self.tile_px == old(self).tile_px,
                forall|j: int|
                    0 <= j < i ==> !((#[trigger] self.sections@[j]).position == si
                        && self.sections@[j].loading),
            decreases self.sections@.len() - i,
        {
            if self.sections[i].position == si && self.sections[i].loading {
                let sec = &mut self.sections[i];
                sec.loading = false;
                match result {
                    Some(p) => {
                        sec.pixels = p.data;
                        sec.width = p.width;
                        sec.height = p.height;
                        sec.hidden = false;
                    },
                    None => {},
                }
                return ;
            }
            i = i + 1;
        }
    }
}

/// A zeroed byte buffer.
pub(crate) fn zero_bytes(n: usize) -> (r: Vec<u8>)
    ensures
        r@.len() == n,
        forall|k: int| 0 <= k < n ==> r@[k] == 0,
{
    let mut v: Vec<u8> = Vec::new();
    let mut i: usize = 0;
    while i < n
        invariant
            0 <= i <= n,
            v@.len() == i,
            forall|k: int| 0 <= k < i ==> v@[k] == 0,
        decreases n - i,
    {
        v.push(0);
        i = i + 1;
    }
    v
}

} // verus!
