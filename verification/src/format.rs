//! The tile store: the manifest that declares which pyramid levels exist on
//! disk, the render queue that serializes on-demand tile production, and the
//! load protocol that turns file reads into tile pixels.

use vstd::prelude::*;
use vstd::string::StringExecFns;

use crate::pixels::{decode_rgba, decoded_rgba, TilePixels};
use crate::text::{dec_rep, replace_all, replace_spec, u32_to_string};

verus! {

/// The manifest of a tile folder, loaded once per session.
///
/// `available_levels` lists the levels guaranteed present as files; an empty
/// list means every level is treated as available. `format` is the file
/// extension tiles are stored under. `render_command`, when present, is a
/// command template used to produce a missing tile; when absent a missing
/// tile is a permanent miss.
#[derive(Debug, Clone)]
pub struct Manifest {
    pub available_levels: Vec<u32>,
    pub format: String,
    pub render_command: Option<String>,
}

/// A level is available when the manifest declares no levels at all, or
/// declares this one.
pub open spec fn level_available(m: Manifest, level: u32) -> bool {
    m.available_levels@.len() == 0 || m.available_levels@.contains(level)
}

/// Whether a list of levels contains the given one.
pub fn contains_level(levels: &Vec<u32>, level: u32) -> (r: bool)
    ensures
        r == levels@.contains(level),
{
    let mut i: usize = 0;
    while i < levels.len()
        invariant
            i <= levels@.len(),
            forall|j: int| 0 <= j < i ==> levels@[j] != level,
        decreases levels@.len() - i,
    {
        if levels[i] == level {
            return true;
        }
        i = i + 1;
    }
    false
}

/// Exact availability test over a manifest.
pub fn manifest_level_available(m: &Manifest, level: u32) -> (r: bool)
    ensures
        r == level_available(*m, level),
{
    m.available_levels.len() == 0 || contains_level(&m.available_levels, level)
}

/// The largest element of a list of levels (0 for an empty list; declared
/// levels are always at least 1).
pub open spec fn seq_max_u32(s: Seq<u32>) -> u32
    decreases s.len(),
{
    if s.len() == 0 {
        0u32
    } else {
        let m = seq_max_u32(s.drop_last());
        if s.last() >= m {
            s.last()
        } else {
            m
        }
    }
}

/// The maximum of a nonempty list is one of its elements and bounds all of
/// them.
pub proof fn lemma_seq_max_props(s: Seq<u32>)
    requires
        s.len() > 0,
    ensures
        s.contains(seq_max_u32(s)),
        forall|j: int| 0 <= j < s.len() ==> s[j] <= seq_max_u32(s),
    decreases s.len(),
{
    let m = seq_max_u32(s);
    if s.len() == 1 {
        assert(s[0] == s.last());
    } else {
        let rest = s.drop_last();
        lemma_seq_max_props(rest);
        assert(forall|j: int| 0 <= j < rest.len() ==> rest[j] == s[j]);
        if s.last() >= seq_max_u32(rest) {
            assert(s[s.len() - 1] == m);
        } else {
            let i = choose|i: int| 0 <= i < rest.len() && rest[i] == m;
            assert(s[i] == m);
        }
    }
}

/// The largest declared level, or nothing when the list is empty.
pub fn max_of_levels(levels: &Vec<u32>) -> (r: Option<u32>)
    ensures
        r is Some <==> levels@.len() > 0,
        r matches Some(mx) ==> mx == seq_max_u32(levels@),
{
    if levels.len() == 0 {
        return None;
    }
    let mut cur: u32 = 0;
    let mut i: usize = 0;
    while i < levels.len()
        invariant
            i <= levels@.len(),
            cur == seq_max_u32(levels@.take(i as int)),
        decreases levels@.len() - i,
    {
        proof {
            assert(levels@.take(i + 1 as int).drop_last() =~= levels@.take(i as int));
            assert(levels@.take(i + 1 as int).last() == levels@[i as int]);
        }
        if levels[i] > cur {
            cur = levels[i];
        }
        i = i + 1;
    }
    proof {
        assert(levels@.take(levels@.len() as int) =~= levels@);
    }
    Some(cur)
}

/// A queued request to produce one missing tile by running the render
/// command. `ticket` identifies the waiter to be signalled when the
/// request has been drained.
#[derive(Debug, Clone, Copy, PartialEq, Eq, Structural)]
pub struct RenderTask {
    pub level: u32,
    pub x: u32,
    pub y: u32,
    pub ticket: u64,
}

/// The tile store: the manifest of a tile folder, plus the pending
/// production requests. The caller performs the file reads, runs the
/// render subprocess and waits on tickets; the store makes every decision
/// and records the queue.
#[derive(Debug)]
pub struct FormattedBigImage {
    pub manifest: Manifest,
    pub render_queue: Vec<RenderTask>,
    pub next_ticket: u64,
}

impl FormattedBigImage {
    /// A freshly opened store: no production request pending yet.
    pub fn new(manifest: Manifest) -> (r: FormattedBigImage)
        ensures
            r.manifest == manifest,
            r.render_queue@ =~= Seq::<RenderTask>::empty(),
            r.next_ticket == 0,
    {
        FormattedBigImage { manifest, render_queue: Vec::new(), next_ticket: 0 }
    }

    /// Whether the manifest declares this level present (or declares no
    /// levels at all, which makes every level available).
    pub fn is_level_available(&self, level: u32) -> (r: bool)
        ensures
            r == level_available(self.manifest, level),
    {
        self.manifest.available_levels.len() == 0 || contains_level(
            &self.manifest.available_levels,
            level,
        )
    }

    /// The largest declared level, or nothing when no level is declared.
    pub fn max_level_available(&self) -> (r: Option<u32>)
        ensures
            r is Some <==> self.manifest.available_levels@.len() > 0,
            r matches Some(mx) ==> mx == seq_max_u32(self.manifest.available_levels@),
    {
        max_of_levels(&self.manifest.available_levels)
    }

    /// How many production requests are pending.
    pub fn render_queue_length(&self) -> (r: usize)
        ensures
            r == self.render_queue@.len(),
    {
        self.render_queue.len()
    }

    /// Queue a production request for a tile and hand back the ticket its
    /// completion will be signalled under.
    pub fn enqueue_render(&mut self, level: u32, x: u32, y: u32) -> (t: u64)
        requires
            old(self).next_ticket < u64::MAX,
        ensures
            t == old(self).next_ticket,
            final(self).render_queue@ == old(self).render_queue@.push(
                RenderTask { level, x, y, ticket: t },
            ),
            final(self).next_ticket == old(self).next_ticket + 1,
            final(self).manifest == old(self).manifest,
    {
        let t = self.next_ticket;
        self.render_queue.push(RenderTask { level, x, y, ticket: t });
        self.next_ticket = t + 1;
        t
    }

    /// Take the production request to run next. The most recently queued
    /// request is served first, so tiles that just came into view win over
    /// stale requests; under continuous panning old requests can starve,
    /// which is the accepted cost of this policy.
    pub fn pop_render_task(&mut self) -> (r: Option<RenderTask>)
        ensures
            old(self).render_queue@.len() == 0 ==> r is None && final(self).render_queue@
                == old(self).render_queue@,
            old(self).render_queue@.len() > 0 ==> r == Some(old(self).render_queue@.last())
                && final(self).render_queue@ == old(self).render_queue@.drop_last(),
            final(self).manifest == old(self).manifest,
            final(self).next_ticket == old(self).next_ticket,
    {
        self.render_queue.pop()
    }
}

/// The canonical file name of a tile: `{level}_{x}x{y}.{format}`.
pub open spec fn tile_name_chars(level: int, x: int, y: int, format: Seq<char>) -> Seq<char> {
    dec_rep(level) + seq!['_'] + dec_rep(x) + seq!['x'] + dec_rep(y) + seq!['.'] + format
}

/// The render command template with its placeholders substituted, in the
/// order the worker applies them.
pub open spec fn rendered_command(
    template: Seq<char>,
    format: Seq<char>,
    level: int,
    x: int,
    y: int,
) -> Seq<char> {
    replace_spec(
        replace_spec(
            replace_spec(replace_spec(template, "%LEVEL%"@, dec_rep(level)), "%X%"@, dec_rep(x)),
            "%Y%"@,
            dec_rep(y),
        ),
        "%FORMAT%"@,
        format,
    )
}

/// A file read that yielded no decodable image: the file was missing, or
/// its bytes decode to nothing.
pub open spec fn read_missed(file_bytes: Option<&Vec<u8>>) -> bool {
    match file_bytes {
        Option::Some(b) => decoded_rgba(b@) is None,
        Option::None => true,
    }
}

/// What a load attempt concluded.
#[derive(Debug)]
pub enum LoadStep {
    /// The tile file was read and decoded; these are its pixels.
    Loaded(TilePixels),
    /// The tile is missing but a render command is configured: queue a
    /// production request, wait for its ticket, and read the file again.
    Render,
    /// The tile is permanently absent. Not an error: the tile may simply
    /// lie outside the source image.
    Absent,
}

impl FormattedBigImage {
    /// The name of the file a tile is stored under.
    pub fn tile_file_name(&self, level: u32, x: u32, y: u32) -> (r: String)
        ensures
            r@ == tile_name_chars(level as int, x as int, y as int, self.manifest.format@),
    {
        let mut s = u32_to_string(level);
        s.append("_");
        let xs = u32_to_string(x);
        s.append(xs.as_str());
        s.append("x");
        let ys = u32_to_string(y);
        s.append(ys.as_str());
        s.append(".");
        s.append(self.manifest.format.as_str());
        proof {
            reveal_strlit("_");
            reveal_strlit("x");
            reveal_strlit(".");
            assert(s@ =~= tile_name_chars(
                level as int,
                x as int,
                y as int,
                self.manifest.format@,
            ));
        }
        s
    }

    /// The command line that produces a tile, when production is
    /// configured at all: the template with `%LEVEL%`, `%X%`, `%Y%` and
    /// `%FORMAT%` substituted.
    pub fn render_command_line(&self, level: u32, x: u32, y: u32) -> (r: Option<String>)
        ensures
            r is Some <==> self.manifest.render_command is Some,
            r matches Some(c) ==> (self.manifest.render_command matches Some(t) && c@
                == rendered_command(
                t@,
                self.manifest.format@,
                level as int,
                x as int,
                y as int,
            )),
    {
        match &self.manifest.render_command {
            None => None,
            Some(t) => {
                let ls = u32_to_string(level);
                let c1 = replace_all(t.as_str(), "%LEVEL%", ls.as_str());
                let xs = u32_to_string(x);
                let c2 = replace_all(c1.as_str(), "%X%", xs.as_str());
                let ys = u32_to_string(y);
                let c3 = replace_all(c2.as_str(), "%Y%", ys.as_str());
                let c4 = replace_all(c3.as_str(), "%FORMAT%", self.manifest.format.as_str());
                Some(c4)
            },
        }
    }

    /// Decide what a load attempt concluded from one file read.
    ///
    /// The caller reads the tile file named by `tile_file_name` and hands
    /// the bytes here, or nothing when the read failed. A readable image
    /// is returned as its pixels, exactly as decoded, without any
    /// production. A miss on the first attempt asks for production when a
    /// render command is configured; a miss on the retry, or with no
    /// render command, is a permanent absence.
    pub fn load_outcome(&self, first_attempt: bool, file_bytes: Option<&Vec<u8>>) -> (r: LoadStep)
        ensures
            match r {
                LoadStep::Loaded(p) => (file_bytes matches Some(b) && decoded_rgba(b@) == Some(
                    (p.data@, p.width, p.height),
                ) && p.wf()),
                LoadStep::Render => read_missed(file_bytes) && first_attempt
                    && self.manifest.render_command is Some,
                LoadStep::Absent => read_missed(file_bytes) && !(first_attempt
                    && self.manifest.render_command is Some),
            },
    {
        if let Some(bytes) = file_bytes {
            if let Some(p) = decode_rgba(bytes) {
                return LoadStep::Loaded(p);
            }
        }
        if first_attempt && self.manifest.render_command.is_some() {
            LoadStep::Render
        } else {
            LoadStep::Absent
        }
    }
}


/// With an empty `available_levels` list, every level is available.
pub proof fn lemma_empty_levels_all_available(m: Manifest, level: u32)
    requires
        m.available_levels@.len() == 0,
    ensures
        level_available(m, level),
{
}

/// With a nonempty `available_levels` list, a level is available exactly
/// when the list contains it, and the largest available level is the
/// maximum of the list: a member that bounds every member.
pub proof fn lemma_nonempty_levels_membership(m: Manifest, level: u32)
    requires
        m.available_levels@.len() > 0,
    ensures
        level_available(m, level) == m.available_levels@.contains(level),
        m.available_levels@.contains(seq_max_u32(m.available_levels@)),
        forall|j: int|
            0 <= j < m.available_levels@.len() ==> m.available_levels@[j] <= seq_max_u32(
                m.available_levels@,
            ),
{
    lemma_seq_max_props(m.available_levels@);
}

} // verus!
