//! The free-track arrangement: lanes of placed blocks, each a clip at a
//! start frame on the timeline. The audio a block plays and the tempo
//! arithmetic live with the caller; here a block is where it starts, how
//! many timeline frames it lasts at the master tempo, which clip it plays
//! and which pad it was placed from.
use vstd::prelude::*;

verus! {

/// Where a block's first onset (its musical hit) is aligned on the master
/// grid. Tempo is always synced; this is the phase.
#[derive(Debug, Clone, Copy, PartialEq, Eq, Structural)]
pub enum Phase {
    /// Onset on the nearest beat (the snap-on-drop default).
    OnBeat,
    /// Onset on the bar's downbeat.
    Bar,
    /// Onset on the off-beat (half a beat late).
    OffBeat,
    /// No onset correction: the clip's file start sits on the beat.
    Free,
}

impl Default for Phase {
    fn default() -> (p: Self)
        ensures
            p == Phase::OnBeat,
    {
        Phase::OnBeat
    }
}

/// A placed clip: where it starts on the timeline, how many timeline
/// frames it occupies at the master tempo, the clip it plays (the caller's
/// handle), and the pad it was placed from, if any.
#[derive(Debug, Clone, Copy, PartialEq, Eq, Structural)]
pub struct Block {
    /// Start position on the timeline, in frames.
    pub start: u64,
    /// Timeline frames the block occupies at the master tempo.
    pub frames: u64,
    /// The clip the block plays.
    pub clip: usize,
    /// The pad the block was placed from (`None` for library drops).
    pub source_pad: Option<usize>,
}

impl Block {
    /// One past the last timeline frame the block occupies.
    pub fn end(&self) -> (r: u64)
        requires
            self.start + self.frames <= u64::MAX,
        ensures
            r == self.start + self.frames,
    {
        self.start + self.frames
    }
}

/// One horizontal lane holding any number of blocks.
#[derive(Debug, Clone)]
pub struct Track {
    pub blocks: Vec<Block>,
}

/// The lanes of an arrangement, block by block.
pub open spec fn lanes_of(ts: Seq<Track>) -> Seq<Seq<Block>> {
    ts.map_values(|t: Track| t.blocks@)
}

/// One past the last frame any block of `bs` occupies (0 for none).
pub open spec fn lane_end(bs: Seq<Block>) -> int
    decreases bs.len(),
{
    if bs.len() == 0 {
        0
    } else {
        let e = bs.last().start + bs.last().frames;
        let r = lane_end(bs.drop_last());
        if e > r {
            e
        } else {
            r
        }
    }
}

/// One past the last frame any block of any lane occupies (0 for none).
pub open spec fn arrangement_end(ls: Seq<Seq<Block>>) -> int
    decreases ls.len(),
{
    if ls.len() == 0 {
        0
    } else {
        let e = lane_end(ls.last());
        let r = arrangement_end(ls.drop_last());
        if e > r {
            e
        } else {
            r
        }
    }
}

/// Whether every block's end fits in a `u64`.
pub open spec fn ends_fit(ls: Seq<Seq<Block>>) -> bool {
    forall|t: int, i: int|
        0 <= t < ls.len() && 0 <= i < ls[t].len() ==> (#[trigger] ls[t][i]).start + ls[t][i].frames
            <= u64::MAX
}

/// `b` with its pad link dropped when it came from `pad`.
pub open spec fn unlinked(b: Block, pad: usize) -> Block {
    if b.source_pad == Some(pad) {
        Block { source_pad: None, ..b }
    } else {
        b
    }
}

/// `b` playing `clip` over `frames` frames when it came from `pad`.
pub open spec fn refreshed(b: Block, pad: usize, clip: usize, frames: u64) -> Block {
    if b.source_pad == Some(pad) {
        Block { clip, frames, ..b }
    } else {
        b
    }
}

/// The arrangement: lanes of blocks at a fixed sample rate.
pub struct Arrangement {
    tracks: Vec<Track>,
    sample_rate: u32,
}

impl View for Arrangement {
    type V = Seq<Seq<Block>>;

    closed spec fn view(&self) -> Seq<Seq<Block>> {
        lanes_of(self.tracks@)
    }
}

impl Arrangement {
    pub closed spec fn rate(&self) -> u32 {
        self.sample_rate
    }

    /// Well formed: at least one lane and a positive sample rate.
    pub open spec fn wf(&self) -> bool {
        self@.len() >= 1 && self.rate() >= 1
    }

    /// A new arrangement with `tracks` empty lanes (at least one) at
    /// `sample_rate` (at least 1).
    pub fn new(sample_rate: u32, tracks: usize) -> (a: Arrangement)
        ensures
            a.wf(),
            a.rate() == if sample_rate >= 1 {
                sample_rate
            } else {
                1
            },
            a@.len() == if tracks >= 1 {
                tracks as int
            } else {
                1
            },
            forall|t: int| 0 <= t < a@.len() ==> (#[trigger] a@[t]).len() == 0,
    {
        let n = if tracks >= 1 {
            tracks
        } else {
            1
        };
        let mut v: Vec<Track> = Vec::new();
        let mut i: usize = 0;
        while i < n
            invariant
                i <= n,
                v.len() == i,
                forall|t: int| 0 <= t < i ==> (#[trigger] v@[t]).blocks@.len() == 0,
            decreases n - i,
        {
            v.push(Track { blocks: Vec::new() });
            i = i + 1;
        }
        let a = Arrangement {
            tracks: v,
            sample_rate: if sample_rate >= 1 {
                sample_rate
            } else {
                1
            },
        };
        proof {
            assert forall|t: int| 0 <= t < a@.len() implies (#[trigger] a@[t]).len() == 0 by {
                assert(a@[t] == v@[t].blocks@);
            }
        }
        a
    }

    pub fn sample_rate(&self) -> (r: u32)
        ensures
            r == self.rate(),
    {
        self.sample_rate
    }

    pub fn track_count(&self) -> (r: usize)
        ensures
            r == self@.len(),
    {
        self.tracks.len()
    }

    /// The lanes.
    pub fn tracks(&self) -> (r: &[Track])
        ensures
            lanes_of(r@) == self@,
    {
        self.tracks.as_slice()
    }

    /// Append a new empty lane; returns its index.
    pub fn add_track(&mut self) -> (r: usize)
        requires
            old(self).wf(),
            old(self)@.len() < usize::MAX,
        ensures
            final(self).wf(),
            final(self).rate() == old(self).rate(),
            final(self)@ == old(self)@.push(Seq::empty()),
            r == old(self)@.len(),
    {
        self.tracks.push(Track { blocks: Vec::new() });
        proof {
            assert(self@ =~= old(self)@.push(Seq::empty()));
        }
        self.tracks.len() - 1
    }

    /// Place `block` on lane `track`: its index in that lane, or `None`
    /// (changing nothing) for a lane that does not exist.
    pub fn add_block(&mut self, track: usize, block: Block) -> (r: Option<usize>)
        requires
            old(self).wf(),
        ensures
            final(self).wf(),
            final(self).rate() == old(self).rate(),
            if track < old(self)@.len() {
                &&& final(self)@ == old(self)@.update(track as int, old(self)@[track as int].push(block))
                &&& r == Some(old(self)@[track as int].len() as usize)
            } else {
                final(self)@ == old(self)@ && r is None
            },
    {
        if track >= self.tracks.len() {
            return None;
        }
        let mut t = Track { blocks: Vec::new() };
        self.tracks.set_and_swap(track, &mut t);
        t.blocks.push(block);
        let n = t.blocks.len() - 1;
        self.tracks.set(track, t);
        proof {
            assert(self@ =~= old(self)@.update(track as int, old(self)@[track as int].push(block)));
        }
        Some(n)
    }

    /// Take block `idx` out of lane `track`: the block, or `None` (changing
    /// nothing) when either index is out of range.
    pub fn remove_block(&mut self, track: usize, idx: usize) -> (r: Option<Block>)
        requires
            old(self).wf(),
        ensures
            final(self).wf(),
            final(self).rate() == old(self).rate(),
            if track < old(self)@.len() && idx < old(self)@[track as int].len() {
                &&& final(self)@ == old(self)@.update(
                    track as int,
                    old(self)@[track as int].remove(idx as int),
                )
                &&& r == Some(old(self)@[track as int][idx as int])
            } else {
                final(self)@ == old(self)@ && r is None
            },
    {
        if track >= self.tracks.len() || idx >= self.tracks[track].blocks.len() {
            return None;
        }
        let mut t = Track { blocks: Vec::new() };
        self.tracks.set_and_swap(track, &mut t);
        let b = t.blocks.remove(idx);
        self.tracks.set(track, t);
        proof {
            assert(self@ =~= old(self)@.update(
                track as int,
                old(self)@[track as int].remove(idx as int),
            ));
        }
        Some(b)
    }

    /// Move block `idx` of lane `track` to the end of lane `new_track`,
    /// starting at `new_start`: its index there, or `None` (changing
    /// nothing) when an index is out of range.
    pub fn move_block(&mut self, track: usize, idx: usize, new_track: usize, new_start: u64) -> (r:
        Option<usize>)
        requires
            old(self).wf(),
        ensures
            final(self).wf(),
            final(self).rate() == old(self).rate(),
            if track < old(self)@.len() && new_track < old(self)@.len() && idx < old(
                self,
            )@[track as int].len() {
                let mid = old(self)@.update(track as int, old(self)@[track as int].remove(idx as int));
                let b = Block { start: new_start, ..old(self)@[track as int][idx as int] };
                &&& final(self)@ == mid.update(new_track as int, mid[new_track as int].push(b))
                &&& r == Some((mid[new_track as int].len()) as usize)
            } else {
                final(self)@ == old(self)@ && r is None
            },
    {
        if track >= self.tracks.len() || new_track >= self.tracks.len() {
            return None;
        }
        if idx >= self.tracks[track].blocks.len() {
            return None;
        }
        let b = match self.remove_block(track, idx) {
            Some(b) => b,
            None => {
                return None;
            },
        };
        let moved = Block { start: new_start, ..b };
        self.add_block(new_track, moved)
    }

    /// Drop the pad link of every block placed from `pad` (keeping what
    /// it plays): a later clip on that pad no longer reaches them.
    pub fn unlink_pad(&mut self, pad: usize)
        requires
            old(self).wf(),
        ensures
            final(self).wf(),
            final(self).rate() == old(self).rate(),
            final(self)@.len() == old(self)@.len(),
            forall|t: int|
                0 <= t < old(self)@.len() ==> (#[trigger] final(self)@[t]) == old(self)@[t].map_values(
                    |b: Block| unlinked(b, pad),
                ),
    {
        let mut k: usize = 0;
        while k < self.tracks.len()
            invariant
                k <= self.tracks.len() == old(self).tracks.len(),
                self.rate() == old(self).rate(),
                forall|t: int|
                    0 <= t < k ==> (#[trigger] self@[t]) == old(self)@[t].map_values(
                        |b: Block| unlinked(b, pad),
                    ),
                forall|t: int| k <= t < self@.len() ==> (#[trigger] self@[t]) == old(self)@[t],
            decreases self.tracks.len() - k,
        {
            let ghost before = self.tracks@;
            assert(self@ == lanes_of(before));
            assert(lanes_of(before)[k as int] == before[k as int].blocks@);
            assert(before[k as int].blocks@ == old(self)@[k as int]);
            let mut t = Track { blocks: Vec::new() };
            self.tracks.set_and_swap(k, &mut t);
            let ghost orig = t.blocks@;
            assert(orig == old(self)@[k as int]);
            let mut i: usize = 0;
            while i < t.blocks.len()
                invariant
                    i <= t.blocks.len() == orig.len(),
                    forall|j: int| 0 <= j < i ==> t.blocks@[j] == unlinked(orig[j], pad),
                    forall|j: int| i <= j < orig.len() ==> t.blocks@[j] == orig[j],
                decreases t.blocks.len() - i,
            {
                let b = t.blocks[i];
                if b.source_pad == Some(pad) {
                    t.blocks.set(i, Block { source_pad: None, ..b });
                }
                i = i + 1;
            }
            self.tracks.set(k, t);
            proof {
                assert(self@ == lanes_of(self.tracks@));
                assert forall|j: int| 0 <= j < self@.len() && j != k implies #[trigger] self@[j]
                    == lanes_of(before)[j] by {
                    assert(self.tracks@[j] == before[j]);
                }
                assert(self@[k as int] == t.blocks@);
                assert(self@[k as int] =~= old(self)@[k as int].map_values(
                    |b: Block| unlinked(b, pad),
                ));
            }
            k = k + 1;
        }
    }

    /// Every block placed from `pad` now plays `clip`, over `frames`
    /// timeline frames (after that pad's clip was re-trimmed or its
    /// volume changed); the others stay.
    pub fn refresh_pad(&mut self, pad: usize, clip: usize, frames: u64)
        requires
            old(self).wf(),
        ensures
            final(self).wf(),
            final(self).rate() == old(self).rate(),
            final(self)@.len() == old(self)@.len(),
            forall|t: int|
                0 <= t < old(self)@.len() ==> (#[trigger] final(self)@[t]) == old(self)@[t].map_values(
                    |b: Block| refreshed(b, pad, clip, frames),
                ),
    {
        let mut k: usize = 0;
        while k < self.tracks.len()
            invariant
                k <= self.tracks.len() == old(self).tracks.len(),
                self.rate() == old(self).rate(),
                forall|t: int|
                    0 <= t < k ==> (#[trigger] self@[t]) == old(self)@[t].map_values(
                        |b: Block| refreshed(b, pad, clip, frames),
                    ),
                forall|t: int| k <= t < self@.len() ==> (#[trigger] self@[t]) == old(self)@[t],
            decreases self.tracks.len() - k,
        {
            let ghost before = self.tracks@;
            assert(self@ == lanes_of(before));
            assert(lanes_of(before)[k as int] == before[k as int].blocks@);
            assert(before[k as int].blocks@ == old(self)@[k as int]);
            let mut t = Track { blocks: Vec::new() };
            self.tracks.set_and_swap(k, &mut t);
            let ghost orig = t.blocks@;
            assert(orig == old(self)@[k as int]);
            let mut i: usize = 0;
            while i < t.blocks.len()
                invariant
                    i <= t.blocks.len() == orig.len(),
                    forall|j: int| 0 <= j < i ==> t.blocks@[j] == refreshed(orig[j], pad, clip, frames),
                    forall|j: int| i <= j < orig.len() ==> t.blocks@[j] == orig[j],
                decreases t.blocks.len() - i,
            {
                let b = t.blocks[i];
                if b.source_pad == Some(pad) {
                    t.blocks.set(i, Block { clip, frames, ..b });
                }
                i = i + 1;
            }
            self.tracks.set(k, t);
            proof {
                assert(self@ == lanes_of(self.tracks@));
                assert forall|j: int| 0 <= j < self@.len() && j != k implies #[trigger] self@[j]
                    == lanes_of(before)[j] by {
                    assert(self.tracks@[j] == before[j]);
                }
                assert(self@[k as int] == t.blocks@);
                assert(self@[k as int] =~= old(self)@[k as int].map_values(
                    |b: Block| refreshed(b, pad, clip, frames),
                ));
            }
            k = k + 1;
        }
    }

    /// Total length in frames: one past the last frame any block
    /// occupies, or 0 without blocks.
    pub fn total_frames(&self) -> (r: u64)
        requires
            ends_fit(self@),
        ensures
            r == arrangement_end(self@),
    {
        let mut best: u64 = 0;
        let mut k: usize = 0;
        while k < self.tracks.len()
            invariant
                k <= self.tracks.len(),
                ends_fit(self@),
                best == arrangement_end(self@.subrange(0, k as int)),
            decreases self.tracks.len() - k,
        {
            let bs = &self.tracks[k].blocks;
            let ghost lane = self@[k as int];
            assert(bs@ == lane);
            let mut e: u64 = 0;
            let mut i: usize = 0;
            while i < bs.len()
                invariant
                    i <= bs.len(),
                    bs@ == lane,
                    lane == self@[k as int],
                    k < self@.len(),
                    ends_fit(self@),
                    e == lane_end(lane.subrange(0, i as int)),
                decreases bs.len() - i,
            {
                proof {
                    let p = lane.subrange(0, i + 1);
                    assert(p.drop_last() =~= lane.subrange(0, i as int));
                    assert(p.last() == lane[i as int]);
                    assert(self@[k as int][i as int] == lane[i as int]);
                }
                let b = bs[i];
                let end = b.start + b.frames;
                if end > e {
                    e = end;
                }
                i = i + 1;
            }
            proof {
                assert(lane.subrange(0, bs.len() as int) =~= lane);
                let p = self@.subrange(0, k + 1);
                assert(p.drop_last() =~= self@.subrange(0, k as int));
                assert(p.last() == lane);
            }
            if e > best {
                best = e;
            }
            k = k + 1;
        }
        proof {
            assert(self@.subrange(0, self@.len() as int) =~= self@);
        }
        best
    }
}

} // verus!
