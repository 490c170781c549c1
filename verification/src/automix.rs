//! The auto-mix planner's decisions.
//!
//! Input: the sequence (ordered tracks, repeats allowed) and, for each
//! track, its tapped beat marks and how many whole bars its fitted grid
//! holds. Output: which bars of which track play in each section, where
//! each section sits on the master grid, and how it enters.
//!
//! - **One master tempo**: every section is laid on the master grid,
//!   butt-joined bar after bar.
//! - **Phrase sections**: each entry contributes 8 to 16 bars (even
//!   lengths), clamped to what the track has; repeat entries walk away from
//!   material already used.
//! - **Transitions**: mostly invisible swaps, about a quarter hard cuts,
//!   rare fades of 2, 4 or 8 beats; the opening section always swaps in.
//! - **Determinism**: every choice flows from a seed hashed from the input
//!   itself (ids, marks, order): the same input always gives the same plan.
//!
//! Fitting the grid, loudness matching and rendering work on audio samples
//! and stay outside this module.
use vstd::prelude::*;
use vstd::wrapping::u64_specs::{wrapping_add, wrapping_mul};
use vstd::utf8::encode_utf8;
use crate::text::{chars_of, decimal, push_decimal, string_of};

verus! {

/// The fixed render rate, in frames per second.
pub const RENDER_RATE: u32 = 44_100;

/// FNV-1a 64: a tiny, platform-stable hash of the input.
pub struct Fnv64 {
    state: u64,
}

/// The FNV-1a offset basis.
pub open spec fn fnv_basis() -> u64 {
    0xcbf2_9ce4_8422_2325
}

/// One FNV-1a step: fold byte `b` into `h`.
pub open spec fn fnv_step(h: u64, b: u8) -> u64 {
    wrapping_mul(h ^ (b as u64), 0x0000_0100_0000_01b3)
}

/// `h` with the bytes `bs` folded in, first to last.
pub open spec fn fnv_bytes(h: u64, bs: Seq<u8>) -> u64
    decreases bs.len(),
{
    if bs.len() == 0 {
        h
    } else {
        fnv_step(fnv_bytes(h, bs.drop_last()), bs.last())
    }
}

/// The little-endian bytes of `v` (`u64::to_le_bytes`).
pub open spec fn le_bytes(v: u64) -> Seq<u8> {
    Seq::new(8, |i: int| ((v >> (8 * i) as u64) & 0xff) as u8)
}

impl Fnv64 {
    /// The hash value so far.
    pub closed spec fn value(&self) -> u64 {
        self.state
    }

    pub fn new() -> (h: Fnv64)
        ensures
            h.value() == fnv_basis(),
    {
        Fnv64 { state: 0xcbf2_9ce4_8422_2325 }
    }

    /// Fold `bytes` in.
    pub fn write(&mut self, bytes: &[u8])
        ensures
            final(self).value() == fnv_bytes(old(self).value(), bytes@),
    {
        let mut i: usize = 0;
        while i < bytes.len()
            invariant
                i <= bytes.len(),
                self.state == fnv_bytes(old(self).state, bytes@.subrange(0, i as int)),
            decreases bytes.len() - i,
        {
            proof {
                let p = bytes@.subrange(0, i + 1);
                assert(p.drop_last() =~= bytes@.subrange(0, i as int));
                assert(p.last() == bytes@[i as int]);
            }
            self.state = (self.state ^ (bytes[i] as u64)).wrapping_mul(0x0000_0100_0000_01b3);
            i = i + 1;
        }
        proof {
            assert(bytes@.subrange(0, bytes@.len() as int) =~= bytes@);
        }
    }

    /// Fold in the little-endian bytes of `v`.
    pub fn write_u64(&mut self, v: u64)
        ensures
            final(self).value() == fnv_bytes(old(self).value(), le_bytes(v)),
    {
        let mut bytes: Vec<u8> = Vec::new();
        let mut i: u64 = 0;
        while i < 8
            invariant
                i <= 8,
                bytes@ == le_bytes(v).subrange(0, i as int),
            decreases 8 - i,
        {
            let b = ((v >> (8 * i)) & 0xff) as u8;
            bytes.push(b);
            proof {
                assert(le_bytes(v).subrange(0, i + 1) =~= le_bytes(v).subrange(0, i as int).push(
                    b,
                ));
            }
            i = i + 1;
        }
        proof {
            assert(le_bytes(v).subrange(0, 8) =~= le_bytes(v));
        }
        self.write(bytes.as_slice());
    }

    pub fn finish(&self) -> (r: u64)
        ensures
            r == self.value(),
    {
        self.state
    }
}

/// SplitMix64: a tiny, well-distributed, platform-stable generator. All
/// the planner's taste flows from it, seeded by the input.
pub struct SplitMix64 {
    state: u64,
}

/// The output SplitMix64 gives for the advanced state `z`.
pub open spec fn splitmix_mix(z: u64) -> u64 {
    let a = wrapping_mul(z ^ (z >> 30u64), 0xbf58_476d_1ce4_e5b9);
    let b = wrapping_mul(a ^ (a >> 27u64), 0x94d0_49bb_1331_11eb);
    b ^ (b >> 31u64)
}

/// One SplitMix64 draw from state `s`: the next state and the output.
pub open spec fn splitmix_next(s: u64) -> (u64, u64) {
    let t = wrapping_add(s, 0x9e37_79b9_7f4a_7c15);
    (t, splitmix_mix(t))
}

impl SplitMix64 {
    /// The generator's state.
    pub closed spec fn state_of(&self) -> u64 {
        self.state
    }

    pub fn new(seed: u64) -> (g: SplitMix64)
        ensures
            g.state_of() == seed,
    {
        SplitMix64 { state: seed }
    }

    /// The next output.
    pub fn next(&mut self) -> (r: u64)
        ensures
            (final(self).state_of(), r) == splitmix_next(old(self).state_of()),
    {
        self.state = self.state.wrapping_add(0x9e37_79b9_7f4a_7c15);
        let mut z = self.state;
        z = (z ^ (z >> 30)).wrapping_mul(0xbf58_476d_1ce4_e5b9);
        z = (z ^ (z >> 27)).wrapping_mul(0x94d0_49bb_1331_11eb);
        z ^ (z >> 31)
    }
}


/// How a section enters the mix. Every transition stays on the phrase
/// boundary; the kind only shapes the incoming section's first moments.
#[derive(Debug, Clone, Copy, PartialEq, Eq, Structural)]
pub enum Transition {
    /// Equal-loudness butt joint: the invisible default.
    Swap,
    /// Punctuation: the section punches in hot for its first beat, then
    /// settles over the next.
    Cut,
    /// The section ramps in from silence over `beats` master beats (2, 4
    /// or 8).
    Fade { beats: u8 },
}

/// A fader chop: a short cut of the bed at an output frame.
#[derive(Debug, Clone, PartialEq, Eq)]
pub struct Chop {
    pub out_start: u64,
    pub frames: u64,
}

/// Why a plan could not be made.
#[derive(Debug, PartialEq, Eq, Structural)]
pub enum PlanError {
    /// The sequence has no entries.
    EmptySequence,
    /// The order entry at this position points past the track list.
    BadOrderIndex(usize),
    /// This track has fewer than 2 beat marks (no grid can be fitted).
    NotEnoughBeats(usize),
    /// This track's marks fit no positive-interval grid.
    NoGrid(usize),
    /// This track is shorter than one bar of its own grid.
    TooShort(usize),
}

/// What the planner knows of one track: its identity (seeds the plan),
/// its tapped beat marks, and how many whole bars its fitted grid holds
/// from the first fitted beat to the end (`None` when no grid fits).
pub struct TrackFacts {
    pub id: String,
    pub beats: Vec<u64>,
    pub grid_bars: Option<u64>,
}

/// One planned section: which bars of which track land where.
#[derive(Debug, Clone, Copy, PartialEq, Eq, Structural)]
pub struct SectionChoice {
    /// Index into the track list.
    pub track: usize,
    /// Position in the sequence this section realizes.
    pub order_pos: usize,
    /// First bar of the track used (on the track's own grid).
    pub start_bar: u64,
    /// Section length in bars.
    pub bars: u64,
    /// Master bars laid down before this section: where it starts.
    pub bar_offset: u64,
    /// How the section enters.
    pub transition: Transition,
}

/// The planner's decisions for a whole mix.
pub struct SectionsPlan {
    /// The seed every choice flowed from (input-derived).
    pub seed: u64,
    pub sections: Vec<SectionChoice>,
    /// Master bars in the whole mix.
    pub total_bars: u64,
    /// The generator after the section choices, for the choices that
    /// follow (chops, scratches).
    pub rng: SplitMix64,
}

/// The first position in `order[..k]` that points past `n` tracks.
pub open spec fn first_bad_order(order: Seq<usize>, n: nat, k: int) -> Option<int>
    decreases k,
{
    if k <= 0 {
        None
    } else {
        match first_bad_order(order, n, k - 1) {
            Some(p) => Some(p),
            None => if order[k - 1] >= n {
                Some(k - 1)
            } else {
                None
            },
        }
    }
}

/// The first problem among the first `k` tracks: too few marks, no grid,
/// or less than one bar.
pub open spec fn first_track_problem(beat_counts: Seq<nat>, grids: Seq<Option<u64>>, k: int) -> Option<
    PlanError,
>
    decreases k,
{
    if k <= 0 {
        None
    } else {
        match first_track_problem(beat_counts, grids, k - 1) {
            Some(e) => Some(e),
            None => {
                let t = (k - 1) as usize;
                if beat_counts[k - 1] < 2 {
                    Some(PlanError::NotEnoughBeats(t))
                } else {
                    match grids[k - 1] {
                        None => Some(PlanError::NoGrid(t)),
                        Some(b) => if b == 0 {
                            Some(PlanError::TooShort(t))
                        } else {
                            None
                        },
                    }
                }
            },
        }
    }
}

/// Why `order` over tracks with these mark counts and grids cannot be
/// planned, checked in that order: an empty sequence, then the first bad
/// order entry, then the first track problem.
pub open spec fn plan_problem(beat_counts: Seq<nat>, grids: Seq<Option<u64>>, order: Seq<usize>) -> Option<
    PlanError,
> {
    if order.len() == 0 {
        Some(PlanError::EmptySequence)
    } else {
        match first_bad_order(order, grids.len(), order.len() as int) {
            Some(p) => Some(PlanError::BadOrderIndex(p as usize)),
            None => first_track_problem(beat_counts, grids, grids.len() as int),
        }
    }
}

/// The seed: FNV-1a over every track's id bytes and marks, then the order.
pub open spec fn hash_tracks(ids: Seq<Seq<u8>>, beats: Seq<Seq<u64>>, k: int) -> u64
    decreases k,
{
    if k <= 0 {
        fnv_basis()
    } else {
        fnv_u64s(fnv_bytes(hash_tracks(ids, beats, k - 1), ids[k - 1]), beats[k - 1])
    }
}

/// `h` with the little-endian bytes of each of `vs` folded in.
pub open spec fn fnv_u64s(h: u64, vs: Seq<u64>) -> u64
    decreases vs.len(),
{
    if vs.len() == 0 {
        h
    } else {
        fnv_bytes(fnv_u64s(h, vs.drop_last()), le_bytes(vs.last()))
    }
}

/// The order positions as `u64`s.
pub open spec fn order_words(order: Seq<usize>) -> Seq<u64> {
    order.map_values(|o: usize| o as u64)
}

/// The plan's seed.
pub open spec fn plan_seed(ids: Seq<Seq<u8>>, beats: Seq<Seq<u64>>, order: Seq<usize>) -> u64 {
    fnv_u64s(hash_tracks(ids, beats, ids.len() as int), order_words(order))
}

/// The section length a draw picks: 8, 10, 12, 14 or 16 bars.
pub open spec fn length_pick(r: u64) -> u64 {
    (8 + 2 * (r % 5)) as u64
}

/// The start a repeat walks to: step by `stride` (wrapping within
/// `0..=span`) while the start is taken for `track`, giving up once the
/// steps add up past `span`.
pub open spec fn walk_start(used: Seq<(usize, u64)>, track: usize, start: u64, stride: u64, span: u64, tries: nat) -> u64
    decreases (if tries <= span {
        span + 1 - tries
    } else {
        0
    }),
{
    if stride >= 1 && tries <= span && used.contains((track, start)) {
        walk_start(
            used,
            track,
            ((start + stride) % (span as int + 1)) as u64,
            stride,
            span,
            (tries + stride) as nat,
        )
    } else {
        start
    }
}

/// The planner's running state: generator state, starts used so far
/// (track, start bar), master bars laid down, sections so far.
pub type PlanState = (u64, Seq<(usize, u64)>, nat, Seq<SectionChoice>);

/// Plan the section for order position `pos` (track `t` with `avail`
/// bars) from state `st`: draw a length (clamped to the track), draw a
/// start bar (walking away from used starts), draw the transition (the
/// first section always swaps in), and lay it after the bars so far.
#[verifier::opaque]
pub open spec fn next_section(st: PlanState, pos: int, t: usize, avail: u64) -> PlanState {
    let (s1, r1) = splitmix_next(st.0);
    let bars = if length_pick(r1) < avail {
        length_pick(r1)
    } else {
        avail
    };
    let span = (avail - bars) as u64;
    let (s2, start0) = if span == 0 {
        (s1, 0u64)
    } else {
        let (s, r) = splitmix_next(s1);
        (s, (r as int % (span as int + 1)) as u64)
    };
    let stride = if span / 3 >= 1 {
        (span / 3) as u64
    } else {
        1u64
    };
    let start = if span > 0 {
        walk_start(st.1, t, start0, stride, span, 0)
    } else {
        start0
    };
    let (s3, transition) = if pos == 0 {
        (s2, Transition::Swap)
    } else {
        let (s, r) = splitmix_next(s2);
        if r % 100 < 70 {
            (s, Transition::Swap)
        } else if r % 100 < 95 {
            (s, Transition::Cut)
        } else {
            let (s4, r4) = splitmix_next(s);
            (
                s4,
                Transition::Fade {
                    beats: if r4 % 3 == 0 {
                        2u8
                    } else if r4 % 3 == 1 {
                        4u8
                    } else {
                        8u8
                    },
                },
            )
        }
    };
    let sec = SectionChoice {
        track: t,
        order_pos: pos as usize,
        start_bar: start,
        bars,
        bar_offset: st.2 as u64,
        transition,
    };
    (s3, st.1.push((t, start)), (st.2 + bars) as nat, st.3.push(sec))
}

/// The planner's state after the first `k` order positions.
pub open spec fn planned(grids: Seq<Option<u64>>, order: Seq<usize>, seed: u64, k: int) -> PlanState
    decreases k,
{
    if k <= 0 {
        (seed, Seq::empty(), 0, Seq::empty())
    } else {
        let t = order[k - 1];
        next_section(planned(grids, order, seed, k - 1), k - 1, t, grids[t as int]->0)
    }
}


fn used_contains(used: &Vec<(usize, u64)>, t: usize, start: u64) -> (r: bool)
    ensures
        r == used@.contains((t, start)),
{
    let mut i: usize = 0;
    while i < used.len()
        invariant
            i <= used.len(),
            forall|j: int| 0 <= j < i ==> used@[j] != (t, start),
        decreases used.len() - i,
    {
        if used[i].0 == t && used[i].1 == start {
            proof {
                assert(used@[i as int] == (t, start));
            }
            return true;
        }
        i = i + 1;
    }
    false
}

/// Plan the section for order position `pos` (track `t`, `avail` bars).
fn choose_section(
    rng: &mut SplitMix64,
    used: &mut Vec<(usize, u64)>,
    out_bars: u64,
    pos: usize,
    t: usize,
    avail: u64,
) -> (r: SectionChoice)
    requires
        1 <= avail,
    ensures
        ({
            let st = next_section((old(rng).state_of(), old(used)@, out_bars as nat, Seq::empty()), pos as int, t, avail);
            &&& final(rng).state_of() == st.0
            &&& final(used)@ == st.1
            &&& st.3 == seq![r]
            &&& st.2 == out_bars + r.bars
        }),
        1 <= r.bars <= 16,
        r.bars <= avail,
        r.start_bar + r.bars <= avail,
{
    reveal(next_section);
    let r1 = rng.next();
    let pick: u64 = 8 + 2 * (r1 % 5);
    let bars = if pick < avail {
        pick
    } else {
        avail
    };
    let span = avail - bars;
    let mut start: u64 = if span == 0 {
        0
    } else {
        let r2 = rng.next();
        r2 % (span + 1)
    };
    let stride: u64 = if span / 3 >= 1 {
        span / 3
    } else {
        1
    };
    if span > 0 {
        let ghost start0 = start;
        let mut tries: u64 = 0;
        while tries <= span && used_contains(used, t, start)
            invariant
                start <= span < u64::MAX,
                1 <= stride <= span,
                tries <= span + 1,
                walk_start(used@, t, start0, stride, span, 0) == walk_start(
                    used@,
                    t,
                    start,
                    stride,
                    span,
                    tries as nat,
                ),
            decreases span + 1 - tries,
        {
            let ghost prev = start;
            let ghost prev_tries = tries;
            // The next start, `(start + stride) % (span + 1)`, without
            // leaving `u64`.
            let room = span + 1 - stride;
            start = if start >= room {
                start - room
            } else {
                start + stride
            };
            proof {
                let x = prev + stride;
                let m = span + 1;
                if prev >= room {
                    vstd::arithmetic::div_mod::lemma_fundamental_div_mod_converse(x, m, 1, x - m);
                } else {
                    vstd::arithmetic::div_mod::lemma_fundamental_div_mod_converse(x, m, 0, x);
                }
                assert(start == (x % m) as u64);
            }
            // Past `span` the walk stops, however far past.
            tries = if stride > span - tries {
                span + 1
            } else {
                tries + stride
            };
            proof {
                if prev_tries + stride > span {
                    assert(walk_start(used@, t, start, stride, span, tries as nat) == start);
                    assert(walk_start(used@, t, start, stride, span, (prev_tries + stride) as nat)
                        == start);
                }
            }
        }
    }
    let transition = if pos == 0 {
        Transition::Swap
    } else {
        let r3 = rng.next();
        if r3 % 100 < 70 {
            Transition::Swap
        } else if r3 % 100 < 95 {
            Transition::Cut
        } else {
            let r4 = rng.next();
            let beats: u8 = if r4 % 3 == 0 {
                2
            } else if r4 % 3 == 1 {
                4
            } else {
                8
            };
            Transition::Fade { beats }
        }
    };
    used.push((t, start));
    SectionChoice { track: t, order_pos: pos, start_bar: start, bars, bar_offset: out_bars, transition }
}

/// The bytes each track's id is hashed as (its UTF-8 encoding).
pub open spec fn id_bytes(tracks: Seq<TrackFacts>) -> Seq<Seq<u8>> {
    tracks.map_values(|t: TrackFacts| encode_utf8(t.id@))
}

/// Each track's marks.
pub open spec fn track_beats(tracks: Seq<TrackFacts>) -> Seq<Seq<u64>> {
    tracks.map_values(|t: TrackFacts| t.beats@)
}

/// Each track's mark count.
pub open spec fn beat_counts(tracks: Seq<TrackFacts>) -> Seq<nat> {
    tracks.map_values(|t: TrackFacts| t.beats@.len())
}

/// Each track's whole bars, when a grid fits.
pub open spec fn track_grids(tracks: Seq<TrackFacts>) -> Seq<Option<u64>> {
    tracks.map_values(|t: TrackFacts| t.grid_bars)
}

fn find_problem(tracks: &[TrackFacts], order: &[usize]) -> (r: Option<PlanError>)
    ensures
        r == plan_problem(beat_counts(tracks@), track_grids(tracks@), order@),
{
    if order.len() == 0 {
        return Some(PlanError::EmptySequence);
    }
    let ghost grids = track_grids(tracks@);
    let ghost counts = beat_counts(tracks@);
    let mut i: usize = 0;
    while i < order.len()
        invariant
            i <= order.len(),
            grids.len() == tracks.len(),
            first_bad_order(order@, grids.len(), i as int) is None,
        decreases order.len() - i,
    {
        if order[i] >= tracks.len() {
            proof {
                lemma_first_bad_stable(order@, grids.len(), i as int + 1, order.len() as int);
            }
            return Some(PlanError::BadOrderIndex(i));
        }
        i = i + 1;
    }
    let mut k: usize = 0;
    while k < tracks.len()
        invariant
            k <= tracks.len(),
            grids == track_grids(tracks@),
            counts == beat_counts(tracks@),
            order.len() > 0,
            first_bad_order(order@, grids.len(), order.len() as int) is None,
            first_track_problem(counts, grids, k as int) is None,
        decreases tracks.len() - k,
    {
        let tr = &tracks[k];
        proof {
            assert(counts[k as int] == tr.beats@.len());
            assert(grids[k as int] == tr.grid_bars);
        }
        if tr.beats.len() < 2 {
            proof {
                lemma_first_problem_stable(counts, grids, k as int + 1, tracks.len() as int);
            }
            return Some(PlanError::NotEnoughBeats(k));
        }
        match tr.grid_bars {
            None => {
                proof {
                    lemma_first_problem_stable(counts, grids, k as int + 1, tracks.len() as int);
                }
                return Some(PlanError::NoGrid(k));
            },
            Some(b) => {
                if b == 0 {
                    proof {
                        lemma_first_problem_stable(counts, grids, k as int + 1, tracks.len() as int);
                    }
                    return Some(PlanError::TooShort(k));
                }
            },
        }
        k = k + 1;
    }
    None
}

fn seed_of(tracks: &[TrackFacts], order: &[usize]) -> (r: u64)
    ensures
        r == plan_seed(id_bytes(tracks@), track_beats(tracks@), order@),
{
    let ghost ids = id_bytes(tracks@);
    let ghost bs = track_beats(tracks@);
    let mut h = Fnv64::new();
    let mut k: usize = 0;
    while k < tracks.len()
        invariant
            k <= tracks.len(),
            ids == id_bytes(tracks@),
            bs == track_beats(tracks@),
            h.value() == hash_tracks(ids, bs, k as int),
        decreases tracks.len() - k,
    {
        let tr = &tracks[k];
        let bytes = tr.id.as_str().as_bytes();
        h.write(bytes);
        let ghost h0 = h.value();
        proof {
            assert(bytes@ == ids[k as int]);
        }
        let mut j: usize = 0;
        while j < tr.beats.len()
            invariant
                j <= tr.beats.len(),
                h.value() == fnv_u64s(h0, tr.beats@.subrange(0, j as int)),
            decreases tr.beats.len() - j,
        {
            proof {
                let p = tr.beats@.subrange(0, j + 1);
                assert(p.drop_last() =~= tr.beats@.subrange(0, j as int));
                assert(p.last() == tr.beats@[j as int]);
            }
            h.write_u64(tr.beats[j]);
            j = j + 1;
        }
        proof {
            assert(tr.beats@.subrange(0, tr.beats@.len() as int) =~= tr.beats@);
            assert(bs[k as int] == tr.beats@);
        }
        k = k + 1;
    }
    let ghost h1 = h.value();
    proof {
        assert(ids.len() == tracks.len());
    }
    let mut i: usize = 0;
    while i < order.len()
        invariant
            i <= order.len(),
            h.value() == fnv_u64s(h1, order_words(order@).subrange(0, i as int)),
        decreases order.len() - i,
    {
        proof {
            let p = order_words(order@).subrange(0, i + 1);
            assert(p.drop_last() =~= order_words(order@).subrange(0, i as int));
            assert(p.last() == order[i as int] as u64);
        }
        h.write_u64(order[i] as u64);
        i = i + 1;
    }
    proof {
        assert(order_words(order@).subrange(0, order@.len() as int) =~= order_words(order@));
    }
    h.finish()
}

/// What planning `order` over `tracks` gives: the first problem found, as
/// an error, or else the seed hashed from the input and the sections, bar
/// total and generator state that seed's draws lead to.
pub open spec fn plan_outcome(tracks: Seq<TrackFacts>, order: Seq<usize>, r: Result<SectionsPlan, PlanError>) -> bool {
    match plan_problem(beat_counts(tracks), track_grids(tracks), order) {
        Some(e) => r matches Err(e2) && e2 == e,
        None => r matches Ok(p) && {
            let seed = plan_seed(id_bytes(tracks), track_beats(tracks), order);
            let st = planned(track_grids(tracks), order, seed, order.len() as int);
            &&& p.seed == seed
            &&& p.sections@ == st.3
            &&& p.total_bars == st.2
            &&& p.rng.state_of() == st.0
        },
    }
}

/// Same input, same plan: any two plans of the same tracks in the same
/// order agree on the verdict and, when planning succeeds, on the seed,
/// every section, the bar total and the generator state.
pub proof fn lemma_plan_deterministic(
    tracks: Seq<TrackFacts>,
    order: Seq<usize>,
    r1: Result<SectionsPlan, PlanError>,
    r2: Result<SectionsPlan, PlanError>,
)
    requires
        plan_outcome(tracks, order, r1),
        plan_outcome(tracks, order, r2),
    ensures
        r1 is Ok <==> r2 is Ok,
        r1 matches Err(e1) ==> r2 matches Err(e2) && e1 == e2,
        r1 matches Ok(p1) ==> r2 matches Ok(p2) && p1.seed == p2.seed && p1.sections@
            == p2.sections@ && p1.total_bars == p2.total_bars && p1.rng.state_of()
            == p2.rng.state_of(),
{
}

/// Make the deterministic plan: validate the input, hash it into the
/// seed, and choose every section in order. Pure: no I/O, no clock.
pub fn plan_sections(tracks: &[TrackFacts], order: &[usize]) -> (r: Result<SectionsPlan, PlanError>)
    requires
        order.len() * 16 <= u64::MAX,
    ensures
        plan_outcome(tracks@, order@, r),
{
    match find_problem(tracks, order) {
        Some(e) => {
            return Err(e);
        },
        None => {},
    }
    let ghost grids = track_grids(tracks@);
    let seed = seed_of(tracks, order);
    let mut rng = SplitMix64::new(seed);
    let mut used: Vec<(usize, u64)> = Vec::new();
    let mut sections: Vec<SectionChoice> = Vec::new();
    let mut out_bars: u64 = 0;
    let mut pos: usize = 0;
    proof {
        lemma_no_problem_means_valid(beat_counts(tracks@), grids, order@);
    }
    while pos < order.len()
        invariant
            pos <= order.len(),
            order.len() * 16 <= u64::MAX,
            grids == track_grids(tracks@),
            grids.len() == tracks.len(),
            forall|q: int| 0 <= q < order.len() ==> (#[trigger] order[q]) < tracks.len(),
            forall|t: int|
                0 <= t < tracks.len() ==> ((#[trigger] grids[t]) matches Some(b) && 1 <= b),
            out_bars <= 16 * pos,
            (rng.state_of(), used@, out_bars as nat, sections@) == planned(grids, order@, seed, pos as int),
        decreases order.len() - pos,
    {
        let t = order[pos];
        let avail = match tracks[t].grid_bars {
            Some(b) => b,
            None => 0,
        };
        proof {
            assert(grids[t as int] == tracks[t as int].grid_bars);
            assert(grids[t as int] matches Some(b) && 1 <= b);
        }
        let ghost prev = planned(grids, order@, seed, pos as int);
        let sec = choose_section(&mut rng, &mut used, out_bars, pos, t, avail);
        proof {
            reveal(next_section);
            let nx = next_section(prev, pos as int, t, avail);
            let ns = next_section((prev.0, prev.1, prev.2, Seq::empty()), pos as int, t, avail);
            assert(nx.3 == prev.3.push(ns.3[0]));
        }
        sections.push(sec);
        out_bars = out_bars + sec.bars;
        pos = pos + 1;
    }
    Ok(SectionsPlan { seed, sections, total_bars: out_bars, rng })
}

proof fn lemma_no_problem_means_valid(counts: Seq<nat>, grids: Seq<Option<u64>>, order: Seq<usize>)
    requires
        counts.len() == grids.len(),
        plan_problem(counts, grids, order) is None,
    ensures
        forall|q: int| 0 <= q < order.len() ==> (#[trigger] order[q]) < grids.len(),
        forall|t: int| 0 <= t < grids.len() ==> ((#[trigger] grids[t]) matches Some(b) && b >= 1),
{
    assert forall|q: int| 0 <= q < order.len() implies (#[trigger] order[q]) < grids.len() by {
        lemma_first_bad(order, grids.len(), order.len() as int, q);
    }
    assert forall|t: int| 0 <= t < grids.len() implies ((#[trigger] grids[t]) matches Some(b) && b
        >= 1) by {
        lemma_first_problem(counts, grids, grids.len() as int, t);
    }
}

proof fn lemma_first_bad_stable(order: Seq<usize>, n: nat, i: int, j: int)
    requires
        1 <= i <= j,
        first_bad_order(order, n, i) is Some,
    ensures
        first_bad_order(order, n, j) == first_bad_order(order, n, i),
    decreases j,
{
    if j > i {
        lemma_first_bad_stable(order, n, i, j - 1);
    }
}

proof fn lemma_first_problem_stable(counts: Seq<nat>, grids: Seq<Option<u64>>, i: int, j: int)
    requires
        1 <= i <= j,
        first_track_problem(counts, grids, i) is Some,
    ensures
        first_track_problem(counts, grids, j) == first_track_problem(counts, grids, i),
    decreases j,
{
    if j > i {
        lemma_first_problem_stable(counts, grids, i, j - 1);
    }
}

proof fn lemma_first_bad(order: Seq<usize>, n: nat, k: int, q: int)
    requires
        0 <= q < k <= order.len(),
        first_bad_order(order, n, k) is None,
    ensures
        order[q] < n,
    decreases k,
{
    if q < k - 1 {
        lemma_first_bad(order, n, k - 1, q);
    }
}

proof fn lemma_first_problem(counts: Seq<nat>, grids: Seq<Option<u64>>, k: int, t: int)
    requires
        0 <= t < k <= grids.len(),
        k <= counts.len(),
        first_track_problem(counts, grids, k) is None,
    ensures
        grids[t] matches Some(b) && b >= 1,
    decreases k,
{
    if t < k - 1 {
        lemma_first_problem(counts, grids, k - 1, t);
    }
}


proof fn lemma_walk_in_range(used: Seq<(usize, u64)>, track: usize, start: u64, stride: u64, span: u64, tries: nat)
    requires
        start <= span,
    ensures
        walk_start(used, track, start, stride, span, tries) <= span,
    decreases (if tries <= span {
        span + 1 - tries
    } else {
        0
    }),
{
    if stride >= 1 && tries <= span && used.contains((track, start)) {
        lemma_walk_in_range(
            used,
            track,
            ((start + stride) % (span as int + 1)) as u64,
            stride,
            span,
            (tries + stride) as nat,
        );
    }
}

/// Whether section `s` is well shaped for a track with `avail` bars: 1 to
/// 16 bars (an even 8 to 16, or all the track has), inside the track, and
/// a fade of 2, 4 or 8 beats when it fades in.
pub open spec fn section_fits(s: SectionChoice, avail: u64) -> bool {
    &&& 1 <= s.bars <= 16
    &&& s.bars <= avail
    &&& (s.bars == avail || (8 <= s.bars && s.bars % 2 == 0))
    &&& s.start_bar + s.bars <= avail
    &&& (s.transition matches Transition::Fade { beats } ==> (beats == 2 || beats == 4 || beats
        == 8))
}

/// The plan's shape: one section per order entry, realizing that entry's
/// track; each section phrase-sized and inside its track; the opening
/// section swaps in at bar 0; each section starts exactly where the one
/// before ends (butt-joined on the master grid); and the total is where
/// the last one ends.
pub proof fn lemma_plan_shape(grids: Seq<Option<u64>>, order: Seq<usize>, seed: u64, k: int)
    requires
        0 <= k <= order.len(),
        order.len() <= usize::MAX,
        order.len() * 16 <= u64::MAX,
        forall|q: int| 0 <= q < order.len() ==> (#[trigger] order[q]) < grids.len(),
        forall|t: int| 0 <= t < grids.len() ==> ((#[trigger] grids[t]) matches Some(b) && b >= 1),
    ensures
        ({
            let st = planned(grids, order, seed, k);
            &&& st.3.len() == k
            &&& forall|i: int|
                0 <= i < k ==> (#[trigger] st.3[i]).track == order[i] && st.3[i].order_pos == i
                    && section_fits(st.3[i], grids[order[i] as int]->0)
            &&& k > 0 ==> st.3[0].transition == Transition::Swap && st.3[0].bar_offset == 0
            &&& forall|i: int|
                0 <= i < k - 1 ==> (#[trigger] st.3[i + 1]).bar_offset == st.3[i].bar_offset
                    + st.3[i].bars
            &&& st.2 == if k == 0 {
                0
            } else {
                st.3[k - 1].bar_offset + st.3[k - 1].bars
            }
            &&& st.2 <= 16 * k
        }),
    decreases k,
{
    if k > 0 {
        lemma_plan_shape(grids, order, seed, k - 1);
        let prev = planned(grids, order, seed, k - 1);
        let t = order[k - 1];
        assert(t < grids.len());
        assert(grids[t as int] matches Some(b) && b >= 1);
        let avail = grids[t as int]->0;
        let st = planned(grids, order, seed, k);
        assert(st == next_section(prev, k - 1, t, avail));
        lemma_next_section(prev, k - 1, t, avail);
        let sec = st.3[k - 1];
        assert forall|i: int|
            0 <= i < k implies (#[trigger] st.3[i]).track == order[i] && st.3[i].order_pos == i
                && section_fits(st.3[i], grids[order[i] as int]->0) by {
            if i < k - 1 {
                assert(st.3[i] == prev.3[i]);
            } else {
                assert(st.3[i] == st.3.last());
            }
        }
        assert forall|i: int| 0 <= i < k - 1 implies (#[trigger] st.3[i + 1]).bar_offset
            == st.3[i].bar_offset + st.3[i].bars by {
            if i + 1 < k - 1 {
                assert(st.3[i + 1] == prev.3[i + 1]);
            } else {
                assert(st.3[i + 1] == st.3.last());
            }
            assert(st.3[i] == prev.3[i]);
        }
        assert(st.3[k - 1] == st.3.last());
        if k > 1 {
            assert(st.3[0] == prev.3[0]);
        }
    }
}

/// Same input, same plan: two track lists that agree on every id, every
/// mark and every grid, planned in the same order, get the same verdict,
/// the same seed and the same sections.
pub proof fn lemma_same_input_same_plan(a: Seq<TrackFacts>, b: Seq<TrackFacts>, order: Seq<usize>)
    requires
        a.len() == b.len(),
        forall|i: int|
            0 <= i < a.len() ==> (#[trigger] a[i]).id@ == b[i].id@ && a[i].beats@ == b[i].beats@
                && a[i].grid_bars == b[i].grid_bars,
    ensures
        plan_problem(beat_counts(a), track_grids(a), order) == plan_problem(
            beat_counts(b),
            track_grids(b),
            order,
        ),
        plan_seed(id_bytes(a), track_beats(a), order) == plan_seed(id_bytes(b), track_beats(b), order),
        forall|k: int|
            planned(track_grids(a), order, plan_seed(id_bytes(a), track_beats(a), order), k)
                == #[trigger] planned(
                track_grids(b),
                order,
                plan_seed(id_bytes(b), track_beats(b), order),
                k,
            ),
{
    assert(beat_counts(a) =~= beat_counts(b));
    assert(track_grids(a) =~= track_grids(b));
    assert(id_bytes(a) =~= id_bytes(b));
    assert(track_beats(a) =~= track_beats(b));
}

proof fn lemma_next_section(st: PlanState, pos: int, t: usize, avail: u64)
    requires
        avail >= 1,
    ensures
        ({
            let nx = next_section(st, pos, t, avail);
            let sec = nx.3.last();
            &&& nx.3 == st.3.push(sec)
            &&& sec.track == t
            &&& sec.order_pos == pos as usize
            &&& sec.bar_offset == st.2 as u64
            &&& section_fits(sec, avail)
            &&& nx.2 == st.2 + sec.bars
            &&& pos == 0 ==> sec.transition == Transition::Swap
        }),
{
    reveal(next_section);
    let (s1, r1) = splitmix_next(st.0);
    let bars = if length_pick(r1) < avail {
        length_pick(r1)
    } else {
        avail
    };
    let span = (avail - bars) as u64;
    let (s2, start0) = if span == 0 {
        (s1, 0u64)
    } else {
        let (s, r) = splitmix_next(s1);
        (s, (r as int % (span as int + 1)) as u64)
    };
    let stride = if span / 3 >= 1 {
        (span / 3) as u64
    } else {
        1u64
    };
    if span > 0 {
        lemma_walk_in_range(st.1, t, start0, stride, span, 0);
    }
}


/// The human-readable text of a planning error.
pub open spec fn plan_error_text(e: PlanError) -> Seq<char> {
    match e {
        PlanError::EmptySequence => "the sequence is empty"@,
        PlanError::BadOrderIndex(i) => "order entry "@ + decimal(i as nat)
            + " points past the track list"@,
        PlanError::NotEnoughBeats(t) => "track "@ + decimal(t as nat) + " needs at least 2 beat marks"@,
        PlanError::NoGrid(t) => "track "@ + decimal(t as nat) + ": beat marks fit no grid"@,
        PlanError::TooShort(t) => "track "@ + decimal(t as nat) + " is shorter than one bar"@,
    }
}

fn framed(before: &str, n: usize, after: &str) -> (r: String)
    ensures
        r@ == before@ + decimal(n as nat) + after@,
{
    let mut out = chars_of(before);
    push_decimal(&mut out, n as u64);
    let mut tail = chars_of(after);
    out.append(&mut tail);
    string_of(out.as_slice())
}

impl PlanError {
    /// The error as text, for the user.
    pub fn message(&self) -> (r: String)
        ensures
            r@ == plan_error_text(*self),
    {
        match self {
            PlanError::EmptySequence => "the sequence is empty".to_owned(),
            PlanError::BadOrderIndex(i) => framed("order entry ", *i, " points past the track list"),
            PlanError::NotEnoughBeats(t) => framed("track ", *t, " needs at least 2 beat marks"),
            PlanError::NoGrid(t) => framed("track ", *t, ": beat marks fit no grid"),
            PlanError::TooShort(t) => framed("track ", *t, " is shorter than one bar"),
        }
    }
}

} // verus!
