//! Sampler pad settings: what kind each pad is and how it reads its clip.
use vstd::prelude::*;

verus! {

/// What kind of pad this is: it decides the pad's controls and playback.
#[derive(Debug, Clone, Copy, PartialEq, Eq, Structural)]
pub enum PadKind {
    /// Plays its clip once on trigger.
    OneShot,
    /// Repeats, synced to the master tempo.
    Loop,
    /// A short clip scratched with whip/wiki phrases.
    Scratch,
}

/// The kind after `k` in the cycle one-shot, loop, scratch.
pub open spec fn kind_after(k: PadKind) -> PadKind {
    match k {
        PadKind::OneShot => PadKind::Loop,
        PadKind::Loop => PadKind::Scratch,
        PadKind::Scratch => PadKind::OneShot,
    }
}

impl Default for PadKind {
    fn default() -> (k: Self)
        ensures
            k == PadKind::OneShot,
    {
        PadKind::OneShot
    }
}

impl PadKind {
    /// The next kind when the pad's kind is cycled.
    pub fn next(self) -> (r: PadKind)
        ensures
            r == kind_after(self),
    {
        match self {
            PadKind::OneShot => PadKind::Loop,
            PadKind::Loop => PadKind::Scratch,
            PadKind::Scratch => PadKind::OneShot,
        }
    }
}

/// A clip playback pattern: how a triggered pad reads its clip.
#[derive(Debug, Clone, Copy, PartialEq, Eq, Structural)]
pub enum Pattern {
    /// Play the trimmed region forward once.
    Straight,
    /// Forward, gated on and off at the beat division.
    Cut,
    /// A read head bouncing across a short slice, audible both ways.
    BabyScratch,
    /// Forward, gated at a finer (sixteenth) division.
    Transformer,
    /// Loop a tiny slice rapidly: a roll.
    Stutter,
    /// Forward with a wobbling read rate: pitch vibrato.
    Warble,
    /// Play the trimmed region backward.
    Reverse,
}

/// The pattern after `p` in the cycle Straight, Cut, BabyScratch,
/// Transformer, Stutter, Warble, Reverse.
pub open spec fn pattern_after(p: Pattern) -> Pattern {
    match p {
        Pattern::Straight => Pattern::Cut,
        Pattern::Cut => Pattern::BabyScratch,
        Pattern::BabyScratch => Pattern::Transformer,
        Pattern::Transformer => Pattern::Stutter,
        Pattern::Stutter => Pattern::Warble,
        Pattern::Warble => Pattern::Reverse,
        Pattern::Reverse => Pattern::Straight,
    }
}

impl Default for Pattern {
    fn default() -> (p: Self)
        ensures
            p == Pattern::Straight,
    {
        Pattern::Straight
    }
}

impl Pattern {
    /// The next pattern when the pad's pattern is cycled.
    pub fn next(self) -> (r: Pattern)
        ensures
            r == pattern_after(self),
    {
        match self {
            Pattern::Straight => Pattern::Cut,
            Pattern::Cut => Pattern::BabyScratch,
            Pattern::BabyScratch => Pattern::Transformer,
            Pattern::Transformer => Pattern::Stutter,
            Pattern::Stutter => Pattern::Warble,
            Pattern::Warble => Pattern::Reverse,
            Pattern::Reverse => Pattern::Straight,
        }
    }
}

/// Cycling the kind three times comes back to where it started, passing
/// every kind on the way.
pub proof fn lemma_kind_cycle(k: PadKind)
    ensures
        kind_after(kind_after(kind_after(k))) == k,
        k != kind_after(k),
        k != kind_after(kind_after(k)),
{
}

/// Cycling the pattern seven times comes back to where it started.
pub proof fn lemma_pattern_cycle(p: Pattern)
    ensures
        pattern_after(
            pattern_after(
                pattern_after(pattern_after(pattern_after(pattern_after(pattern_after(p))))),
            ),
        ) == p,
{
}

} // verus!
