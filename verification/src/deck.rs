//! A deck's transport: the states a loaded track moves through as it is
//! played, paused and stopped.
use vstd::prelude::*;

verus! {

/// Transport state of a deck.
#[derive(Debug, Clone, Copy, PartialEq, Eq, Structural)]
pub enum DeckState {
    /// No track loaded.
    Empty,
    /// Track loaded, playhead at 0, not yet started.
    Loaded,
    /// Advancing the playhead and producing audio.
    Playing,
    /// Holding position; produces silence until resumed.
    Paused,
    /// Halted with the playhead rewound to 0.
    Stopped,
}

/// After `play`: with a track loaded the deck plays (a paused deck
/// resumes); without one nothing changes.
pub open spec fn played(s: DeckState, has_track: bool) -> DeckState {
    if has_track {
        DeckState::Playing
    } else {
        s
    }
}

/// After `pause`: only a playing deck pauses.
pub open spec fn paused(s: DeckState) -> DeckState {
    if s == DeckState::Playing {
        DeckState::Paused
    } else {
        s
    }
}

/// After the play/pause toggle: pause if playing, otherwise play; an
/// empty deck stays empty.
pub open spec fn toggled(s: DeckState, has_track: bool) -> DeckState {
    match s {
        DeckState::Playing => paused(s),
        DeckState::Empty => s,
        _ => played(s, has_track),
    }
}

/// After `stop`: with a track the deck stops (and rewinds); without one
/// nothing changes.
pub open spec fn stopped(s: DeckState, has_track: bool) -> DeckState {
    if has_track {
        DeckState::Stopped
    } else {
        s
    }
}

impl DeckState {
    /// The state after `play`.
    pub fn on_play(self, has_track: bool) -> (r: DeckState)
        ensures
            r == played(self, has_track),
    {
        if has_track && self != DeckState::Playing {
            DeckState::Playing
        } else {
            self
        }
    }

    /// The state after `pause`.
    pub fn on_pause(self) -> (r: DeckState)
        ensures
            r == paused(self),
    {
        if self == DeckState::Playing {
            DeckState::Paused
        } else {
            self
        }
    }

    /// The state after the play/pause toggle.
    pub fn on_toggle(self, has_track: bool) -> (r: DeckState)
        ensures
            r == toggled(self, has_track),
    {
        match self {
            DeckState::Playing => self.on_pause(),
            DeckState::Loaded | DeckState::Paused | DeckState::Stopped => self.on_play(has_track),
            DeckState::Empty => self,
        }
    }

    /// The state after `stop`.
    pub fn on_stop(self, has_track: bool) -> (r: DeckState)
        ensures
            r == stopped(self, has_track),
    {
        if has_track {
            DeckState::Stopped
        } else {
            self
        }
    }
}

/// The interleaved-sample range a capture between frames `a` and `b`
/// copies from a track of `frames` frames: the bounds ordered and clamped
/// to the track, two samples per frame.
pub fn capture_range(a: usize, b: usize, frames: usize) -> (r: (usize, usize))
    requires
        2 * frames <= usize::MAX,
    ensures
        ({
            let lo = if a < b {
                a
            } else {
                b
            };
            let hi = if a < b {
                b
            } else {
                a
            };
            &&& r.0 == 2 * (if lo < frames {
                lo
            } else {
                frames
            })
            &&& r.1 == 2 * (if hi < frames {
                hi
            } else {
                frames
            })
        }),
        r.0 <= r.1 <= 2 * frames,
{
    let lo = if a < b {
        a
    } else {
        b
    };
    let hi = if a < b {
        b
    } else {
        a
    };
    let lo = if lo < frames {
        lo
    } else {
        frames
    };
    let hi = if hi < frames {
        hi
    } else {
        frames
    };
    (2 * lo, 2 * hi)
}

/// With a track loaded, toggling twice returns a playing or paused deck to
/// where it was.
pub proof fn lemma_toggle_twice(s: DeckState)
    requires
        s == DeckState::Playing || s == DeckState::Paused,
    ensures
        toggled(toggled(s, true), true) == s,
{
}

/// Without a track, no transport command changes the state.
pub proof fn lemma_no_track_no_change(s: DeckState)
    ensures
        played(s, false) == s,
        stopped(s, false) == s,
        s != DeckState::Playing ==> toggled(s, false) == s && paused(s) == s,
{
}

} // verus!
