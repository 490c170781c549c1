//! A pad's trim: the in and out points, in frames, that bound playback of
//! its clip without touching the samples.
use vstd::prelude::*;

verus! {

/// `v` clamped to `lo..=hi`.
pub open spec fn clamped(v: int, lo: int, hi: int) -> int {
    if v < lo {
        lo
    } else if v > hi {
        hi
    } else {
        v
    }
}

/// Trim bounds `(in, out)` of a pad's clip, in frames.
#[derive(Debug, Clone, Copy, PartialEq, Eq, Structural)]
pub struct Trim {
    pub inp: usize,
    pub out: usize,
}

impl Trim {
    /// The bounds are ordered inside a clip of `len` frames: at least one
    /// frame plays, and none past the end.
    pub open spec fn ordered(&self, len: nat) -> bool {
        self.inp < self.out <= len
    }

    /// The whole clip of `frames` frames (a freshly assigned pad).
    pub fn full(frames: usize) -> (t: Trim)
        ensures
            t.inp == 0,
            t.out == frames,
            frames >= 1 ==> t.ordered(frames as nat),
    {
        Trim { inp: 0, out: frames }
    }

    /// Move the in-point by `delta` frames, clamped to `0..=out-1`; with no
    /// frames to play (`out == 0`, an empty pad) nothing moves.
    pub fn nudge_in(&mut self, delta: i64)
        requires
            old(self).out <= i64::MAX,
            old(self).inp <= i64::MAX,
            i64::MIN <= old(self).inp + delta <= i64::MAX,
        ensures
            final(self).inp == if old(self).out >= 1 {
                clamped(old(self).inp + delta, 0, old(self).out - 1)
            } else {
                old(self).inp as int
            },
            final(self).out == old(self).out,
            old(self).out >= 1 ==> final(self).inp < final(self).out,
    {
        if self.out == 0 {
            return;
        }
        let v = self.inp as i64 + delta;
        let hi = self.out as i64 - 1;
        let c = if v < 0 {
            0
        } else if v > hi {
            hi
        } else {
            v
        };
        self.inp = c as usize;
    }

    /// Move the out-point by `delta` frames, clamped to
    /// `in+1..=max(len, in+1)` for a clip of `len` frames.
    pub fn nudge_out(&mut self, len: usize, delta: i64)
        requires
            old(self).inp < i64::MAX,
            old(self).inp < usize::MAX,
            old(self).out <= i64::MAX,
            len <= i64::MAX,
            i64::MIN <= old(self).out + delta <= i64::MAX,
        ensures
            final(self).inp == old(self).inp,
            final(self).out == clamped(
                old(self).out + delta,
                old(self).inp + 1,
                if len > old(self).inp + 1 {
                    len as int
                } else {
                    old(self).inp + 1
                },
            ),
            old(self).inp < len ==> final(self).ordered(len as nat),
    {
        let v = self.out as i64 + delta;
        let lo = self.inp as i64 + 1;
        let hi = if (len as i64) > lo {
            len as i64
        } else {
            lo
        };
        let c = if v < lo {
            lo
        } else if v > hi {
            hi
        } else {
            v
        };
        self.out = c as usize;
    }

    /// Set the in-point to `frame`, kept below the out-point.
    pub fn set_in(&mut self, frame: usize)
        ensures
            final(self).inp == if frame < old(self).out - 1 {
                frame as int
            } else if old(self).out >= 1 {
                old(self).out - 1
            } else {
                0
            },
            final(self).out == old(self).out,
            old(self).out >= 1 ==> final(self).inp < final(self).out,
    {
        let top = if self.out >= 1 {
            self.out - 1
        } else {
            0
        };
        self.inp = if frame < top {
            frame
        } else {
            top
        };
    }

    /// Set the out-point to `frame`, clamped to `in+1..=len` for a clip of
    /// `len` frames.
    pub fn set_out(&mut self, len: usize, frame: usize)
        requires
            old(self).inp + 1 <= len,
        ensures
            final(self).inp == old(self).inp,
            final(self).out == clamped(frame as int, old(self).inp + 1, len as int),
            final(self).ordered(len as nat),
    {
        let lo = self.inp + 1;
        self.out = if frame < lo {
            lo
        } else if frame > len {
            len
        } else {
            frame
        };
    }

    /// The clip editor's arrow keys: move the out-mark (`out_mark`) or the
    /// in-mark by `delta` frames (never below frame 0), then clamp it as
    /// setting it would, in a clip of `len` frames.
    pub fn move_mark(&mut self, len: usize, out_mark: bool, delta: i64)
        requires
            old(self).inp + 1 <= len,
            old(self).inp <= i64::MAX,
            old(self).out <= i64::MAX,
            i64::MIN <= old(self).inp + delta <= i64::MAX,
            i64::MIN <= old(self).out + delta <= i64::MAX,
            old(self).inp + delta <= usize::MAX,
            old(self).out + delta <= usize::MAX,
        ensures
            if out_mark {
                let v = if old(self).out + delta < 0 {
                    0
                } else {
                    old(self).out + delta
                };
                &&& final(self).inp == old(self).inp
                &&& final(self).out == clamped(v, old(self).inp + 1, len as int)
            } else {
                let v = if old(self).inp + delta < 0 {
                    0
                } else {
                    old(self).inp + delta
                };
                &&& final(self).out == old(self).out
                &&& final(self).inp == if v < old(self).out - 1 {
                    v
                } else if old(self).out >= 1 {
                    old(self).out - 1
                } else {
                    0
                }
            },
            out_mark ==> final(self).ordered(len as nat),
    {
        if out_mark {
            let v = self.out as i64 + delta;
            let f: usize = if v < 0 {
                0
            } else {
                v as usize
            };
            self.set_out(len, f);
        } else {
            let v = self.inp as i64 + delta;
            let f: usize = if v < 0 {
                0
            } else {
                v as usize
            };
            self.set_in(f);
        }
    }

    /// The trimmed region's sample range in an interleaved stereo clip of
    /// `frames` frames; `None` when the bounds cross (nothing to take).
    pub fn region(&self, frames: usize) -> (r: Option<(usize, usize)>)
        requires
            2 * frames <= usize::MAX,
        ensures
            ({
                let a = 2 * (if self.inp < frames {
                    self.inp as int
                } else {
                    frames as int
                });
                let b = 2 * (if self.out < frames {
                    self.out as int
                } else {
                    frames as int
                });
                r == if a <= b {
                    Some((a as usize, b as usize))
                } else {
                    None::<(usize, usize)>
                }
            }),
    {
        let a = 2 * if self.inp < frames {
            self.inp
        } else {
            frames
        };
        let b = 2 * if self.out < frames {
            self.out
        } else {
            frames
        };
        if a <= b {
            Some((a, b))
        } else {
            None
        }
    }
}

/// How far one arrow press moves a mark in the clip editor: 100 ms of
/// frames at `rate` when `coarse`, else 10 ms, at least one frame.
pub fn mark_step(rate: u32, coarse: bool) -> (r: u64)
    ensures
        r == if coarse {
            if rate / 10 >= 1 {
                (rate / 10) as u64
            } else {
                1u64
            }
        } else {
            if rate / 100 >= 1 {
                (rate / 100) as u64
            } else {
                1u64
            }
        },
{
    let s = if coarse {
        rate / 10
    } else {
        rate / 100
    };
    if s >= 1 {
        s as u64
    } else {
        1
    }
}

/// Every trim edit keeps ordered bounds ordered: whatever the nudges and
/// settings, at least one frame of the clip plays and none past its end.
pub proof fn lemma_edits_keep_order(t: Trim, len: nat, delta: int, frame: nat)
    requires
        t.ordered(len),
    ensures
        clamped(t.inp + delta, 0, t.out - 1) < t.out,
        t.inp + 1 <= clamped(t.out + delta, t.inp + 1, len as int) <= len,
        (if frame < t.out - 1 {
            frame as int
        } else {
            t.out - 1
        }) < t.out,
        t.inp + 1 <= clamped(frame as int, t.inp + 1, len as int) <= len,
{
}

} // verus!
