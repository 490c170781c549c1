//! Keyboard navigation of the terminal interface: which area has focus,
//! where the arrows move the cursors, and the small layout helpers the
//! screen is drawn with. The decisions live here; the caller performs
//! what they call for (browsing the library, nudging a pad's volume).
use vstd::prelude::*;
use crate::text::{chars_of, string_of};
use crate::timeline::PADS;

verus! {

/// The area of the screen that takes the arrow keys.
#[derive(Debug, Clone, Copy, PartialEq, Eq, Structural)]
pub enum Focus {
    /// The library listing.
    Crate,
    /// One pad.
    Pad(usize),
    /// The step grid.
    Timeline,
}

/// An arrow key.
#[derive(Debug, Clone, Copy, PartialEq, Eq, Structural)]
pub enum Arrow {
    Up,
    Down,
    Left,
    Right,
}

/// What an arrow key calls for beyond moving the cursors.
#[derive(Debug, Clone, Copy, PartialEq, Eq, Structural)]
pub enum ArrowEffect {
    /// Nothing happens.
    Ignored,
    /// Move the library selection one entry (down when `down`).
    Browse { down: bool },
    /// Nudge the focused pad's volume (up when `up`).
    Volume { up: bool },
    /// Focus moved to another pad.
    Focus,
    /// The step grid's cursor moved.
    Timeline,
}

/// The focus and last pad after Tab (`fwd`) or Shift-Tab: library, pads,
/// step grid, around; entering the pads lands on the last pad focused.
pub open spec fn area_after(focus: Focus, last_pad: usize, fwd: bool) -> (Focus, usize) {
    let f = match (focus, fwd) {
        (Focus::Crate, true) => Focus::Pad(last_pad),
        (Focus::Pad(_), true) => Focus::Timeline,
        (Focus::Timeline, true) => Focus::Crate,
        (Focus::Crate, false) => Focus::Timeline,
        (Focus::Pad(_), false) => Focus::Crate,
        (Focus::Timeline, false) => Focus::Pad(last_pad),
    };
    match f {
        Focus::Pad(i) => (f, i),
        _ => (f, last_pad),
    }
}

/// The navigation state: the focused area, the last pad focused, and the
/// step grid's cursor.
#[derive(Debug, Clone, Copy)]
pub struct Cursor {
    focus: Focus,
    last_pad: usize,
    tl_step: usize,
    tl_lane: usize,
}

impl Cursor {
    pub closed spec fn focus_of(&self) -> Focus {
        self.focus
    }

    pub closed spec fn last_pad_of(&self) -> usize {
        self.last_pad
    }

    pub closed spec fn step_of(&self) -> usize {
        self.tl_step
    }

    pub closed spec fn lane_of(&self) -> usize {
        self.tl_lane
    }

    /// The cursor is well formed: pads and lanes name real pads, a
    /// focused pad is the last pad focused, and the step can move right.
    pub open spec fn wf(&self) -> bool {
        &&& self.last_pad_of() < PADS
        &&& self.lane_of() < PADS
        &&& self.step_of() < usize::MAX
        &&& (self.focus_of() matches Focus::Pad(i) ==> i == self.last_pad_of())
    }

    /// The starting state: the first pad focused, the grid cursor at its
    /// origin.
    pub fn new() -> (c: Cursor)
        ensures
            c.wf(),
            c.focus_of() == Focus::Pad(0),
            c.last_pad_of() == 0,
            c.step_of() == 0,
            c.lane_of() == 0,
    {
        Cursor { focus: Focus::Pad(0), last_pad: 0, tl_step: 0, tl_lane: 0 }
    }

    pub fn focus(&self) -> (r: Focus)
        ensures
            r == self.focus_of(),
    {
        self.focus
    }

    pub fn last_pad(&self) -> (r: usize)
        ensures
            r == self.last_pad_of(),
    {
        self.last_pad
    }

    pub fn tl_step(&self) -> (r: usize)
        ensures
            r == self.step_of(),
    {
        self.tl_step
    }

    pub fn tl_lane(&self) -> (r: usize)
        ensures
            r == self.lane_of(),
    {
        self.tl_lane
    }

    /// The pad that library loads go to: the focused pad, else the last
    /// pad focused.
    pub fn active_pad(&self) -> (r: usize)
        ensures
            r == match self.focus_of() {
                Focus::Pad(i) => i,
                _ => self.last_pad_of(),
            },
    {
        match self.focus {
            Focus::Pad(i) => i,
            _ => self.last_pad,
        }
    }

    /// Focus `f`, remembering it as the last pad when it is one.
    pub fn set_focus(&mut self, f: Focus)
        requires
            old(self).wf(),
            f matches Focus::Pad(i) ==> i < PADS,
        ensures
            final(self).wf(),
            final(self).focus_of() == f,
            final(self).last_pad_of() == match f {
                Focus::Pad(i) => i,
                _ => old(self).last_pad_of(),
            },
            final(self).step_of() == old(self).step_of(),
            final(self).lane_of() == old(self).lane_of(),
    {
        if let Focus::Pad(i) = f {
            self.last_pad = i;
        }
        self.focus = f;
    }

    /// Tab (`fwd`) or Shift-Tab: move to the next or previous area.
    pub fn next_area(&mut self, fwd: bool)
        requires
            old(self).wf(),
        ensures
            final(self).wf(),
            (final(self).focus_of(), final(self).last_pad_of()) == area_after(
                old(self).focus_of(),
                old(self).last_pad_of(),
                fwd,
            ),
            final(self).step_of() == old(self).step_of(),
            final(self).lane_of() == old(self).lane_of(),
    {
        self.focus = match (self.focus, fwd) {
            (Focus::Crate, true) => Focus::Pad(self.last_pad),
            (Focus::Pad(_), true) => Focus::Timeline,
            (Focus::Timeline, true) => Focus::Crate,
            (Focus::Crate, false) => Focus::Timeline,
            (Focus::Pad(_), false) => Focus::Crate,
            (Focus::Timeline, false) => Focus::Pad(self.last_pad),
        };
        if let Focus::Pad(i) = self.focus {
            self.last_pad = i;
        }
    }

    /// An arrow key, on a step grid of `total_steps` steps: in the library
    /// up and down browse; on a pad up and down change its volume and left
    /// and right move to the neighbouring pad; on the grid the arrows move
    /// the cursor, clamped to the grid.
    pub fn arrow(&mut self, dir: Arrow, total_steps: usize) -> (r: ArrowEffect)
        requires
            old(self).wf(),
        ensures
            final(self).wf(),
            match old(self).focus_of() {
                Focus::Crate => {
                    &&& *final(self) == *old(self)
                    &&& r == match dir {
                        Arrow::Up => ArrowEffect::Browse { down: false },
                        Arrow::Down => ArrowEffect::Browse { down: true },
                        _ => ArrowEffect::Ignored,
                    }
                },
                Focus::Pad(i) => match dir {
                    Arrow::Up => *final(self) == *old(self) && r == ArrowEffect::Volume { up: true },
                    Arrow::Down => *final(self) == *old(self) && r == ArrowEffect::Volume { up: false },
                    Arrow::Left => {
                        let p = if i > 0 {
                            (i - 1) as usize
                        } else {
                            0usize
                        };
                        &&& final(self).focus_of() == Focus::Pad(p)
                        &&& final(self).last_pad_of() == p
                        &&& final(self).step_of() == old(self).step_of()
                        &&& final(self).lane_of() == old(self).lane_of()
                        &&& r == ArrowEffect::Focus
                    },
                    Arrow::Right => {
                        let p = if i + 1 < PADS {
                            (i + 1) as usize
                        } else {
                            (PADS - 1) as usize
                        };
                        &&& final(self).focus_of() == Focus::Pad(p)
                        &&& final(self).last_pad_of() == p
                        &&& final(self).step_of() == old(self).step_of()
                        &&& final(self).lane_of() == old(self).lane_of()
                        &&& r == ArrowEffect::Focus
                    },
                },
                Focus::Timeline => {
                    let last: int = if total_steps > 0 {
                        total_steps - 1
                    } else {
                        0
                    };
                    let s = old(self).step_of() as int;
                    let l = old(self).lane_of() as int;
                    &&& final(self).focus_of() == old(self).focus_of()
                    &&& final(self).last_pad_of() == old(self).last_pad_of()
                    &&& final(self).step_of() == match dir {
                        Arrow::Left => if s > 0 {
                            s - 1
                        } else {
                            0
                        },
                        Arrow::Right => if s + 1 < last {
                            s + 1
                        } else {
                            last
                        },
                        _ => s,
                    }
                    &&& final(self).lane_of() == match dir {
                        Arrow::Up => if l > 0 {
                            l - 1
                        } else {
                            0
                        },
                        Arrow::Down => if l + 1 < PADS {
                            l + 1
                        } else {
                            PADS - 1
                        },
                        _ => l,
                    }
                    &&& r == ArrowEffect::Timeline
                },
            },
    {
        match self.focus {
            Focus::Crate => match dir {
                Arrow::Up => ArrowEffect::Browse { down: false },
                Arrow::Down => ArrowEffect::Browse { down: true },
                _ => ArrowEffect::Ignored,
            },
            Focus::Pad(i) => match dir {
                Arrow::Up => ArrowEffect::Volume { up: true },
                Arrow::Down => ArrowEffect::Volume { up: false },
                Arrow::Left => {
                    let p = if i > 0 {
                        i - 1
                    } else {
                        0
                    };
                    self.set_focus(Focus::Pad(p));
                    ArrowEffect::Focus
                },
                Arrow::Right => {
                    let p = if i + 1 < PADS {
                        i + 1
                    } else {
                        PADS - 1
                    };
                    self.set_focus(Focus::Pad(p));
                    ArrowEffect::Focus
                },
            },
            Focus::Timeline => {
                let last = if total_steps > 0 {
                    total_steps - 1
                } else {
                    0
                };
                match dir {
                    Arrow::Left => {
                        self.tl_step = if self.tl_step > 0 {
                            self.tl_step - 1
                        } else {
                            0
                        };
                    },
                    Arrow::Right => {
                        self.tl_step = if self.tl_step + 1 < last {
                            self.tl_step + 1
                        } else {
                            last
                        };
                    },
                    Arrow::Up => {
                        self.tl_lane = if self.tl_lane > 0 {
                            self.tl_lane - 1
                        } else {
                            0
                        };
                    },
                    Arrow::Down => {
                        self.tl_lane = if self.tl_lane + 1 < PADS {
                            self.tl_lane + 1
                        } else {
                            PADS - 1
                        };
                    },
                }
                ArrowEffect::Timeline
            },
        }
    }
}

/// Tab three times comes back to the same area (and the same pad).
pub proof fn lemma_tab_cycle(focus: Focus, last_pad: usize)
    requires
        focus matches Focus::Pad(i) ==> i == last_pad,
    ensures
        ({
            let a = area_after(focus, last_pad, true);
            let b = area_after(a.0, a.1, true);
            area_after(b.0, b.1, true) == (focus, last_pad)
        }),
{
}

/// Shift-Tab undoes Tab.
pub proof fn lemma_tab_back(focus: Focus, last_pad: usize)
    requires
        focus matches Focus::Pad(i) ==> i == last_pad,
    ensures
        ({
            let a = area_after(focus, last_pad, true);
            area_after(a.0, a.1, false) == (focus, last_pad)
        }),
{
}

/// The library selection after moving `delta` entries through a list of
/// `len`, wrapping around at both ends (0 for an empty list).
pub open spec fn wrapped(sel: int, delta: int, len: int) -> int {
    if len == 0 {
        0
    } else {
        (sel + delta) % len
    }
}

/// Move the library selection `sel` by `delta` through `len` entries,
/// wrapping around at both ends.
pub fn crate_nav(sel: usize, delta: isize, len: usize) -> (r: usize)
    ensures
        r == wrapped(sel as int, delta as int, len as int),
{
    if len == 0 {
        return 0;
    }
    let m = len as u128;
    let s = sel as u128 % m;
    if delta >= 0 {
        let d = delta as u128 % m;
        let r = (s + d) % m;
        proof {
            lemma_mod_sum(sel as int, delta as int, len as int);
        }
        r as usize
    } else {
        let d = ((0i128 - delta as i128) as u128) % m;
        let r = (s + (m - d)) % m;
        proof {
            lemma_mod_sum(sel as int, delta as int, len as int);
        }
        r as usize
    }
}

proof fn lemma_mod_sum(a: int, b: int, m: int)
    requires
        m > 0,
        a >= 0,
    ensures
        b >= 0 ==> (a % m + b % m) % m == (a + b) % m,
        b < 0 ==> (a % m + (m - (-b) % m)) % m == (a + b) % m,
{
    vstd::arithmetic::div_mod::lemma_add_mod_noop(a, b, m);
    if b < 0 {
        vstd::arithmetic::div_mod::lemma_fundamental_div_mod(-b, m);
        vstd::arithmetic::div_mod::lemma_fundamental_div_mod(a, m);
        let q = (-b) / m;
        let r = (-b) % m;
        let p = a / m;
        let x = a % m + (m - r);
        // a + b == x + m * (p - q - 1)
        assert(a + b == m * (p - q - 1) + x) by (nonlinear_arith)
            requires
                -b == m * q + r,
                a == m * p + a % m,
                x == a % m + (m - r),
        ;
        vstd::arithmetic::div_mod::lemma_mod_multiples_vanish(p - q - 1, x, m);
    }
}

/// The step the arrangement's playhead last fired, while it plays.
pub fn playhead(playing: bool, play_step: usize, total_steps: usize) -> (r: Option<usize>)
    requires
        play_step < usize::MAX,
        play_step + total_steps <= usize::MAX,
    ensures
        r == if playing {
            let total: int = if total_steps > 0 {
                total_steps as int
            } else {
                1
            };
            Some(((play_step + total - 1) % total) as usize)
        } else {
            None::<usize>
        },
{
    if playing {
        let total = if total_steps > 0 {
            total_steps
        } else {
            1
        };
        Some((play_step + total - 1) % total)
    } else {
        None
    }
}

/// `s` cut to `width` characters: as is when it fits, else its first
/// `width - 1` characters and an ellipsis (just the ellipsis when `width`
/// is at most 1).
pub open spec fn ellipsized(s: Seq<char>, width: nat) -> Seq<char> {
    if s.len() <= width {
        s
    } else if width <= 1 {
        seq!['…']
    } else {
        s.subrange(0, width - 1).push('…')
    }
}

/// `s` fitted into `width` columns with a trailing ellipsis.
pub fn ellipsize(s: &str, width: usize) -> (r: String)
    ensures
        r@ == ellipsized(s@, width as nat),
{
    let cs = chars_of(s);
    if cs.len() <= width {
        return s.to_owned();
    }
    if width <= 1 {
        let mut one: Vec<char> = Vec::new();
        one.push('…');
        proof {
            assert(one@ =~= seq!['…']);
        }
        return string_of(one.as_slice());
    }
    let mut out: Vec<char> = Vec::new();
    let mut i: usize = 0;
    while i < width - 1
        invariant
            i <= width - 1 < cs.len(),
            cs@ == s@,
            out@ == s@.subrange(0, i as int),
        decreases width - 1 - i,
    {
        out.push(cs[i]);
        proof {
            assert(s@.subrange(0, i + 1) =~= s@.subrange(0, i as int).push(s@[i as int]));
        }
        i = i + 1;
    }
    out.push('…');
    string_of(out.as_slice())
}

/// The cells of a trim bar: the `width` columns between `lo` and `hi`
/// filled, the rest shaded.
pub open spec fn bar_cells(lo: int, hi: int, width: nat) -> Seq<char> {
    Seq::new(width, |i: int| if lo <= i < hi {
        '█'
    } else {
        '░'
    })
}

/// A trim region `inp..out` of a clip of `len` frames drawn `width`
/// columns wide, in brackets.
pub open spec fn trim_bar_text(inp: nat, out: nat, len: nat, width: nat) -> Seq<char> {
    if len == 0 || width == 0 {
        seq!['[', ']']
    } else {
        let lo = if inp * width / len < width {
            inp * width / len
        } else {
            width
        };
        let hi = if out * width / len < width {
            out * width / len
        } else {
            width
        };
        seq!['['] + bar_cells(lo as int, hi as int, width) + seq![']']
    }
}

/// Draw the trim region `inp..out` of a clip of `len` frames as a bar
/// `width` columns wide.
pub fn trim_bar(inp: usize, out: usize, len: usize, width: usize) -> (r: String)
    requires
        inp * width <= usize::MAX,
        out * width <= usize::MAX,
    ensures
        r@ == trim_bar_text(inp as nat, out as nat, len as nat, width as nat),
{
    if len == 0 || width == 0 {
        let mut e: Vec<char> = Vec::new();
        e.push('[');
        e.push(']');
        proof {
            assert(e@ =~= seq!['[', ']']);
        }
        return string_of(e.as_slice());
    }
    let a = inp * width / len;
    let b = out * width / len;
    let lo = if a < width {
        a
    } else {
        width
    };
    let hi = if b < width {
        b
    } else {
        width
    };
    let mut s: Vec<char> = Vec::new();
    s.push('[');
    let mut i: usize = 0;
    while i < width
        invariant
            i <= width,
            s@ == seq!['['] + bar_cells(lo as int, hi as int, i as nat),
        decreases width - i,
    {
        let c = if i >= lo && i < hi {
            '█'
        } else {
            '░'
        };
        s.push(c);
        proof {
            assert(bar_cells(lo as int, hi as int, (i + 1) as nat) =~= bar_cells(
                lo as int,
                hi as int,
                i as nat,
            ).push(c));
        }
        i = i + 1;
    }
    s.push(']');
    proof {
        let ghost t = trim_bar_text(inp as nat, out as nat, len as nat, width as nat);
        assert(s@ =~= t);
    }
    string_of(s.as_slice())
}

/// A screen rectangle in terminal cells.
#[derive(Debug, Clone, Copy, PartialEq, Eq, Structural)]
pub struct Rect {
    pub x: u16,
    pub y: u16,
    pub width: u16,
    pub height: u16,
}

/// A `w` by `h` rectangle (each clamped to `area`) centred in `area`.
pub fn centered(w: u16, h: u16, area: Rect) -> (r: Rect)
    requires
        area.x + area.width <= u16::MAX,
        area.y + area.height <= u16::MAX,
    ensures
        r.width == if w < area.width {
            w
        } else {
            area.width
        },
        r.height == if h < area.height {
            h
        } else {
            area.height
        },
        r.x == area.x + (area.width - r.width) / 2,
        r.y == area.y + (area.height - r.height) / 2,
{
    let w = if w < area.width {
        w
    } else {
        area.width
    };
    let h = if h < area.height {
        h
    } else {
        area.height
    };
    let x = area.x + (area.width - w) / 2;
    let y = area.y + (area.height - h) / 2;
    Rect { x, y, width: w, height: h }
}

} // verus!
