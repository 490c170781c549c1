//! A tempo-locked step grid: one lane per sampler pad, one column per step
//! (a subdivision of a bar). A hit on a step means "fire this pad there".
use vstd::prelude::*;

verus! {

/// Number of sampler pads, and so of lanes.
pub const PADS: usize = 16;

/// A step-grid arrangement: `PADS` lanes of `bars * steps_per_bar` steps.
#[derive(Debug, Clone)]
pub struct Timeline {
    bars: usize,
    steps_per_bar: usize,
    /// Lane-major hits: lane `l`, step `s` at `l * total + s`.
    hits: Vec<bool>,
}

impl Timeline {
    /// Number of bars.
    pub closed spec fn bar_count(&self) -> nat {
        self.bars as nat
    }

    /// Steps in each bar.
    pub closed spec fn bar_steps(&self) -> nat {
        self.steps_per_bar as nat
    }

    /// Steps across the whole arrangement.
    pub open spec fn step_count(&self) -> nat {
        self.bar_count() * self.bar_steps()
    }

    /// Whether pad `lane` fires on `step` (false outside the grid).
    pub closed spec fn hit(&self, lane: int, step: int) -> bool {
        if 0 <= lane < PADS && 0 <= step < self.step_count() {
            self.hits@[lane * self.step_count() + step]
        } else {
            false
        }
    }

    /// The grid's shape invariant.
    pub closed spec fn wf(&self) -> bool {
        &&& self.bars >= 1
        &&& self.steps_per_bar >= 1
        &&& PADS * (self.bars * self.steps_per_bar) <= usize::MAX
        &&& self.hits@.len() == PADS * (self.bars * self.steps_per_bar)
    }
}

proof fn lemma_cell(lane: int, step: int, total: int)
    requires
        0 <= lane < PADS,
        0 <= step < total,
    ensures
        0 <= lane * total + step < PADS * total,
        forall|l2: int, s2: int|
            0 <= l2 < PADS && 0 <= s2 < total && (l2 != lane || s2 != step) ==> #[trigger] (l2
                * total + s2) != lane * total + step,
{
    assert(0 <= lane * total + step < PADS * total) by (nonlinear_arith)
        requires
            0 <= lane < PADS,
            0 <= step < total,
    ;
    assert forall|l2: int, s2: int|
        0 <= l2 < PADS && 0 <= s2 < total && (l2 != lane || s2 != step) implies #[trigger] (l2
            * total + s2) != lane * total + step by {
        if l2 == lane {
        } else if l2 < lane {
            assert(l2 * total + s2 < lane * total) by (nonlinear_arith)
                requires
                    l2 < lane,
                    s2 < total,
                    0 <= s2,
            ;
        } else {
            assert(lane * total + step < l2 * total) by (nonlinear_arith)
                requires
                    lane < l2,
                    step < total,
                    0 <= step,
            ;
        }
    }
}

/// Whether `after` is `before` with the cell (`lane`, `step`) set to `on`
/// (nothing changes for a cell outside the grid), the shape unchanged.
pub open spec fn cell_set(before: Timeline, after: Timeline, lane: int, step: int, on: bool) -> bool {
    &&& after.wf()
    &&& after.bar_count() == before.bar_count()
    &&& after.bar_steps() == before.bar_steps()
    &&& forall|l: int, s: int| #[trigger]
        after.hit(l, s) == if l == lane && s == step && 0 <= l < PADS && 0 <= s
            < before.step_count() {
            on
        } else {
            before.hit(l, s)
        }
}

/// Toggling the same cell twice restores the grid.
pub proof fn lemma_toggle_twice(a: Timeline, b: Timeline, c: Timeline, lane: int, step: int)
    requires
        cell_set(a, b, lane, step, !a.hit(lane, step)),
        cell_set(b, c, lane, step, !b.hit(lane, step)),
    ensures
        forall|l: int, s: int| #[trigger] c.hit(l, s) == a.hit(l, s),
        c.bar_count() == a.bar_count(),
        c.bar_steps() == a.bar_steps(),
{
    assert forall|l: int, s: int| #[trigger] c.hit(l, s) == a.hit(l, s) by {
        assert(b.hit(lane, step) == (if 0 <= lane < PADS && 0 <= step < a.step_count() {
            !a.hit(lane, step)
        } else {
            a.hit(lane, step)
        }));
        if !(0 <= lane < PADS && 0 <= step < a.step_count()) {
            assert(!a.hit(lane, step));
        }
    }
}

/// The pads among the first `n` lanes that fire on `step`, in lane order.
pub open spec fn pads_firing(t: Timeline, step: int, n: int) -> Seq<usize>
    decreases n,
{
    if n <= 0 {
        Seq::empty()
    } else if t.hit(n - 1, step) {
        pads_firing(t, step, n - 1).push((n - 1) as usize)
    } else {
        pads_firing(t, step, n - 1)
    }
}

impl Timeline {
    /// A blank arrangement of `bars` bars at `steps_per_bar` steps each
    /// (each at least 1).
    pub fn new(bars: usize, steps_per_bar: usize) -> (t: Self)
        requires
            PADS * ((if bars > 0 {
                bars
            } else {
                1
            }) * (if steps_per_bar > 0 {
                steps_per_bar
            } else {
                1
            })) <= usize::MAX,
        ensures
            t.wf(),
            t.bar_count() == if bars > 0 {
                bars
            } else {
                1
            },
            t.bar_steps() == if steps_per_bar > 0 {
                steps_per_bar
            } else {
                1
            },
            forall|l: int, s: int| !t.hit(l, s),
    {
        let bars = if bars > 0 {
            bars
        } else {
            1
        };
        let steps_per_bar = if steps_per_bar > 0 {
            steps_per_bar
        } else {
            1
        };
        assert(bars * steps_per_bar <= PADS * (bars * steps_per_bar)) by (nonlinear_arith)
            requires
                bars >= 1,
                steps_per_bar >= 1,
        ;
        let total = bars * steps_per_bar;
        let cells = PADS * total;
        let mut hits: Vec<bool> = Vec::new();
        while hits.len() < cells
            invariant
                hits.len() <= cells,
                forall|i: int| 0 <= i < hits.len() ==> !hits@[i],
            decreases cells - hits.len(),
        {
            hits.push(false);
        }
        let t = Timeline { bars, steps_per_bar, hits };
        assert forall|l: int, s: int| !t.hit(l, s) by {
            if 0 <= l < PADS && 0 <= s < t.step_count() {
                lemma_cell(l, s, total as int);
            }
        }
        t
    }

    pub fn bars(&self) -> (r: usize)
        ensures
            r == self.bar_count(),
    {
        self.bars
    }

    pub fn steps_per_bar(&self) -> (r: usize)
        ensures
            r == self.bar_steps(),
    {
        self.steps_per_bar
    }

    /// Total number of steps across the whole arrangement.
    pub fn total_steps(&self) -> (r: usize)
        requires
            self.wf(),
        ensures
            r == self.step_count(),
    {
        assert(self.bars * self.steps_per_bar <= PADS * (self.bars * self.steps_per_bar))
            by (nonlinear_arith)
            requires
                self.bars >= 1,
                self.steps_per_bar >= 1,
        ;
        self.bars * self.steps_per_bar
    }

    /// Whether pad `lane` fires on `step` (false outside the grid).
    pub fn step(&self, lane: usize, step: usize) -> (r: bool)
        requires
            self.wf(),
        ensures
            r == self.hit(lane as int, step as int),
    {
        let total = self.total_steps();
        if lane < PADS && step < total {
            proof {
                lemma_cell(lane as int, step as int, total as int);
            }
            self.hits[lane * total + step]
        } else {
            false
        }
    }

    /// Set pad `lane`'s hit on `step`; a cell outside the grid is ignored.
    pub fn set_step(&mut self, lane: usize, step: usize, on: bool)
        requires
            old(self).wf(),
        ensures
            cell_set(*old(self), *final(self), lane as int, step as int, on),
    {
        let total = self.total_steps();
        if lane < PADS && step < total {
            proof {
                lemma_cell(lane as int, step as int, total as int);
            }
            self.hits.set(lane * total + step, on);
            proof {
                assert forall|l: int, s: int| #[trigger]
                    self.hit(l, s) == if l == lane && s == step {
                        on
                    } else {
                        old(self).hit(l, s)
                    } by {
                    if 0 <= l < PADS && 0 <= s < self.step_count() {
                        lemma_cell(l, s, total as int);
                        if l != lane || s != step {
                            assert(l * total + s != lane * total + step);
                        }
                    }
                }
            }
        }
    }

    /// Toggle pad `lane`'s hit on `step`; returns the cell's new state
    /// (`false`, changing nothing, outside the grid).
    pub fn toggle(&mut self, lane: usize, step: usize) -> (now: bool)
        requires
            old(self).wf(),
        ensures
            now == final(self).hit(lane as int, step as int),
            now == (0 <= lane < PADS && step < old(self).step_count() && !old(self).hit(
                lane as int,
                step as int,
            )),
            cell_set(*old(self), *final(self), lane as int, step as int, !old(self).hit(lane as int, step as int)),
    {
        let flipped = !self.step(lane, step);
        self.set_step(lane, step, flipped);
        if lane < PADS && step < self.total_steps() {
            flipped
        } else {
            false
        }
    }

    /// Which pads fire on `step`, in lane order.
    pub fn pads_at(&self, step: usize) -> (r: Vec<usize>)
        requires
            self.wf(),
        ensures
            r@ == pads_firing(*self, step as int, PADS as int),
    {
        let mut out: Vec<usize> = Vec::new();
        let mut l: usize = 0;
        while l < PADS
            invariant
                l <= PADS,
                self.wf(),
                out@ == pads_firing(*self, step as int, l as int),
            decreases PADS - l,
        {
            if self.step(l, step) {
                out.push(l);
            }
            l = l + 1;
        }
        out
    }

    /// Clear all hits.
    pub fn clear(&mut self)
        requires
            old(self).wf(),
        ensures
            final(self).wf(),
            final(self).bar_count() == old(self).bar_count(),
            final(self).bar_steps() == old(self).bar_steps(),
            forall|l: int, s: int| !final(self).hit(l, s),
    {
        let mut i: usize = 0;
        while i < self.hits.len()
            invariant
                i <= self.hits.len() == old(self).hits.len(),
                self.bars == old(self).bars,
                self.steps_per_bar == old(self).steps_per_bar,
                forall|j: int| 0 <= j < i ==> !self.hits@[j],
            decreases self.hits.len() - i,
        {
            self.hits.set(i, false);
            i = i + 1;
        }
        proof {
            let total = self.bars * self.steps_per_bar;
            assert forall|l: int, s: int| !self.hit(l, s) by {
                if 0 <= l < PADS && 0 <= s < self.step_count() {
                    lemma_cell(l, s, total as int);
                }
            }
        }
    }
}

impl Default for Timeline {
    /// Four bars of sixteenth-note steps: a comfortable default loop.
    fn default() -> (t: Self)
        ensures
            t.wf(),
            t.bar_count() == 4,
            t.bar_steps() == 16,
            forall|l: int, s: int| !t.hit(l, s),
    {
        Timeline::new(4, 16)
    }
}

/// The pads that fire on `step` are exactly the lanes with a hit at that
/// very step, each once, in lane order: the lane numbers below `n` (up to
/// every pad) filtered by "has a hit on `step`".
pub proof fn lemma_pads_firing_are_the_hits(t: Timeline, step: int, n: int)
    requires
        0 <= n <= PADS,
    ensures
        pads_firing(t, step, n) == Seq::new(n as nat, |l: int| l as usize).filter(
            |l: usize| t.hit(l as int, step),
        ),
    decreases n,
{
    reveal_with_fuel(Seq::filter, 1);
    if n > 0 {
        lemma_pads_firing_are_the_hits(t, step, n - 1);
        assert(Seq::new(n as nat, |l: int| l as usize).drop_last() =~= Seq::new(
            (n - 1) as nat,
            |l: int| l as usize,
        ));
        let all = Seq::new(n as nat, |l: int| l as usize);
        let p = |l: usize| t.hit(l as int, step);
        assert(all.last() == (n - 1) as usize);
        assert(all.filter(p) == if p(all.last()) {
            all.drop_last().filter(p).push(all.last())
        } else {
            all.drop_last().filter(p)
        });
    }
}

} // verus!
