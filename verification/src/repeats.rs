//! Why a repeated track brings different material: when a track appears
//! again in the sequence, its section's start bar walks away from the
//! starts it already used, and the walk visits enough distinct bars that a
//! few repeats always find a fresh one.
use vstd::prelude::*;
use vstd::set_lib::lemma_len_subset;
use vstd::arithmetic::div_mod::{lemma_add_mod_noop, lemma_fundamental_div_mod, lemma_small_mod};
use crate::automix::{
    lemma_plan_shape, length_pick, next_section, planned, splitmix_next, walk_start,
};

verus! {

broadcast use {vstd::set::axiom_set_empty_len, vstd::set::axiom_set_insert_len};

/// The bar a start walk visits after `j` steps of `stride`, wrapping
/// within `0..=span`.
pub open spec fn visited(start: u64, stride: u64, span: u64, j: nat) -> int {
    (start + j * stride) % (span + 1)
}

/// The bars the first `n` steps of a walk visit.
pub open spec fn visited_set(start: u64, stride: u64, span: u64, n: nat) -> Set<int>
    decreases n,
{
    if n == 0 {
        Set::empty()
    } else {
        visited_set(start, stride, span, (n - 1) as nat).insert(visited(start, stride, span, (n - 1) as nat))
    }
}

/// How many of the first `k` used starts belong to `track`.
pub open spec fn uses_of(used: Seq<(usize, u64)>, track: usize, k: int) -> nat
    decreases k,
{
    if k <= 0 {
        0
    } else {
        uses_of(used, track, k - 1) + if used[k - 1].0 == track {
            1nat
        } else {
            0nat
        }
    }
}

/// The start bars among the first `k` used starts that belong to `track`.
pub open spec fn starts_of(used: Seq<(usize, u64)>, track: usize, k: int) -> Set<int>
    decreases k,
{
    if k <= 0 {
        Set::empty()
    } else if used[k - 1].0 == track {
        starts_of(used, track, k - 1).insert(used[k - 1].1 as int)
    } else {
        starts_of(used, track, k - 1)
    }
}

/// How many times `track` occurs among the first `k` order entries.
pub open spec fn appearances(order: Seq<usize>, track: usize, k: int) -> nat
    decreases k,
{
    if k <= 0 {
        0
    } else {
        appearances(order, track, k - 1) + if order[k - 1] == track {
            1nat
        } else {
            0nat
        }
    }
}

proof fn lemma_starts_of(used: Seq<(usize, u64)>, track: usize, k: int)
    requires
        0 <= k <= used.len(),
    ensures
        starts_of(used, track, k).finite(),
        starts_of(used, track, k).len() <= uses_of(used, track, k),
        forall|x: int|
            starts_of(used, track, k).contains(x) ==> exists|j: int|
                0 <= j < k && #[trigger] used[j] == (track, x as u64) && 0 <= x,
    decreases k,
{
    if k > 0 {
        lemma_starts_of(used, track, k - 1);
        let prev = starts_of(used, track, k - 1);
        assert forall|x: int| starts_of(used, track, k).contains(x) implies exists|j: int|
            0 <= j < k && #[trigger] used[j] == (track, x as u64) && 0 <= x by {
            if prev.contains(x) {
                let j = choose|j: int| 0 <= j < k - 1 && #[trigger] used[j] == (track, x as u64) && 0 <= x;
                assert(used[j] == (track, x as u64));
            } else {
                assert(used[k - 1].0 == track && x == used[k - 1].1 as int);
                assert(used[k - 1] == (track, x as u64));
            }
        }
    }
}

/// Distinct steps of a walk that stay within `span` land on distinct bars.
proof fn lemma_visits_distinct(start: u64, stride: u64, span: u64, i: nat, j: nat)
    requires
        i < j,
        j * stride <= span,
        stride >= 1,
    ensures
        visited(start, stride, span, i) != visited(start, stride, span, j),
{
    let m = span + 1;
    let a = start + i * stride;
    let b = start + j * stride;
    assert(j * stride - i * stride == (j - i) * stride) by (nonlinear_arith);
    assert((j - i) * stride >= stride) by (nonlinear_arith)
        requires
            j - i >= 1,
            stride >= 1,
    ;
    lemma_fundamental_div_mod(a, m as int);
    lemma_fundamental_div_mod(b, m as int);
    if a % (m as int) == b % (m as int) {
        let d = b - a;
        assert(d == (m as int) * (b / (m as int)) - (m as int) * (a / (m as int)));
        assert(d == (m as int) * (b / (m as int) - a / (m as int))) by (nonlinear_arith)
            requires
                d == (m as int) * (b / (m as int)) - (m as int) * (a / (m as int)),
        ;
        assert(0 < d < m);
        assert(false) by (nonlinear_arith)
            requires
                d == (m as int) * (b / (m as int) - a / (m as int)),
                0 < d < m,
                m > 0,
        ;
    }
}

proof fn lemma_visited_set(start: u64, stride: u64, span: u64, n: nat)
    requires
        stride >= 1,
        n >= 1 ==> (n - 1) * stride <= span,
    ensures
        visited_set(start, stride, span, n).finite(),
        visited_set(start, stride, span, n).len() == n,
        forall|j: nat| j < n ==> visited_set(start, stride, span, n).contains(#[trigger] visited(start, stride, span, j)),
        forall|x: int| visited_set(start, stride, span, n).contains(x) ==> exists|j: nat| j < n && x == #[trigger] visited(start, stride, span, j),
    decreases n,
{
    if n > 0 {
        let k = (n - 1) as nat;
        if k >= 1 {
            assert((k - 1) * stride <= k * stride) by (nonlinear_arith)
                requires
                    k >= 1,
            ;
        }
        lemma_visited_set(start, stride, span, k);
        let prev = visited_set(start, stride, span, k);
        let v = visited(start, stride, span, k);
        if prev.contains(v) {
            let j = choose|j: nat| j < k && v == #[trigger] visited(start, stride, span, j);
            lemma_visits_distinct(start, stride, span, j, k);
        }
        assert forall|x: int| visited_set(start, stride, span, n).contains(x) implies exists|j: nat| j < n && x == #[trigger] visited(start, stride, span, j) by {
            if x == v {
                assert(x == visited(start, stride, span, k));
            } else {
                assert(prev.contains(x));
            }
        }
    }
}

/// A start walk either ends on a fresh bar, or every bar it visits from
/// step `j` on (while the steps stay within `span`) is taken.
proof fn lemma_walk_outcome(used: Seq<(usize, u64)>, track: usize, start0: u64, stride: u64, span: u64, j: nat)
    requires
        1 <= stride <= span,
        span < u64::MAX,
        start0 <= span,
    ensures
        ({
            let w = walk_start(used, track, visited(start0, stride, span, j) as u64, stride, span, (j * stride) as nat);
            ||| !used.contains((track, w))
            ||| forall|i: nat| j <= i && i * stride <= span ==> used.contains((track, #[trigger] visited(start0, stride, span, i) as u64))
        }),
    decreases (if j * stride <= span {
        span + 1 - j * stride
    } else {
        0
    }),
{
    let m = span + 1;
    let s = visited(start0, stride, span, j);
    assert(0 <= s < m) by {
        lemma_fundamental_div_mod(start0 + j * stride, m as int);
    }
    let tries = (j * stride) as nat;
    if tries > span {
        assert forall|i: nat| j <= i && i * stride <= span implies used.contains((track, #[trigger] visited(start0, stride, span, i) as u64)) by {
            assert(i * stride >= j * stride) by (nonlinear_arith)
                requires
                    i >= j,
            ;
        }
    } else if used.contains((track, s as u64)) {
        let next = ((s as u64 + stride) % (span as int + 1)) as u64;
        assert(next == visited(start0, stride, span, j + 1)) by {
            assert((j + 1) * stride == j * stride + stride) by (nonlinear_arith);
            lemma_small_mod(stride as nat, m as nat);
            lemma_add_mod_noop(start0 + j * stride, stride as int, m as int);
        }
        assert((j + 1) * stride == tries + stride) by (nonlinear_arith)
            requires
                tries == j * stride,
        ;
        lemma_walk_outcome(used, track, start0, stride, span, j + 1);
        let w = walk_start(used, track, s as u64, stride, span, tries);
        assert(w == walk_start(used, track, next, stride, span, (tries + stride) as nat));
        if used.contains((track, w)) {
            assert forall|i: nat| j <= i && i * stride <= span implies used.contains((track, #[trigger] visited(start0, stride, span, i) as u64)) by {
                if i > j {
                    assert(j + 1 <= i);
                }
            }
        }
    }
}

/// A start walk that visits more distinct bars than the track has used
/// starts ends on a fresh bar.
proof fn lemma_walk_fresh(used: Seq<(usize, u64)>, track: usize, start0: u64, stride: u64, span: u64, n: nat)
    requires
        1 <= stride <= span,
        span < u64::MAX,
        start0 <= span,
        n >= 1,
        (n - 1) * stride <= span,
        uses_of(used, track, used.len() as int) < n,
    ensures
        !used.contains((track, walk_start(used, track, start0, stride, span, 0))),
{
    assert(visited(start0, stride, span, 0) == start0 as int) by {
        lemma_small_mod(start0 as nat, (span + 1) as nat);
    }
    lemma_walk_outcome(used, track, start0, stride, span, 0);
    let w = walk_start(used, track, start0, stride, span, 0);
    if used.contains((track, w)) {
        let vs = visited_set(start0, stride, span, n);
        let us = starts_of(used, track, used.len() as int);
        lemma_visited_set(start0, stride, span, n);
        lemma_starts_of(used, track, used.len() as int);
        assert forall|x: int| vs.contains(x) implies us.contains(x) by {
            let j = choose|j: nat| j < n && x == #[trigger] visited(start0, stride, span, j);
            assert(j * stride <= span) by (nonlinear_arith)
                requires
                    j <= n - 1,
                    (n - 1) * stride <= span,
            ;
            assert(used.contains((track, visited(start0, stride, span, j) as u64)));
            lemma_used_in_starts(used, track, used.len() as int, x);
        }
        lemma_len_subset(vs, us);
    }
}

proof fn lemma_used_in_starts(used: Seq<(usize, u64)>, track: usize, k: int, x: int)
    requires
        0 <= k <= used.len(),
        0 <= x <= u64::MAX,
        exists|j: int| 0 <= j < k && used[j] == (track, x as u64),
    ensures
        starts_of(used, track, k).contains(x),
    decreases k,
{
    if used[k - 1] == (track, x as u64) {
    } else {
        let j = choose|j: int| 0 <= j < k && used[j] == (track, x as u64);
        assert(j < k - 1);
        lemma_used_in_starts(used, track, k - 1, x);
    }
}

/// The planner's used starts are the (track, start bar) of each section so
/// far, and its sections only ever grow at the end.
proof fn lemma_used_record(grids: Seq<Option<u64>>, order: Seq<usize>, seed: u64, k: int)
    requires
        0 <= k <= order.len(),
        forall|q: int| 0 <= q < order.len() ==> (#[trigger] order[q]) < grids.len(),
        forall|t: int| 0 <= t < grids.len() ==> ((#[trigger] grids[t]) matches Some(b) && b >= 1),
    ensures
        ({
            let st = planned(grids, order, seed, k);
            &&& st.1.len() == k
            &&& st.3.len() == k
            &&& forall|j: int| 0 <= j < k ==> #[trigger] st.1[j] == (order[j], st.3[j].start_bar)
        }),
    decreases k,
{
    if k > 0 {
        lemma_used_record(grids, order, seed, k - 1);
        reveal(next_section);
        let prev = planned(grids, order, seed, k - 1);
        let st = planned(grids, order, seed, k);
        assert forall|j: int| 0 <= j < k implies #[trigger] st.1[j] == (order[j], st.3[j].start_bar) by {
            if j < k - 1 {
                assert(st.1[j] == prev.1[j]);
                assert(st.3[j] == prev.3[j]);
            }
        }
    }
}

proof fn lemma_planned_prefix(grids: Seq<Option<u64>>, order: Seq<usize>, seed: u64, i: int, k: int)
    requires
        0 <= i <= k <= order.len(),
        forall|q: int| 0 <= q < order.len() ==> (#[trigger] order[q]) < grids.len(),
        forall|t: int| 0 <= t < grids.len() ==> ((#[trigger] grids[t]) matches Some(b) && b >= 1),
    ensures
        forall|j: int| 0 <= j < i ==> #[trigger] planned(grids, order, seed, k).3[j] == planned(grids, order, seed, i).3[j],
    decreases k,
{
    if k > i {
        lemma_planned_prefix(grids, order, seed, i, k - 1);
        lemma_used_record(grids, order, seed, k - 1);
        reveal(next_section);
        assert forall|j: int| 0 <= j < i implies #[trigger] planned(grids, order, seed, k).3[j] == planned(grids, order, seed, i).3[j] by {
            assert(planned(grids, order, seed, k).3[j] == planned(grids, order, seed, k - 1).3[j]);
        }
    }
}

proof fn lemma_uses_are_appearances(used: Seq<(usize, u64)>, order: Seq<usize>, track: usize, k: int)
    requires
        0 <= k <= used.len(),
        k <= order.len(),
        forall|j: int| 0 <= j < k ==> (#[trigger] used[j]).0 == order[j],
    ensures
        uses_of(used, track, k) == appearances(order, track, k),
    decreases k,
{
    if k > 0 {
        lemma_uses_are_appearances(used, order, track, k - 1);
    }
}

/// A track's repeat starts on a bar that none of its earlier appearances
/// started on, as long as it has appeared at most three times before and
/// its section leaves at least that many bars of the track unused.
pub proof fn lemma_repeats_take_fresh_material(grids: Seq<Option<u64>>, order: Seq<usize>, seed: u64, k: int, i: int)
    requires
        0 <= i < k <= order.len(),
        order.len() <= usize::MAX,
        order.len() * 16 <= u64::MAX,
        forall|q: int| 0 <= q < order.len() ==> (#[trigger] order[q]) < grids.len(),
        forall|t: int| 0 <= t < grids.len() ==> ((#[trigger] grids[t]) matches Some(b) && 1 <= b < u64::MAX),
        appearances(order, order[i], i) <= 3,
        appearances(order, order[i], i) + planned(grids, order, seed, k).3[i].bars <= grids[order[i] as int]->0,
    ensures
        forall|j: int|
            0 <= j < i && order[j] == order[i] ==> (#[trigger] planned(grids, order, seed, k).3[j]).start_bar
                != planned(grids, order, seed, k).3[i].start_bar,
{
    let t = order[i];
    let avail = grids[t as int]->0;
    let prev = planned(grids, order, seed, i);
    let cur = planned(grids, order, seed, i + 1);
    lemma_planned_prefix(grids, order, seed, i + 1, k);
    lemma_used_record(grids, order, seed, i);
    lemma_used_record(grids, order, seed, i + 1);
    lemma_planned_prefix(grids, order, seed, i, i + 1);
    lemma_uses_are_appearances(prev.1, order, t, i);
    let n_prior = appearances(order, t, i);
    reveal(next_section);
    assert(cur == next_section(prev, i, t, avail));
    let (s1, r1) = splitmix_next(prev.0);
    let bars = if length_pick(r1) < avail {
        length_pick(r1)
    } else {
        avail
    };
    let span = (avail - bars) as u64;
    let (s2, start0) = if span == 0 {
        (s1, 0u64)
    } else {
        let (s, r) = splitmix_next(s1);
        (s, (r as int % (span as int + 1)) as u64)
    };
    let stride = if span / 3 >= 1 {
        (span / 3) as u64
    } else {
        1u64
    };
    let sec = cur.3[i];
    assert(sec.bars == bars);
    assert(planned(grids, order, seed, k).3[i] == sec);
    if n_prior > 0 {
        assert(span > 0);
        let n: nat = if span + 1 < 4 {
            (span + 1) as nat
        } else {
            4
        };
        assert((n - 1) * stride <= span) by (nonlinear_arith)
            requires
                n - 1 <= span,
                n - 1 <= 3,
                stride == (if span / 3 >= 1 {
                    span / 3
                } else {
                    1
                }),
        ;
        assert(start0 <= span);
        lemma_walk_fresh(prev.1, t, start0, stride, span, n);
        let start = walk_start(prev.1, t, start0, stride, span, 0);
        assert(sec.start_bar == start);
        assert forall|j: int|
            0 <= j < i && order[j] == order[i] implies (#[trigger] planned(grids, order, seed, k).3[j]).start_bar
                != planned(grids, order, seed, k).3[i].start_bar by {
            assert(planned(grids, order, seed, k).3[j] == prev.3[j]);
            assert(prev.1[j] == (t, prev.3[j].start_bar));
            if prev.3[j].start_bar == start {
                assert(prev.1.contains((t, start)));
            }
        }
    } else {
        assert forall|j: int|
            0 <= j < i && order[j] == order[i] implies (#[trigger] planned(grids, order, seed, k).3[j]).start_bar
                != planned(grids, order, seed, k).3[i].start_bar by {
            lemma_appearance_counted(order, t, i, j);
        }
    }
}

proof fn lemma_appearance_counted(order: Seq<usize>, track: usize, k: int, j: int)
    requires
        0 <= j < k <= order.len(),
        order[j] == track,
    ensures
        appearances(order, track, k) >= 1,
    decreases k,
{
    if j < k - 1 {
        lemma_appearance_counted(order, track, k - 1, j);
    }
}

/// A track that holds at least 16 bars more than it has appeared before
/// (up to three times) brings a start bar none of those appearances used:
/// a section is at most 16 bars, so the walk always has room.
pub proof fn lemma_long_tracks_repeat_freshly(grids: Seq<Option<u64>>, order: Seq<usize>, seed: u64, k: int, i: int)
    requires
        0 <= i < k <= order.len(),
        order.len() <= usize::MAX,
        order.len() * 16 <= u64::MAX,
        forall|q: int| 0 <= q < order.len() ==> (#[trigger] order[q]) < grids.len(),
        forall|t: int| 0 <= t < grids.len() ==> ((#[trigger] grids[t]) matches Some(b) && 1 <= b < u64::MAX),
        appearances(order, order[i], i) <= 3,
        appearances(order, order[i], i) + 16 <= grids[order[i] as int]->0,
    ensures
        forall|j: int|
            0 <= j < i && order[j] == order[i] ==> (#[trigger] planned(grids, order, seed, k).3[j]).start_bar
                != planned(grids, order, seed, k).3[i].start_bar,
{
    lemma_plan_shape(grids, order, seed, k);
    assert(planned(grids, order, seed, k).3[i].bars <= 16);
    lemma_repeats_take_fresh_material(grids, order, seed, k, i);
}

} // verus!
