//! The project the user curates: the sequence and the beat cache, kept
//! pointing at the right files as the library changes, plus the tap
//! editing of one track's marks and the render-readiness report.
use vstd::prelude::*;
use crate::beats::{ascending, sort_frames, sort_u64, lemma_sort_u64, BeatCache};
use crate::paths::{canon, file_name, file_name_of, join, joined, parent, parent_of, push_path, pushed};
use crate::sequence::{moved, retargeted, without, Sequence};
use crate::text::{chars_of, decimal, push_decimal, string_of, trim, trim_bounds, copy_range};

verus! {

/// How many of the entries `es` have fewer than two marks in `m`.
pub open spec fn untapped_in(es: Seq<Seq<char>>, m: Map<Seq<char>, (u32, Seq<u64>)>) -> nat
    decreases es.len(),
{
    if es.len() == 0 {
        0
    } else {
        untapped_in(es.drop_last(), m) + if m.contains_key(canon(es.last())) && m[canon(
            es.last(),
        )].1.len() >= 2 {
            0nat
        } else {
            1nat
        }
    }
}

/// The readiness line for `n` untapped entries.
pub open spec fn readiness_text(n: nat) -> Seq<char> {
    if n == 0 {
        "ready to render"@
    } else {
        decimal(n) + " entr"@ + (if n == 1 {
            "y"@
        } else {
            "ies"@
        }) + " need beats"@
    }
}

/// The sequence and the beat cache.
pub struct Project {
    sequence: Sequence,
    beats: BeatCache,
}

impl Project {
    pub closed spec fn entries(&self) -> Seq<Seq<char>> {
        self.sequence@
    }

    /// Each track's marks, under the track's canonical spelling.
    pub closed spec fn marks(&self) -> Map<Seq<char>, (u32, Seq<u64>)> {
        self.beats@
    }

    /// The spelling each track's marks are stored under.
    pub closed spec fn spellings(&self) -> Map<Seq<char>, Seq<char>> {
        self.beats.paths()
    }

    /// The project is well formed: its cache is.
    pub closed spec fn wf(&self) -> bool {
        self.beats.wf()
    }

    pub fn new(sequence: Sequence, beats: BeatCache) -> (p: Project)
        requires
            beats.wf(),
        ensures
            p.wf(),
            p.entries() == sequence@,
            p.marks() == beats@,
            p.spellings() == beats.paths(),
    {
        Project { sequence, beats }
    }

    pub fn sequence(&self) -> (r: &Sequence)
        ensures
            r@ == self.entries(),
    {
        &self.sequence
    }

    pub fn beats(&self) -> (r: &BeatCache)
        requires
            self.wf(),
        ensures
            r.wf(),
            r@ == self.marks(),
            r.paths() == self.spellings(),
    {
        &self.beats
    }

    /// A track was renamed (or moved) from `old_path` to `new_path`: the
    /// sequence entries and the marks follow it.
    pub fn track_renamed(&mut self, old_path: &str, new_path: &str)
        requires
            old(self).wf(),
        ensures
            final(self).wf(),
            final(self).entries() == retargeted(old(self).entries(), old_path@, new_path@),
            final(self).marks() == crate::beats::retargeted_marks(
                old(self).marks(),
                canon(old_path@),
                canon(new_path@),
            ),
            final(self).spellings() == crate::beats::retargeted_paths(
                old(self).spellings(),
                canon(old_path@),
                canon(new_path@),
                new_path@,
            ),
    {
        self.sequence.retarget(old_path, new_path);
        self.beats.retarget(old_path, new_path);
    }

    /// A track was deleted: it can't play, so its entries and marks go.
    pub fn track_deleted(&mut self, track: &str)
        requires
            old(self).wf(),
        ensures
            final(self).wf(),
            final(self).entries() == without(old(self).entries(), track@),
            final(self).marks() == old(self).marks().remove(canon(track@)),
            final(self).spellings() == old(self).spellings().remove(canon(track@)),
    {
        self.sequence.purge(track);
        self.beats.purge(track);
    }

    /// A track was moved into `folder`: it keeps its name there.
    pub fn track_moved(&mut self, track: &str, folder: &str)
        requires
            old(self).wf(),
        ensures
            final(self).wf(),
            match file_name_of(track@) {
                Some(n) => {
                    &&& final(self).entries() == retargeted(
                        old(self).entries(),
                        track@,
                        joined(folder@, n),
                    )
                    &&& final(self).marks() == crate::beats::retargeted_marks(
                        old(self).marks(),
                        canon(track@),
                        canon(joined(folder@, n)),
                    )
                    &&& final(self).spellings() == crate::beats::retargeted_paths(
                        old(self).spellings(),
                        canon(track@),
                        canon(joined(folder@, n)),
                        joined(folder@, n),
                    )
                },
                None => final(self).entries() == old(self).entries() && final(self).marks()
                    == old(self).marks() && final(self).spellings() == old(self).spellings(),
            },
    {
        match file_name(track) {
            Some(n) => {
                let dest = join(folder, n.as_str());
                self.track_renamed(track, dest.as_str());
            },
            None => {},
        }
    }

    /// Put `track` in the sequence to play at position `idx` (clamped to
    /// the end).
    pub fn insert(&mut self, idx: usize, track: String)
        requires
            old(self).wf(),
        ensures
            final(self).wf(),
            final(self).marks() == old(self).marks(),
            final(self).spellings() == old(self).spellings(),
            final(self).entries() == old(self).entries().insert(
                if idx < old(self).entries().len() {
                    idx as int
                } else {
                    old(self).entries().len() as int
                },
                track@,
            ),
    {
        self.sequence.insert(idx, track);
    }

    /// Take the entry at `idx` out of the sequence (out of range: nothing).
    pub fn remove(&mut self, idx: usize)
        requires
            old(self).wf(),
        ensures
            final(self).wf(),
            final(self).marks() == old(self).marks(),
            final(self).spellings() == old(self).spellings(),
            final(self).entries() == if idx < old(self).entries().len() {
                old(self).entries().remove(idx as int)
            } else {
                old(self).entries()
            },
    {
        self.sequence.remove(idx);
    }

    /// Move the entry at `from` to `to` (out of range: nothing).
    pub fn move_entry(&mut self, from: usize, to: usize)
        requires
            old(self).wf(),
        ensures
            final(self).wf(),
            final(self).marks() == old(self).marks(),
            final(self).spellings() == old(self).spellings(),
            final(self).entries() == if from < old(self).entries().len() && to < old(
                self,
            ).entries().len() {
                moved(old(self).entries(), from as int, to as int)
            } else {
                old(self).entries()
            },
    {
        self.sequence.move_entry(from, to);
    }

    /// Keep the marks tapped for `track` at `sample_rate` (none: un-tap it).
    pub fn save_taps(&mut self, track: &str, sample_rate: u32, taps: Vec<u64>)
        requires
            old(self).wf(),
        ensures
            final(self).wf(),
            final(self).entries() == old(self).entries(),
            final(self).marks() == if taps@.len() == 0 {
                old(self).marks().remove(canon(track@))
            } else {
                old(self).marks().insert(canon(track@), (sample_rate, sort_u64(taps@)))
            },
            final(self).spellings() == if taps@.len() == 0 {
                old(self).spellings().remove(canon(track@))
            } else if old(self).spellings().contains_key(canon(track@)) {
                old(self).spellings()
            } else {
                old(self).spellings().insert(canon(track@), track@)
            },
    {
        self.beats.set(track, sample_rate, taps);
    }

    /// How many sequence entries still need beats (fewer than two marks).
    pub fn untapped(&self) -> (r: usize)
        requires
            self.wf(),
        ensures
            r == untapped_in(self.entries(), self.marks()),
    {
        let es = self.sequence.entries();
        let mut n: usize = 0;
        let mut i: usize = 0;
        while i < es.len()
            invariant
                self.wf(),
                es@.map_values(|e: String| e@) == self.entries(),
                i <= es.len(),
                n == untapped_in(self.entries().subrange(0, i as int), self.marks()),
                n <= i,
            decreases es.len() - i,
        {
            proof {
                let p = self.entries().subrange(0, i + 1);
                assert(p.drop_last() =~= self.entries().subrange(0, i as int));
                assert(p.last() == es@[i as int]@);
            }
            if !self.beats.has_beats(es[i].as_str()) {
                n = n + 1;
            }
            i = i + 1;
        }
        proof {
            assert(self.entries().subrange(0, es.len() as int) =~= self.entries());
        }
        n
    }

    /// The render-readiness report: `None` for an empty sequence, else
    /// "ready to render" or how many entries still need beats.
    pub fn readiness(&self) -> (r: Option<String>)
        requires
            self.wf(),
        ensures
            match r {
                None => self.entries().len() == 0,
                Some(s) => self.entries().len() > 0 && s@ == readiness_text(
                    untapped_in(self.entries(), self.marks()),
                ),
            },
    {
        if self.sequence.is_empty() {
            return None;
        }
        let n = self.untapped();
        if n == 0 {
            return Some("ready to render".to_owned());
        }
        let mut out: Vec<char> = Vec::new();
        push_decimal(&mut out, n as u64);
        let mut mid = chars_of(" entr");
        out.append(&mut mid);
        let mut tail = if n == 1 {
            chars_of("y")
        } else {
            chars_of("ies")
        };
        out.append(&mut tail);
        let mut end = chars_of(" need beats");
        out.append(&mut end);
        Some(string_of(out.as_slice()))
    }
}

/// A project is ready to render exactly when every entry has beats.
pub proof fn lemma_ready_iff_all_tapped(es: Seq<Seq<char>>, m: Map<Seq<char>, (u32, Seq<u64>)>)
    ensures
        untapped_in(es, m) == 0 <==> forall|i: int|
            0 <= i < es.len() ==> m.contains_key(canon(#[trigger] es[i])) && m[canon(es[i])].1.len() >= 2,
    decreases es.len(),
{
    if es.len() > 0 {
        let init = es.drop_last();
        lemma_ready_iff_all_tapped(init, m);
        if untapped_in(es, m) == 0 {
            assert forall|i: int| 0 <= i < es.len() implies m.contains_key(canon(#[trigger] es[i]))
                && m[canon(es[i])].1.len() >= 2 by {
                if i < es.len() - 1 {
                    assert(es[i] == init[i]);
                }
            }
        } else if forall|i: int|
            0 <= i < es.len() ==> m.contains_key(canon(#[trigger] es[i])) && m[canon(es[i])].1.len() >= 2 {
            assert forall|i: int| 0 <= i < init.len() implies m.contains_key(canon(#[trigger] init[i]))
                && m[canon(init[i])].1.len() >= 2 by {
                assert(init[i] == es[i]);
            }
            assert(es[es.len() - 1] == es.last());
        }
    }
}

/// Where a rename to `name` puts `track`: the name, trimmed, in the
/// track's directory (an absolute name stands for itself, as `Path::join`
/// has it); `None` when the trimmed name is empty.
pub open spec fn rename_dest(track: Seq<char>, name: Seq<char>) -> Option<Seq<char>> {
    if trim(name).len() == 0 {
        None
    } else {
        Some(
            pushed(
                match parent_of(track) {
                    Some(d) => d,
                    None => Seq::empty(),
                },
                trim(name),
            ),
        )
    }
}

/// The path a rename of `track` to `name` gives (see [`rename_dest`]).
pub fn rename_target(track: &str, name: &str) -> (r: Option<String>)
    ensures
        match rename_dest(track@, name@) {
            Some(d) => r matches Some(s) && s@ == d,
            None => r is None,
        },
{
    let cs = chars_of(name);
    let (a, b) = trim_bounds(&cs, 0, cs.len());
    proof {
        assert(cs@.subrange(0, cs@.len() as int) =~= cs@);
    }
    if a == b {
        return None;
    }
    let t = string_of(copy_range(&cs, a, b).as_slice());
    let dir = match parent(track) {
        Some(d) => d,
        None => String::new(),
    };
    Some(push_path(dir.as_str(), t.as_str()))
}

/// Whether marks `a` and `b` are within `tol` frames of each other.
pub open spec fn near(a: u64, b: u64, tol: int) -> bool {
    a - b <= tol && b - a <= tol
}

/// The first of the marks `s[..k]` near `f`.
pub open spec fn first_near(s: Seq<u64>, f: u64, tol: int, k: int) -> Option<int>
    decreases k,
{
    if k <= 0 {
        None
    } else {
        match first_near(s, f, tol, k - 1) {
            Some(i) => Some(i),
            None => if near(s[k - 1], f, tol) {
                Some(k - 1)
            } else {
                None
            },
        }
    }
}

/// The toggle window: 30 ms of frames at `rate`.
pub open spec fn toggle_window(rate: u32) -> int {
    (rate * 30) / 1000
}

/// The tap duplicate guard: 10 ms of frames at `rate`.
pub open spec fn tap_window(rate: u32) -> int {
    (rate * 10) / 1000
}

fn first_near_index(s: &Vec<u64>, f: u64, tol: u64) -> (r: Option<usize>)
    ensures
        match r {
            Some(i) => i < s.len() && first_near(s@, f, tol as int, s.len() as int) == Some(i as int),
            None => first_near(s@, f, tol as int, s.len() as int) is None,
        },
{
    let mut i: usize = 0;
    while i < s.len()
        invariant
            i <= s.len(),
            first_near(s@, f, tol as int, i as int) is None,
        decreases s.len() - i,
    {
        let d = if s[i] >= f {
            s[i] - f
        } else {
            f - s[i]
        };
        if d <= tol {
            proof {
                assert(near(s@[i as int], f, tol as int));
                lemma_first_near_stays(s@, f, tol as int, i as int + 1, s.len() as int);
            }
            return Some(i);
        }
        i = i + 1;
    }
    None
}

proof fn lemma_first_near_stays(s: Seq<u64>, f: u64, tol: int, i: int, k: int)
    requires
        1 <= i <= k,
        first_near(s, f, tol, i) is Some,
    ensures
        first_near(s, f, tol, k) == first_near(s, f, tol, i),
    decreases k,
{
    if k > i {
        lemma_first_near_stays(s, f, tol, i, k - 1);
    }
}

/// Toggle a mark at `frame` on a clip played at `rate`: remove the first
/// mark within 30 ms of it, or else add it (keeping the marks sorted).
pub fn toggle_mark(marks: &mut Vec<u64>, frame: u64, rate: u32)
    ensures
        final(marks)@ == match first_near(old(marks)@, frame, toggle_window(rate), old(marks)@.len() as int) {
            Some(i) => old(marks)@.remove(i),
            None => sort_u64(old(marks)@.push(frame)),
        },
{
    let tol = (rate as u64 * 30) / 1000;
    match first_near_index(marks, frame, tol) {
        Some(i) => {
            marks.remove(i);
        },
        None => {
            marks.push(frame);
            sort_frames(marks);
        },
    }
}

/// Tap a mark at `frame` on a clip played at `rate`: add it (keeping the
/// marks sorted) unless a mark is already within 10 ms of it.
pub fn tap_mark(marks: &mut Vec<u64>, frame: u64, rate: u32)
    ensures
        final(marks)@ == match first_near(old(marks)@, frame, tap_window(rate), old(marks)@.len() as int) {
            Some(i) => old(marks)@,
            None => sort_u64(old(marks)@.push(frame)),
        },
{
    let dup = (rate as u64 * 10) / 1000;
    match first_near_index(marks, frame, dup) {
        Some(_) => {},
        None => {
            marks.push(frame);
            sort_frames(marks);
        },
    }
}

/// Editing marks keeps sorted marks sorted.
pub proof fn lemma_marks_stay_sorted(s: Seq<u64>, frame: u64, tol: int)
    requires
        ascending(s),
    ensures
        match first_near(s, frame, tol, s.len() as int) {
            Some(i) => ascending(s.remove(i)),
            None => ascending(sort_u64(s.push(frame))),
        },
{
    match first_near(s, frame, tol, s.len() as int) {
        Some(i) => {
            lemma_first_near_in_range(s, frame, tol, s.len() as int);
            let r = s.remove(i);
            assert forall|a: int, b: int| 0 <= a <= b < r.len() implies r[a] <= r[b] by {
                let a2 = if a < i {
                    a
                } else {
                    a + 1
                };
                let b2 = if b < i {
                    b
                } else {
                    b + 1
                };
                assert(r[a] == s[a2] && r[b] == s[b2]);
            }
        },
        None => {
            lemma_sort_u64(s.push(frame));
        },
    }
}

/// A mark added by a toggle is taken away by toggling the same frame
/// again: when no mark was near the frame, toggling it twice gives the
/// sorted marks back.
pub proof fn lemma_toggle_twice(s: Seq<u64>, frame: u64, rate: u32)
    requires
        ascending(s),
        first_near(s, frame, toggle_window(rate), s.len() as int) is None,
    ensures
        ({
            let t = sort_u64(s.push(frame));
            match first_near(t, frame, toggle_window(rate), t.len() as int) {
                Some(i) => t.remove(i) == s,
                None => false,
            }
        }),
{
    let tol = toggle_window(rate);
    let t = sort_u64(s.push(frame));
    assert(s.push(frame).drop_last() =~= s);
    crate::beats::lemma_sort_u64_ascending(s);
    assert(t == crate::beats::insert_sorted(s, frame));
    let p = lemma_insert_sorted_at(s, frame);
    lemma_none_near(s, frame, tol, s.len() as int);
    assert forall|j: int| 0 <= j < p implies !near(#[trigger] t[j], frame, tol) by {
        assert(t[j] == s[j]);
    }
    assert(near(t[p], frame, tol));
    lemma_first_near_at(t, frame, tol, p, t.len() as int);
    assert(t.remove(p) =~= s);
}

/// Inserting into sorted order puts the new mark at some position.
proof fn lemma_insert_sorted_at(s: Seq<u64>, x: u64) -> (p: int)
    ensures
        0 <= p <= s.len(),
        crate::beats::insert_sorted(s, x) == s.insert(p, x),
    decreases s.len(),
{
    if s.len() == 0 || s.last() <= x {
        assert(s.push(x) =~= s.insert(s.len() as int, x));
        s.len() as int
    } else {
        let init = s.drop_last();
        let q = lemma_insert_sorted_at(init, x);
        assert(init.insert(q, x).push(s.last()) =~= s.insert(q, x));
        q
    }
}

proof fn lemma_none_near(s: Seq<u64>, f: u64, tol: int, k: int)
    requires
        0 <= k <= s.len(),
        first_near(s, f, tol, k) is None,
    ensures
        forall|j: int| 0 <= j < k ==> !near(#[trigger] s[j], f, tol),
    decreases k,
{
    if k > 0 {
        lemma_none_near(s, f, tol, k - 1);
    }
}

proof fn lemma_first_near_at(s: Seq<u64>, f: u64, tol: int, p: int, k: int)
    requires
        0 <= p < k <= s.len(),
        forall|j: int| 0 <= j < p ==> !near(#[trigger] s[j], f, tol),
        near(s[p], f, tol),
    ensures
        first_near(s, f, tol, k) == Some(p),
    decreases k,
{
    if k > p + 1 {
        lemma_first_near_at(s, f, tol, p, k - 1);
    } else {
        lemma_first_near_none_below(s, f, tol, p);
    }
}

proof fn lemma_first_near_none_below(s: Seq<u64>, f: u64, tol: int, k: int)
    requires
        0 <= k <= s.len(),
        forall|j: int| 0 <= j < k ==> !near(#[trigger] s[j], f, tol),
    ensures
        first_near(s, f, tol, k) is None,
    decreases k,
{
    if k > 0 {
        lemma_first_near_none_below(s, f, tol, k - 1);
    }
}

proof fn lemma_first_near_in_range(s: Seq<u64>, f: u64, tol: int, k: int)
    requires
        0 <= k <= s.len(),
    ensures
        first_near(s, f, tol, k) matches Some(i) ==> 0 <= i < k && near(s[i], f, tol),
    decreases k,
{
    if k > 0 {
        lemma_first_near_in_range(s, f, tol, k - 1);
    }
}

} // verus!
