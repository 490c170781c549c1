//! The beat-mark cache: each track's tapped beats, kept for good.
//!
//! A track is tapped once, ever, so its marks persist (next to the user
//! config) and follow the track through renames and moves. Marks are kept
//! with the sample rate they were tapped at; another output rate rescales
//! them.
//!
//! File format (plain text, one record per line, records in path order):
//!
//! ```text
//! # termkrush beats v1
//! /music/a.wav<TAB>44100<TAB>1000,23050,45100
//! ```
use vstd::prelude::*;
use crate::paths::{canon, canonical};
use crate::text::{
    chars_lt, chars_of, copy_range, decimal, find_char, find_in, lemma_find_char, lemma_seq_lt_irreflexive,
    lemma_seq_lt_total, lemma_seq_lt_transitive, lemma_split_len, lines, parse_unsigned,
    parse_unsigned_in, push_decimal, range_eq, seq_lt, split_on, split_ranges, string_of, trim,
    trim_bounds, is_ws, all_digits, is_digit, lemma_decimal_reads_back, lemma_parse_decimal,
    lemma_split_append, lemma_split_no_sep, lemma_find_first_is, lemma_trim_fixed, trim_start,
    trim_end,
};

verus! {

/// One track's tapped beats: frame positions at `sample_rate`.
#[derive(Debug, Clone, PartialEq, Eq)]
pub struct BeatMarks {
    /// The rate the frames are expressed in.
    pub sample_rate: u32,
    /// Sorted beat positions, in frames.
    pub frames: Vec<u64>,
}

impl View for BeatMarks {
    type V = (u32, Seq<u64>);

    open spec fn view(&self) -> (u32, Seq<u64>) {
        (self.sample_rate, self.frames@)
    }
}

/// `f` frames at rate `from` re-expressed at rate `to`, rounded to the
/// nearest frame (halves up), saturating at `u64::MAX`.
pub open spec fn rescale_frame(f: u64, from: u32, to: u32) -> u64 {
    let q = (2 * f * to + from) / (2 * from as int);
    if q > u64::MAX {
        u64::MAX
    } else {
        q as u64
    }
}

/// The marks `frames` (tapped at `from`) re-expressed at `to`; unchanged
/// when the rates match or the tap rate is unknown (zero).
pub open spec fn rescaled(frames: Seq<u64>, from: u32, to: u32) -> Seq<u64> {
    if to == from || from == 0 {
        frames
    } else {
        frames.map_values(|f: u64| rescale_frame(f, from, to))
    }
}

impl BeatMarks {
    /// The marks re-expressed at `rate` (frames scale linearly, rounded to
    /// the nearest frame). Lossless when the rates match.
    pub fn at_rate(&self, rate: u32) -> (r: Vec<u64>)
        ensures
            r@ == rescaled(self.frames@, self.sample_rate, rate),
    {
        if rate == self.sample_rate || self.sample_rate == 0 {
            return self.frames.clone();
        }
        let from = self.sample_rate as u128;
        let to = rate as u128;
        let mut out: Vec<u64> = Vec::new();
        let mut i: usize = 0;
        while i < self.frames.len()
            invariant
                i <= self.frames.len(),
                from == self.sample_rate,
                to == rate,
                from > 0,
                out@ == self.frames@.subrange(0, i as int).map_values(
                    |f: u64| rescale_frame(f, self.sample_rate, rate),
                ),
            decreases self.frames.len() - i,
        {
            let f = self.frames[i] as u128;
            assert(2 * f * to + from < 0x1_0000_0000_0000_0000_0000_0000_0000_0000) by (
            nonlinear_arith)
                requires
                    f < 0x1_0000_0000_0000_0000,
                    to < 0x1_0000_0000,
                    from < 0x1_0000_0000,
            ;
            let q = (2 * f * to + from) / (2 * from);
            let v: u64 = if q > u64::MAX as u128 {
                u64::MAX
            } else {
                q as u64
            };
            out.push(v);
            proof {
                assert(self.frames@.subrange(0, i + 1) =~= self.frames@.subrange(0, i as int).push(
                    self.frames@[i as int],
                ));
            }
            i = i + 1;
        }
        proof {
            assert(self.frames@.subrange(0, self.frames@.len() as int) =~= self.frames@);
        }
        out
    }
}

/// `s` with `x` placed after every element no greater than it (one step
/// of insertion sort).
pub open spec fn insert_sorted(s: Seq<u64>, x: u64) -> Seq<u64>
    decreases s.len(),
{
    if s.len() == 0 || s.last() <= x {
        s.push(x)
    } else {
        insert_sorted(s.drop_last(), x).push(s.last())
    }
}

/// `s` in ascending order (insertion sort).
pub open spec fn sort_u64(s: Seq<u64>) -> Seq<u64>
    decreases s.len(),
{
    if s.len() == 0 {
        s
    } else {
        insert_sorted(sort_u64(s.drop_last()), s.last())
    }
}

/// Whether `s` is in ascending order.
pub open spec fn ascending(s: Seq<u64>) -> bool {
    forall|i: int, j: int| 0 <= i <= j < s.len() ==> s[i] <= s[j]
}

proof fn lemma_insert_sorted(s: Seq<u64>, x: u64)
    requires
        ascending(s),
    ensures
        ascending(insert_sorted(s, x)),
        insert_sorted(s, x).to_multiset() == s.to_multiset().insert(x),
        insert_sorted(s, x).len() == s.len() + 1,
        forall|k: int|
            0 <= k < insert_sorted(s, x).len() ==> (#[trigger] insert_sorted(s, x)[k] == x
                || s.contains(insert_sorted(s, x)[k])),
    decreases s.len(),
{
    broadcast use vstd::seq_lib::group_to_multiset_ensures;

    let r = insert_sorted(s, x);
    if s.len() == 0 || s.last() <= x {
        assert forall|k: int| 0 <= k < r.len() implies (#[trigger] r[k] == x || s.contains(r[k])) by {
            if k < s.len() {
                assert(r[k] == s[k]);
            }
        }
    } else {
        let init = s.drop_last();
        assert forall|i: int, j: int| 0 <= i <= j < init.len() implies init[i] <= init[j] by {
            assert(init[i] == s[i] && init[j] == s[j]);
        }
        lemma_insert_sorted(init, x);
        let ri = insert_sorted(init, x);
        assert(s =~= init.push(s.last()));
        assert forall|k: int| 0 <= k < ri.len() implies #[trigger] ri[k] <= s.last() by {
            if ri[k] != x {
                let m = choose|m: int| 0 <= m < init.len() && init[m] == ri[k];
                assert(s[m] <= s[s.len() - 1]);
            }
        }
        assert forall|i: int, j: int| 0 <= i <= j < r.len() implies r[i] <= r[j] by {
            if j == r.len() - 1 {
                if i < r.len() - 1 {
                    assert(r[i] == ri[i]);
                }
            } else {
                assert(r[i] == ri[i] && r[j] == ri[j]);
            }
        }
        assert(r.to_multiset() =~= s.to_multiset().insert(x)) by {
            assert(r =~= ri.push(s.last()));
        }
        assert forall|k: int| 0 <= k < r.len() implies (#[trigger] r[k] == x || s.contains(r[k])) by {
            if k < r.len() - 1 {
                assert(r[k] == ri[k]);
                if ri[k] != x {
                    let m = choose|m: int| 0 <= m < init.len() && init[m] == ri[k];
                    assert(s[m] == init[m]);
                }
            } else {
                assert(s[s.len() - 1] == r[k]);
            }
        }
    }
}

/// `sort_u64` gives an ascending rearrangement of its input.
pub proof fn lemma_sort_u64(s: Seq<u64>)
    ensures
        ascending(sort_u64(s)),
        sort_u64(s).to_multiset() == s.to_multiset(),
        sort_u64(s).len() == s.len(),
    decreases s.len(),
{
    broadcast use vstd::seq_lib::group_to_multiset_ensures;

    if s.len() > 0 {
        lemma_sort_u64(s.drop_last());
        lemma_insert_sorted(sort_u64(s.drop_last()), s.last());
        assert(s =~= s.drop_last().push(s.last()));
    }
}

/// Already-ascending marks come out of `sort_u64` as they went in.
pub proof fn lemma_sort_u64_ascending(s: Seq<u64>)
    requires
        ascending(s),
    ensures
        sort_u64(s) == s,
    decreases s.len(),
{
    if s.len() > 0 {
        let init = s.drop_last();
        assert forall|i: int, j: int| 0 <= i <= j < init.len() implies init[i] <= init[j] by {
            assert(init[i] == s[i] && init[j] == s[j]);
        }
        lemma_sort_u64_ascending(init);
        if init.len() > 0 {
            assert(init.last() <= s.last()) by {
                assert(s[s.len() - 2] <= s[s.len() - 1]);
            }
        }
        assert(init.push(s.last()) =~= s);
    }
}

/// Sort `v` ascending (insertion sort, stable).
pub fn sort_frames(v: &mut Vec<u64>)
    ensures
        final(v)@ == sort_u64(old(v)@),
{
    let mut out: Vec<u64> = Vec::new();
    let mut i: usize = 0;
    while i < v.len()
        invariant
            i <= v.len(),
            *v == *old(v),
            out@ == sort_u64(v@.subrange(0, i as int)),
        decreases v.len() - i,
    {
        let x = v[i];
        let ghost before = out@;
        let mut j = out.len();
        let mut tail: Vec<u64> = Vec::new();
        proof {
            assert(out@.subrange(0, j as int) =~= before);
            assert(insert_sorted(before, x) + tail@ =~= insert_sorted(before, x));
        }
        while j > 0 && out[j - 1] > x
            invariant
                j <= out.len(),
                insert_sorted(before, x) == insert_sorted(out@.subrange(0, j as int), x) + tail@,
                out@ == before,
            decreases j,
        {
            proof {
                let p = out@.subrange(0, j as int);
                assert(p.drop_last() =~= out@.subrange(0, j - 1));
                assert(p.last() == out@[j - 1]);
                assert(insert_sorted(p, x) == insert_sorted(p.drop_last(), x).push(p.last()));
                assert(insert_sorted(p.drop_last(), x).push(p.last()) + tail@ =~= insert_sorted(
                    p.drop_last(),
                    x,
                ) + (seq![p.last()] + tail@));
            }
            tail.insert(0, out[j - 1]);
            j = j - 1;
        }
        let ghost p = out@.subrange(0, j as int);
        proof {
            assert(insert_sorted(p, x) == p.push(x));
        }
        out.truncate(j);
        out.push(x);
        out.append(&mut tail);
        proof {
            assert(v@.subrange(0, i + 1).drop_last() =~= v@.subrange(0, i as int));
            assert(v@.subrange(0, i + 1).last() == x);
        }
        i = i + 1;
    }
    proof {
        assert(v@.subrange(0, v@.len() as int) =~= v@);
    }
    *v = out;
}


/// `c` with `/` and NUL exchanged: the separator then orders before every
/// other character.
pub open spec fn sep_first(c: char) -> char {
    if c == '/' {
        '\0'
    } else if c == '\0' {
        '/'
    } else {
        c
    }
}

/// Every character of `s` passed through `sep_first`.
pub open spec fn sep_first_all(s: Seq<char>) -> Seq<char> {
    s.map_values(|c: char| sep_first(c))
}

/// Path order on canonical spellings: component by component, a component
/// before any longer one it starts, a root before any component, as
/// `Path`'s order has it.
pub open spec fn path_lt(a: Seq<char>, b: Seq<char>) -> bool {
    seq_lt(sep_first_all(a), sep_first_all(b))
}

proof fn lemma_sep_first_injective(a: Seq<char>, b: Seq<char>)
    requires
        sep_first_all(a) == sep_first_all(b),
    ensures
        a == b,
{
    assert(a.len() == sep_first_all(a).len());
    assert(b.len() == sep_first_all(b).len());
    assert forall|i: int| 0 <= i < a.len() implies a[i] == b[i] by {
        assert(sep_first_all(a)[i] == sep_first(a[i]));
        assert(sep_first_all(b)[i] == sep_first(b[i]));
    }
    assert(a =~= b);
}

proof fn lemma_path_lt_irreflexive(a: Seq<char>)
    ensures
        !path_lt(a, a),
{
    lemma_seq_lt_irreflexive(sep_first_all(a));
}

proof fn lemma_path_lt_transitive(a: Seq<char>, b: Seq<char>, c: Seq<char>)
    requires
        path_lt(a, b),
        path_lt(b, c),
    ensures
        path_lt(a, c),
{
    lemma_seq_lt_transitive(sep_first_all(a), sep_first_all(b), sep_first_all(c));
}

proof fn lemma_path_lt_total(a: Seq<char>, b: Seq<char>)
    ensures
        a == b || path_lt(a, b) || path_lt(b, a),
{
    lemma_seq_lt_total(sep_first_all(a), sep_first_all(b));
    if sep_first_all(a) == sep_first_all(b) {
        lemma_sep_first_injective(a, b);
    }
}

fn sep_first_chars(v: &Vec<char>) -> (r: Vec<char>)
    ensures
        r@ == sep_first_all(v@),
{
    let mut r: Vec<char> = Vec::new();
    let mut i: usize = 0;
    while i < v.len()
        invariant
            i <= v.len(),
            r@ == sep_first_all(v@.subrange(0, i as int)),
        decreases v.len() - i,
    {
        let c = v[i];
        let d = if c == '/' {
            '\0'
        } else if c == '\0' {
            '/'
        } else {
            c
        };
        r.push(d);
        proof {
            assert(sep_first_all(v@.subrange(0, i + 1)) =~= sep_first_all(
                v@.subrange(0, i as int),
            ).push(d));
        }
        i = i + 1;
    }
    proof {
        assert(v@.subrange(0, v@.len() as int) =~= v@);
    }
    r
}

/// Whether canonical spelling `a` sorts before `b` in path order.
fn path_less(a: &Vec<char>, b: &Vec<char>) -> (r: bool)
    ensures
        r == path_lt(a@, b@),
{
    let x = sep_first_chars(a);
    let y = sep_first_chars(b);
    chars_lt(&x, &y)
}

/// Whether the records of `s` are strictly ascending in path order of
/// their canonical spellings (so no two name the same path).
pub open spec fn keys_ascending<V>(s: Seq<(Seq<char>, V)>) -> bool {
    forall|i: int, j: int|
        0 <= i < j < s.len() ==> path_lt(canon(#[trigger] s[i].0), canon(#[trigger] s[j].0))
}

/// Whether some record of `s` names the path spelled canonically `k`.
pub open spec fn has_key<V>(s: Seq<(Seq<char>, V)>, k: Seq<char>) -> bool {
    exists|i: int| 0 <= i < s.len() && canon((#[trigger] s[i]).0) == k
}

/// An index of `s` whose record names `k` (meaningful when there is one).
pub open spec fn key_index<V>(s: Seq<(Seq<char>, V)>, k: Seq<char>) -> int {
    choose|i: int| 0 <= i < s.len() && canon((#[trigger] s[i]).0) == k
}

/// The records of a path-ordered list, each under its canonical spelling.
pub open spec fn keyed<V>(s: Seq<(Seq<char>, V)>) -> Map<Seq<char>, (Seq<char>, V)> {
    Map::new(|k: Seq<char>| has_key(s, k), |k: Seq<char>| s[key_index(s, k)])
}

proof fn lemma_keys_distinct<V>(s: Seq<(Seq<char>, V)>, i: int, j: int)
    requires
        keys_ascending(s),
        0 <= i < s.len(),
        0 <= j < s.len(),
        canon(s[i].0) == canon(s[j].0),
    ensures
        i == j,
{
    if i < j {
        lemma_path_lt_irreflexive(canon(s[i].0));
        assert(path_lt(canon(s[i].0), canon(s[j].0)));
    } else if j < i {
        lemma_path_lt_irreflexive(canon(s[i].0));
        assert(path_lt(canon(s[j].0), canon(s[i].0)));
    }
}

/// The record at `i` is what the map holds under its canonical spelling.
pub proof fn lemma_keyed_at<V>(s: Seq<(Seq<char>, V)>, i: int)
    requires
        keys_ascending(s),
        0 <= i < s.len(),
    ensures
        keyed(s).contains_key(canon(s[i].0)),
        keyed(s)[canon(s[i].0)] == s[i],
{
    let k = canon(s[i].0);
    assert(has_key(s, k));
    let c = key_index(s, k);
    lemma_keys_distinct(s, c, i);
    assert(keyed(s)[k] == s[c]);
}

proof fn lemma_keyed_ext<V>(s: Seq<(Seq<char>, V)>, t: Seq<(Seq<char>, V)>, m: Map<Seq<char>, (Seq<char>, V)>)
    requires
        keys_ascending(s),
        forall|k: Seq<char>| has_key(s, k) <==> m.contains_key(k),
        forall|i: int| 0 <= i < s.len() ==> m[canon((#[trigger] s[i]).0)] == s[i],
        t == s,
    ensures
        keyed(t) == m,
{
    assert forall|k: Seq<char>| #[trigger] keyed(s).contains_key(k) implies keyed(s)[k] == m[k] by {
        let c = key_index(s, k);
        lemma_keyed_at(s, c);
    }
    assert(keyed(s) =~= m);
}

/// A well-formed cache: paths strictly ascending, every record holding at
/// least one mark, marks ascending.
pub open spec fn records_wf(s: Seq<(Seq<char>, (u32, Seq<u64>))>) -> bool {
    &&& keys_ascending(s)
    &&& forall|i: int|
        0 <= i < s.len() ==> (#[trigger] s[i]).1.1.len() > 0 && ascending(s[i].1.1)
}

/// The marks a record map holds, under each path's canonical spelling.
pub open spec fn marks_of(m: Map<Seq<char>, (Seq<char>, (u32, Seq<u64>))>) -> Map<Seq<char>, (u32, Seq<u64>)> {
    m.map_values(|r: (Seq<char>, (u32, Seq<u64>))| r.1)
}

/// The path each record was stored under, by canonical spelling.
pub open spec fn paths_of(m: Map<Seq<char>, (Seq<char>, (u32, Seq<u64>))>) -> Map<Seq<char>, Seq<char>> {
    m.map_values(|r: (Seq<char>, (u32, Seq<u64>))| r.0)
}

/// The cache: track path to tapped beats, kept in path order so the saved
/// file has a stable order. Paths that name the same file (`/m//a.wav`,
/// `/m/a.wav`) share one record, which keeps the spelling it was first
/// stored under.
#[derive(Debug, Clone, PartialEq, Eq)]
pub struct BeatCache {
    records: Vec<(String, BeatMarks)>,
}

impl BeatCache {
    /// The records, in path order.
    pub closed spec fn records(&self) -> Seq<(Seq<char>, (u32, Seq<u64>))> {
        self.records@.map_values(|e: (String, BeatMarks)| (e.0@, e.1@))
    }

    /// Whether the cache is well formed; every operation keeps it so.
    pub open spec fn wf(&self) -> bool {
        records_wf(self.records())
    }

    /// The spelling each track's record is stored (and saved) under, by
    /// the track's canonical spelling.
    pub open spec fn paths(&self) -> Map<Seq<char>, Seq<char>> {
        paths_of(keyed(self.records()))
    }
}

impl View for BeatCache {
    type V = Map<Seq<char>, (u32, Seq<u64>)>;

    /// Each track's marks, under the track's canonical spelling.
    open spec fn view(&self) -> Map<Seq<char>, (u32, Seq<u64>)> {
        marks_of(keyed(self.records()))
    }
}

impl Default for BeatCache {
    /// The empty cache.
    fn default() -> (c: Self)
        ensures
            c.wf(),
            c@ == Map::<Seq<char>, (u32, Seq<u64>)>::empty(),
            c.paths() == Map::<Seq<char>, Seq<char>>::empty(),
            c.records().len() == 0,
    {
        let c = BeatCache { records: Vec::new() };
        assert(c.records() =~= Seq::<(Seq<char>, (u32, Seq<u64>))>::empty());
        assert(keyed(c.records()) =~= Map::<Seq<char>, (Seq<char>, (u32, Seq<u64>))>::empty());
        assert(c@ =~= Map::<Seq<char>, (u32, Seq<u64>)>::empty());
        assert(c.paths() =~= Map::<Seq<char>, Seq<char>>::empty());
        c
    }
}

impl BeatCache {
    /// Where the path spelled canonically `key` is or would go: the first
    /// record whose path does not sort before it, and whether that record
    /// names it.
    fn locate(&self, key: &Vec<char>) -> (r: (usize, bool))
        requires
            self.wf(),
        ensures
            r.0 <= self.records().len(),
            forall|j: int| 0 <= j < r.0 ==> path_lt(canon(#[trigger] self.records()[j].0), key@),
            forall|j: int|
                r.0 <= j < self.records().len() ==> !path_lt(
                    canon(#[trigger] self.records()[j].0),
                    key@,
                ),
            r.1 == (r.0 < self.records().len() && canon(self.records()[r.0 as int].0) == key@),
            r.1 == keyed(self.records()).contains_key(key@),
    {
        let ghost s = self.records();
        let mut i: usize = 0;
        let mut go = true;
        while go && i < self.records.len()
            invariant
                i <= self.records.len() == s.len(),
                s == self.records(),
                self.wf(),
                forall|j: int| 0 <= j < i ==> path_lt(canon(#[trigger] s[j].0), key@),
                !go ==> i < s.len() && !path_lt(canon(s[i as int].0), key@),
            decreases self.records.len() - i, if go { 1int } else { 0int },
        {
            let k = canonical(self.records[i].0.as_str());
            assert(k@ == canon(s[i as int].0));
            if !path_less(&k, key) {
                go = false;
            } else {
                i = i + 1;
            }
        }
        assert forall|j: int| i <= j < s.len() implies !path_lt(canon(#[trigger] s[j].0), key@) by {
            if j > i && path_lt(canon(s[j].0), key@) {
                assert(path_lt(canon(s[i as int].0), canon(s[j].0)));
                lemma_path_lt_transitive(canon(s[i as int].0), canon(s[j].0), key@);
            }
        }
        let mut found = false;
        if i < self.records.len() {
            let k = canonical(self.records[i].0.as_str());
            found = range_eq(&k, 0, k.len(), key);
            proof {
                assert(k@.subrange(0, k@.len() as int) =~= k@);
            }
        }
        proof {
            if found {
                lemma_keyed_at(s, i as int);
            } else {
                if keyed(s).contains_key(key@) {
                    let c = choose|c: int| 0 <= c < s.len() && canon((#[trigger] s[c]).0) == key@;
                    lemma_path_lt_irreflexive(key@);
                    if c > i {
                        lemma_path_lt_total(canon(s[i as int].0), key@);
                        assert(path_lt(canon(s[i as int].0), canon(s[c].0)));
                    }
                }
            }
        }
        (i, found)
    }

    /// Put `marks` under the path spelled canonically `key`: a record
    /// already there keeps its spelling, a new one is stored as `path`.
    fn put(&mut self, key: &Vec<char>, path: String, marks: BeatMarks)
        requires
            old(self).wf(),
            key@ == canon(path@),
            marks.frames@.len() > 0,
            ascending(marks.frames@),
        ensures
            final(self).wf(),
            keyed(final(self).records()) == keyed(old(self).records()).insert(
                key@,
                (
                    if keyed(old(self).records()).contains_key(key@) {
                        keyed(old(self).records())[key@].0
                    } else {
                        path@
                    },
                    marks@,
                ),
            ),
    {
        let ghost s = self.records();
        let ghost mv = marks@;
        let (i, found) = self.locate(key);
        if found {
            let p0 = self.records[i].0.clone();
            self.records.set(i, (p0, marks));
        } else {
            self.records.insert(i, (path, marks));
        }
        let ghost t = self.records();
        proof {
            let e = t[i as int];
            if found {
                assert(t =~= s.update(i as int, e));
                assert(e.0 == s[i as int].0);
            } else {
                assert(t =~= s.insert(i as int, e));
                assert(e.0 == path@);
            }
            assert(canon(e.0) == key@);
            assert(e.1 == mv);
            assert forall|a: int, b: int| 0 <= a < b < t.len() implies path_lt(
                canon(#[trigger] t[a].0),
                canon(#[trigger] t[b].0),
            ) by {
                if found {
                    if a == i {
                        assert(path_lt(canon(s[a].0), canon(s[b].0)));
                    } else if b == i {
                        assert(path_lt(canon(s[a].0), canon(s[b].0)));
                    } else {
                        assert(path_lt(canon(s[a].0), canon(s[b].0)));
                    }
                } else {
                    if a < i && b < i {
                        assert(path_lt(canon(s[a].0), canon(s[b].0)));
                    } else if a < i && b == i {
                    } else if a < i {
                        assert(path_lt(canon(s[a].0), canon(s[b - 1].0)));
                    } else if a == i {
                        lemma_path_lt_total(canon(s[i as int].0), key@);
                        if b - 1 > i {
                            assert(path_lt(canon(s[i as int].0), canon(s[b - 1].0)));
                            lemma_path_lt_transitive(key@, canon(s[i as int].0), canon(s[b - 1].0));
                        }
                    } else {
                        assert(path_lt(canon(s[a - 1].0), canon(s[b - 1].0)));
                    }
                }
            }
            assert forall|a: int| 0 <= a < t.len() implies (#[trigger] t[a]).1.1.len() > 0
                && ascending(t[a].1.1) by {
                if !found && a > i {
                    assert(t[a] == s[a - 1]);
                } else if a != i {
                    assert(t[a] == s[a]);
                }
            }
            if found {
                lemma_keyed_at(s, i as int);
            }
            let target = keyed(s).insert(key@, e);
            assert forall|k: Seq<char>| has_key(t, k) <==> target.contains_key(k) by {
                if has_key(t, k) {
                    let c = choose|c: int| 0 <= c < t.len() && canon((#[trigger] t[c]).0) == k;
                    if k != key@ {
                        if found || c < i {
                            assert(t[c] == s[c]);
                            lemma_keyed_at(s, c);
                        } else {
                            assert(t[c] == s[c - 1]);
                            lemma_keyed_at(s, c - 1);
                        }
                    }
                }
                if target.contains_key(k) && k != key@ {
                    let c = choose|c: int| 0 <= c < s.len() && canon((#[trigger] s[c]).0) == k;
                    if found || c < i {
                        assert(t[c] == s[c]);
                        assert(canon(t[c].0) == k);
                    } else {
                        assert(t[c + 1] == s[c]);
                        assert(canon(t[c + 1].0) == k);
                    }
                }
                if k == key@ {
                    assert(canon(t[i as int].0) == k);
                }
            }
            assert forall|a: int| 0 <= a < t.len() implies target[canon((#[trigger] t[a]).0)]
                == t[a] by {
                if a != i {
                    let b = if !found && a > i {
                        a - 1
                    } else {
                        a
                    };
                    assert(t[a] == s[b]);
                    lemma_keyed_at(s, b);
                    if canon(s[b].0) == key@ {
                        lemma_keys_distinct(s, b, i as int);
                    }
                }
            }
            lemma_keyed_ext(t, t, target);
        }
    }

    /// Take the record of the path spelled canonically `key` out, if there
    /// is one.
    fn take(&mut self, key: &Vec<char>) -> (r: Option<BeatMarks>)
        requires
            old(self).wf(),
        ensures
            final(self).wf(),
            keyed(final(self).records()) == keyed(old(self).records()).remove(key@),
            match r {
                Some(m) => keyed(old(self).records()).contains_key(key@) && keyed(
                    old(self).records(),
                )[key@].1 == m@ && m.frames@.len() > 0 && ascending(m.frames@),
                None => !keyed(old(self).records()).contains_key(key@),
            },
    {
        let ghost s = self.records();
        let (i, found) = self.locate(key);
        if !found {
            proof {
                assert(keyed(s).remove(key@) =~= keyed(s));
            }
            return None;
        }
        let (_p, m) = self.records.remove(i);
        let ghost t = self.records();
        proof {
            assert(t =~= s.remove(i as int));
            lemma_keyed_at(s, i as int);
            assert forall|a: int, b: int| 0 <= a < b < t.len() implies path_lt(
                canon(#[trigger] t[a].0),
                canon(#[trigger] t[b].0),
            ) by {
                let a0 = if a < i {
                    a
                } else {
                    a + 1
                };
                let b0 = if b < i {
                    b
                } else {
                    b + 1
                };
                assert(t[a] == s[a0] && t[b] == s[b0]);
            }
            assert forall|a: int| 0 <= a < t.len() implies (#[trigger] t[a]).1.1.len() > 0
                && ascending(t[a].1.1) by {
                if a >= i {
                    assert(t[a] == s[a + 1]);
                }
            }
            let target = keyed(s).remove(key@);
            assert forall|k: Seq<char>| has_key(t, k) <==> target.contains_key(k) by {
                if has_key(t, k) {
                    let c = choose|c: int| 0 <= c < t.len() && canon((#[trigger] t[c]).0) == k;
                    let c0 = if c < i {
                        c
                    } else {
                        c + 1
                    };
                    assert(t[c] == s[c0]);
                    lemma_keyed_at(s, c0);
                    if k == key@ {
                        lemma_keys_distinct(s, c0, i as int);
                    }
                }
                if target.contains_key(k) {
                    let c = choose|c: int| 0 <= c < s.len() && canon((#[trigger] s[c]).0) == k;
                    assert(c != i);
                    if c < i {
                        assert(t[c] == s[c]);
                    } else {
                        assert(t[c - 1] == s[c]);
                    }
                }
            }
            assert forall|a: int| 0 <= a < t.len() implies target[canon((#[trigger] t[a]).0)]
                == t[a] by {
                let a0 = if a < i {
                    a
                } else {
                    a + 1
                };
                assert(t[a] == s[a0]);
                lemma_keyed_at(s, a0);
                if canon(s[a0].0) == key@ {
                    lemma_keys_distinct(s, a0, i as int);
                }
            }
            lemma_keyed_ext(t, t, target);
        }
        Some(m)
    }

    /// The marks for `track`, if it has been tapped (under any spelling of
    /// its path).
    pub fn get(&self, track: &str) -> (r: Option<&BeatMarks>)
        requires
            self.wf(),
        ensures
            r is Some <==> self@.contains_key(canon(track@)),
            r matches Some(m) ==> m@ == self@[canon(track@)],
    {
        let key = canonical(track);
        let (i, found) = self.locate(&key);
        if found {
            proof {
                lemma_keyed_at(self.records(), i as int);
            }
            Some(&self.records[i].1)
        } else {
            None
        }
    }

    /// Does `track` have enough marks to fit a grid (two or more)?
    pub fn has_beats(&self, track: &str) -> (r: bool)
        requires
            self.wf(),
        ensures
            r == (self@.contains_key(canon(track@)) && self@[canon(track@)].1.len() >= 2),
    {
        match self.get(track) {
            Some(m) => m.frames.len() >= 2,
            None => false,
        }
    }

    /// Store `track`'s marks, sorted on the way in. Empty marks remove the
    /// record: clearing every tap un-taps the track. A track that already
    /// has a record keeps the spelling it was stored under.
    pub fn set(&mut self, track: &str, sample_rate: u32, frames: Vec<u64>)
        requires
            old(self).wf(),
        ensures
            final(self).wf(),
            final(self)@ == if frames@.len() == 0 {
                old(self)@.remove(canon(track@))
            } else {
                old(self)@.insert(canon(track@), (sample_rate, sort_u64(frames@)))
            },
            final(self).paths() == if frames@.len() == 0 {
                old(self).paths().remove(canon(track@))
            } else if old(self).paths().contains_key(canon(track@)) {
                old(self).paths()
            } else {
                old(self).paths().insert(canon(track@), track@)
            },
    {
        let key = canonical(track);
        let ghost k0 = keyed(self.records());
        if frames.len() == 0 {
            let _ = self.take(&key);
            proof {
                assert(self@ =~= marks_of(k0).remove(key@));
                assert(self.paths() =~= paths_of(k0).remove(key@));
            }
            return;
        }
        let ghost given = frames@;
        let mut frames = frames;
        sort_frames(&mut frames);
        proof {
            lemma_sort_u64(given);
        }
        self.put(&key, track.to_owned(), BeatMarks { sample_rate, frames });
        proof {
            assert(self@ =~= marks_of(k0).insert(key@, (sample_rate, sort_u64(given))));
            if k0.contains_key(key@) {
                assert(self.paths() =~= paths_of(k0));
            } else {
                assert(self.paths() =~= paths_of(k0).insert(key@, track@));
            }
        }
    }

    /// Follow a rename or move: the marks belong to the file, not the old
    /// path. Nothing happens when `old_path` has no record.
    pub fn retarget(&mut self, old_path: &str, new_path: &str)
        requires
            old(self).wf(),
        ensures
            final(self).wf(),
            final(self)@ == retargeted_marks(old(self)@, canon(old_path@), canon(new_path@)),
            final(self).paths() == retargeted_paths(
                old(self).paths(),
                canon(old_path@),
                canon(new_path@),
                new_path@,
            ),
    {
        let old_key = canonical(old_path);
        let ghost k0 = keyed(self.records());
        match self.take(&old_key) {
            Some(m) => {
                let ghost k1 = keyed(self.records());
                let new_key = canonical(new_path);
                self.put(&new_key, new_path.to_owned(), m);
                proof {
                    assert(self@ =~= retargeted_marks(marks_of(k0), old_key@, new_key@));
                    assert(self.paths() =~= retargeted_paths(
                        paths_of(k0),
                        old_key@,
                        new_key@,
                        new_path@,
                    ));
                }
            },
            None => {
                proof {
                    assert(!marks_of(k0).contains_key(old_key@));
                }
            },
        }
    }

    /// Drop a deleted track's marks.
    pub fn purge(&mut self, track: &str)
        requires
            old(self).wf(),
        ensures
            final(self).wf(),
            final(self)@ == old(self)@.remove(canon(track@)),
            final(self).paths() == old(self).paths().remove(canon(track@)),
    {
        let key = canonical(track);
        let ghost k0 = keyed(self.records());
        let _ = self.take(&key);
        proof {
            assert(self@ =~= marks_of(k0).remove(key@));
            assert(self.paths() =~= paths_of(k0).remove(key@));
        }
    }
}


/// First line of a beats file; the suffix changes on a breaking change.
pub const BEATS_HEADER: &'static str = "# termkrush beats v1";

/// The header's characters.
pub open spec fn beats_header() -> Seq<char> {
    BEATS_HEADER@
}

/// Marks written out: decimal numbers separated by commas.
pub open spec fn joined_marks(fs: Seq<u64>) -> Seq<char>
    decreases fs.len(),
{
    if fs.len() == 0 {
        Seq::empty()
    } else if fs.len() == 1 {
        decimal(fs[0] as nat)
    } else {
        joined_marks(fs.drop_last()).push(',') + decimal(fs.last() as nat)
    }
}

/// One record's line (without its newline): path, rate and marks,
/// separated by tabs.
pub open spec fn record_line(k: Seq<char>, m: (u32, Seq<u64>)) -> Seq<char> {
    k.push('\t') + decimal(m.0 as nat).push('\t') + joined_marks(m.1)
}

/// The text a cache is saved as: the header, then one line per record in
/// path order, every line ending in a newline.
pub open spec fn beats_text(rs: Seq<(Seq<char>, (u32, Seq<u64>))>) -> Seq<char>
    decreases rs.len(),
{
    if rs.len() == 0 {
        beats_header().push('\n')
    } else {
        beats_text(rs.drop_last()) + record_line(rs.last().0, rs.last().1).push('\n')
    }
}

/// A line's first three tab-separated fields, the last holding the rest of
/// the line (`splitn(3, '\\t')`); `None` with fewer than two tabs.
pub open spec fn tab_fields(l: Seq<char>) -> Option<(Seq<char>, Seq<char>, Seq<char>)> {
    match find_char(l, '\t') {
        None => None,
        Some(i) => {
            let r = l.subrange(i + 1, l.len() as int);
            match find_char(r, '\t') {
                None => None,
                Some(j) => Some((l.subrange(0, i), r.subrange(0, j), r.subrange(j + 1, r.len() as int))),
            }
        },
    }
}

/// The marks a comma-separated field holds: every piece that reads as a
/// `u64`, in order; the others are skipped.
pub open spec fn parsed_marks(pieces: Seq<Seq<char>>) -> Seq<u64>
    decreases pieces.len(),
{
    if pieces.len() == 0 {
        Seq::empty()
    } else {
        match parse_unsigned(pieces.last(), u64::MAX as nat) {
            Some(v) => parsed_marks(pieces.drop_last()).push(v as u64),
            None => parsed_marks(pieces.drop_last()),
        }
    }
}

/// A record map after storing marks `v` for path `k`: a path already
/// there (under any spelling) keeps its spelling.
pub open spec fn stored(m: Map<Seq<char>, (Seq<char>, (u32, Seq<u64>))>, k: Seq<char>, v: (u32, Seq<u64>)) -> Map<
    Seq<char>,
    (Seq<char>, (u32, Seq<u64>)),
> {
    m.insert(
        canon(k),
        (
            if m.contains_key(canon(k)) {
                m[canon(k)].0
            } else {
                k
            },
            v,
        ),
    )
}

/// The records after reading one body line into `m`: a blank or
/// malformed line (fewer than three fields, or a rate that is not a `u32`)
/// changes nothing; a line whose marks all fail to read removes the path's
/// record; otherwise the path gets the rate and the sorted marks.
pub open spec fn apply_line(m: Map<Seq<char>, (Seq<char>, (u32, Seq<u64>))>, line: Seq<char>) -> Map<
    Seq<char>,
    (Seq<char>, (u32, Seq<u64>)),
> {
    let t = trim(line);
    if t.len() == 0 {
        m
    } else {
        match tab_fields(t) {
            None => m,
            Some((k, rate, marks)) => match parse_unsigned(rate, u32::MAX as nat) {
                None => m,
                Some(sr) => {
                    let fs = parsed_marks(split_on(marks, ','));
                    if fs.len() == 0 {
                        m.remove(canon(k))
                    } else {
                        stored(m, k, (sr as u32, sort_u64(fs)))
                    }
                },
            },
        }
    }
}

/// The records the body lines `ls` build, read in order from empty.
pub open spec fn parse_body(ls: Seq<Seq<char>>) -> Map<Seq<char>, (Seq<char>, (u32, Seq<u64>))>
    decreases ls.len(),
{
    if ls.len() == 0 {
        Map::empty()
    } else {
        apply_line(parse_body(ls.drop_last()), ls.last())
    }
}

/// What a beats file holds: its records when the first line (trimmed) is
/// the header, else nothing.
pub open spec fn parse_beats(text: Seq<char>) -> Map<Seq<char>, (Seq<char>, (u32, Seq<u64>))> {
    let ls = lines(text);
    if ls.len() > 0 && trim(ls[0]) == beats_header() {
        parse_body(ls.drop_first())
    } else {
        Map::empty()
    }
}

fn push_all(out: &mut Vec<char>, s: &str)
    ensures
        final(out)@ == old(out)@ + s@,
{
    let mut cs = chars_of(s);
    out.append(&mut cs);
}

fn push_marks(out: &mut Vec<char>, fs: &Vec<u64>)
    ensures
        final(out)@ == old(out)@ + joined_marks(fs@),
{
    let mut i: usize = 0;
    let ghost start = out@;
    proof {
        assert(fs@.subrange(0, 0) =~= Seq::<u64>::empty());
        assert(out@ =~= start + joined_marks(fs@.subrange(0, 0)));
    }
    while i < fs.len()
        invariant
            i <= fs.len(),
            out@ == start + joined_marks(fs@.subrange(0, i as int)),
        decreases fs.len() - i,
    {
        let ghost pre = out@;
        let ghost p = fs@.subrange(0, i + 1);
        proof {
            assert(p.drop_last() =~= fs@.subrange(0, i as int));
            assert(p.last() == fs@[i as int]);
        }
        if i > 0 {
            out.push(',');
        }
        push_decimal(out, fs[i]);
        proof {
            if i == 0 {
                assert(p.len() == 1);
                assert(out@ =~= start + joined_marks(p));
            } else {
                assert(out@ =~= start + joined_marks(p));
            }
        }
        i = i + 1;
    }
    proof {
        assert(fs@.subrange(0, fs@.len() as int) =~= fs@);
    }
}

impl BeatCache {
    /// The text this cache is saved as.
    pub fn to_text(&self) -> (r: String)
        ensures
            r@ == beats_text(self.records()),
    {
        let mut out: Vec<char> = Vec::new();
        push_all(&mut out, BEATS_HEADER);
        out.push('\n');
        let ghost rs = self.records();
        let mut i: usize = 0;
        proof {
            assert(out@ =~= beats_text(rs.subrange(0, 0)));
        }
        while i < self.records.len()
            invariant
                i <= self.records.len() == rs.len(),
                rs == self.records(),
                out@ == beats_text(rs.subrange(0, i as int)),
            decreases self.records.len() - i,
        {
            let ghost pre = out@;
            let r = &self.records[i];
            push_all(&mut out, r.0.as_str());
            out.push('\t');
            push_decimal(&mut out, r.1.sample_rate as u64);
            out.push('\t');
            push_marks(&mut out, &r.1.frames);
            out.push('\n');
            proof {
                let p = rs.subrange(0, i + 1);
                assert(p.drop_last() =~= rs.subrange(0, i as int));
                assert(p.last() == rs[i as int]);
                assert(out@ =~= pre + record_line(rs[i as int].0, rs[i as int].1).push('\n'));
            }
            i = i + 1;
        }
        proof {
            assert(rs.subrange(0, rs.len() as int) =~= rs);
        }
        string_of(out.as_slice())
    }

    /// Read a cache from the text of a beats file. A file without the
    /// header gives the empty cache; a malformed line is skipped.
    pub fn from_text(text: &str) -> (r: BeatCache)
        ensures
            r.wf(),
            r@ == marks_of(parse_beats(text@)),
            r.paths() == paths_of(parse_beats(text@)),
    {
        let cs = chars_of(text);
        let n = cs.len();
        let mut out = BeatCache::default();
        if n == 0 {
            return out;
        }
        let pieces = split_ranges(&cs, 0, n, '\n');
        proof {
            assert(cs@.subrange(0, n as int) =~= cs@);
            lemma_split_len(cs@, '\n');
        }
        let count = if cs[n - 1] == '\n' {
            pieces.len() - 1
        } else {
            pieces.len()
        };
        let ghost ls = lines(text@);
        assert(ls.len() == count);
        assert(forall|k: int|
            0 <= k < count ==> cs@.subrange((#[trigger] pieces[k]).0 as int, pieces[k].1 as int)
                == ls[k]);
        if count == 0 {
            return out;
        }
        let (h0, h1) = trim_bounds(&cs, pieces[0].0, pieces[0].1);
        let header = chars_of(BEATS_HEADER);
        if !range_eq(&cs, h0, h1, &header) {
            return out;
        }
        let mut k: usize = 1;
        proof {
            assert(ls.subrange(1, 1) =~= Seq::<Seq<char>>::empty());
        }
        while k < count
            invariant
                1 <= k <= count <= pieces.len(),
                ls.len() == count,
                forall|j: int|
                    0 <= j < pieces.len() ==> (#[trigger] pieces[j]).0 <= pieces[j].1 <= cs.len(),
                forall|j: int|
                    0 <= j < count ==> cs@.subrange(
                        (#[trigger] pieces[j]).0 as int,
                        pieces[j].1 as int,
                    ) == ls[j],
                out.wf(),
                keyed(out.records()) == parse_body(ls.subrange(1, k as int)),
            decreases count - k,
        {
            proof {
                let s = ls.subrange(1, k + 1);
                assert(s.drop_last() =~= ls.subrange(1, k as int));
                assert(s.last() == ls[k as int]);
            }
            self::read_line(&cs, pieces[k].0, pieces[k].1, &mut out);
            k = k + 1;
        }
        proof {
            assert(ls.subrange(1, count as int) =~= ls.drop_first());
        }
        out
    }
}

/// Read the line `cs[lo..hi]` into `cache`.
fn read_line(cs: &Vec<char>, lo: usize, hi: usize, cache: &mut BeatCache)
    requires
        lo <= hi <= cs.len(),
        old(cache).wf(),
    ensures
        final(cache).wf(),
        keyed(final(cache).records()) == apply_line(
            keyed(old(cache).records()),
            cs@.subrange(lo as int, hi as int),
        ),
{
    let (a, b) = trim_bounds(cs, lo, hi);
    let ghost t = cs@.subrange(a as int, b as int);
    if a == b {
        return;
    }
    let i = match find_in(cs, a, b, '\t') {
        Some(i) => i,
        None => {
            return;
        },
    };
    proof {
        lemma_find_char(t, '\t');
    }
    let ghost r = t.subrange(i - a + 1, t.len() as int);
    proof {
        assert(r =~= cs@.subrange(i + 1, b as int));
        lemma_find_char(r, '\t');
    }
    let j = match find_in(cs, i + 1, b, '\t') {
        Some(j) => j,
        None => {
            return;
        },
    };
    proof {
        assert(t.subrange(0, i - a) =~= cs@.subrange(a as int, i as int));
        assert(r.subrange(0, j - (i + 1)) =~= cs@.subrange(i + 1, j as int));
        assert(r.subrange(j - (i + 1) + 1, r.len() as int) =~= cs@.subrange(j + 1, b as int));
    }
    let sr = match parse_unsigned_in(cs, i + 1, j, u32::MAX as u64) {
        Some(v) => v as u32,
        None => {
            return;
        },
    };
    let ghost marks = cs@.subrange(j + 1, b as int);
    let parts = split_ranges(cs, j + 1, b, ',');
    let mut frames: Vec<u64> = Vec::new();
    let mut p: usize = 0;
    proof {
        assert(split_on(marks, ',').subrange(0, 0) =~= Seq::<Seq<char>>::empty());
    }
    while p < parts.len()
        invariant
            p <= parts.len() == split_on(marks, ',').len(),
            j + 1 <= b <= cs.len(),
            marks == cs@.subrange(j + 1, b as int),
            forall|q: int|
                0 <= q < parts.len() ==> j + 1 <= (#[trigger] parts[q]).0 <= parts[q].1 <= b
                    && cs@.subrange(parts[q].0 as int, parts[q].1 as int) == split_on(
                    marks,
                    ',',
                )[q],
            frames@ == parsed_marks(split_on(marks, ',').subrange(0, p as int)),
        decreases parts.len() - p,
    {
        proof {
            let s = split_on(marks, ',').subrange(0, p + 1);
            assert(s.drop_last() =~= split_on(marks, ',').subrange(0, p as int));
            assert(s.last() == split_on(marks, ',')[p as int]);
        }
        match parse_unsigned_in(cs, parts[p].0, parts[p].1, u64::MAX) {
            Some(v) => {
                frames.push(v);
            },
            None => {},
        }
        p = p + 1;
    }
    proof {
        assert(split_on(marks, ',').subrange(0, parts.len() as int) =~= split_on(marks, ','));
    }
    let path = copy_range(cs, a, i);
    let track = string_of(path.as_slice());
    let ghost k0 = keyed(cache.records());
    let ghost fs = frames@;
    cache.set(track.as_str(), sr, frames);
    proof {
        let k1 = keyed(cache.records());
        let target = if fs.len() == 0 {
            k0.remove(canon(track@))
        } else {
            stored(k0, track@, (sr, sort_u64(fs)))
        };
        assert(marks_of(k1) =~= marks_of(target));
        assert(paths_of(k1) =~= paths_of(target));
        lemma_views_determine(k1, target);
    }
}

proof fn lemma_views_determine(
    a: Map<Seq<char>, (Seq<char>, (u32, Seq<u64>))>,
    b: Map<Seq<char>, (Seq<char>, (u32, Seq<u64>))>,
)
    requires
        marks_of(a) == marks_of(b),
        paths_of(a) == paths_of(b),
    ensures
        a == b,
{
    assert forall|k: Seq<char>| #[trigger] a.contains_key(k) implies a[k] == b[k] by {
        assert(marks_of(a).contains_key(k));
        assert(marks_of(a)[k] == marks_of(b)[k]);
        assert(paths_of(a)[k] == paths_of(b)[k]);
    }
    assert(a.dom() =~= marks_of(a).dom());
    assert(b.dom() =~= marks_of(b).dom());
    assert(a =~= b);
}


/// A path that survives a save and load unchanged: non-empty, not starting
/// with whitespace, and free of tabs and line breaks.
pub open spec fn clean_path(k: Seq<char>) -> bool {
    k.len() > 0 && !is_ws(k[0]) && !k.contains('\t') && !k.contains('\n')
}

proof fn lemma_beats_header_shape()
    ensures
        beats_header().len() > 0,
        !beats_header().contains('\n'),
        trim(beats_header()) == beats_header(),
{
    reveal_strlit("# termkrush beats v1");
    let h = beats_header();
    assert(h.len() == 20);
    assert(!h.contains('\n')) by {
        assert forall|k: int| 0 <= k < h.len() implies h[k] != '\n' by {
            reveal_strlit("# termkrush beats v1");
        }
    }
    assert(trim_start(h) == h);
    assert(trim_end(h) == h);
}

proof fn lemma_digits_free_of(s: Seq<char>, c: char)
    requires
        all_digits(s),
        !is_digit(c),
    ensures
        !s.contains(c),
{
    if s.contains(c) {
        let k = choose|k: int| 0 <= k < s.len() && s[k] == c;
        assert(is_digit(s[k]));
    }
}

proof fn lemma_decimal_free(n: nat)
    ensures
        !decimal(n).contains(','),
        !decimal(n).contains('\t'),
        !decimal(n).contains('\n'),
        decimal(n).len() > 0,
        is_digit(decimal(n).last()),
{
    lemma_decimal_reads_back(n);
    lemma_digits_free_of(decimal(n), ',');
    lemma_digits_free_of(decimal(n), '\t');
    lemma_digits_free_of(decimal(n), '\n');
    assert(is_digit(decimal(n)[decimal(n).len() - 1]));
}

proof fn lemma_concat_free(a: Seq<char>, b: Seq<char>, c: char)
    requires
        !a.contains(c),
        !b.contains(c),
    ensures
        !(a + b).contains(c),
{
    if (a + b).contains(c) {
        let k = choose|k: int| 0 <= k < (a + b).len() && (a + b)[k] == c;
        if k < a.len() {
            assert(a[k] == c);
        } else {
            assert(b[k - a.len()] == c);
        }
    }
}

proof fn lemma_joined_marks(fs: Seq<u64>)
    requires
        fs.len() > 0,
    ensures
        joined_marks(fs).len() > 0,
        is_digit(joined_marks(fs).last()),
        !joined_marks(fs).contains('\t'),
        !joined_marks(fs).contains('\n'),
        split_on(joined_marks(fs), ',') == fs.map_values(|f: u64| decimal(f as nat)),
    decreases fs.len(),
{
    lemma_decimal_free(fs.last() as nat);
    if fs.len() == 1 {
        lemma_split_no_sep(decimal(fs[0] as nat), ',');
        assert(fs.map_values(|f: u64| decimal(f as nat)) =~= seq![decimal(fs[0] as nat)]);
    } else {
        let init = fs.drop_last();
        lemma_joined_marks(init);
        let j = joined_marks(init);
        let d = decimal(fs.last() as nat);
        assert(joined_marks(fs) =~= j + seq![','] + d);
        lemma_split_append(j, d, ',');
        assert(fs.map_values(|f: u64| decimal(f as nat)) =~= init.map_values(
            |f: u64| decimal(f as nat),
        ).push(d));
        assert(!seq![','].contains('\t') && !seq![','].contains('\n')) by {
            assert(seq![','][0] == ',');
        }
        lemma_concat_free(j, seq![','], '\t');
        lemma_concat_free(j + seq![','], d, '\t');
        lemma_concat_free(j, seq![','], '\n');
        lemma_concat_free(j + seq![','], d, '\n');
        assert(joined_marks(fs).last() == d.last());
    }
}

proof fn lemma_parsed_decimals(fs: Seq<u64>)
    ensures
        parsed_marks(fs.map_values(|f: u64| decimal(f as nat))) == fs,
    decreases fs.len(),
{
    if fs.len() > 0 {
        let p = fs.map_values(|f: u64| decimal(f as nat));
        lemma_parsed_decimals(fs.drop_last());
        assert(p.drop_last() =~= fs.drop_last().map_values(|f: u64| decimal(f as nat)));
        lemma_parse_decimal(fs.last() as nat, u64::MAX as nat);
        assert(fs.drop_last().push(fs.last()) =~= fs);
    }
}

proof fn lemma_record_line(k: Seq<char>, m: (u32, Seq<u64>), base: Map<Seq<char>, (Seq<char>, (u32, Seq<u64>))>)
    requires
        clean_path(k),
        m.1.len() > 0,
        ascending(m.1),
    ensures
        !record_line(k, m).contains('\n'),
        apply_line(base, record_line(k, m)) == stored(base, k, m),
{
    let d = decimal(m.0 as nat);
    let j = joined_marks(m.1);
    let l = record_line(k, m);
    lemma_decimal_free(m.0 as nat);
    lemma_joined_marks(m.1);
    assert(l =~= k + seq!['\t'] + d + seq!['\t'] + j);
    // no line break
    assert(!seq!['\t'].contains('\n')) by {
        assert(seq!['\t'][0] == '\t');
    }
    lemma_concat_free(k, seq!['\t'], '\n');
    lemma_concat_free(k + seq!['\t'], d, '\n');
    lemma_concat_free(k + seq!['\t'] + d, seq!['\t'], '\n');
    lemma_concat_free(k + seq!['\t'] + d + seq!['\t'], j, '\n');
    // trimming changes nothing
    assert(l[0] == k[0]);
    assert(l.last() == j.last());
    lemma_trim_fixed(l);
    // the fields
    assert(l[k.len() as int] == '\t');
    assert forall|q: int| 0 <= q < k.len() implies l[q] != '\t' by {
        assert(l[q] == k[q]);
    }
    lemma_find_first_is(l, '\t', k.len() as int);
    let r = l.subrange(k.len() as int + 1, l.len() as int);
    assert(r =~= d + seq!['\t'] + j);
    assert(r[d.len() as int] == '\t');
    assert forall|q: int| 0 <= q < d.len() implies r[q] != '\t' by {
        assert(r[q] == d[q]);
    }
    lemma_find_first_is(r, '\t', d.len() as int);
    assert(l.subrange(0, k.len() as int) =~= k);
    assert(r.subrange(0, d.len() as int) =~= d);
    assert(r.subrange(d.len() as int + 1, r.len() as int) =~= j);
    lemma_parse_decimal(m.0 as nat, u32::MAX as nat);
    lemma_parsed_decimals(m.1);
    lemma_sort_u64_ascending(m.1);
}

#[verifier::rlimit(40)]
proof fn lemma_beats_text_splits(rs: Seq<(Seq<char>, (u32, Seq<u64>))>)
    requires
        forall|k: int|
            0 <= k < rs.len() ==> !record_line((#[trigger] rs[k]).0, rs[k].1).contains('\n'),
    ensures
        beats_text(rs).len() > 0,
        beats_text(rs).last() == '\n',
        split_on(beats_text(rs), '\n') == seq![beats_header()] + rs.map_values(
            |r: (Seq<char>, (u32, Seq<u64>))| record_line(r.0, r.1),
        ) + seq![Seq::<char>::empty()],
    decreases rs.len(),
{
    lemma_beats_header_shape();
    let t = beats_text(rs);
    let lines_of = rs.map_values(|r: (Seq<char>, (u32, Seq<u64>))| record_line(r.0, r.1));
    if rs.len() == 0 {
        lemma_split_no_sep(beats_header(), '\n');
        lemma_split_append(beats_header(), Seq::<char>::empty(), '\n');
        assert(beats_header() + seq!['\n'] + Seq::<char>::empty() =~= t);
        assert(seq![beats_header()] + lines_of + seq![Seq::<char>::empty()] =~= seq![
            beats_header(),
        ].push(Seq::<char>::empty()));
    } else {
        let init = rs.drop_last();
        let e = record_line(rs.last().0, rs.last().1);
        assert forall|k: int| 0 <= k < init.len() implies !record_line(
            (#[trigger] init[k]).0,
            init[k].1,
        ).contains('\n') by {
            assert(init[k] == rs[k]);
        }
        assert(!e.contains('\n')) by {
            assert(rs.last() == rs[rs.len() - 1]);
        }
        lemma_beats_text_splits(init);
        let init_lines = init.map_values(
            |r: (Seq<char>, (u32, Seq<u64>))| record_line(r.0, r.1),
        );
        let prev = beats_text(init);
        let y = prev.drop_last();
        assert(prev =~= y + seq!['\n'] + Seq::<char>::empty());
        lemma_split_append(y, Seq::<char>::empty(), '\n');
        lemma_split_len(y, '\n');
        assert(split_on(y, '\n') =~= seq![beats_header()] + init_lines) by {
            let a = split_on(y, '\n');
            let b = seq![beats_header()] + init_lines;
            assert(a.push(Seq::<char>::empty()) == b.push(Seq::<char>::empty()));
            assert(a.len() == b.len());
            assert forall|k: int| 0 <= k < a.len() implies a[k] == b[k] by {
                assert(a.push(Seq::<char>::empty())[k] == b.push(Seq::<char>::empty())[k]);
            }
        }
        lemma_split_append(y, e, '\n');
        let z = y + seq!['\n'] + e;
        lemma_split_append(z, Seq::<char>::empty(), '\n');
        assert(t =~= z + seq!['\n'] + Seq::<char>::empty());
        assert(lines_of =~= init_lines.push(e));
        assert(split_on(t, '\n') =~= seq![beats_header()] + lines_of + seq![Seq::<char>::empty()]);
    }
}

proof fn lemma_keyed_push(rs: Seq<(Seq<char>, (u32, Seq<u64>))>)
    requires
        rs.len() > 0,
        keys_ascending(rs),
    ensures
        keys_ascending(rs.drop_last()),
        !keyed(rs.drop_last()).contains_key(canon(rs.last().0)),
        keyed(rs) == keyed(rs.drop_last()).insert(canon(rs.last().0), rs.last()),
{
    let init = rs.drop_last();
    let n = rs.len() - 1;
    assert forall|i: int, j: int| 0 <= i < j < init.len() implies path_lt(
        canon(#[trigger] init[i].0),
        canon(#[trigger] init[j].0),
    ) by {
        assert(init[i] == rs[i] && init[j] == rs[j]);
    }
    assert(rs.last() == rs[n]);
    if keyed(init).contains_key(canon(rs.last().0)) {
        let c = choose|c: int| 0 <= c < init.len() && canon((#[trigger] init[c]).0) == canon(
            rs.last().0,
        );
        assert(init[c] == rs[c]);
        lemma_keys_distinct(rs, c, n);
    }
    let target = keyed(init).insert(canon(rs.last().0), rs.last());
    assert forall|k: Seq<char>| has_key(rs, k) <==> target.contains_key(k) by {
        if has_key(rs, k) {
            let c = choose|c: int| 0 <= c < rs.len() && canon((#[trigger] rs[c]).0) == k;
            if c < n {
                assert(init[c] == rs[c]);
            }
        }
        if keyed(init).contains_key(k) {
            let c = choose|c: int| 0 <= c < init.len() && canon((#[trigger] init[c]).0) == k;
            assert(rs[c] == init[c]);
        }
    }
    assert forall|a: int| 0 <= a < rs.len() implies target[canon((#[trigger] rs[a]).0)]
        == rs[a] by {
        if a < n {
            assert(init[a] == rs[a]);
            lemma_keyed_at(init, a);
            lemma_path_lt_irreflexive(canon(rs[a].0));
            assert(path_lt(canon(rs[a].0), canon(rs[n].0)));
        }
    }
    lemma_keyed_ext(rs, rs, target);
}

proof fn lemma_parse_records(rs: Seq<(Seq<char>, (u32, Seq<u64>))>)
    requires
        records_wf(rs),
        forall|k: int| 0 <= k < rs.len() ==> clean_path((#[trigger] rs[k]).0),
    ensures
        parse_body(rs.map_values(|r: (Seq<char>, (u32, Seq<u64>))| record_line(r.0, r.1)))
            == keyed(rs),
    decreases rs.len(),
{
    let ls = rs.map_values(|r: (Seq<char>, (u32, Seq<u64>))| record_line(r.0, r.1));
    if rs.len() == 0 {
        assert(keyed(rs) =~= Map::<Seq<char>, (Seq<char>, (u32, Seq<u64>))>::empty());
    } else {
        let init = rs.drop_last();
        lemma_keyed_push(rs);
        assert forall|i: int| 0 <= i < init.len() implies (#[trigger] init[i]).1.1.len() > 0
            && ascending(init[i].1.1) by {
            assert(init[i] == rs[i]);
        }
        assert forall|k: int| 0 <= k < init.len() implies clean_path((#[trigger] init[k]).0) by {
            assert(init[k] == rs[k]);
        }
        lemma_parse_records(init);
        assert(ls.drop_last() =~= init.map_values(
            |r: (Seq<char>, (u32, Seq<u64>))| record_line(r.0, r.1),
        ));
        let last = rs[rs.len() - 1];
        assert(last == rs.last());
        lemma_record_line(last.0, last.1, keyed(init));
    }
}

/// Saving a cache and reading the file back gives the same cache, the
/// same marks under the same spellings, whenever every stored spelling is
/// clean (non-empty, not starting with whitespace, no tab or line break).
pub proof fn lemma_save_load_round_trip(c: BeatCache)
    requires
        c.wf(),
        forall|k: Seq<char>| #[trigger] c.paths().contains_key(k) ==> clean_path(c.paths()[k]),
    ensures
        marks_of(parse_beats(beats_text(c.records()))) == c@,
        paths_of(parse_beats(beats_text(c.records()))) == c.paths(),
{
    let rs = c.records();
    assert forall|k: int| 0 <= k < rs.len() implies clean_path((#[trigger] rs[k]).0) by {
        lemma_keyed_at(rs, k);
        assert(c.paths().contains_key(canon(rs[k].0)));
    }
    assert forall|k: int|
        0 <= k < rs.len() implies !record_line((#[trigger] rs[k]).0, rs[k].1).contains('\n') by {
        lemma_record_line(rs[k].0, rs[k].1, Map::empty());
    }
    lemma_beats_header_shape();
    lemma_beats_text_splits(rs);
    let t = beats_text(rs);
    let ls = lines(t);
    let body = rs.map_values(|r: (Seq<char>, (u32, Seq<u64>))| record_line(r.0, r.1));
    assert(ls =~= seq![beats_header()] + body);
    assert(ls.drop_first() =~= body);
    lemma_parse_records(rs);
}


/// Default cache location: `beats.txt` next to the user config file at
/// `config_path`; `None` when there is no config location.
pub fn beats_path(config_path: Option<&str>) -> (r: Option<String>)
    ensures
        match config_path {
            Some(c) => r matches Some(s) && s@ == crate::paths::with_file_name(c@, seq!['b', 'e', 'a', 't', 's', '.', 't', 'x', 't']),
            None => r is None,
        },
{
    match config_path {
        Some(c) => {
            proof {
                reveal_strlit("beats.txt");
            }
            let f = "beats.txt";
            assert(f@ =~= seq!['b', 'e', 'a', 't', 's', '.', 't', 'x', 't']);
            Some(crate::paths::replace_file_name(c, f))
        },
        None => None,
    }
}


/// The spellings a retarget leaves: the old path's record goes, and the
/// new path keeps the spelling it has or takes `spelled`; nothing happens
/// without a record.
pub open spec fn retargeted_paths(m: Map<Seq<char>, Seq<char>>, old_path: Seq<char>, new_path: Seq<char>, spelled: Seq<char>) -> Map<
    Seq<char>,
    Seq<char>,
> {
    if m.contains_key(old_path) {
        if m.remove(old_path).contains_key(new_path) {
            m.remove(old_path)
        } else {
            m.remove(old_path).insert(new_path, spelled)
        }
    } else {
        m
    }
}

/// The map a retarget leaves: the marks move from `old_path` to
/// `new_path` (replacing any there); nothing happens without a record.
pub open spec fn retargeted_marks(m: Map<Seq<char>, (u32, Seq<u64>)>, old_path: Seq<char>, new_path: Seq<char>) -> Map<
    Seq<char>,
    (u32, Seq<u64>),
> {
    if m.contains_key(old_path) {
        m.remove(old_path).insert(new_path, m[old_path])
    } else {
        m
    }
}

/// Renaming a track and renaming it back restores the cache, when the new
/// name had no record of its own.
pub proof fn lemma_retarget_back(m: Map<Seq<char>, (u32, Seq<u64>)>, old_path: Seq<char>, new_path: Seq<char>)
    requires
        m.contains_key(old_path),
        !m.contains_key(new_path),
    ensures
        retargeted_marks(retargeted_marks(m, old_path, new_path), new_path, old_path) == m,
{
    let once = retargeted_marks(m, old_path, new_path);
    assert(once.contains_key(new_path));
    assert(retargeted_marks(once, new_path, old_path) =~= m);
}

/// After a rename the marks are found under the new path (and, when the
/// paths differ, no longer under the old one).
pub proof fn lemma_retarget_follows(m: Map<Seq<char>, (u32, Seq<u64>)>, old_path: Seq<char>, new_path: Seq<char>)
    requires
        m.contains_key(old_path),
    ensures
        retargeted_marks(m, old_path, new_path).contains_key(new_path),
        retargeted_marks(m, old_path, new_path)[new_path] == m[old_path],
        old_path != new_path ==> !retargeted_marks(m, old_path, new_path).contains_key(old_path),
{
}

/// Setting marks and reading them back gives the marks sorted, and an
/// empty set of marks un-taps the track.
pub proof fn lemma_set_then_get(m: Map<Seq<char>, (u32, Seq<u64>)>, k: Seq<char>, sr: u32, frames: Seq<u64>)
    ensures
        frames.len() == 0 ==> !m.remove(k).contains_key(k),
        frames.len() > 0 ==> m.insert(k, (sr, sort_u64(frames)))[k].1.to_multiset()
            == frames.to_multiset() && ascending(m.insert(k, (sr, sort_u64(frames)))[k].1),
{
    lemma_sort_u64(frames);
}

/// Rescaling with a known tap rate `from` maps each mark `f` to the
/// nearest frame of `f * to / from` (halves up, saturating at
/// `u64::MAX`), mark by mark; with equal rates that is the mark itself.
pub proof fn lemma_rescale_is_proportional(fs: Seq<u64>, from: u32, to: u32)
    requires
        from > 0,
    ensures
        rescaled(fs, from, to).len() == fs.len(),
        forall|i: int|
            0 <= i < fs.len() ==> #[trigger] rescaled(fs, from, to)[i] as int == if (2 * fs[i] * to
                + from) / (2 * from as int) > u64::MAX {
                u64::MAX as int
            } else {
                (2 * fs[i] * to + from) / (2 * from as int)
            },
{
    if to == from {
        assert forall|i: int| 0 <= i < fs.len() implies (2 * fs[i] * to + from) / (2 * from as int)
            == fs[i] by {
            let f = fs[i] as int;
            let d = 2 * from as int;
            assert(2 * f * to + from == f * d + from) by (nonlinear_arith)
                requires
                    to == from,
                    d == 2 * from,
            ;
            vstd::arithmetic::div_mod::lemma_fundamental_div_mod_converse(
                2 * f * to + from,
                d,
                f,
                from as int,
            );
        }
    }
}

} // verus!
