//! The sequence: the ordered list of track paths that makes the project.
//!
//! The same track may appear at any number of positions. The sequence (plus
//! each track's tapped beats) is all the engine renders a mix from, so
//! saving the sequence saves the project. Its file format is plain text: a
//! version header, then one track path per line.
use vstd::prelude::*;
use crate::paths::{path_eq, same_path};
use crate::text::{
    chars_of, copy_range, lemma_split_append, lemma_split_len, lemma_split_no_sep, lines,
    range_eq, split_on, split_ranges, string_of, trim, trim_bounds, trim_end, trim_start,
};

verus! {

/// First line of a sequence file; the suffix changes on a breaking change.
pub const SEQUENCE_HEADER: &'static str = "# termkrush sequence v1";

/// The header's characters.
pub open spec fn sequence_header() -> Seq<char> {
    SEQUENCE_HEADER@
}

/// The ordered track sequence. Repeats are allowed (entry 1 and entry 5 may
/// name the same file).
#[derive(Debug, Clone, PartialEq, Eq)]
pub struct Sequence {
    entries: Vec<String>,
}

impl View for Sequence {
    type V = Seq<Seq<char>>;

    closed spec fn view(&self) -> Seq<Seq<char>> {
        self.entries@.map_values(|e: String| e@)
    }
}

/// `es` with every entry naming the same path as `old` (component by
/// component) replaced by `new`.
pub open spec fn retargeted(es: Seq<Seq<char>>, old: Seq<char>, new: Seq<char>) -> Seq<Seq<char>> {
    es.map_values(|e: Seq<char>| if same_path(e, old) { new } else { e })
}

/// `es` without the entries naming the same path as `x`, the rest in order.
pub open spec fn without(es: Seq<Seq<char>>, x: Seq<char>) -> Seq<Seq<char>>
    decreases es.len(),
{
    if es.len() == 0 {
        es
    } else if same_path(es.last(), x) {
        without(es.drop_last(), x)
    } else {
        without(es.drop_last(), x).push(es.last())
    }
}

/// `es` with the entry at `from` taken out and put back in at `to`.
pub open spec fn moved(es: Seq<Seq<char>>, from: int, to: int) -> Seq<Seq<char>> {
    es.remove(from).insert(to, es[from])
}

/// The entries a sequence file's body lines give: each line trimmed, the
/// blank ones dropped.
pub open spec fn body_entries(ls: Seq<Seq<char>>) -> Seq<Seq<char>>
    decreases ls.len(),
{
    if ls.len() == 0 {
        ls
    } else if trim(ls.last()).len() > 0 {
        body_entries(ls.drop_last()).push(trim(ls.last()))
    } else {
        body_entries(ls.drop_last())
    }
}

/// What a sequence file holds: its entries when the first line (trimmed)
/// is the header, else nothing.
pub open spec fn parse_sequence(text: Seq<char>) -> Seq<Seq<char>> {
    let ls = lines(text);
    if ls.len() > 0 && trim(ls[0]) == sequence_header() {
        body_entries(ls.drop_first())
    } else {
        Seq::empty()
    }
}

/// The text a sequence is saved as: the header, then one entry per line,
/// every line ending in a newline.
pub open spec fn sequence_text(es: Seq<Seq<char>>) -> Seq<char>
    decreases es.len(),
{
    if es.len() == 0 {
        sequence_header().push('\n')
    } else {
        sequence_text(es.drop_last()) + es.last().push('\n')
    }
}

/// An entry that survives a save and load unchanged: non-empty, no
/// surrounding whitespace, no line break.
pub open spec fn clean_entry(e: Seq<char>) -> bool {
    e.len() > 0 && trim(e) == e && !e.contains('\n')
}

impl Default for Sequence {
    /// The empty sequence.
    fn default() -> (s: Self)
        ensures
            s@ == Seq::<Seq<char>>::empty(),
    {
        let s = Sequence { entries: Vec::new() };
        proof {
            assert(s@ =~= Seq::<Seq<char>>::empty());
        }
        s
    }
}

impl Sequence {
    /// The entries in play order.
    pub fn entries(&self) -> (r: &[String])
        ensures
            r@.map_values(|e: String| e@) == self@,
    {
        self.entries.as_slice()
    }

    pub fn len(&self) -> (r: usize)
        ensures
            r == self@.len(),
    {
        self.entries.len()
    }

    pub fn is_empty(&self) -> (r: bool)
        ensures
            r == (self@.len() == 0),
    {
        self.entries.len() == 0
    }

    /// Insert `track` so it plays at position `idx` (clamped to the end).
    pub fn insert(&mut self, idx: usize, track: String)
        ensures
            final(self)@ == old(self)@.insert(
                if idx < old(self)@.len() {
                    idx as int
                } else {
                    old(self)@.len() as int
                },
                track@,
            ),
    {
        let i = if idx < self.entries.len() {
            idx
        } else {
            self.entries.len()
        };
        let ghost t = track@;
        self.entries.insert(i, track);
        proof {
            assert(self@ =~= old(self)@.insert(i as int, t));
        }
    }

    /// Append `track` at the end.
    pub fn push(&mut self, track: String)
        ensures
            final(self)@ == old(self)@.push(track@),
    {
        let ghost t = track@;
        self.entries.push(track);
        proof {
            assert(self@ =~= old(self)@.push(t));
        }
    }

    /// Remove the entry at `idx` (out of range is a no-op).
    pub fn remove(&mut self, idx: usize)
        ensures
            final(self)@ == if idx < old(self)@.len() {
                old(self)@.remove(idx as int)
            } else {
                old(self)@
            },
    {
        if idx < self.entries.len() {
            self.entries.remove(idx);
            proof {
                assert(self@ =~= old(self)@.remove(idx as int));
            }
        }
    }

    /// Move the entry at `from` so it sits at `to` (both current positions;
    /// an out-of-range index is a no-op).
    pub fn move_entry(&mut self, from: usize, to: usize)
        ensures
            final(self)@ == if from < old(self)@.len() && to < old(self)@.len() {
                moved(old(self)@, from as int, to as int)
            } else {
                old(self)@
            },
    {
        if from >= self.entries.len() || to >= self.entries.len() {
            return;
        }
        let e = self.entries.remove(from);
        let ghost mid = self@;
        let ghost ev = e@;
        proof {
            assert(mid =~= old(self)@.remove(from as int));
        }
        self.entries.insert(to, e);
        proof {
            assert(self@ =~= mid.insert(to as int, ev));
        }
    }

    /// Point every entry naming `old_path` (the same path, component by
    /// component) at `new_path`, keeping the sequence intact
    /// when a track is renamed or moved.
    pub fn retarget(&mut self, old_path: &str, new_path: &str)
        ensures
            final(self)@ == retargeted(old(self)@, old_path@, new_path@),
    {
        let o: String = old_path.to_owned();
        let n: String = new_path.to_owned();
        let mut i: usize = 0;
        while i < self.entries.len()
            invariant
                o@ == old_path@,
                n@ == new_path@,
                i <= self.entries.len() == old(self).entries.len(),
                forall|k: int|
                    0 <= k < i ==> (#[trigger] self.entries@[k])@ == (if same_path(
                        old(self).entries@[k]@,
                        old_path@,
                    ) {
                        new_path@
                    } else {
                        old(self).entries@[k]@
                    }),
                forall|k: int| i <= k < self.entries.len() ==> #[trigger] self.entries@[k] == old(
                    self,
                ).entries@[k],
            decreases self.entries.len() - i,
        {
            if path_eq(self.entries[i].as_str(), old_path) {
                self.entries.set(i, n.clone());
            }
            i = i + 1;
        }
        proof {
            assert(self@ =~= retargeted(old(self)@, old_path@, new_path@));
        }
    }

    /// Drop every entry naming `track` (after a library delete).
    pub fn purge(&mut self, track: &str)
        ensures
            final(self)@ == without(old(self)@, track@),
    {
        let t: String = track.to_owned();
        let mut kept: Vec<String> = Vec::new();
        let mut i: usize = 0;
        while i < self.entries.len()
            invariant
                t@ == track@,
                i <= self.entries.len(),
                *self == *old(self),
                kept@.map_values(|e: String| e@) == without(
                    self@.subrange(0, i as int),
                    track@,
                ),
            decreases self.entries.len() - i,
        {
            let ghost pre = self@.subrange(0, i as int);
            proof {
                assert(self@.subrange(0, i + 1).drop_last() =~= pre);
                assert(self@.subrange(0, i + 1).last() == self.entries@[i as int]@);
            }
            if !path_eq(self.entries[i].as_str(), track) {
                let ghost before = kept@;
                kept.push(self.entries[i].clone());
                proof {
                    assert(kept@.map_values(|e: String| e@) =~= before.map_values(
                        |e: String| e@,
                    ).push(self.entries@[i as int]@));
                }
            }
            i = i + 1;
        }
        proof {
            assert(self@.subrange(0, self@.len() as int) =~= self@);
        }
        self.entries = kept;
    }

    /// The text this sequence is saved as.
    pub fn to_text(&self) -> (r: String)
        ensures
            r@ == sequence_text(self@),
    {
        let mut out = chars_of(SEQUENCE_HEADER);
        out.push('\n');
        let mut i: usize = 0;
        while i < self.entries.len()
            invariant
                i <= self.entries.len(),
                out@ == sequence_text(self@.subrange(0, i as int)),
            decreases self.entries.len() - i,
        {
            let mut e = chars_of(self.entries[i].as_str());
            e.push('\n');
            let ghost line = e@;
            out.append(&mut e);
            proof {
                let s = self@.subrange(0, i + 1);
                assert(s.drop_last() =~= self@.subrange(0, i as int));
                assert(s.last() == self.entries@[i as int]@);
            }
            i = i + 1;
        }
        proof {
            assert(self@.subrange(0, self@.len() as int) =~= self@);
        }
        string_of(out.as_slice())
    }

    /// Read a sequence from the text of a sequence file. A file without
    /// the header (damaged, or some other file) gives the empty sequence.
    pub fn from_text(text: &str) -> (r: Sequence)
        ensures
            r@ == parse_sequence(text@),
    {
        let cs = chars_of(text);
        let n = cs.len();
        let mut out = Sequence { entries: Vec::new() };
        proof {
            assert(out@ =~= Seq::<Seq<char>>::empty());
        }
        if n == 0 {
            return out;
        }
        let pieces = split_ranges(&cs, 0, n, '\n');
        proof {
            assert(cs@.subrange(0, n as int) =~= cs@);
            lemma_split_len(cs@, '\n');
        }
        let count = if cs[n - 1] == '\n' {
            pieces.len() - 1
        } else {
            pieces.len()
        };
        let ghost ls = lines(text@);
        assert(ls.len() == count);
        assert(forall|k: int|
            0 <= k < count ==> cs@.subrange((#[trigger] pieces[k]).0 as int, pieces[k].1 as int)
                == ls[k]);
        if count == 0 {
            return out;
        }
        let (h0, h1) = trim_bounds(&cs, pieces[0].0, pieces[0].1);
        let header = chars_of(SEQUENCE_HEADER);
        if !range_eq(&cs, h0, h1, &header) {
            return out;
        }
        let mut k: usize = 1;
        while k < count
            invariant
                1 <= k <= count <= pieces.len(),
                ls.len() == count,
                forall|j: int|
                    0 <= j < pieces.len() ==> (#[trigger] pieces[j]).0 <= pieces[j].1 <= cs.len(),
                forall|j: int|
                    0 <= j < count ==> cs@.subrange(
                        (#[trigger] pieces[j]).0 as int,
                        pieces[j].1 as int,
                    ) == ls[j],
                out@ == body_entries(ls.subrange(1, k as int)),
            decreases count - k,
        {
            let (a, b) = trim_bounds(&cs, pieces[k].0, pieces[k].1);
            proof {
                let s = ls.subrange(1, k + 1);
                assert(s.drop_last() =~= ls.subrange(1, k as int));
                assert(s.last() == ls[k as int]);
            }
            if a < b {
                let e = copy_range(&cs, a, b);
                out.push(string_of(e.as_slice()));
            }
            k = k + 1;
        }
        proof {
            assert(ls.subrange(1, count as int) =~= ls.drop_first());
        }
        out
    }
}

proof fn lemma_header_shape()
    ensures
        sequence_header().len() > 0,
        !sequence_header().contains('\n'),
        trim(sequence_header()) == sequence_header(),
{
    reveal_strlit("# termkrush sequence v1");
    let h = sequence_header();
    assert(h.len() == 23);
    assert(!h.contains('\n')) by {
        assert forall|k: int| 0 <= k < h.len() implies h[k] != '\n' by {
            reveal_strlit("# termkrush sequence v1");
        }
    }
    assert(trim_start(h) == h);
    assert(trim_end(h) == h);
}

proof fn lemma_text_splits(es: Seq<Seq<char>>)
    requires
        forall|k: int| 0 <= k < es.len() ==> !(#[trigger] es[k]).contains('\n'),
    ensures
        sequence_text(es).len() > 0,
        sequence_text(es).last() == '\n',
        split_on(sequence_text(es), '\n') == seq![sequence_header()] + es + seq![
            Seq::<char>::empty(),
        ],
    decreases es.len(),
{
    lemma_header_shape();
    let t = sequence_text(es);
    if es.len() == 0 {
        lemma_split_no_sep(sequence_header(), '\n');
        lemma_split_append(sequence_header(), Seq::<char>::empty(), '\n');
        assert(sequence_header() + seq!['\n'] + Seq::<char>::empty() =~= t);
        assert(seq![sequence_header()] + es + seq![Seq::<char>::empty()] =~= seq![
            sequence_header(),
        ].push(Seq::<char>::empty()));
    } else {
        let init = es.drop_last();
        let e = es.last();
        assert forall|k: int| 0 <= k < init.len() implies !(#[trigger] init[k]).contains('\n') by {
            assert(init[k] == es[k]);
        }
        assert(!e.contains('\n')) by {
            assert(e == es[es.len() - 1]);
        }
        lemma_text_splits(init);
        let prev = sequence_text(init);
        let y = prev.drop_last();
        assert(prev =~= y + seq!['\n'] + Seq::<char>::empty());
        lemma_split_append(y, Seq::<char>::empty(), '\n');
        lemma_split_len(y, '\n');
        assert(split_on(y, '\n') =~= seq![sequence_header()] + init) by {
            let a = split_on(y, '\n');
            let b = seq![sequence_header()] + init;
            assert(a.push(Seq::<char>::empty()) == b.push(Seq::<char>::empty()));
            assert(a.len() == b.len());
            assert forall|k: int| 0 <= k < a.len() implies a[k] == b[k] by {
                assert(a.push(Seq::<char>::empty())[k] == b.push(Seq::<char>::empty())[k]);
            }
        }
        lemma_split_append(y, e, '\n');
        let z = y + seq!['\n'] + e;
        lemma_split_append(z, Seq::<char>::empty(), '\n');
        assert(t =~= z + seq!['\n'] + Seq::<char>::empty());
        assert(split_on(t, '\n') =~= seq![sequence_header()] + es + seq![Seq::<char>::empty()]);
    }
}

proof fn lemma_body_of_clean(es: Seq<Seq<char>>)
    requires
        forall|k: int| 0 <= k < es.len() ==> clean_entry(#[trigger] es[k]),
    ensures
        body_entries(es) == es,
    decreases es.len(),
{
    if es.len() > 0 {
        let init = es.drop_last();
        assert forall|k: int| 0 <= k < init.len() implies clean_entry(#[trigger] init[k]) by {
            assert(init[k] == es[k]);
        }
        lemma_body_of_clean(init);
        assert(clean_entry(es[es.len() - 1]));
        assert(init.push(es.last()) =~= es);
    }
}

/// Saving a sequence and reading the file back gives the same sequence,
/// order and repeats included, whenever every entry is a clean path (no
/// surrounding whitespace or line break, not empty).
pub proof fn lemma_save_load_round_trip(s: Sequence)
    requires
        forall|k: int| 0 <= k < s@.len() ==> clean_entry(#[trigger] s@[k]),
    ensures
        parse_sequence(sequence_text(s@)) == s@,
{
    let es = s@;
    lemma_header_shape();
    assert forall|k: int| 0 <= k < es.len() implies !(#[trigger] es[k]).contains('\n') by {
        assert(clean_entry(es[k]));
    }
    lemma_text_splits(es);
    let t = sequence_text(es);
    let ls = lines(t);
    assert(ls =~= seq![sequence_header()] + es);
    assert(ls.drop_first() =~= es);
    lemma_body_of_clean(es);
}


/// Default project file location: `sequence.txt` next to the user config file at
/// `config_path`; `None` when there is no config location.
pub fn sequence_path(config_path: Option<&str>) -> (r: Option<String>)
    ensures
        match config_path {
            Some(c) => r matches Some(s) && s@ == crate::paths::with_file_name(c@, seq!['s', 'e', 'q', 'u', 'e', 'n', 'c', 'e', '.', 't', 'x', 't']),
            None => r is None,
        },
{
    match config_path {
        Some(c) => {
            proof {
                reveal_strlit("sequence.txt");
            }
            let f = "sequence.txt";
            assert(f@ =~= seq!['s', 'e', 'q', 'u', 'e', 'n', 'c', 'e', '.', 't', 'x', 't']);
            Some(crate::paths::replace_file_name(c, f))
        },
        None => None,
    }
}


/// Moving an entry and then moving it back restores the sequence.
pub proof fn lemma_move_back(es: Seq<Seq<char>>, from: int, to: int)
    requires
        0 <= from < es.len(),
        0 <= to < es.len(),
    ensures
        moved(moved(es, from, to), to, from) == es,
        moved(es, from, to).len() == es.len(),
        moved(es, from, to)[to] == es[from],
{
    let m = moved(es, from, to);
    assert(m[to] == es[from]);
    assert(m.remove(to) =~= es.remove(from));
    assert(moved(m, to, from) =~= es);
}

/// After a retarget to a different path, no entry names the old path; the
/// length and every entry naming another path stay.
pub proof fn lemma_retarget_clears(es: Seq<Seq<char>>, old_path: Seq<char>, new_path: Seq<char>)
    requires
        !same_path(old_path, new_path),
    ensures
        forall|i: int|
            0 <= i < es.len() ==> !same_path(
                #[trigger] retargeted(es, old_path, new_path)[i],
                old_path,
            ),
        retargeted(es, old_path, new_path).len() == es.len(),
        forall|i: int|
            0 <= i < es.len() && !same_path(es[i], old_path) ==> #[trigger] retargeted(
                es,
                old_path,
                new_path,
            )[i] == es[i],
{
}

/// After a purge no entry names the purged track, and a sequence without
/// that track is left as it was.
pub proof fn lemma_purge_removes(es: Seq<Seq<char>>, x: Seq<char>)
    ensures
        forall|k: int| 0 <= k < without(es, x).len() ==> !same_path(#[trigger] without(es, x)[k], x),
        (forall|k: int| 0 <= k < es.len() ==> !same_path(#[trigger] es[k], x)) ==> without(es, x)
            == es,
        without(es, x).len() <= es.len(),
    decreases es.len(),
{
    if es.len() > 0 {
        let init = es.drop_last();
        lemma_purge_removes(init, x);
        let w = without(es, x);
        let wi = without(init, x);
        if forall|k: int| 0 <= k < es.len() ==> !same_path(#[trigger] es[k], x) {
            assert forall|k: int| 0 <= k < init.len() implies !same_path(#[trigger] init[k], x) by {
                assert(init[k] == es[k]);
            }
            assert(!same_path(es[es.len() - 1], x));
            assert(init.push(es.last()) =~= es);
        }
        if !same_path(es.last(), x) {
            assert(w == wi.push(es.last()));
            assert forall|k: int| 0 <= k < w.len() implies !same_path(#[trigger] w[k], x) by {
                if k < wi.len() {
                    assert(w[k] == wi[k]);
                }
            }
        }
    }
}

/// Purging `x` keeps exactly the entries that name another path, in the
/// order they had: the result is `es` filtered by "not the same path as
/// `x`".
pub proof fn lemma_purge_keeps_the_rest_in_order(es: Seq<Seq<char>>, x: Seq<char>)
    ensures
        without(es, x) == es.filter(|e: Seq<char>| !same_path(e, x)),
    decreases es.len(),
{
    reveal_with_fuel(Seq::filter, 1);
    if es.len() > 0 {
        lemma_purge_keeps_the_rest_in_order(es.drop_last(), x);
    }
}

/// Retargeting changes exactly the entries that name `old`, each to
/// `new`, and keeps every other entry where it was.
pub proof fn lemma_retarget_pointwise(es: Seq<Seq<char>>, old: Seq<char>, new: Seq<char>)
    ensures
        retargeted(es, old, new).len() == es.len(),
        forall|i: int|
            0 <= i < es.len() ==> #[trigger] retargeted(es, old, new)[i] == if same_path(es[i], old) {
                new
            } else {
                es[i]
            },
{
}

} // verus!
