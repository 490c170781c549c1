//! Track library: the local list of audio files the UI browses, one
//! directory at a time under a configured root.
//!
//! A listing shows subfolders first, then audio files (`.wav` / `.mp3`),
//! each group in case-insensitive name order, with a leading `..` entry
//! below the root. The root is the ceiling. Reading the directory itself is
//! the caller's job: it hands over the names it found.
use vstd::prelude::*;
use crate::paths::{
    join, joined, lemma_resolves_under_itself, parent, parent_of, path_eq, resolves_under, resolves_within,
    same_path,
};
use crate::text::{
    chars_lt, chars_of, lemma_seq_lt_asymmetric, lemma_seq_lt_irreflexive, lemma_seq_lt_total, lemma_seq_lt_transitive, seq_lt,
};

verus! {

/// What `char::to_lowercase` yields for `c` (one or more characters, by
/// the Unicode case tables).
pub uninterp spec fn char_lower(c: char) -> Seq<char>;

/// What `str::to_lowercase` yields for `s`.
pub uninterp spec fn str_lower(s: Seq<char>) -> Seq<char>;

/// The lowercase mapping of `c` (`char::to_lowercase`). Its result is the
/// standard library's, named by `char_lower`; nothing more is stated.
#[verifier::external_body]
fn lowercase_char(c: char) -> (r: Vec<char>)
    ensures
        r@ == char_lower(c),
{
    c.to_lowercase().collect()
}

/// The lowercase form of `s` (`str::to_lowercase`). Its result is the
/// standard library's, named by `str_lower`; nothing more is stated.
#[verifier::external_body]
fn lowercase_str(s: &str) -> (r: String)
    ensures
        r@ == str_lower(s@),
{
    s.to_lowercase()
}

/// `s` with every character lowercased in turn
/// (`chars().flat_map(char::to_lowercase)`).
pub open spec fn lowered(s: Seq<char>) -> Seq<char>
    decreases s.len(),
{
    if s.len() == 0 {
        s
    } else {
        lowered(s.drop_last()) + char_lower(s.last())
    }
}

/// Whether `n` occurs in `h` as a subsequence: some strictly increasing
/// choice of positions in `h` spells `n`.
pub open spec fn embeds(n: Seq<char>, h: Seq<char>) -> bool {
    exists|f: Seq<int>| #[trigger] is_embedding(f, n, h)
}

/// Whether the positions `f` (strictly increasing, inside `h`) spell `n`.
pub open spec fn is_embedding(f: Seq<int>, n: Seq<char>, h: Seq<char>) -> bool {
    &&& f.len() == n.len()
    &&& forall|i: int| 0 <= i < f.len() ==> 0 <= #[trigger] f[i] < h.len() && h[f[i]] == n[i]
    &&& forall|i: int, j: int| 0 <= i < j < f.len() ==> #[trigger] f[i] < #[trigger] f[j]
}

/// The greedy scan: match each character of `n` at its earliest place in
/// what is left of `h`.
pub open spec fn greedy_match(n: Seq<char>, h: Seq<char>) -> bool
    decreases h.len(),
{
    if n.len() == 0 {
        true
    } else if h.len() == 0 {
        false
    } else if n[0] == h[0] {
        greedy_match(n.drop_first(), h.drop_first())
    } else {
        greedy_match(n, h.drop_first())
    }
}

/// The greedy scan finds a subsequence exactly when there is one.
pub proof fn lemma_greedy_is_embedding(n: Seq<char>, h: Seq<char>)
    ensures
        greedy_match(n, h) <==> embeds(n, h),
    decreases h.len(),
{
    if n.len() == 0 {
        let f = Seq::<int>::empty();
        assert(is_embedding(f, n, h));
    } else if h.len() == 0 {
        if embeds(n, h) {
            let f = choose|f: Seq<int>| is_embedding(f, n, h);
            assert(0 <= f[0] < h.len());
        }
    } else if n[0] == h[0] {
        let n1 = n.drop_first();
        let h1 = h.drop_first();
        lemma_greedy_is_embedding(n1, h1);
        if greedy_match(n1, h1) {
            let g = choose|f: Seq<int>| is_embedding(f, n1, h1);
            let f = seq![0int] + g.map_values(|x: int| x + 1);
            assert forall|i: int| 0 <= i < f.len() implies 0 <= #[trigger] f[i] < h.len() && h[f[i]]
                == n[i] by {
                if i > 0 {
                    assert(f[i] == g[i - 1] + 1);
                }
            }
            assert forall|i: int, j: int| 0 <= i < j < f.len() implies #[trigger] f[i]
                < #[trigger] f[j] by {
                if i > 0 {
                    assert(f[i] == g[i - 1] + 1 && f[j] == g[j - 1] + 1);
                    assert(g[i - 1] < g[j - 1]);
                } else {
                    assert(f[j] == g[j - 1] + 1);
                    assert(0 <= g[j - 1]);
                }
            }
            assert(is_embedding(f, n, h));
        }
        if embeds(n, h) {
            let f = choose|f: Seq<int>| is_embedding(f, n, h);
            let g = f.drop_first().map_values(|x: int| x - 1);
            assert forall|i: int| 0 <= i < g.len() implies 0 <= #[trigger] g[i] < h1.len()
                && h1[g[i]] == n1[i] by {
                assert(f[0] < f[i + 1]);
                assert(0 <= f[0]);
                assert(g[i] == f[i + 1] - 1);
            }
            assert forall|i: int, j: int| 0 <= i < j < g.len() implies #[trigger] g[i]
                < #[trigger] g[j] by {
                assert(f[i + 1] < f[j + 1]);
            }
            assert(is_embedding(g, n1, h1));
        }
    } else {
        let h1 = h.drop_first();
        lemma_greedy_is_embedding(n, h1);
        if greedy_match(n, h1) {
            let g = choose|f: Seq<int>| is_embedding(f, n, h1);
            let f = g.map_values(|x: int| x + 1);
            assert forall|i: int| 0 <= i < f.len() implies 0 <= #[trigger] f[i] < h.len() && h[f[i]]
                == n[i] by {
                assert(f[i] == g[i] + 1);
            }
            assert forall|i: int, j: int| 0 <= i < j < f.len() implies #[trigger] f[i]
                < #[trigger] f[j] by {
                assert(g[i] < g[j]);
            }
            assert(is_embedding(f, n, h));
        }
        if embeds(n, h) {
            let f = choose|f: Seq<int>| is_embedding(f, n, h);
            assert(f[0] != 0);
            let g = f.map_values(|x: int| x - 1);
            assert forall|i: int| 0 <= i < g.len() implies 0 <= #[trigger] g[i] < h1.len()
                && h1[g[i]] == n[i] by {
                if i > 0 {
                    assert(f[0] < f[i]);
                }
                assert(g[i] == f[i] - 1);
            }
            assert forall|i: int, j: int| 0 <= i < j < g.len() implies #[trigger] g[i]
                < #[trigger] g[j] by {
                assert(f[i] < f[j]);
            }
            assert(is_embedding(g, n, h1));
        }
    }
}

fn lowered_chars(s: &str) -> (r: Vec<char>)
    ensures
        r@ == lowered(s@),
{
    let cs = chars_of(s);
    let mut out: Vec<char> = Vec::new();
    let mut i: usize = 0;
    while i < cs.len()
        invariant
            i <= cs.len(),
            cs@ == s@,
            out@ == lowered(cs@.subrange(0, i as int)),
        decreases cs.len() - i,
    {
        let mut l = lowercase_char(cs[i]);
        out.append(&mut l);
        proof {
            let p = cs@.subrange(0, i + 1);
            assert(p.drop_last() =~= cs@.subrange(0, i as int));
            assert(p.last() == cs@[i as int]);
        }
        i = i + 1;
    }
    proof {
        assert(cs@.subrange(0, cs@.len() as int) =~= cs@);
    }
    out
}

/// Case-insensitive subsequence match: every character of `needle` occurs
/// in `haystack` in order (both lowercased character by character). An
/// empty needle matches everything.
pub fn fuzzy_subsequence(haystack: &str, needle: &str) -> (r: bool)
    ensures
        r == embeds(lowered(needle@), lowered(haystack@)),
{
    let h = lowered_chars(haystack);
    let n = lowered_chars(needle);
    let mut i: usize = 0;
    let mut j: usize = 0;
    proof {
        assert(n@.subrange(0, n@.len() as int) =~= n@);
        assert(h@.subrange(0, h@.len() as int) =~= h@);
        lemma_greedy_is_embedding(n@, h@);
    }
    while i < n.len() && j < h.len()
        invariant
            i <= n.len(),
            j <= h.len(),
            greedy_match(n@, h@) == greedy_match(
                n@.subrange(i as int, n@.len() as int),
                h@.subrange(j as int, h@.len() as int),
            ),
        decreases h.len() - j,
    {
        let ghost ns = n@.subrange(i as int, n@.len() as int);
        let ghost hs = h@.subrange(j as int, h@.len() as int);
        proof {
            assert(ns[0] == n@[i as int]);
            assert(hs[0] == h@[j as int]);
            assert(hs.drop_first() =~= h@.subrange(j + 1, h@.len() as int));
            assert(ns.drop_first() =~= n@.subrange(i + 1, n@.len() as int));
        }
        if n[i] == h[j] {
            i = i + 1;
        }
        j = j + 1;
    }
    proof {
        if i == n.len() {
            assert(n@.subrange(i as int, n@.len() as int).len() == 0);
        }
    }
    i == n.len()
}


/// The extension of file name `name` (`Path::extension`): what follows the
/// last `.`, unless there is none, the name starts with its only `.`, or
/// the name is `..`.
pub open spec fn extension(name: Seq<char>) -> Option<Seq<char>>
    decreases name.len(),
{
    if name == seq!['.', '.'] {
        None
    } else {
        last_dot_split(name, name.len() as int)
    }
}

/// The part after the last `.` among the first `k` characters, when that
/// `.` is not the first character.
pub open spec fn last_dot_split(name: Seq<char>, k: int) -> Option<Seq<char>>
    decreases k,
{
    if k <= 0 {
        None
    } else if name[k - 1] == '.' {
        if k - 1 == 0 {
            None
        } else {
            Some(name.subrange(k, name.len() as int))
        }
    } else {
        last_dot_split(name, k - 1)
    }
}

/// Whether `e` equals the lowercase word `word` up to ASCII case.
pub open spec fn ascii_ieq(e: Seq<char>, word: Seq<char>) -> bool {
    e.len() == word.len() && forall|i: int|
        0 <= i < e.len() ==> #[trigger] e[i] == word[i] || ('a' <= word[i] <= 'z' && e[i] as int
            == word[i] as int - 32)
}

/// Whether a file named `name` is a supported audio file (`.wav` or
/// `.mp3`, any ASCII case).
pub open spec fn audio_name(name: Seq<char>) -> bool {
    match extension(name) {
        Some(e) => ascii_ieq(e, seq!['w', 'a', 'v']) || ascii_ieq(e, seq!['m', 'p', '3']),
        None => false,
    }
}

fn ieq_char(c: char, lower: char) -> (r: bool)
    ensures
        r == (c == lower || ('a' <= lower <= 'z' && c as int == lower as int - 32)),
{
    if c == lower {
        return true;
    }
    if 'a' <= lower && lower <= 'z' {
        let u = c as u32;
        let l = lower as u32;
        u + 32 == l
    } else {
        false
    }
}

/// Whether a file named `name` is a supported audio file.
pub fn is_audio(name: &str) -> (r: bool)
    ensures
        r == audio_name(name@),
{
    let cs = chars_of(name);
    let n = cs.len();
    if n == 2 && cs[0] == '.' && cs[1] == '.' {
        proof {
            assert(cs@ =~= seq!['.', '.']);
        }
        return false;
    }
    proof {
        if n == 2 {
            assert(cs@ != seq!['.', '.'] ) by {
                if cs@ == seq!['.', '.'] {
                    assert(cs@[0] == '.' && cs@[1] == '.');
                }
            }
        }
    }
    let mut k = n;
    while k > 0 && cs[k - 1] != '.'
        invariant
            k <= n == cs.len(),
            last_dot_split(cs@, n as int) == last_dot_split(cs@, k as int),
        decreases k,
    {
        k = k - 1;
    }
    if k <= 1 {
        return false;
    }
    if n - k != 3 {
        return false;
    }
    let a0 = ieq_char(cs[k], 'w') && ieq_char(cs[k + 1], 'a') && ieq_char(cs[k + 2], 'v');
    let a1 = ieq_char(cs[k], 'm') && ieq_char(cs[k + 1], 'p') && ieq_char(cs[k + 2], '3');
    proof {
        let e = cs@.subrange(k as int, n as int);
        assert(e[0] == cs@[k as int] && e[1] == cs@[k + 1] && e[2] == cs@[k + 2]);
        let w = seq!['w', 'a', 'v'];
        let m = seq!['m', 'p', '3'];
        if a0 {
            assert forall|i: int| 0 <= i < e.len() implies #[trigger] e[i] == w[i] || ('a' <= w[i]
                <= 'z' && e[i] as int == w[i] as int - 32) by {
                if i == 0 {
                } else if i == 1 {
                } else {
                }
            }
        }
        if a1 {
            assert forall|i: int| 0 <= i < e.len() implies #[trigger] e[i] == m[i] || ('a' <= m[i]
                <= 'z' && e[i] as int == m[i] as int - 32) by {
                if i == 0 {
                } else if i == 1 {
                } else {
                }
            }
        }
        if ascii_ieq(e, w) {
            assert(e[0] == w[0] || ('a' <= w[0] <= 'z' && e[0] as int == w[0] as int - 32));
            assert(e[1] == w[1] || ('a' <= w[1] <= 'z' && e[1] as int == w[1] as int - 32));
            assert(e[2] == w[2] || ('a' <= w[2] <= 'z' && e[2] as int == w[2] as int - 32));
        }
        if ascii_ieq(e, m) {
            assert(e[0] == m[0] || ('a' <= m[0] <= 'z' && e[0] as int == m[0] as int - 32));
            assert(e[1] == m[1] || ('a' <= m[1] <= 'z' && e[1] as int == m[1] as int - 32));
            assert(e[2] == m[2] || ('a' <= m[2] <= 'z' && e[2] as int == m[2] as int - 32));
        }
    }
    a0 || a1
}


/// One name found in a directory, and whether it is a directory.
#[derive(Debug, Clone)]
pub struct DirItem {
    pub name: String,
    pub is_dir: bool,
}

impl View for DirItem {
    type V = (Seq<char>, bool);

    open spec fn view(&self) -> (Seq<char>, bool) {
        (self.name@, self.is_dir)
    }
}

/// One entry in the current directory: a subfolder or an audio file.
#[derive(Debug, Clone, PartialEq, Eq)]
pub struct CrateEntry {
    /// Path to the file (or directory).
    pub path: String,
    /// Name for display (a folder, the `..` up-entry, or a file name).
    pub name: String,
    /// `true` for a directory (navigable), `false` for a track.
    pub is_dir: bool,
}

impl View for CrateEntry {
    type V = (Seq<char>, Seq<char>, bool);

    open spec fn view(&self) -> (Seq<char>, Seq<char>, bool) {
        (self.path@, self.name@, self.is_dir)
    }
}

/// The key entries sort by: the lowercased name.
pub open spec fn name_key(e: (Seq<char>, Seq<char>, bool)) -> Seq<char> {
    str_lower(e.1)
}

/// `s` with `x` placed after every entry whose key does not sort after
/// `x`'s (one step of a stable insertion sort).
pub open spec fn insert_by_name(s: Seq<(Seq<char>, Seq<char>, bool)>, x: (Seq<char>, Seq<char>, bool)) -> Seq<
    (Seq<char>, Seq<char>, bool),
>
    decreases s.len(),
{
    if s.len() == 0 || !seq_lt(name_key(x), name_key(s.last())) {
        s.push(x)
    } else {
        insert_by_name(s.drop_last(), x).push(s.last())
    }
}

/// `s` stably sorted by lowercased name.
pub open spec fn sort_by_name(s: Seq<(Seq<char>, Seq<char>, bool)>) -> Seq<(Seq<char>, Seq<char>, bool)>
    decreases s.len(),
{
    if s.len() == 0 {
        s
    } else {
        insert_by_name(sort_by_name(s.drop_last()), s.last())
    }
}

/// The folders among `items`, as entries under `dir`.
pub open spec fn folder_entries(dir: Seq<char>, items: Seq<(Seq<char>, bool)>) -> Seq<(Seq<char>, Seq<char>, bool)>
    decreases items.len(),
{
    if items.len() == 0 {
        Seq::empty()
    } else if items.last().1 {
        folder_entries(dir, items.drop_last()).push((joined(dir, items.last().0), items.last().0, true))
    } else {
        folder_entries(dir, items.drop_last())
    }
}

/// The audio files among `items`, as entries under `dir`.
pub open spec fn track_entries(dir: Seq<char>, items: Seq<(Seq<char>, bool)>) -> Seq<(Seq<char>, Seq<char>, bool)>
    decreases items.len(),
{
    if items.len() == 0 {
        Seq::empty()
    } else if !items.last().1 && audio_name(items.last().0) {
        track_entries(dir, items.drop_last()).push((joined(dir, items.last().0), items.last().0, false))
    } else {
        track_entries(dir, items.drop_last())
    }
}

/// The listing of directory `dir` (below or at `root`) holding `items`:
/// a `..` entry for the parent when below the root, then the folders, then
/// the audio files, each group sorted by lowercased name.
pub open spec fn listing(dir: Seq<char>, root: Seq<char>, items: Seq<(Seq<char>, bool)>) -> Seq<
    (Seq<char>, Seq<char>, bool),
> {
    let up = if !same_path(dir, root) && parent_of(dir) is Some {
        seq![(parent_of(dir)->0, seq!['.', '.'], true)]
    } else {
        Seq::empty()
    };
    up + sort_by_name(folder_entries(dir, items)) + sort_by_name(track_entries(dir, items))
}

/// Stable insertion sort of `es` by lowercased name.
fn sort_entries(es: Vec<CrateEntry>) -> (r: Vec<CrateEntry>)
    ensures
        r@.map_values(|e: CrateEntry| e@) == sort_by_name(es@.map_values(|e: CrateEntry| e@)),
{
    let ghost src = es@.map_values(|e: CrateEntry| e@);
    let mut keys: Vec<Vec<char>> = Vec::new();
    let mut out: Vec<CrateEntry> = Vec::new();
    let mut i: usize = 0;
    while i < es.len()
        invariant
            i <= es.len(),
            src == es@.map_values(|e: CrateEntry| e@),
            keys.len() == out.len(),
            forall|k: int| 0 <= k < out.len() ==> (#[trigger] keys@[k])@ == name_key(out@[k]@),
            out@.map_values(|e: CrateEntry| e@) == sort_by_name(src.subrange(0, i as int)),
        decreases es.len() - i,
    {
        let x = CrateEntry {
            path: es[i].path.clone(),
            name: es[i].name.clone(),
            is_dir: es[i].is_dir,
        };
        let kx = chars_of(lowercase_str(x.name.as_str()).as_str());
        let ghost xv = x@;
        let ghost before = out@.map_values(|e: CrateEntry| e@);
        proof {
            assert(xv == src[i as int]);
        }
        // find the insertion point from the end
        let mut j = out.len();
        let ghost tail_init: Seq<(Seq<char>, Seq<char>, bool)> = Seq::empty();
        proof {
            assert(before.subrange(0, j as int) =~= before);
            assert(insert_by_name(before, xv) =~= insert_by_name(before.subrange(0, j as int), xv)
                + before.subrange(j as int, before.len() as int));
        }
        while j > 0 && chars_lt(&kx, &keys[j - 1])
            invariant
                j <= out.len() == keys.len(),
                before == out@.map_values(|e: CrateEntry| e@),
                forall|k: int| 0 <= k < out.len() ==> (#[trigger] keys@[k])@ == name_key(out@[k]@),
                kx@ == name_key(xv),
                insert_by_name(before, xv) == insert_by_name(before.subrange(0, j as int), xv)
                    + before.subrange(j as int, before.len() as int),
            decreases j,
        {
            proof {
                let p = before.subrange(0, j as int);
                assert(p.drop_last() =~= before.subrange(0, j - 1));
                assert(p.last() == before[j - 1]);
                assert(p.last() == out@[j - 1]@);
                assert(insert_by_name(p, xv) == insert_by_name(p.drop_last(), xv).push(p.last()));
                assert(insert_by_name(p.drop_last(), xv).push(p.last()) + before.subrange(
                    j as int,
                    before.len() as int,
                ) =~= insert_by_name(p.drop_last(), xv) + before.subrange(j - 1, before.len() as int));
            }
            j = j - 1;
        }
        proof {
            let p = before.subrange(0, j as int);
            if j > 0 {
                assert(p.last() == out@[j - 1]@);
            }
            assert(insert_by_name(p, xv) == p.push(xv));
        }
        out.insert(j, x);
        keys.insert(j, kx);
        proof {
            assert(out@.map_values(|e: CrateEntry| e@) =~= before.subrange(0, j as int).push(xv)
                + before.subrange(j as int, before.len() as int));
            let q = src.subrange(0, i + 1);
            assert(q.drop_last() =~= src.subrange(0, i as int));
            assert(q.last() == xv);
            assert forall|k: int| 0 <= k < out.len() implies (#[trigger] keys@[k])@ == name_key(
                out@[k]@,
            ) by {
                if k < j {
                } else if k == j {
                } else {
                }
            }
        }
        i = i + 1;
    }
    proof {
        assert(src.subrange(0, es.len() as int) =~= src);
    }
    out
}

/// The listing of `dir` (at or below `root`) holding `items`.
fn list_dir(dir: &str, root: &str, items: &Vec<DirItem>) -> (r: Vec<CrateEntry>)
    ensures
        r@.map_values(|e: CrateEntry| e@) == listing(dir@, root@, items@.map_values(|d: DirItem| d@)),
{
    let ghost iv = items@.map_values(|d: DirItem| d@);
    let mut dirs: Vec<CrateEntry> = Vec::new();
    let mut tracks: Vec<CrateEntry> = Vec::new();
    let mut i: usize = 0;
    while i < items.len()
        invariant
            i <= items.len(),
            iv == items@.map_values(|d: DirItem| d@),
            dirs@.map_values(|e: CrateEntry| e@) == folder_entries(dir@, iv.subrange(0, i as int)),
            tracks@.map_values(|e: CrateEntry| e@) == track_entries(dir@, iv.subrange(0, i as int)),
        decreases items.len() - i,
    {
        let it = &items[i];
        let ghost q = iv.subrange(0, i + 1);
        proof {
            assert(q.drop_last() =~= iv.subrange(0, i as int));
            assert(q.last() == it@);
        }
        if it.is_dir {
            let ghost b = dirs@.map_values(|e: CrateEntry| e@);
            dirs.push(CrateEntry { path: join(dir, it.name.as_str()), name: it.name.clone(), is_dir: true });
            proof {
                assert(dirs@.map_values(|e: CrateEntry| e@) =~= b.push((joined(dir@, it.name@), it.name@, true)));
            }
        } else if is_audio(it.name.as_str()) {
            let ghost b = tracks@.map_values(|e: CrateEntry| e@);
            tracks.push(CrateEntry { path: join(dir, it.name.as_str()), name: it.name.clone(), is_dir: false });
            proof {
                assert(tracks@.map_values(|e: CrateEntry| e@) =~= b.push((joined(dir@, it.name@), it.name@, false)));
            }
        }
        i = i + 1;
    }
    proof {
        assert(iv.subrange(0, items.len() as int) =~= iv);
    }
    let mut dirs = sort_entries(dirs);
    let mut tracks = sort_entries(tracks);
    let mut out: Vec<CrateEntry> = Vec::new();
    if !path_eq(dir, root) {
        match parent(dir) {
            Some(p) => {
                let dd = "..".to_owned();
                proof {
                    reveal_strlit("..");
                    assert(dd@ =~= seq!['.', '.']);
                }
                out.push(CrateEntry { path: p, name: dd, is_dir: true });
            },
            None => {},
        }
    }
    let ghost up = out@.map_values(|e: CrateEntry| e@);
    let ghost dv = dirs@.map_values(|e: CrateEntry| e@);
    let ghost tv = tracks@.map_values(|e: CrateEntry| e@);
    proof {
        if !same_path(dir@, root@) && parent_of(dir@) is Some {
            assert(up =~= seq![(parent_of(dir@)->0, seq!['.', '.'], true)]);
        } else {
            assert(up =~= Seq::<(Seq<char>, Seq<char>, bool)>::empty());
        }
    }
    out.append(&mut dirs);
    out.append(&mut tracks);
    proof {
        assert(out@.map_values(|e: CrateEntry| e@) =~= up + dv + tv);
    }
    out
}

/// The entries of `es` whose names fuzzy-match `q`, in order.
pub open spec fn matching(es: Seq<(Seq<char>, Seq<char>, bool)>, q: Seq<char>) -> Seq<(Seq<char>, Seq<char>, bool)>
    decreases es.len(),
{
    if es.len() == 0 {
        es
    } else if embeds(lowered(q), lowered(es.last().1)) {
        matching(es.drop_last(), q).push(es.last())
    } else {
        matching(es.drop_last(), q)
    }
}

/// An empty query matches every name.
pub proof fn lemma_empty_query_matches(h: Seq<char>)
    ensures
        embeds(lowered(Seq::<char>::empty()), lowered(h)),
{
    let f = Seq::<int>::empty();
    assert(is_embedding(f, lowered(Seq::<char>::empty()), lowered(h)));
}

/// Filtering with the empty query keeps every entry, in order.
pub proof fn lemma_empty_filter_keeps_all(es: Seq<(Seq<char>, Seq<char>, bool)>)
    ensures
        matching(es, Seq::<char>::empty()) == es,
    decreases es.len(),
{
    if es.len() > 0 {
        lemma_empty_filter_keeps_all(es.drop_last());
        lemma_empty_query_matches(es.last().1);
        assert(es.drop_last().push(es.last()) =~= es);
    }
}

/// A filtered listing never grows, and every entry it shows is one of the
/// listing's.
pub proof fn lemma_filter_within(es: Seq<(Seq<char>, Seq<char>, bool)>, q: Seq<char>)
    ensures
        matching(es, q).len() <= es.len(),
        forall|i: int| 0 <= i < matching(es, q).len() ==> es.contains(#[trigger] matching(es, q)[i]),
    decreases es.len(),
{
    if es.len() > 0 {
        let rest = es.drop_last();
        lemma_filter_within(rest, q);
        let m = matching(es, q);
        assert forall|i: int| 0 <= i < m.len() implies es.contains(#[trigger] m[i]) by {
            if i < matching(rest, q).len() {
                let x = matching(rest, q)[i];
                assert(rest.contains(x));
                let j = choose|j: int| 0 <= j < rest.len() && rest[j] == x;
                assert(es[j] == x);
            } else {
                assert(m[i] == es.last());
                assert(es[es.len() - 1] == es.last());
            }
        }
    }
}

/// The library, scoped to a root, showing the current directory.
#[derive(Debug, Clone)]
pub struct Crate {
    root: String,
    cwd: String,
    entries: Vec<CrateEntry>,
}

impl Crate {
    /// The root: the ceiling of navigation.
    pub closed spec fn root_path(&self) -> Seq<char> {
        self.root@
    }

    /// The directory shown.
    pub closed spec fn cwd_path(&self) -> Seq<char> {
        self.cwd@
    }

    /// The directory shown is the root or below it, once `.` and `..` are
    /// resolved: the root is the ceiling.
    pub open spec fn inside(&self) -> bool {
        resolves_under(self.cwd_path(), self.root_path())
    }

    /// The entries shown.
    pub closed spec fn shown(&self) -> Seq<(Seq<char>, Seq<char>, bool)> {
        self.entries@.map_values(|e: CrateEntry| e@)
    }

    /// Open the library at `root`, whose directory holds `items` (empty
    /// when it is missing or unreadable).
    pub fn scan(root: &str, items: Vec<DirItem>) -> (c: Crate)
        ensures
            c.root_path() == root@,
            c.cwd_path() == root@,
            c.inside(),
            c.shown() == listing(root@, root@, items@.map_values(|d: DirItem| d@)),
    {
        proof {
            lemma_resolves_under_itself(root@);
        }
        let entries = list_dir(root, root, &items);
        Crate { root: root.to_owned(), cwd: root.to_owned(), entries }
    }

    /// A library over a known list of entries (no directory behind it).
    pub fn from_entries(entries: Vec<CrateEntry>) -> (c: Crate)
        ensures
            c.root_path() == Seq::<char>::empty(),
            c.cwd_path() == Seq::<char>::empty(),
            c.inside(),
            c.shown() == entries@.map_values(|e: CrateEntry| e@),
    {
        proof {
            lemma_resolves_under_itself(Seq::<char>::empty());
        }
        Crate { root: String::new(), cwd: String::new(), entries }
    }

    /// Navigate into `path` and relist it, when it is a directory
    /// (`path_is_dir`) that resolves to the root or below it; `items` is
    /// what that directory holds. The `..` entry's path is the parent, so
    /// the same call walks up, but never above the root.
    pub fn enter(&mut self, path: &str, path_is_dir: bool, items: Vec<DirItem>)
        ensures
            final(self).root_path() == old(self).root_path(),
            if path_is_dir && resolves_under(path@, old(self).root_path()) {
                &&& final(self).cwd_path() == path@
                &&& final(self).shown() == listing(
                    path@,
                    old(self).root_path(),
                    items@.map_values(|d: DirItem| d@),
                )
            } else {
                &&& final(self).cwd_path() == old(self).cwd_path()
                &&& final(self).shown() == old(self).shown()
            },
            old(self).inside() ==> final(self).inside(),
    {
        if path_is_dir && resolves_within(path, self.root.as_str()) {
            self.cwd = path.to_owned();
            self.entries = list_dir(path, self.root.as_str(), &items);
        }
    }

    /// The directory currently shown.
    pub fn cwd(&self) -> (r: &str)
        ensures
            r@ == self.cwd_path(),
    {
        self.cwd.as_str()
    }

    /// All entries in the current directory (`..`, folders, then tracks).
    pub fn entries(&self) -> (r: &[CrateEntry])
        ensures
            r@.map_values(|e: CrateEntry| e@) == self.shown(),
    {
        self.entries.as_slice()
    }

    pub fn len(&self) -> (r: usize)
        ensures
            r == self.shown().len(),
    {
        self.entries.len()
    }

    pub fn is_empty(&self) -> (r: bool)
        ensures
            r == (self.shown().len() == 0),
    {
        self.entries.len() == 0
    }

    /// Entries whose name fuzzy-matches `query` (case-insensitive
    /// subsequence), in order. An empty query matches all.
    pub fn filtered(&self, query: &str) -> (r: Vec<&CrateEntry>)
        ensures
            r@.map_values(|e: &CrateEntry| e@) == matching(self.shown(), query@),
    {
        let mut out: Vec<&CrateEntry> = Vec::new();
        let mut i: usize = 0;
        while i < self.entries.len()
            invariant
                i <= self.entries.len(),
                out@.map_values(|e: &CrateEntry| e@) == matching(
                    self.shown().subrange(0, i as int),
                    query@,
                ),
            decreases self.entries.len() - i,
        {
            let e = &self.entries[i];
            let ghost b = out@.map_values(|e: &CrateEntry| e@);
            proof {
                let q = self.shown().subrange(0, i + 1);
                assert(q.drop_last() =~= self.shown().subrange(0, i as int));
                assert(q.last() == e@);
            }
            if fuzzy_subsequence(e.name.as_str(), query) {
                out.push(e);
                proof {
                    assert(out@.map_values(|e: &CrateEntry| e@) =~= b.push(e@));
                }
            }
            i = i + 1;
        }
        proof {
            assert(self.shown().subrange(0, self.entries.len() as int) =~= self.shown());
        }
        out
    }
}

/// Filtering keeps exactly the entries whose display name (not path)
/// contains the query as a subsequence, both lowercased, in their order.
pub proof fn lemma_filter_is_by_name(es: Seq<(Seq<char>, Seq<char>, bool)>, q: Seq<char>)
    ensures
        matching(es, q) == es.filter(
            |e: (Seq<char>, Seq<char>, bool)| embeds(lowered(q), lowered(e.1)),
        ),
    decreases es.len(),
{
    reveal_with_fuel(Seq::filter, 1);
    if es.len() > 0 {
        lemma_filter_is_by_name(es.drop_last(), q);
    }
}

/// Whether `s` is in order of lowercased name (no entry's key sorts
/// before an earlier one's).
pub open spec fn names_ordered(s: Seq<(Seq<char>, Seq<char>, bool)>) -> bool {
    forall|i: int, j: int| 0 <= i < j < s.len() ==> !seq_lt(name_key(#[trigger] s[j]), name_key(#[trigger] s[i]))
}

proof fn lemma_key_chain(a: Seq<char>, b: Seq<char>, c: Seq<char>)
    requires
        !seq_lt(c, b),
        !seq_lt(b, a),
    ensures
        !seq_lt(c, a),
{
    if seq_lt(c, a) {
        lemma_seq_lt_total(a, b);
        if seq_lt(a, b) {
            lemma_seq_lt_transitive(c, a, b);
        }
    }
}

proof fn lemma_insert_by_name(s: Seq<(Seq<char>, Seq<char>, bool)>, x: (Seq<char>, Seq<char>, bool))
    requires
        names_ordered(s),
    ensures
        insert_by_name(s, x).len() == s.len() + 1,
        names_ordered(insert_by_name(s, x)),
        insert_by_name(s, x).to_multiset() == s.to_multiset().insert(x),
        forall|k: int|
            0 <= k < insert_by_name(s, x).len() ==> #[trigger] insert_by_name(s, x)[k] == x
                || s.contains(insert_by_name(s, x)[k]),
    decreases s.len(),
{
    broadcast use vstd::seq_lib::group_to_multiset_ensures;
    let r = insert_by_name(s, x);
    let n = s.len() as int;
    if s.len() == 0 || !seq_lt(name_key(x), name_key(s.last())) {
        assert(r == s.push(x));
        assert forall|i: int, j: int| 0 <= i < j < r.len() implies !seq_lt(
            name_key(#[trigger] r[j]),
            name_key(#[trigger] r[i]),
        ) by {
            if j == n {
                assert(r[i] == s[i]);
                if i < n - 1 {
                    assert(!seq_lt(name_key(s[n - 1]), name_key(s[i])));
                } else {
                    lemma_seq_lt_irreflexive(name_key(s[i]));
                }
                assert(s.last() == s[n - 1]);
                lemma_key_chain(name_key(s[i]), name_key(s[n - 1]), name_key(x));
            } else {
                assert(r[i] == s[i] && r[j] == s[j]);
            }
        }
        assert forall|k: int| 0 <= k < r.len() implies #[trigger] r[k] == x || s.contains(r[k]) by {
            if k < n {
                assert(r[k] == s[k]);
            }
        }
    } else {
        let init = s.drop_last();
        let last = s.last();
        assert(names_ordered(init)) by {
            assert forall|i: int, j: int| 0 <= i < j < init.len() implies !seq_lt(
                name_key(#[trigger] init[j]),
                name_key(#[trigger] init[i]),
            ) by {
                assert(init[i] == s[i] && init[j] == s[j]);
            }
        }
        lemma_insert_by_name(init, x);
        let ri = insert_by_name(init, x);
        assert(r == ri.push(last));
        assert(s == init.push(last));
        lemma_seq_lt_asymmetric(name_key(x), name_key(last));
        assert forall|i: int, j: int| 0 <= i < j < r.len() implies !seq_lt(
            name_key(#[trigger] r[j]),
            name_key(#[trigger] r[i]),
        ) by {
            if j == n {
                assert(r[j] == last);
                assert(r[i] == ri[i]);
                if ri[i] != x {
                    assert(init.contains(ri[i]));
                    let m = choose|m: int| 0 <= m < init.len() && init[m] == ri[i];
                    assert(s[m] == init[m]);
                    assert(last == s[n - 1]);
                }
            } else {
                assert(r[i] == ri[i] && r[j] == ri[j]);
            }
        }
        assert forall|k: int| 0 <= k < r.len() implies #[trigger] r[k] == x || s.contains(r[k]) by {
            if k < n {
                assert(r[k] == ri[k]);
                if ri[k] != x {
                    let m = choose|m: int| 0 <= m < init.len() && init[m] == ri[k];
                    assert(s[m] == init[m]);
                }
            } else {
                assert(s[n - 1] == last);
            }
        }
        assert(r.to_multiset() =~= s.to_multiset().insert(x));
    }
}

proof fn lemma_sort_by_name(s: Seq<(Seq<char>, Seq<char>, bool)>)
    ensures
        names_ordered(sort_by_name(s)),
        sort_by_name(s).to_multiset() == s.to_multiset(),
        sort_by_name(s).len() == s.len(),
    decreases s.len(),
{
    broadcast use vstd::seq_lib::group_to_multiset_ensures;
    if s.len() > 0 {
        lemma_sort_by_name(s.drop_last());
        lemma_insert_by_name(sort_by_name(s.drop_last()), s.last());
        assert(s.drop_last().push(s.last()) =~= s);
    }
}

/// A directory's listing is its `..` entry (below the root only), then
/// every folder found, then every audio file found, each group in order
/// of lowercased name.
pub proof fn lemma_listing_groups_sorted(dir: Seq<char>, root: Seq<char>, items: Seq<(Seq<char>, bool)>)
    ensures
        ({
            let l = listing(dir, root, items);
            let u: int = if !same_path(dir, root) && parent_of(dir) is Some {
                1
            } else {
                0
            };
            let fs = folder_entries(dir, items);
            let ts = track_entries(dir, items);
            &&& l.len() == u + fs.len() + ts.len()
            &&& names_ordered(l.subrange(u, u + fs.len()))
            &&& l.subrange(u, u + fs.len()).to_multiset() == fs.to_multiset()
            &&& names_ordered(l.subrange(u + fs.len(), l.len() as int))
            &&& l.subrange(u + fs.len(), l.len() as int).to_multiset() == ts.to_multiset()
        }),
{
    let l = listing(dir, root, items);
    let up = if !same_path(dir, root) && parent_of(dir) is Some {
        seq![(parent_of(dir)->0, seq!['.', '.'], true)]
    } else {
        Seq::empty()
    };
    let fs = folder_entries(dir, items);
    let ts = track_entries(dir, items);
    lemma_sort_by_name(fs);
    lemma_sort_by_name(ts);
    let u = up.len() as int;
    assert(l.subrange(u, u + fs.len()) =~= sort_by_name(fs));
    assert(l.subrange(u + fs.len(), l.len() as int) =~= sort_by_name(ts));
}

/// The folders of a listing are every folder item, in the order found,
/// each as an entry under `dir`; the tracks are every non-folder item
/// whose name is an audio file's, likewise.
pub proof fn lemma_entries_are_the_found_items(dir: Seq<char>, items: Seq<(Seq<char>, bool)>)
    ensures
        folder_entries(dir, items) == items.filter(|it: (Seq<char>, bool)| it.1).map_values(
            |it: (Seq<char>, bool)| (joined(dir, it.0), it.0, true),
        ),
        track_entries(dir, items) == items.filter(
            |it: (Seq<char>, bool)| !it.1 && audio_name(it.0),
        ).map_values(|it: (Seq<char>, bool)| (joined(dir, it.0), it.0, false)),
    decreases items.len(),
{
    reveal_with_fuel(Seq::filter, 1);
    if items.len() > 0 {
        lemma_entries_are_the_found_items(dir, items.drop_last());
        let pd = |it: (Seq<char>, bool)| it.1;
        let pt = |it: (Seq<char>, bool)| !it.1 && audio_name(it.0);
        let fd = |it: (Seq<char>, bool)| (joined(dir, it.0), it.0, true);
        let ft = |it: (Seq<char>, bool)| (joined(dir, it.0), it.0, false);
        let a = items.drop_last().filter(pd);
        let b = items.drop_last().filter(pt);
        assert(a.push(items.last()).map_values(fd) =~= a.map_values(fd).push(fd(items.last())));
        assert(b.push(items.last()).map_values(ft) =~= b.map_values(ft).push(ft(items.last())));
    }
}

} // verus!
