//! Old-school scratch phrases: whips and wikis around a clip's pivot,
//! expanded into the read-head strokes a scratch voice plays.
use vstd::prelude::*;
use crate::text::string_of;

verus! {

/// One unit in a scratch phrase: a whip (muted push, audible pull-back) or
/// a wiki (audible both ways).
#[derive(Debug, Clone, Copy, PartialEq, Eq, Structural)]
pub enum ScratchUnit {
    Whip,
    Wiki,
}

/// One read-head move: from frame `from` to frame `to` over `dur` output
/// frames, with the fader at `gain` (0 muted, 1 audible).
#[derive(Debug, Clone, Copy, PartialEq, Eq, Structural)]
pub struct Stroke {
    pub from: u64,
    pub to: u64,
    pub gain: u8,
    pub dur: u64,
}

/// The two strokes of a unit around `pivot`, `slice` frames per half-rub:
/// forward then back, the push muted for a whip.
pub open spec fn unit_strokes(u: ScratchUnit, pivot: u64, slice: u64) -> Seq<Stroke> {
    let fwd_gain: u8 = match u {
        ScratchUnit::Whip => 0,
        ScratchUnit::Wiki => 1,
    };
    seq![
        Stroke { from: pivot, to: (pivot + slice) as u64, gain: fwd_gain, dur: slice },
        Stroke { from: (pivot + slice) as u64, to: pivot, gain: 1, dur: slice },
    ]
}

/// A phrase's strokes: each unit's, back to back.
pub open spec fn phrase_spec(units: Seq<ScratchUnit>, pivot: u64, slice: u64) -> Seq<Stroke>
    decreases units.len(),
{
    if units.len() == 0 {
        Seq::empty()
    } else {
        phrase_spec(units.drop_last(), pivot, slice) + unit_strokes(units.last(), pivot, slice)
    }
}

fn unit(u: ScratchUnit, pivot: usize, slice: usize) -> (r: Vec<Stroke>)
    requires
        pivot + slice <= u64::MAX,
    ensures
        r@ == unit_strokes(u, pivot as u64, slice as u64),
{
    let pivot = pivot as u64;
    let slice = slice as u64;
    let g: u8 = match u {
        ScratchUnit::Whip => 0,
        ScratchUnit::Wiki => 1,
    };
    let mut v: Vec<Stroke> = Vec::new();
    v.push(Stroke { from: pivot, to: pivot + slice, gain: g, dur: slice });
    v.push(Stroke { from: pivot + slice, to: pivot, gain: 1, dur: slice });
    proof {
        assert(v@ =~= unit_strokes(u, pivot, slice));
    }
    v
}

/// A whip: push the record forward with the fader closed, then pull it
/// back audible.
pub fn whip(pivot: usize, slice: usize) -> (r: Vec<Stroke>)
    requires
        pivot + slice <= u64::MAX,
    ensures
        r@ == unit_strokes(ScratchUnit::Whip, pivot as u64, slice as u64),
{
    unit(ScratchUnit::Whip, pivot, slice)
}

/// A wiki: forward audible, then back audible.
pub fn wiki(pivot: usize, slice: usize) -> (r: Vec<Stroke>)
    requires
        pivot + slice <= u64::MAX,
    ensures
        r@ == unit_strokes(ScratchUnit::Wiki, pivot as u64, slice as u64),
{
    unit(ScratchUnit::Wiki, pivot, slice)
}

/// Expand a phrase into one back-to-back stroke list, each unit a whip or
/// wiki around `pivot` with `slice` frames per half-rub.
pub fn phrase_strokes(units: &[ScratchUnit], pivot: usize, slice: usize) -> (r: Vec<Stroke>)
    requires
        pivot + slice <= u64::MAX,
    ensures
        r@ == phrase_spec(units@, pivot as u64, slice as u64),
        r.len() == 2 * units.len(),
{
    let mut out: Vec<Stroke> = Vec::new();
    let mut i: usize = 0;
    while i < units.len()
        invariant
            i <= units.len(),
            pivot + slice <= u64::MAX,
            out@ == phrase_spec(units@.subrange(0, i as int), pivot as u64, slice as u64),
            out.len() == 2 * i,
        decreases units.len() - i,
    {
        let mut more = unit(units[i], pivot, slice);
        out.append(&mut more);
        proof {
            let p = units@.subrange(0, i + 1);
            assert(p.drop_last() =~= units@.subrange(0, i as int));
            assert(p.last() == units@[i as int]);
        }
        i = i + 1;
    }
    proof {
        assert(units@.subrange(0, units@.len() as int) =~= units@);
    }
    out
}

/// The glyph a unit is shown as: `<` for a whip, `>` for a wiki.
pub open spec fn glyph(u: ScratchUnit) -> char {
    match u {
        ScratchUnit::Whip => '<',
        ScratchUnit::Wiki => '>',
    }
}

/// A phrase written out one glyph per unit.
pub fn phrase_glyphs(units: &[ScratchUnit]) -> (r: String)
    ensures
        r@ == units@.map_values(|u: ScratchUnit| glyph(u)),
{
    let mut out: Vec<char> = Vec::new();
    let mut i: usize = 0;
    while i < units.len()
        invariant
            i <= units.len(),
            out@ == units@.subrange(0, i as int).map_values(|u: ScratchUnit| glyph(u)),
        decreases units.len() - i,
    {
        let c = match units[i] {
            ScratchUnit::Whip => '<',
            ScratchUnit::Wiki => '>',
        };
        out.push(c);
        proof {
            assert(units@.subrange(0, i + 1).map_values(|u: ScratchUnit| glyph(u)) =~= units@.subrange(
                0,
                i as int,
            ).map_values(|u: ScratchUnit| glyph(u)).push(c));
        }
        i = i + 1;
    }
    proof {
        assert(units@.subrange(0, units@.len() as int) =~= units@);
    }
    string_of(out.as_slice())
}

/// Every unit ends where it began: the phrase's strokes come in
/// forward/back pairs that return the read head to the pivot, and every
/// pull-back sounds.
pub proof fn lemma_strokes_return_to_pivot(units: Seq<ScratchUnit>, pivot: u64, slice: u64, k: int)
    requires
        0 <= k < units.len(),
        pivot + slice <= u64::MAX,
    ensures
        ({
            let s = phrase_spec(units, pivot, slice);
            &&& s.len() == 2 * units.len()
            &&& s[2 * k].from == pivot
            &&& s[2 * k].to == s[2 * k + 1].from
            &&& s[2 * k + 1].to == pivot
            &&& s[2 * k + 1].gain == 1
            &&& s[2 * k].gain == (if units[k] == ScratchUnit::Whip {
                0u8
            } else {
                1u8
            })
        }),
    decreases units.len(),
{
    lemma_phrase_len(units, pivot, slice);
    let init = units.drop_last();
    if k < units.len() - 1 {
        lemma_strokes_return_to_pivot(init, pivot, slice, k);
        lemma_phrase_len(init, pivot, slice);
        let s = phrase_spec(units, pivot, slice);
        let si = phrase_spec(init, pivot, slice);
        assert(s[2 * k] == si[2 * k]);
        assert(s[2 * k + 1] == si[2 * k + 1]);
        assert(init[k] == units[k]);
    } else {
        lemma_phrase_len(init, pivot, slice);
    }
}

proof fn lemma_phrase_len(units: Seq<ScratchUnit>, pivot: u64, slice: u64)
    ensures
        phrase_spec(units, pivot, slice).len() == 2 * units.len(),
    decreases units.len(),
{
    if units.len() > 0 {
        lemma_phrase_len(units.drop_last(), pivot, slice);
    }
}

} // verus!
