use termkrush::scratch::{phrase_glyphs, phrase_strokes, whip, wiki, ScratchUnit, Stroke};

#[test]
fn phrase_expands_to_concatenated_strokes() {
    let units = [ScratchUnit::Whip, ScratchUnit::Wiki];
    let s = phrase_strokes(&units, 100, 50);
    assert_eq!(s.len(), 4, "two units × two strokes");
    assert_eq!(s[0].gain, 0, "whip forward muted first");
    assert_eq!(s[2].gain, 1, "wiki forward audible");
}

#[test]
fn whip_mutes_forward_sounds_backward() {
    let w = whip(100, 50);
    assert_eq!(w.len(), 2);
    assert_eq!(w[0].gain, 0, "forward muted");
    assert_eq!(w[1].gain, 1, "backward audible");
    assert!(w[0].to > w[0].from && w[1].to < w[1].from, "forward then back");
}

#[test]
fn wiki_sounds_both_ways() {
    assert!(wiki(100, 50).iter().all(|s| s.gain == 1));
}

#[test]
fn strokes_rub_around_the_pivot() {
    assert_eq!(
        wiki(100, 50),
        vec![
            Stroke { from: 100, to: 150, gain: 1, dur: 50 },
            Stroke { from: 150, to: 100, gain: 1, dur: 50 },
        ]
    );
    assert!(phrase_strokes(&[], 100, 50).is_empty());
}

#[test]
fn phrase_glyphs_show_whips_and_wikis() {
    assert_eq!(
        phrase_glyphs(&[ScratchUnit::Whip, ScratchUnit::Wiki, ScratchUnit::Whip]),
        "<><"
    );
    assert_eq!(phrase_glyphs(&[]), "");
}
