use termkrush::automix::{
    plan_sections, Fnv64, PlanError, SectionsPlan, SplitMix64, TrackFacts, Transition, RENDER_RATE,
};

/// 120 BPM at 44100 Hz: 22050 frames per beat.
const FPB_120: u64 = 22_050;

/// The planner's view of a synthetic track of `secs` seconds with beat
/// marks every `interval` frames from `phase`: the marks, and the whole
/// bars of that grid from the first mark to the end.
fn tone_facts(id: &str, secs: f64, phase: u64, interval: u64) -> TrackFacts {
    let frames = (secs * RENDER_RATE as f64) as u64;
    let n_beats = frames.saturating_sub(phase) / interval;
    let beats: Vec<u64> = (0..n_beats).map(|k| phase + k * interval).collect();
    let grid_bars = if beats.len() >= 2 {
        Some((frames - phase) / (4 * interval))
    } else {
        None
    };
    TrackFacts { id: id.to_string(), beats, grid_bars }
}

fn two_long_tracks() -> Vec<TrackFacts> {
    vec![
        // 120 BPM, 80 s: 39 whole bars after the first mark.
        tone_facts("a", 80.0, 1000, FPB_120),
        // 90 BPM (29400 frames/beat), 90 s: 33 whole bars.
        tone_facts("b", 90.0, 500, 29_400),
    ]
}

fn plan(tracks: &[TrackFacts], order: &[usize]) -> Result<SectionsPlan, PlanError> {
    plan_sections(tracks, order)
}

#[test]
fn track_facts_match_the_tone_tracks() {
    let t = two_long_tracks();
    assert_eq!(t[0].grid_bars, Some(39));
    assert_eq!(t[1].grid_bars, Some(33));
    assert_eq!(t[0].beats.len(), 159);
    assert_eq!(tone_facts("short", 12.5, 0, FPB_120).grid_bars, Some(6));
}

#[test]
fn sections_are_phrase_sized_and_butt_joined() {
    let tracks = two_long_tracks();
    let p = plan(&tracks, &[0, 1, 0]).unwrap();
    let mut expect_start = 0u64;
    for s in &p.sections {
        assert!((8..=16).contains(&s.bars), "bars {}", s.bars);
        assert_eq!(s.bar_offset, expect_start, "butt joint broken");
        expect_start += s.bars;
    }
    assert_eq!(p.total_bars, expect_start);
    assert_eq!(p.sections.len(), 3);
    for (k, s) in p.sections.iter().enumerate() {
        assert_eq!(s.order_pos, k);
        assert_eq!(s.track, [0, 1, 0][k]);
        let avail = tracks[s.track].grid_bars.unwrap();
        assert!(s.start_bar + s.bars <= avail, "section runs past the track");
    }
}

#[test]
fn repeat_entries_pick_different_material() {
    let tracks = two_long_tracks();
    let p = plan(&tracks, &[0, 1, 0, 0]).unwrap();
    let track0_starts: Vec<u64> = p
        .sections
        .iter()
        .filter(|s| s.track == 0)
        .map(|s| s.start_bar)
        .collect();
    assert_eq!(track0_starts.len(), 3);
    assert!(
        track0_starts[0] != track0_starts[1] && track0_starts[1] != track0_starts[2],
        "repeats reused material: {track0_starts:?}"
    );
}

#[test]
fn same_input_same_sections() {
    let tracks = two_long_tracks();
    let order = [0usize, 1, 0];
    let p1 = plan(&tracks, &order).unwrap();
    let p2 = plan(&tracks, &order).unwrap();
    assert_eq!(p1.seed, p2.seed);
    assert_eq!(p1.sections, p2.sections, "plan must be deterministic");
    assert_eq!(p1.total_bars, p2.total_bars);
}

#[test]
fn different_order_different_seed() {
    let tracks = two_long_tracks();
    let p1 = plan(&tracks, &[0, 1]).unwrap();
    let p2 = plan(&tracks, &[1, 0]).unwrap();
    assert_ne!(p1.seed, p2.seed, "order must feed the seed");
}

#[test]
fn short_track_clamps_to_available_bars() {
    // 6 bars of 120 BPM: a section must clamp, not fail.
    let tracks = vec![tone_facts("short", 12.5, 0, FPB_120)];
    let p = plan(&tracks, &[0]).unwrap();
    assert!(p.sections[0].bars <= 6, "bars {}", p.sections[0].bars);
    assert!(p.sections[0].bars >= 1);
}

#[test]
fn transition_distribution_matches_the_reference() {
    // Two long tracks, many boundaries: ~70/25/5 within tolerance and
    // identical on every run (the schedule is the seed's).
    let tracks = two_long_tracks();
    let order: Vec<usize> = (0..400).map(|k| k % 2).collect();
    let p1 = plan(&tracks, &order).unwrap();
    let p2 = plan(&tracks, &order).unwrap();
    assert_eq!(p1.sections, p2.sections, "schedule must be deterministic");

    assert_eq!(p1.sections[0].transition, Transition::Swap, "opening always swaps");
    let n = (p1.sections.len() - 1) as f64;
    let count = |f: &dyn Fn(Transition) -> bool| {
        p1.sections[1..].iter().filter(|s| f(s.transition)).count() as f64 / n
    };
    let swaps = count(&|t| t == Transition::Swap);
    let cuts = count(&|t| t == Transition::Cut);
    let fades = count(&|t| matches!(t, Transition::Fade { .. }));
    assert!((swaps - 0.70).abs() < 0.07, "swaps {swaps}");
    assert!((cuts - 0.25).abs() < 0.07, "cuts {cuts}");
    assert!((fades - 0.05).abs() < 0.04, "fades {fades}");
    // Fade lengths are musical: 2, 4, or 8 beats.
    for s in &p1.sections {
        if let Transition::Fade { beats } = s.transition {
            assert!(matches!(beats, 2 | 4 | 8), "fade beats {beats}");
        }
    }
    // Transitions never move a boundary: still butt-joined on bars.
    let mut expect = 0u64;
    for s in &p1.sections {
        assert_eq!(s.bar_offset, expect);
        expect = s.bar_offset + s.bars;
    }
}

#[test]
fn plan_errors_are_specific() {
    assert!(matches!(plan(&[], &[]), Err(PlanError::EmptySequence)));
    let one = vec![tone_facts("a", 30.0, 0, FPB_120)];
    assert!(matches!(plan(&one, &[3]), Err(PlanError::BadOrderIndex(0))));
    let mut untapped = vec![tone_facts("a", 30.0, 0, FPB_120)];
    untapped[0].beats.truncate(1);
    assert!(matches!(plan(&untapped, &[0]), Err(PlanError::NotEnoughBeats(0))));
}

#[test]
fn gridless_and_too_short_tracks_are_refused() {
    let mut no_grid = vec![tone_facts("a", 30.0, 0, FPB_120), tone_facts("b", 30.0, 0, FPB_120)];
    no_grid[1].grid_bars = None;
    assert!(matches!(plan(&no_grid, &[0]), Err(PlanError::NoGrid(1))), "every track is checked");
    let mut short = vec![tone_facts("a", 30.0, 0, FPB_120)];
    short[0].grid_bars = Some(0);
    assert!(matches!(plan(&short, &[0]), Err(PlanError::TooShort(0))));
    // The order is checked before the tracks.
    assert!(matches!(plan(&short, &[0, 2]), Err(PlanError::BadOrderIndex(1))));
}

#[test]
fn plan_error_messages() {
    assert_eq!(PlanError::EmptySequence.message(), "the sequence is empty");
    assert_eq!(
        PlanError::BadOrderIndex(3).message(),
        "order entry 3 points past the track list"
    );
    assert_eq!(
        PlanError::NotEnoughBeats(0).message(),
        "track 0 needs at least 2 beat marks"
    );
    assert_eq!(PlanError::NoGrid(12).message(), "track 12: beat marks fit no grid");
    assert_eq!(PlanError::TooShort(7).message(), "track 7 is shorter than one bar");
}

#[test]
fn fnv_known_values() {
    assert_eq!(Fnv64::new().finish(), 0xcbf2_9ce4_8422_2325);
    let mut h = Fnv64::new();
    h.write(b"a");
    assert_eq!(h.finish(), 0xaf63_dc4c_8601_ec8c);
    let mut g = Fnv64::new();
    g.write_u64(0x61);
    let mut f = Fnv64::new();
    f.write(&[0x61, 0, 0, 0, 0, 0, 0, 0]);
    assert_eq!(g.finish(), f.finish(), "u64s hash as little-endian bytes");
}

#[test]
fn splitmix_known_values() {
    let mut r = SplitMix64::new(0);
    assert_eq!(r.next(), 0xe220_a839_7b1d_cdaf);
    assert_eq!(r.next(), 0x6e78_9e6a_a1b9_65f4);
    let mut a = SplitMix64::new(42);
    let mut b = SplitMix64::new(42);
    assert_eq!(a.next(), b.next());
}

#[test]
fn seed_is_the_hash_of_ids_marks_and_order() {
    let tracks = vec![TrackFacts { id: "a".to_string(), beats: vec![1, 2], grid_bars: Some(4) }];
    let p = plan(&tracks, &[0]).unwrap();
    let mut h = Fnv64::new();
    h.write(b"a");
    h.write_u64(1);
    h.write_u64(2);
    h.write_u64(0);
    assert_eq!(p.seed, h.finish());
    // One track of 4 bars: the single section takes all of it.
    assert_eq!(p.sections.len(), 1);
    assert_eq!(p.sections[0].bars, 4);
    assert_eq!(p.sections[0].start_bar, 0);
    assert_eq!(p.total_bars, 4);
}

#[test]
fn plans_tracks_with_any_number_of_bars() {
    let tracks = vec![
        TrackFacts { id: "huge".to_string(), beats: vec![1, 2], grid_bars: Some(u64::MAX) },
        TrackFacts { id: "big".to_string(), beats: vec![3, 4], grid_bars: Some(0xC000_0000_0000_0000) },
    ];
    let order = vec![0, 1, 0, 1, 0, 0];
    let p = plan_sections(&tracks, &order).unwrap();
    assert_eq!(p.sections.len(), order.len());
    for (k, s) in p.sections.iter().enumerate() {
        let avail = tracks[order[k]].grid_bars.unwrap();
        assert_eq!(s.track, order[k]);
        assert!(s.bars >= 8 && s.bars <= 16);
        assert!(s.start_bar <= avail - s.bars);
    }
    let again = plan_sections(&tracks, &order).unwrap();
    assert_eq!(again.seed, p.seed);
    assert_eq!(again.sections, p.sections);
}
