use termkrush::beats::{beats_path, sort_frames, BeatCache, BeatMarks, BEATS_HEADER};

#[test]
fn set_get_and_unset() {
    let mut c = BeatCache::default();
    c.set("/m/a.wav", 44_100, vec![300, 100, 200]); // unsorted on purpose
    assert_eq!(c.get("/m/a.wav").unwrap().frames, vec![100, 200, 300]);
    assert!(c.has_beats("/m/a.wav"));
    assert!(!c.has_beats("/m/other.wav"));

    // One mark can't make a grid.
    c.set("/m/one.wav", 44_100, vec![5]);
    assert!(!c.has_beats("/m/one.wav"));

    // Clearing the taps removes the record.
    c.set("/m/a.wav", 44_100, vec![]);
    assert!(c.get("/m/a.wav").is_none());
}

#[test]
fn retarget_follows_rename_and_purge_drops() {
    let mut c = BeatCache::default();
    c.set("/m/a.wav", 44_100, vec![10, 20]);
    c.retarget("/m/a.wav", "/m/sub/renamed.wav");
    assert!(c.get("/m/a.wav").is_none());
    assert!(c.has_beats("/m/sub/renamed.wav"));

    c.purge("/m/sub/renamed.wav");
    assert!(c.get("/m/sub/renamed.wav").is_none());
}

#[test]
fn rescale_to_another_device_rate() {
    let m = BeatMarks {
        sample_rate: 44_100,
        frames: vec![44_100, 88_200],
    };
    assert_eq!(m.at_rate(22_050), vec![22_050, 44_100]);
    assert_eq!(m.at_rate(44_100), vec![44_100, 88_200], "same rate: as-is");
}

#[test]
fn save_load_round_trips() {
    let mut c = BeatCache::default();
    c.set("/m/a.wav", 44_100, vec![100, 200, 300]);
    c.set("/m/b second take.mp3", 48_000, vec![5, 9]); // spaces in names
    let text = c.to_text();

    assert_eq!(BeatCache::from_text(&text), c);
}

#[test]
fn load_missing_or_malformed_is_safe() {
    // A missing file reads as no text.
    assert_eq!(BeatCache::from_text(""), BeatCache::default());

    // Good header, one malformed line, one good line: the good one loads.
    let c = BeatCache::from_text("# termkrush beats v1\ngarbage line\n/m/ok.wav\t44100\t7,8\n");
    assert!(c.has_beats("/m/ok.wav"));
    let mut only_ok = BeatCache::default();
    only_ok.set("/m/ok.wav", 44_100, vec![7, 8]);
    assert_eq!(c, only_ok);
}

#[test]
fn saved_text_lists_records_in_path_order() {
    let mut c = BeatCache::default();
    c.set("/m/b.wav", 48_000, vec![9, 5]);
    c.set("/m/a.wav", 44_100, vec![1000, 23050, 45100]);
    assert_eq!(
        c.to_text(),
        format!(
            "{}\n/m/a.wav\t44100\t1000,23050,45100\n/m/b.wav\t48000\t5,9\n",
            BEATS_HEADER
        )
    );
}

#[test]
fn bad_header_starts_empty() {
    let c = BeatCache::from_text("# something else\n/m/a.wav\t44100\t1,2\n");
    assert_eq!(c, BeatCache::default());
}

#[test]
fn bad_rate_and_bad_frames_are_skipped() {
    let text = format!(
        "{}\n/m/a.wav\tfast\t1,2\n/m/b.wav\t44100\t3,x,4\n  \n/m/c.wav\t44100\tnope\n",
        BEATS_HEADER
    );
    let c = BeatCache::from_text(&text);
    assert!(c.get("/m/a.wav").is_none(), "bad rate skipped");
    assert_eq!(c.get("/m/b.wav").unwrap().frames, vec![3, 4], "bad mark dropped");
    assert!(c.get("/m/c.wav").is_none(), "no marks: no record");
}

#[test]
fn a_later_line_for_the_same_track_wins() {
    let text = format!("{}\n/m/a.wav\t44100\t1,2\n/m/a.wav\t48000\t3,4\n", BEATS_HEADER);
    let c = BeatCache::from_text(&text);
    let m = c.get("/m/a.wav").unwrap();
    assert_eq!(m.sample_rate, 48_000);
    assert_eq!(m.frames, vec![3, 4]);
}

#[test]
fn set_replaces_and_get_reads_back() {
    let mut c = BeatCache::default();
    c.set("/m/a.wav", 44_100, vec![2, 1]);
    c.set("/m/a.wav", 48_000, vec![30, 10, 20]);
    let m = c.get("/m/a.wav").unwrap();
    assert_eq!(m.sample_rate, 48_000);
    assert_eq!(m.frames, vec![10, 20, 30]);
}

#[test]
fn retarget_of_an_untapped_track_changes_nothing() {
    let mut c = BeatCache::default();
    c.set("/m/a.wav", 44_100, vec![1, 2]);
    let before = c.clone();
    c.retarget("/m/none.wav", "/m/x.wav");
    assert_eq!(c, before);
}

#[test]
fn rescale_rounds_to_the_nearest_frame() {
    let m = BeatMarks {
        sample_rate: 3,
        frames: vec![1, 2, 3],
    };
    // 2/3 -> 1, 4/3 -> 1, 6/3 -> 2
    assert_eq!(m.at_rate(2), vec![1, 1, 2]);
    let unknown = BeatMarks {
        sample_rate: 0,
        frames: vec![7],
    };
    assert_eq!(unknown.at_rate(44_100), vec![7], "no rate: as-is");
}

#[test]
fn sort_frames_orders_ascending() {
    let mut v = vec![5, 3, 9, 3, 0];
    sort_frames(&mut v);
    assert_eq!(v, vec![0, 3, 3, 5, 9]);
}

#[test]
fn beats_file_sits_next_to_the_config() {
    assert_eq!(
        beats_path(Some("/home/u/.config/termkrush/config.toml")),
        Some("/home/u/.config/termkrush/beats.txt".to_string())
    );
    assert_eq!(beats_path(None), None);
}

#[test]
fn spellings_of_one_path_share_a_record() {
    let mut c = BeatCache::default();
    c.set("/m//a.wav", 44_100, vec![1, 2]);
    assert!(c.has_beats("/m/a.wav"));
    assert!(c.has_beats("/m/./a.wav/"));
    c.set("/m/a.wav", 48_000, vec![3, 4]);
    assert_eq!(c.get("/m//a.wav").unwrap().sample_rate, 48_000);
    // The record keeps the spelling it was first stored under.
    assert_eq!(
        c.to_text(),
        format!("{}\n/m//a.wav\t48000\t3,4\n", BEATS_HEADER)
    );
    c.purge("/m/a.wav");
    assert!(c.get("/m//a.wav").is_none());
}

#[test]
fn records_are_saved_in_component_order() {
    let mut c = BeatCache::default();
    c.set("/m/a b.wav", 44_100, vec![1, 2]);
    c.set("/m/a/b.wav", 44_100, vec![3, 4]);
    c.set("/m/a.b/c.wav", 44_100, vec![5, 6]);
    assert_eq!(
        c.to_text(),
        format!(
            "{}\n/m/a/b.wav\t44100\t3,4\n/m/a b.wav\t44100\t1,2\n/m/a.b/c.wav\t44100\t5,6\n",
            BEATS_HEADER
        )
    );
}

#[test]
fn retarget_matches_by_components() {
    let mut c = BeatCache::default();
    c.set("/m/a.wav", 44_100, vec![1, 2]);
    c.retarget("/m//a.wav", "/m/sub/b.wav");
    assert!(c.get("/m/a.wav").is_none());
    assert!(c.has_beats("/m/sub/b.wav"));
}
