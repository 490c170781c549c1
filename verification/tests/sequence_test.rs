use termkrush::sequence::{sequence_path, Sequence, SEQUENCE_HEADER};

fn p(s: &str) -> String {
    s.to_string()
}

#[test]
fn insert_remove_and_repeats() {
    let mut s = Sequence::default();
    s.push(p("/m/a.wav"));
    s.push(p("/m/b.wav"));
    s.insert(1, p("/m/a.wav")); // the same track repeats at position 1
    assert_eq!(s.entries(), &[p("/m/a.wav"), p("/m/a.wav"), p("/m/b.wav")]);

    s.remove(0);
    assert_eq!(s.entries(), &[p("/m/a.wav"), p("/m/b.wav")]);
    s.remove(99); // out of range: no-op
    assert_eq!(s.len(), 2);

    s.insert(99, p("/m/c.wav")); // clamped to the end
    assert_eq!(s.entries()[2], p("/m/c.wav"));
}

#[test]
fn move_entry_reorders() {
    let mut s = Sequence::default();
    for n in ["a", "b", "c", "d"] {
        s.push(format!("/m/{n}.wav"));
    }
    s.move_entry(3, 0); // d to the front
    assert_eq!(
        s.entries(),
        &[p("/m/d.wav"), p("/m/a.wav"), p("/m/b.wav"), p("/m/c.wav")]
    );
    s.move_entry(0, 2); // and back into the middle
    assert_eq!(
        s.entries(),
        &[p("/m/a.wav"), p("/m/b.wav"), p("/m/d.wav"), p("/m/c.wav")]
    );
    s.move_entry(9, 0); // out of range: no-op
    assert_eq!(s.len(), 4);
}

#[test]
fn retarget_updates_every_repeat_and_purge_drops_them() {
    let mut s = Sequence::default();
    s.push(p("/m/a.wav"));
    s.push(p("/m/b.wav"));
    s.push(p("/m/a.wav"));
    s.retarget("/m/a.wav", "/m/renamed.wav");
    assert_eq!(
        s.entries(),
        &[p("/m/renamed.wav"), p("/m/b.wav"), p("/m/renamed.wav")]
    );

    s.purge("/m/renamed.wav");
    assert_eq!(s.entries(), &[p("/m/b.wav")]);
}

#[test]
fn entries_match_by_path_components() {
    let mut s = Sequence::default();
    s.push(p("/m//a.wav"));
    s.push(p("/m/./a.wav"));
    s.push(p("m/a.wav"));
    s.retarget("/m/a.wav", "/m/b.wav");
    assert_eq!(s.entries(), &[p("/m/b.wav"), p("/m/b.wav"), p("m/a.wav")]);
    s.purge("/m/b.wav/");
    assert_eq!(s.entries(), &[p("m/a.wav")]);
}

#[test]
fn save_load_round_trips_order_and_repeats() {
    let mut s = Sequence::default();
    s.push(p("/m/one.wav"));
    s.push(p("/m/two.mp3"));
    s.push(p("/m/one.wav")); // repeat survives the trip
    let text = s.to_text();

    let loaded = Sequence::from_text(&text);
    assert_eq!(loaded, s);
}

#[test]
fn load_missing_or_malformed_is_empty() {
    // A missing file reads as no text.
    assert!(Sequence::from_text("").is_empty());
    assert!(
        Sequence::from_text("not a sequence file\n/m/a.wav\n").is_empty(),
        "bad header starts empty"
    );
}

#[test]
fn saved_text_is_header_then_one_path_per_line() {
    let mut s = Sequence::default();
    s.push(p("/m/one.wav"));
    s.push(p("/m/two.mp3"));
    assert_eq!(
        s.to_text(),
        format!("{}\n/m/one.wav\n/m/two.mp3\n", SEQUENCE_HEADER)
    );
}

#[test]
fn load_skips_blank_lines_and_trims() {
    let text = format!("{}\n\n  /m/a.wav  \n\n/m/b.wav\n", SEQUENCE_HEADER);
    let s = Sequence::from_text(&text);
    assert_eq!(s.entries(), &[p("/m/a.wav"), p("/m/b.wav")]);
}

#[test]
fn move_to_the_end_and_back() {
    let mut s = Sequence::default();
    for n in ["a", "b", "c"] {
        s.push(format!("/m/{n}.wav"));
    }
    s.move_entry(0, 2); // to the last slot
    assert_eq!(s.entries(), &[p("/m/b.wav"), p("/m/c.wav"), p("/m/a.wav")]);
    s.move_entry(0, 3); // destination out of range: no-op
    assert_eq!(s.entries(), &[p("/m/b.wav"), p("/m/c.wav"), p("/m/a.wav")]);
    s.move_entry(2, 0);
    assert_eq!(s.entries(), &[p("/m/a.wav"), p("/m/b.wav"), p("/m/c.wav")]);
}

#[test]
fn sequence_file_sits_next_to_the_config() {
    assert_eq!(
        sequence_path(Some("/home/u/.config/termkrush/config.toml")),
        Some(p("/home/u/.config/termkrush/sequence.txt"))
    );
    assert_eq!(sequence_path(None), None);
}
