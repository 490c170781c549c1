use termkrush::beats::BeatCache;
use termkrush::paths::file_name;
use termkrush::project::{rename_target, tap_mark, toggle_mark, Project};
use termkrush::sequence::Sequence;

fn project(entries: &[&str]) -> Project {
    let mut s = Sequence::default();
    for e in entries {
        s.push(e.to_string());
    }
    Project::new(s, BeatCache::default())
}

fn entries(p: &Project) -> Vec<String> {
    p.sequence().entries().to_vec()
}

#[test]
fn readiness_counts_entries_without_beats() {
    let mut p = project(&[]);
    assert_eq!(p.readiness(), None, "an empty sequence has no report");
    p.insert(0, "/m/a.wav".to_string());
    p.insert(9, "/m/b.wav".to_string());
    p.insert(9, "/m/a.wav".to_string());
    assert_eq!(p.untapped(), 3);
    assert_eq!(p.readiness(), Some("3 entries need beats".to_string()));
    p.save_taps("/m/a.wav", 44_100, vec![300, 100]);
    assert_eq!(p.readiness(), Some("1 entry need beats".to_string()));
    p.save_taps("/m/b.wav", 44_100, vec![5]);
    assert_eq!(p.untapped(), 1, "one mark is not enough");
    p.save_taps("/m/b.wav", 44_100, vec![5, 9]);
    assert_eq!(p.readiness(), Some("ready to render".to_string()));
    assert_eq!(p.beats().get("/m/a.wav").unwrap().frames, vec![100, 300]);
}

#[test]
fn rename_and_delete_keep_the_project_pointing_at_files() {
    let mut p = project(&["/m/a.wav", "/m/b.wav", "/m/a.wav"]);
    p.save_taps("/m/a.wav", 44_100, vec![1, 2]);
    p.track_renamed("/m/a.wav", "/m/x.wav");
    assert_eq!(entries(&p), vec!["/m/x.wav", "/m/b.wav", "/m/x.wav"]);
    assert!(p.beats().has_beats("/m/x.wav"));
    assert!(p.beats().get("/m/a.wav").is_none());
    p.track_deleted("/m/x.wav");
    assert_eq!(entries(&p), vec!["/m/b.wav"]);
    assert!(p.beats().get("/m/x.wav").is_none());
}

#[test]
fn moving_into_a_folder_keeps_the_name() {
    let mut p = project(&["/m/a.wav"]);
    p.save_taps("/m/a.wav", 48_000, vec![10, 20]);
    p.track_moved("/m/a.wav", "/m/sets");
    assert_eq!(entries(&p), vec!["/m/sets/a.wav"]);
    assert_eq!(p.beats().get("/m/sets/a.wav").unwrap().sample_rate, 48_000);
    p.track_moved("/m/..", "/m/sets"); // no file name: nothing moves
    assert_eq!(entries(&p), vec!["/m/sets/a.wav"]);
}

#[test]
fn sequence_edits_pass_through() {
    let mut p = project(&["/m/a.wav", "/m/b.wav", "/m/c.wav"]);
    p.move_entry(2, 0);
    assert_eq!(entries(&p), vec!["/m/c.wav", "/m/a.wav", "/m/b.wav"]);
    p.remove(1);
    assert_eq!(entries(&p), vec!["/m/c.wav", "/m/b.wav"]);
    p.remove(7);
    assert_eq!(entries(&p).len(), 2);
}

#[test]
fn rename_targets_sit_beside_the_track() {
    assert_eq!(rename_target("/m/a.wav", "  new.wav "), Some("/m/new.wav".to_string()));
    assert_eq!(rename_target("a.wav", "b.wav"), Some("b.wav".to_string()));
    assert_eq!(rename_target("/m/a.wav", "   "), None, "a blank name renames nothing");
}

#[test]
fn renaming_to_an_absolute_name_replaces_the_folder() {
    assert_eq!(rename_target("/m/a.wav", "/x/new.wav"), Some("/x/new.wav".to_string()));
}

#[test]
fn file_names_of_paths() {
    assert_eq!(file_name("/m/a.wav"), Some("a.wav".to_string()));
    assert_eq!(file_name("/m/sets/"), Some("sets".to_string()));
    assert_eq!(file_name("/m/.."), None);
    assert_eq!(file_name("/"), None);
}

#[test]
fn toggle_adds_or_removes_a_nearby_mark() {
    // 30 ms at 1000 Hz is 30 frames.
    let mut m = vec![100, 500];
    toggle_mark(&mut m, 300, 1000);
    assert_eq!(m, vec![100, 300, 500], "added in order");
    toggle_mark(&mut m, 520, 1000);
    assert_eq!(m, vec![100, 300], "a mark within 30 ms is removed");
    toggle_mark(&mut m, 300, 1000);
    assert_eq!(m, vec![100], "toggling the same frame again undoes it");
}

#[test]
fn tap_skips_near_duplicates() {
    // 10 ms at 1000 Hz is 10 frames.
    let mut m = vec![100];
    tap_mark(&mut m, 105, 1000);
    assert_eq!(m, vec![100], "a double tap is ignored");
    tap_mark(&mut m, 50, 1000);
    assert_eq!(m, vec![50, 100]);
}

#[test]
fn readiness_matches_entries_and_marks_by_path() {
    let mut p = project(&["/m//a.wav", "/m/./b.wav"]);
    p.save_taps("/m/a.wav", 44_100, vec![1, 2]);
    p.save_taps("/m/b.wav/", 44_100, vec![3, 4]);
    assert_eq!(p.readiness(), Some("ready to render".to_string()));
    p.track_renamed("/m/a.wav", "/m/c.wav");
    assert_eq!(entries(&p), vec!["/m/c.wav", "/m/./b.wav"]);
    assert!(p.beats().has_beats("/m/c.wav"));
    p.track_deleted("/m//b.wav");
    assert_eq!(entries(&p), vec!["/m/c.wav"]);
    assert!(p.beats().get("/m/b.wav").is_none());
}
