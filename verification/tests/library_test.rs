use termkrush::library::{fuzzy_subsequence, is_audio, Crate, CrateEntry, DirItem};

fn file(name: &str) -> DirItem {
    DirItem { name: name.to_string(), is_dir: false }
}

fn dir(name: &str) -> DirItem {
    DirItem { name: name.to_string(), is_dir: true }
}

fn names(lib: &Crate) -> Vec<String> {
    lib.entries().iter().map(|e| e.name.clone()).collect()
}

#[test]
fn fuzzy_matches_subsequence_case_insensitively() {
    assert!(fuzzy_subsequence("Daft Punk - Around.mp3", "dpa"));
    assert!(fuzzy_subsequence("anything", ""));
    assert!(!fuzzy_subsequence("abc", "abcd"));
    assert!(!fuzzy_subsequence("hello", "world"));
}

#[test]
fn lists_folders_then_audio_and_navigates() {
    let root = "/tmp/tk-lib";
    let top = vec![file("Beta.mp3"), file("alpha.WAV"), file("notes.txt"), dir("sub")];
    let mut lib = Crate::scan(root, top.clone());
    // Folder first, then audio (wav + mp3) alpha; .txt skipped; no `..` at root.
    assert_eq!(names(&lib), vec!["sub", "alpha.WAV", "Beta.mp3"]);

    // Enter the subfolder: shows `..` then its track.
    let sub = lib.entries()[0].path.clone();
    lib.enter(&sub, true, vec![file("Gamma.mp3")]);
    assert_eq!(names(&lib), vec!["..", "Gamma.mp3"]);
    assert_eq!(lib.cwd(), "/tmp/tk-lib/sub");

    // The `..` entry walks back to root.
    let up = lib.entries()[0].path.clone();
    lib.enter(&up, true, top.clone());
    assert_eq!(lib.cwd(), root);

    // Can't escape above the root.
    lib.enter("/tmp", true, vec![dir("tk-lib")]);
    assert_eq!(lib.cwd(), root, "root is the ceiling");
}

#[test]
fn scan_missing_root_is_empty() {
    let lib = Crate::scan("/no/such/termkrush/lib/xyz", Vec::new());
    assert!(lib.is_empty());
}

#[test]
fn entries_carry_paths_and_kinds() {
    let lib = Crate::scan("/m", vec![file("b.mp3"), dir("Sets")]);
    assert_eq!(
        lib.entries(),
        &[
            CrateEntry { path: "/m/Sets".to_string(), name: "Sets".to_string(), is_dir: true },
            CrateEntry { path: "/m/b.mp3".to_string(), name: "b.mp3".to_string(), is_dir: false },
        ]
    );
    assert_eq!(lib.len(), 2);
}

#[test]
fn entering_a_file_does_nothing() {
    let mut lib = Crate::scan("/m", vec![file("a.wav"), dir("x")]);
    let before = lib.entries().to_vec();
    lib.enter("/m/a.wav", false, Vec::new());
    assert_eq!(lib.cwd(), "/m");
    assert_eq!(lib.entries(), before.as_slice());
}

#[test]
fn filter_narrows_by_name() {
    let lib = Crate::scan("/m", vec![file("Around.mp3"), file("b.mp3"), file("Daft.wav")]);
    let hits: Vec<String> = lib.filtered("ar").iter().map(|e| e.name.clone()).collect();
    assert_eq!(hits, vec!["Around.mp3"]);
    assert_eq!(lib.filtered("").len(), 3, "empty query matches all");
    assert!(lib.filtered("zzz").is_empty());
}

#[test]
fn from_entries_keeps_the_given_list() {
    let e = CrateEntry { path: "/m/b.mp3".to_string(), name: "b.mp3".to_string(), is_dir: false };
    let lib = Crate::from_entries(vec![e.clone()]);
    assert_eq!(lib.entries(), &[e]);
    assert_eq!(lib.cwd(), "");
}

#[test]
fn audio_extensions_are_case_insensitive() {
    assert!(is_audio("a.wav"));
    assert!(is_audio("B.MP3"));
    assert!(is_audio("x.y.Wav"));
    assert!(!is_audio("notes.txt"));
    assert!(!is_audio("wav"));
    assert!(!is_audio(".."));
    assert!(!is_audio("a.flac"));
}

#[test]
fn fuzzy_needs_the_order_not_adjacency() {
    assert!(fuzzy_subsequence("Beta.mp3", "BTA"));
    assert!(!fuzzy_subsequence("Beta.mp3", "atb"));
    assert!(!fuzzy_subsequence("", "a"));
}

#[test]
fn dot_dot_cannot_climb_above_the_root() {
    let root = "/tmp/tk-lib";
    let top = vec![dir("sub"), file("a.wav")];
    let mut lib = Crate::scan(root, top.clone());
    lib.enter("/tmp/tk-lib/..", true, vec![dir("tk-lib")]);
    assert_eq!(lib.cwd(), root, "root/.. is above the root");
    lib.enter("/tmp/tk-lib/sub/../..", true, vec![dir("tk-lib")]);
    assert_eq!(lib.cwd(), root);
    lib.enter("/tmp/tk-lib/./sub", true, vec![file("b.mp3")]);
    assert_eq!(lib.cwd(), "/tmp/tk-lib/./sub", "a `.` stays inside");
    lib.enter("/tmp/tk-lib/sub/..", true, top);
    assert_eq!(lib.cwd(), "/tmp/tk-lib/sub/..", "back at the root is allowed");
}
