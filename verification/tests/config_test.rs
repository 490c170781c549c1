use termkrush::about::{version_banner, VERSION};
use termkrush::config::{
    config_path, default_crate_root, expand_tilde, expand_tilde_with, home_dir, resolve_crate_root,
    Config,
};

const HOME: Option<&str> = Some("/home/tester");

#[test]
fn defaults_when_empty() {
    let cfg = Config::from_toml("", HOME);
    assert_eq!(cfg, Config::defaults(HOME));
}

#[test]
fn reads_crate_root() {
    let cfg = Config::from_toml(r#"crate_root = "/music/dj""#, HOME);
    assert_eq!(cfg.crate_root, "/music/dj");
}

#[test]
fn expand_tilde_uses_injected_home() {
    // Tested with an explicit home so it never reads the process
    // environment.
    let home = Some("/home/tester");
    assert_eq!(expand_tilde_with("~/Music/set", home), "/home/tester/Music/set");
    assert_eq!(expand_tilde_with("~", home), "/home/tester");
    assert_eq!(expand_tilde_with("/abs/path", home), "/abs/path");
    // No home: the tilde path is left literal.
    assert_eq!(expand_tilde_with("~/x", None), "~/x");
}

#[test]
fn malformed_toml_falls_back_to_defaults() {
    let cfg = Config::from_toml("this is = = not toml [[[", HOME);
    assert_eq!(cfg, Config::defaults(HOME));
}

#[test]
fn unknown_keys_ignored() {
    let cfg = Config::from_toml("volume = 0.8\ntheme = \"amber\"", HOME);
    assert_eq!(cfg.crate_root, default_crate_root(HOME));
}

#[test]
fn default_root_is_music_termkrush_under_home() {
    assert_eq!(default_crate_root(HOME), "/home/tester/Music/termkrush");
    assert_eq!(default_crate_root(None), "Music/termkrush");
}

#[test]
fn configured_root_expands_tilde() {
    let cfg = Config::from_toml("crate_root = \"~/dj\"\n", HOME);
    assert_eq!(cfg.crate_root, "/home/tester/dj");
}

#[test]
fn non_string_root_falls_back_to_defaults() {
    let cfg = Config::from_toml("crate_root = 5", HOME);
    assert_eq!(cfg, Config::defaults(HOME));
}

#[test]
fn resolve_prefers_the_configured_root() {
    assert_eq!(resolve_crate_root(Some("/x"), HOME), "/x");
    assert_eq!(resolve_crate_root(None, HOME), "/home/tester/Music/termkrush");
}

#[test]
fn home_comes_from_home_then_profile() {
    assert_eq!(
        home_dir(Some("/h".to_string()), Some("/p".to_string())),
        Some("/h".to_string())
    );
    assert_eq!(home_dir(None, Some("/p".to_string())), Some("/p".to_string()));
    assert_eq!(home_dir(Some(String::new()), Some("/p".to_string())), None);
    assert_eq!(home_dir(None, None), None);
}

#[test]
fn expand_tilde_reads_the_home_values() {
    assert_eq!(expand_tilde("~/a", Some("/h".to_string()), None), "/h/a");
    assert_eq!(expand_tilde("~/a", None, None), "~/a");
}

#[test]
fn tilde_inside_a_name_is_left_alone() {
    assert_eq!(expand_tilde_with("~user/x", HOME), "~user/x");
    assert_eq!(expand_tilde_with("a/~/b", HOME), "a/~/b");
}

#[test]
fn config_file_prefers_xdg() {
    assert_eq!(
        config_path(Some("/xdg"), HOME),
        Some("/xdg/termkrush/config.toml".to_string())
    );
    assert_eq!(
        config_path(None, HOME),
        Some("/home/tester/.config/termkrush/config.toml".to_string())
    );
    assert_eq!(
        config_path(Some(""), HOME),
        Some("/home/tester/.config/termkrush/config.toml".to_string())
    );
    assert_eq!(config_path(None, None), None);
}

#[test]
fn banner_has_name_and_version() {
    let banner = version_banner();
    assert!(banner.starts_with("TermKrush v"), "got: {banner}");
    // The version segment is non-empty and is the crate's release version.
    assert_eq!(banner, format!("TermKrush v{}", VERSION));
    assert!(banner.len() > "TermKrush v".len());
}

#[test]
fn banner_spells_out_the_release() {
    assert_eq!(version_banner(), "TermKrush v0.1.0");
}
