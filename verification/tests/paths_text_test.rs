use termkrush::paths::{
    component_ranges, join, parent, path_eq, replace_file_name, resolves_within, starts_with,
};
use termkrush::text::{
    chars_lt, chars_of, copy_range, find_in, is_whitespace, parse_unsigned_in, push_decimal,
    range_eq, split_ranges, string_of, trim_bounds,
};

fn cs(s: &str) -> Vec<char> {
    s.chars().collect()
}

#[test]
fn join_puts_one_separator_between() {
    assert_eq!(join("/a", "b"), "/a/b");
    assert_eq!(join("/a/", "b"), "/a/b");
    assert_eq!(join("", "b"), "b");
}

#[test]
fn parent_drops_the_last_component() {
    assert_eq!(parent("/a/b"), Some("/a".to_string()));
    assert_eq!(parent("/a"), Some("/".to_string()));
    assert_eq!(parent("a"), Some(String::new()));
    assert_eq!(parent("/a//b/"), Some("/a".to_string()));
    assert_eq!(parent("/"), None);
    assert_eq!(parent(""), None);
}

#[test]
fn starts_with_compares_whole_components() {
    assert!(starts_with("/a/b", "/a"));
    assert!(starts_with("/a", "/a"));
    assert!(starts_with("/a/b", "/"));
    assert!(!starts_with("/ab", "/a"));
    assert!(!starts_with("/a", "/a/b"));
    assert!(!starts_with("a/b", "/a"), "relative is never under absolute");
}

#[test]
fn path_eq_ignores_doubled_and_trailing_separators() {
    assert!(path_eq("/a//b/", "/a/b"));
    assert!(path_eq("/a/./b", "/a/b"));
    assert!(!path_eq("/a/b", "a/b"));
    assert!(!path_eq("/a/b", "/a/c"));
}

#[test]
fn replace_file_name_swaps_the_last_component() {
    assert_eq!(replace_file_name("/a/b.wav", "c.wav"), "/a/c.wav");
    assert_eq!(replace_file_name("/a/..", "x"), "/a/../x");
    assert_eq!(replace_file_name("x", "y"), "y");
    assert_eq!(replace_file_name("/", "y"), "/y");
}

#[test]
fn component_ranges_finds_each_piece() {
    assert_eq!(component_ranges(&cs("/ab//c/")), vec![(1, 3), (5, 6)]);
    assert_eq!(component_ranges(&cs("./x")), vec![(2, 3)]);
    assert!(component_ranges(&cs("/")).is_empty());
}

#[test]
fn trimming_and_copying() {
    let s = cs("  ab c \t");
    assert!(is_whitespace(' '));
    assert!(is_whitespace('\t'));
    assert!(!is_whitespace('a'));
    assert_eq!(trim_bounds(&s, 0, s.len()), (2, 6));
    assert_eq!(copy_range(&s, 2, 6), cs("ab c"));
    assert!(range_eq(&s, 2, 4, &cs("ab")));
    assert!(!range_eq(&s, 2, 5, &cs("ab")));
}

#[test]
fn chars_and_strings_round_trip() {
    assert_eq!(chars_of("héllo"), vec!['h', 'é', 'l', 'l', 'o']);
    assert_eq!(string_of(&['o', 'k']), "ok");
    assert_eq!(string_of(&chars_of("a\tb")), "a\tb");
}

#[test]
fn split_and_find() {
    let s = cs("a,,bc,");
    assert_eq!(split_ranges(&s, 0, s.len(), ','), vec![(0, 1), (2, 2), (3, 5), (6, 6)]);
    assert_eq!(find_in(&s, 0, s.len(), ','), Some(1));
    assert_eq!(find_in(&s, 2, s.len(), 'c'), Some(4));
    assert_eq!(find_in(&s, 0, 1, ','), None);
}

#[test]
fn decimals_print_and_parse() {
    let mut out = cs("n=");
    push_decimal(&mut out, 0);
    push_decimal(&mut out, 1234567890);
    assert_eq!(string_of(&out), "n=01234567890");

    let d = cs("x 44100 18446744073709551615 18446744073709551616");
    assert_eq!(parse_unsigned_in(&d, 2, 7, u32::MAX as u64), Some(44100));
    assert_eq!(parse_unsigned_in(&d, 8, 28, u64::MAX), Some(u64::MAX));
    assert_eq!(parse_unsigned_in(&d, 29, 49, u64::MAX), None, "past the limit");
    assert_eq!(parse_unsigned_in(&d, 0, 1, u64::MAX), None, "not a digit");
    assert_eq!(parse_unsigned_in(&d, 2, 2, u64::MAX), None, "empty");
    assert_eq!(parse_unsigned_in(&d, 2, 7, 44099), None, "over the bound");
}

#[test]
fn char_order_is_code_point_lexicographic() {
    assert!(chars_lt(&cs("a"), &cs("b")));
    assert!(chars_lt(&cs("ab"), &cs("abc")));
    assert!(!chars_lt(&cs("abc"), &cs("ab")));
    assert!(!chars_lt(&cs("a"), &cs("a")));
    assert!(chars_lt(&cs("B"), &cs("a")));
}

#[test]
fn resolving_dot_dot_before_comparing() {
    assert!(resolves_within("/r/a/../b", "/r"));
    assert!(resolves_within("/r", "/r"));
    assert!(!resolves_within("/r/..", "/r"));
    assert!(!resolves_within("/r/a/../../x", "/r"));
    assert!(resolves_within("/..", "/"), "nothing above the filesystem root");
    assert!(!resolves_within("../r", "r"));
}
