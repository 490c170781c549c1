use termkrush::navigation::{
    centered, crate_nav, ellipsize, playhead, trim_bar, Arrow, ArrowEffect, Cursor, Focus, Rect,
};
use termkrush::timeline::PADS;

#[test]
fn tab_jumps_between_the_three_areas() {
    let mut c = Cursor::new();
    c.set_focus(Focus::Crate);
    c.next_area(true);
    assert_eq!(c.focus(), Focus::Pad(0)); // Library → Pads
    c.next_area(true);
    assert_eq!(c.focus(), Focus::Timeline); // Pads → Timeline
    c.next_area(true);
    assert_eq!(c.focus(), Focus::Crate); // Timeline → Library
}

#[test]
fn shift_tab_goes_back_to_the_last_pad() {
    let mut c = Cursor::new();
    c.set_focus(Focus::Pad(5));
    c.next_area(true);
    assert_eq!(c.focus(), Focus::Timeline);
    c.next_area(false);
    assert_eq!(c.focus(), Focus::Pad(5));
    c.next_area(false);
    assert_eq!(c.focus(), Focus::Crate);
    assert_eq!(c.active_pad(), 5, "loads go to the last pad focused");
}

#[test]
fn arrows_volume_and_left_right_move_focus() {
    let mut c = Cursor::new();
    c.set_focus(Focus::Pad(0));
    // Up/Down change the focused pad's volume.
    assert_eq!(c.arrow(Arrow::Down, 64), ArrowEffect::Volume { up: false });
    assert_eq!(c.arrow(Arrow::Up, 64), ArrowEffect::Volume { up: true });
    // Left/Right move focus (not volume).
    let before = c.focus();
    assert_eq!(c.arrow(Arrow::Right, 64), ArrowEffect::Focus);
    assert_ne!(c.focus(), before, "right moves focus");
    // On the library, Up/Down browse instead of changing volume.
    c.set_focus(Focus::Crate);
    assert_eq!(c.arrow(Arrow::Down, 64), ArrowEffect::Browse { down: true });
    assert_eq!(c.arrow(Arrow::Left, 64), ArrowEffect::Ignored);
}

#[test]
fn pad_focus_stops_at_both_ends() {
    let mut c = Cursor::new();
    c.arrow(Arrow::Left, 64);
    assert_eq!(c.focus(), Focus::Pad(0));
    c.set_focus(Focus::Pad(PADS - 1));
    c.arrow(Arrow::Right, 64);
    assert_eq!(c.focus(), Focus::Pad(PADS - 1));
}

#[test]
fn grid_cursor_is_clamped() {
    let mut c = Cursor::new();
    c.set_focus(Focus::Timeline);
    for _ in 0..10 {
        c.arrow(Arrow::Right, 4);
    }
    assert_eq!(c.tl_step(), 3);
    c.arrow(Arrow::Left, 4);
    assert_eq!(c.tl_step(), 2);
    for _ in 0..40 {
        c.arrow(Arrow::Down, 4);
    }
    assert_eq!(c.tl_lane(), PADS - 1);
    c.arrow(Arrow::Up, 4);
    assert_eq!(c.tl_lane(), PADS - 2);
    // A shorter grid pulls the cursor back in on the next move right.
    c.arrow(Arrow::Right, 2);
    assert_eq!(c.tl_step(), 1);
}

#[test]
fn library_selection_wraps() {
    assert_eq!(crate_nav(0, -1, 3), 2);
    assert_eq!(crate_nav(2, 1, 3), 0);
    assert_eq!(crate_nav(1, 1, 3), 2);
    assert_eq!(crate_nav(5, 0, 0), 0, "empty list");
    assert_eq!(crate_nav(0, -7, 3), 2);
}

#[test]
fn playhead_is_the_step_before_the_next() {
    assert_eq!(playhead(false, 3, 16), None);
    assert_eq!(playhead(true, 3, 16), Some(2));
    assert_eq!(playhead(true, 0, 16), Some(15));
    assert_eq!(playhead(true, 0, 0), Some(0));
}

#[test]
fn ellipsize_cuts_long_names() {
    assert_eq!(ellipsize("short", 10), "short");
    assert_eq!(ellipsize("exactly", 7), "exactly");
    assert_eq!(ellipsize("a longer name", 6), "a lon…");
    assert_eq!(ellipsize("anything", 1), "…");
    assert_eq!(ellipsize("anything", 0), "…");
    assert_eq!(ellipsize("héllo wörld", 4), "hél…");
}

#[test]
fn trim_bar_fills_the_trimmed_region() {
    assert_eq!(trim_bar(0, 10, 0, 5), "[]");
    assert_eq!(trim_bar(0, 10, 10, 0), "[]");
    assert_eq!(trim_bar(0, 10, 10, 5), "[█████]");
    assert_eq!(trim_bar(2, 6, 10, 5), "[░██░░]");
    assert_eq!(trim_bar(0, 20, 10, 4), "[████]", "clamped to the width");
}

#[test]
fn centered_rect_sits_in_the_middle() {
    let area = Rect { x: 10, y: 5, width: 80, height: 24 };
    assert_eq!(centered(40, 10, area), Rect { x: 30, y: 12, width: 40, height: 10 });
    assert_eq!(centered(200, 100, area), area, "clamped to the area");
}
