use termkrush::trim::{mark_step, Trim};

#[test]
fn trim_nudges_clamp_inside_the_clip() {
    // 100 frames, the whole clip by default.
    let mut t = Trim::full(100);
    t.nudge_in(1000); // can't reach/pass out
    assert_eq!(t.inp, 99);
    t.nudge_out(100, 1000); // can't pass the clip end
    assert_eq!(t.out, 100);
}

#[test]
fn trim_bounds_move_non_destructively() {
    let mut t = Trim::full(100);
    assert_eq!(t, Trim { inp: 0, out: 100 });
    t.nudge_in(20); // (20, 100)
    t.nudge_out(100, -70); // (20, 30) → 10 frames
    assert_eq!(t, Trim { inp: 20, out: 30 });
    t.nudge_out(100, -500); // can't cross the in-point
    assert_eq!(t.out, 21);
    t.nudge_in(-500); // can't go before the start
    assert_eq!(t.inp, 0);
}

#[test]
fn set_points_are_clamped() {
    let mut t = Trim::full(100);
    t.set_in(150);
    assert_eq!(t.inp, 99, "kept below the out-point");
    t.set_in(10);
    assert_eq!(t.inp, 10);
    t.set_out(100, 5);
    assert_eq!(t.out, 11, "kept above the in-point");
    t.set_out(100, 500);
    assert_eq!(t.out, 100, "kept inside the clip");
}

#[test]
fn region_is_the_trimmed_samples() {
    let t = Trim { inp: 20, out: 30 };
    assert_eq!(t.region(100), Some((40, 60)));
    assert_eq!(t.region(25), Some((40, 50)), "clamped to a shorter clip");
    assert_eq!(Trim { inp: 5, out: 3 }.region(100), None);
}

#[test]
fn clip_editor_arrows_move_the_active_mark() {
    // 10 ms and 100 ms of frames at 1000 Hz.
    assert_eq!(mark_step(1000, false), 10);
    assert_eq!(mark_step(1000, true), 100);
    assert_eq!(mark_step(50, false), 1, "at least one frame");
    let mut t = Trim::full(4000);
    t.move_mark(4000, false, 50);
    assert_eq!(t, Trim { inp: 50, out: 4000 }, "in mark moved");
    t.move_mark(4000, true, -2050);
    assert_eq!(t, Trim { inp: 50, out: 1950 }, "out mark moved");
    t.move_mark(4000, false, -100);
    assert_eq!(t.inp, 0, "never before the start");
    t.move_mark(4000, true, -5000);
    assert_eq!(t.out, 1, "never across the in mark");
}

#[test]
fn nudging_an_empty_pad_changes_nothing() {
    let mut t = Trim::full(0);
    t.nudge_in(5);
    assert_eq!(t, Trim { inp: 0, out: 0 });
}
