use termkrush::timeline::{Timeline, PADS};

#[test]
fn places_toggles_and_queries_hits() {
    let mut t = Timeline::new(2, 16);
    assert_eq!(t.total_steps(), 32);
    assert!(!t.step(0, 4));
    assert!(t.toggle(0, 4)); // → on
    assert!(t.step(0, 4));
    t.set_step(3, 4, true);
    assert_eq!(t.pads_at(4), vec![0, 3]);
    assert!(!t.toggle(0, 4)); // → off
    assert_eq!(t.pads_at(4), vec![3]);
    t.clear();
    assert!(t.pads_at(4).is_empty());
}

#[test]
fn out_of_range_is_safe() {
    let mut t = Timeline::new(1, 4);
    assert!(!t.step(99, 0));
    t.set_step(99, 99, true); // no panic
    assert!(t.pads_at(99).is_empty());
}

#[test]
fn default_is_four_bars_of_sixteenths() {
    let t = Timeline::default();
    assert_eq!(t.bars(), 4);
    assert_eq!(t.steps_per_bar(), 16);
    assert_eq!(t.total_steps(), 64);
}

#[test]
fn zero_sizes_are_raised_to_one() {
    let t = Timeline::new(0, 0);
    assert_eq!(t.bars(), 1);
    assert_eq!(t.steps_per_bar(), 1);
    assert_eq!(t.total_steps(), 1);
}

#[test]
fn every_lane_can_hit_the_same_step() {
    let mut t = Timeline::new(1, 8);
    for lane in 0..PADS {
        t.set_step(lane, 7, true);
    }
    assert_eq!(t.pads_at(7), (0..PADS).collect::<Vec<usize>>());
    assert!(t.pads_at(6).is_empty());
    // Past the last step nothing is placed, and the toggle reports that.
    assert!(!t.toggle(0, 8));
    assert!(!t.step(0, 8));
}

#[test]
fn toggle_twice_restores() {
    let mut t = Timeline::new(1, 4);
    t.set_step(2, 1, true);
    assert!(!t.toggle(2, 1));
    assert!(t.toggle(2, 1));
    assert!(t.step(2, 1));
}

#[test]
fn toggle_outside_the_grid_reports_off() {
    let mut t = Timeline::new(1, 4);
    assert!(!t.toggle(99, 0), "nothing stored outside the grid");
    assert!(!t.step(99, 0));
    assert!(t.pads_at(0).is_empty());
}
