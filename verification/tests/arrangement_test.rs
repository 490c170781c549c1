use termkrush::arrangement::{Arrangement, Block};

fn block(start: u64, frames: u64) -> Block {
    Block { start, frames, clip: 0, source_pad: None }
}

#[test]
fn refresh_pad_reflows_sourced_blocks_only() {
    let mut a = Arrangement::new(1000, 2);
    let mut b = block(0, 4);
    b.source_pad = Some(3);
    a.add_block(0, b);
    a.add_block(1, block(0, 4)); // no source pad: untouched

    a.refresh_pad(3, 7, 6);
    assert_eq!(a.tracks()[0].blocks[0].clip, 7, "sourced block reflowed");
    assert_eq!(a.tracks()[0].blocks[0].frames, 6);
    assert_eq!(a.tracks()[1].blocks[0].clip, 0, "library block untouched");
    assert_eq!(a.tracks()[1].blocks[0].frames, 4);
}

#[test]
fn add_move_remove_and_total_length() {
    let mut a = Arrangement::new(44_100, 2);
    assert_eq!(a.track_count(), 2);
    a.add_block(0, block(100, 50)); // occupies [100, 150)
    a.add_block(1, block(200, 30)); // occupies [200, 230)
    assert_eq!(a.total_frames(), 230);

    // Move the first block onto track 1 starting at 300.
    let idx = a.move_block(0, 0, 1, 300).unwrap();
    assert!(a.tracks()[0].blocks.is_empty());
    assert_eq!(a.tracks()[1].blocks[idx].start, 300);
    assert_eq!(a.total_frames(), 350);

    // Bad indices are no-ops.
    assert!(a.move_block(9, 0, 0, 0).is_none());
    assert!(a.remove_block(0, 5).is_none());
}

#[test]
fn empty_arrangement_has_no_length() {
    let a = Arrangement::new(44_100, 4);
    assert_eq!(a.total_frames(), 0);
    assert_eq!(a.track_count(), 4);
}

#[test]
fn new_keeps_at_least_one_lane_and_a_positive_rate() {
    let a = Arrangement::new(0, 0);
    assert_eq!(a.track_count(), 1);
    assert_eq!(a.sample_rate(), 1);
}

#[test]
fn unlink_pad_keeps_the_clip() {
    let mut a = Arrangement::new(1000, 1);
    let mut b = block(5, 10);
    b.source_pad = Some(2);
    b.clip = 4;
    a.add_block(0, b);
    a.unlink_pad(2);
    let got = a.tracks()[0].blocks[0];
    assert_eq!(got.source_pad, None);
    assert_eq!(got.clip, 4);
    // A later refresh of that pad no longer reaches it.
    a.refresh_pad(2, 9, 1);
    assert_eq!(a.tracks()[0].blocks[0].clip, 4);
}

#[test]
fn remove_and_add_track() {
    let mut a = Arrangement::new(1000, 1);
    a.add_block(0, block(0, 3));
    a.add_block(0, block(10, 3));
    assert_eq!(a.remove_block(0, 0), Some(block(0, 3)));
    assert_eq!(a.tracks()[0].blocks, vec![block(10, 3)]);
    assert_eq!(a.add_track(), 1);
    assert_eq!(a.add_block(1, block(1, 1)), Some(0));
    assert_eq!(a.add_block(5, block(1, 1)), None);
    assert_eq!(a.total_frames(), 13);
    assert_eq!(a.tracks()[0].blocks[0].end(), 13);
}
