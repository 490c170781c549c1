use termkrush::arrangement::Phase;
use termkrush::audio::{AudioError, DecodeError};
use termkrush::deck::{capture_range, DeckState};
use termkrush::mix::{PadKind, Pattern};

#[test]
fn toggle_plays_pauses_and_resumes() {
    let s = DeckState::Loaded;
    let s = s.on_toggle(true);
    assert_eq!(s, DeckState::Playing);
    let s = s.on_toggle(true);
    assert_eq!(s, DeckState::Paused);
    assert_eq!(s.on_toggle(true), DeckState::Playing);
}

#[test]
fn empty_deck_ignores_transport() {
    let s = DeckState::Empty;
    assert_eq!(s.on_play(false), DeckState::Empty);
    assert_eq!(s.on_toggle(false), DeckState::Empty);
    assert_eq!(s.on_stop(false), DeckState::Empty);
    assert_eq!(s.on_pause(), DeckState::Empty);
}

#[test]
fn stop_then_play_starts_again() {
    let s = DeckState::Playing.on_stop(true);
    assert_eq!(s, DeckState::Stopped);
    assert_eq!(s.on_pause(), DeckState::Stopped, "only a playing deck pauses");
    assert_eq!(s.on_play(true), DeckState::Playing);
}

#[test]
fn cycle_pad_kind_rotates() {
    assert_eq!(PadKind::default(), PadKind::OneShot);
    let k = PadKind::default().next();
    assert_eq!(k, PadKind::Loop);
    let k = k.next();
    assert_eq!(k, PadKind::Scratch);
    assert_eq!(k.next(), PadKind::OneShot, "wraps");
}

#[test]
fn cycle_pad_pattern_rotates_through_all() {
    let order = [
        Pattern::Straight,
        Pattern::Cut,
        Pattern::BabyScratch,
        Pattern::Transformer,
        Pattern::Stutter,
        Pattern::Warble,
        Pattern::Reverse,
    ];
    let mut p = Pattern::default();
    for &want in &order {
        assert_eq!(p, want);
        p = p.next();
    }
    assert_eq!(p, Pattern::Straight, "wraps");
}

#[test]
fn phase_defaults_on_the_beat() {
    assert_eq!(Phase::default(), Phase::OnBeat);
}

#[test]
fn error_messages() {
    assert_eq!(
        DecodeError::Open("x.mp3".to_string()).message(),
        "cannot open audio file: x.mp3"
    );
    assert_eq!(DecodeError::NoTrack.message(), "no decodable audio track in file");
    assert_eq!(
        DecodeError::MissingParams.message(),
        "track is missing sample rate or channels"
    );
    assert_eq!(DecodeError::Decode("eof".to_string()).message(), "decode error: eof");
    assert_eq!(DecodeError::Resample("r".to_string()).message(), "resample error: r");
    assert_eq!(AudioError::NoDevice.message(), "no default output device");
    assert_eq!(
        AudioError::UnsupportedFormat("i8".to_string()).message(),
        "unsupported sample format: i8"
    );
    assert_eq!(AudioError::Backend("b".to_string()).message(), "audio backend error: b");
}

#[test]
fn capture_clamps_orders_and_copies_region() {
    // 100 frames.
    assert_eq!(capture_range(10, 30, 100), (20, 60), "20 frames * 2 samples");
    assert_eq!(capture_range(30, 10, 100), (20, 60), "bounds get ordered");
    assert_eq!(capture_range(90, 999, 100), (180, 200), "clamped to track end");
    let (lo, hi) = capture_range(50, 50, 100);
    assert_eq!(hi - lo, 0, "empty range");
}
