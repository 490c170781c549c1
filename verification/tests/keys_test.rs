use termkrush::keys::{on_key, selected_path, Action, Command, Key, MenuAction, Reaction, UiState};
use termkrush::library::{Crate, CrateEntry};
use termkrush::navigation::Focus;
use termkrush::timeline::Timeline;
use termkrush::trim::Trim;

fn demo_crate() -> Crate {
    Crate::from_entries(vec![
        CrateEntry { name: "Alpha.mp3".to_string(), path: "/m/a.mp3".to_string(), is_dir: false },
        CrateEntry { name: "Beta.mp3".to_string(), path: "/m/b.mp3".to_string(), is_dir: false },
    ])
}

fn library() -> Crate {
    Crate::from_entries(vec![
        CrateEntry { path: "/m/Sets".to_string(), name: "Sets".to_string(), is_dir: true },
        CrateEntry { path: "/m/b.mp3".to_string(), name: "b.mp3".to_string(), is_dir: false },
    ])
}

fn press(s: &mut UiState, key: Key) -> Reaction {
    on_key(s, key, false, false, &library(), 16, 44100)
}

fn done(r: &Reaction) -> Option<Action> {
    match r {
        Reaction::Done(a) => Some(*a),
        Reaction::Perform(_) => None,
    }
}

#[test]
fn esc_opens_quit_modal_then_y_quits() {
    let mut s = UiState::new();
    assert_eq!(done(&press(&mut s, Key::Esc)), Some(Action::ConfirmQuit));
    assert!(s.confirm_quit && !s.should_quit);
    assert_eq!(done(&press(&mut s, Key::Char('n'))), Some(Action::Nothing));
    assert!(!s.confirm_quit);
    press(&mut s, Key::Esc);
    assert_eq!(done(&press(&mut s, Key::Char('y'))), Some(Action::Quit));
    assert!(s.should_quit);
}

#[test]
fn esc_closes_the_menu_then_opens_quit() {
    let mut s = UiState::new();
    press(&mut s, Key::Char('m'));
    assert!(s.menu.is_some());
    press(&mut s, Key::Esc);
    assert!(s.menu.is_none(), "first esc closes the menu");
    assert!(!s.confirm_quit, "and does not open quit yet");
    press(&mut s, Key::Esc);
    assert!(s.confirm_quit, "second esc opens the quit modal");
}

#[test]
fn esc_leaves_the_clip_editor_then_opens_quit() {
    let mut s = UiState::new();
    s.cursor.set_focus(Focus::Pad(0));
    // Enter on a pad asks for its clip editor; the caller opens it.
    match press(&mut s, Key::Enter) {
        Reaction::Perform(Command::PadPrimary(p)) => {
            assert_eq!(p, 0);
            s.clip_edit = Some(p);
        }
        other => panic!("unexpected {:?}", other),
    }
    assert!(s.clip_edit.is_some());
    press(&mut s, Key::Esc);
    assert!(s.clip_edit.is_none(), "first esc closes the clip editor");
    assert!(!s.confirm_quit);
    press(&mut s, Key::Esc);
    assert!(s.confirm_quit, "second esc opens quit");
}

#[test]
fn timeline_enter_toggles_a_step_at_the_cursor() {
    let mut t = Timeline::default();
    let mut s = UiState::new();
    s.cursor.set_focus(Focus::Timeline);
    let lib = demo_crate();
    on_key(&mut s, Key::Down, false, false, &lib, t.total_steps(), 44100); // lane 1
    on_key(&mut s, Key::Right, false, false, &lib, t.total_steps(), 44100); // step 1
    let action = match on_key(&mut s, Key::Enter, false, false, &lib, t.total_steps(), 44100) {
        Reaction::Perform(Command::ToggleStep { lane, step }) => {
            t.toggle(lane, step);
            Action::Timeline
        }
        other => panic!("unexpected {:?}", other),
    };
    assert_eq!(action, Action::Timeline);
    assert!(t.step(1, 1), "step placed at the cursor");
    assert_eq!(t.pads_at(1), vec![1]);
}

#[test]
fn filter_narrows_the_crate() {
    let lib = demo_crate();
    let mut s = UiState::new();
    s.cursor.set_focus(Focus::Crate);
    // Open the filter from the menu (its fifth item).
    on_key(&mut s, Key::Char('m'), false, false, &lib, 64, 44100);
    for _ in 0..4 {
        on_key(&mut s, Key::Down, false, false, &lib, 64, 44100);
    }
    assert_eq!(s.menu.as_ref().unwrap().items[4], MenuAction::Filter);
    assert_eq!(done(&on_key(&mut s, Key::Enter, false, false, &lib, 64, 44100)), Some(Action::Filter));
    on_key(&mut s, Key::Char('b'), false, false, &lib, 64, 44100); // matches "Beta"
    assert_eq!(selected_path(&s, &lib), Some("/m/b.mp3".to_string()));
}

#[test]
fn menu_opens_and_runs_an_action() {
    let mut s = UiState::new();
    s.cursor.set_focus(Focus::Pad(0));
    assert_eq!(done(&press(&mut s, Key::Char('m'))), Some(Action::Mark));
    assert!(s.menu.is_some(), "M opens the menu");
    // First item on a pad is "load track"; second is "kind".
    press(&mut s, Key::Down);
    match press(&mut s, Key::Enter) {
        Reaction::Perform(Command::Menu(a)) => assert_eq!(a, MenuAction::CycleKind),
        other => panic!("unexpected {:?}", other),
    }
    assert!(s.menu.is_none(), "running an item closes the menu");
}

#[test]
fn folder_entries_are_not_loadable_as_tracks() {
    let lib = Crate::from_entries(vec![CrateEntry {
        name: "sub".to_string(),
        path: "/m/sub".to_string(),
        is_dir: true,
    }]);
    let mut s = UiState::new();
    s.cursor.set_focus(Focus::Pad(0));
    assert_eq!(selected_path(&s, &lib), None, "folders aren't track paths");
    let r = on_key(&mut s, Key::Char('l'), false, false, &lib, 64, 44100);
    assert_eq!(done(&r), Some(Action::Nothing));
}

#[test]
fn tab_key_jumps_between_the_three_areas() {
    let mut s = UiState::new();
    s.cursor.set_focus(Focus::Crate);
    assert_eq!(done(&press(&mut s, Key::Tab)), Some(Action::Focus));
    assert_eq!(s.cursor.focus(), Focus::Pad(0)); // Library -> Pads
    press(&mut s, Key::Tab);
    assert_eq!(s.cursor.focus(), Focus::Timeline); // Pads -> Timeline
    press(&mut s, Key::Tab);
    assert_eq!(s.cursor.focus(), Focus::Crate); // Timeline -> Library
}

#[test]
fn library_enter_loads_onto_the_selected_pad() {
    let lib = demo_crate();
    let mut s = UiState::new();
    s.cursor.set_focus(Focus::Pad(3)); // remembers pad 3 as the target
    s.cursor.set_focus(Focus::Crate); // go to the library
    assert_eq!(selected_path(&s, &lib), Some("/m/a.mp3".to_string()));
    match on_key(&mut s, Key::Enter, false, false, &lib, 64, 44100) {
        Reaction::Perform(Command::Load { pad, path }) => {
            assert_eq!((pad, path.as_str()), (3, "/m/a.mp3"));
        }
        other => panic!("unexpected {:?}", other),
    }
}

#[test]
fn arrow_keys_set_volume_and_move_focus() {
    let mut s = UiState::new();
    s.cursor.set_focus(Focus::Pad(0));
    // Up/Down change the focused pad's volume.
    match press(&mut s, Key::Down) {
        Reaction::Perform(Command::Volume { pad, up }) => assert_eq!((pad, up), (0, false)),
        other => panic!("unexpected {:?}", other),
    }
    press(&mut s, Key::Up);
    // Left/Right move focus (not volume).
    let before = s.cursor.focus();
    press(&mut s, Key::Right);
    assert_ne!(s.cursor.focus(), before, "right moves focus");
    // On the library, Up/Down browse instead of changing volume.
    s.cursor.set_focus(Focus::Crate);
    assert_eq!(done(&press(&mut s, Key::Down)), Some(Action::CrateNav));
}

#[test]
fn clip_edit_marks_move_by_ten_millisecond_steps() {
    // At 1000 frames a second one arrow press is 10 frames.
    let lib = demo_crate();
    let mut trim = Trim::full(2000);
    let mut s = UiState::new();
    s.clip_edit = Some(0);
    for _ in 0..5 {
        match on_key(&mut s, Key::Right, false, false, &lib, 64, 1000) {
            Reaction::Perform(Command::NudgeMark { pad: 0, out_mark, delta }) => {
                trim.move_mark(2000, out_mark, delta)
            }
            other => panic!("unexpected {:?}", other),
        }
    }
    assert_eq!(trim.inp, 50, "in mark moved");
    on_key(&mut s, Key::Tab, false, false, &lib, 64, 1000);
    assert!(s.ce_out);
    for _ in 0..5 {
        match on_key(&mut s, Key::Left, false, false, &lib, 64, 1000) {
            Reaction::Perform(Command::NudgeMark { pad: 0, out_mark, delta }) => {
                trim.move_mark(2000, out_mark, delta)
            }
            other => panic!("unexpected {:?}", other),
        }
    }
    assert_eq!(trim.out, 1950, "out mark moved");
    // The selection a snip keeps: [50, 1950) = 1900 frames.
    let (a, b) = trim.region(2000).unwrap();
    assert_eq!((b - a) / 2, 1900);
}

#[test]
fn ctrl_c_always_quits() {
    let mut s = UiState::new();
    let r = on_key(&mut s, Key::Char('c'), true, false, &library(), 16, 44100);
    assert_eq!(done(&r), Some(Action::Quit));
    assert!(s.should_quit);

    let mut s = UiState::new();
    press(&mut s, Key::Esc);
    let r = on_key(&mut s, Key::Char('c'), true, false, &library(), 16, 44100);
    assert_eq!(done(&r), Some(Action::Quit));
    assert!(s.should_quit);

    let mut s = UiState::new();
    s.rename = Some(("/m/b.mp3".to_string(), vec!['x']));
    let r = on_key(&mut s, Key::Char('c'), true, false, &library(), 16, 44100);
    assert_eq!(done(&r), Some(Action::Quit));
    assert_eq!(s.rename.as_ref().map(|x| x.1.clone()), Some(vec!['x']));
}

#[test]
fn delete_prompt_y_deletes() {
    let mut s = UiState::new();
    s.confirm_delete = Some("/m/b.mp3".to_string());
    s.crate_sel = 1;
    match press(&mut s, Key::Char('Y')) {
        Reaction::Perform(Command::Delete(p)) => assert_eq!(p, "/m/b.mp3"),
        other => panic!("unexpected {:?}", other),
    }
    assert!(s.confirm_delete.is_none());
    assert_eq!(s.crate_sel, 0);
}

#[test]
fn delete_prompt_other_key_cancels() {
    let mut s = UiState::new();
    s.confirm_delete = Some("/m/b.mp3".to_string());
    s.crate_sel = 1;
    assert_eq!(done(&press(&mut s, Key::Char('n'))), Some(Action::Nothing));
    assert!(s.confirm_delete.is_none());
    assert_eq!(s.crate_sel, 1);
}

#[test]
fn rename_typing_edits_and_submits() {
    let mut s = UiState::new();
    s.rename = Some(("/m/b.mp3".to_string(), vec!['a']));
    assert_eq!(done(&press(&mut s, Key::Char('b'))), Some(Action::Filter));
    assert_eq!(s.rename.as_ref().unwrap().1, vec!['a', 'b']);
    assert_eq!(done(&press(&mut s, Key::Backspace)), Some(Action::Filter));
    assert_eq!(s.rename.as_ref().unwrap().1, vec!['a']);
    assert_eq!(done(&press(&mut s, Key::Left)), Some(Action::Nothing));
    assert_eq!(s.rename.as_ref().unwrap().1, vec!['a']);
    s.crate_sel = 1;
    match press(&mut s, Key::Enter) {
        Reaction::Perform(Command::Rename { path, name }) => {
            assert_eq!(path, "/m/b.mp3");
            assert_eq!(name, "a");
        }
        other => panic!("unexpected {:?}", other),
    }
    assert!(s.rename.is_none());
    assert_eq!(s.crate_sel, 0);
}

#[test]
fn rename_with_an_empty_name_does_nothing() {
    let mut s = UiState::new();
    s.rename = Some(("/m/b.mp3".to_string(), vec![]));
    assert_eq!(done(&press(&mut s, Key::Backspace)), Some(Action::Filter));
    assert_eq!(done(&press(&mut s, Key::Enter)), Some(Action::Mark));
    assert!(s.rename.is_none());

    let mut s = UiState::new();
    s.rename = Some(("/m/b.mp3".to_string(), vec!['q']));
    assert_eq!(done(&press(&mut s, Key::Esc)), Some(Action::Filter));
    assert!(s.rename.is_none());
}

#[test]
fn filter_typing_narrows_and_opens() {
    let mut s = UiState::new();
    s.filter = Some(vec![]);
    s.crate_sel = 1;
    assert_eq!(done(&press(&mut s, Key::Char('b'))), Some(Action::Filter));
    assert_eq!(s.filter, Some(vec!['b']));
    assert_eq!(s.crate_sel, 0);
    // Only `b.mp3` matches: the highlight wraps within one entry.
    assert_eq!(done(&press(&mut s, Key::Down)), Some(Action::CrateNav));
    assert_eq!(s.crate_sel, 0);
    assert_eq!(done(&press(&mut s, Key::Backspace)), Some(Action::Filter));
    assert_eq!(s.filter, Some(vec![]));
    assert_eq!(done(&press(&mut s, Key::Down)), Some(Action::CrateNav));
    assert_eq!(s.crate_sel, 1);
    match press(&mut s, Key::Enter) {
        Reaction::Perform(Command::Load { pad, path }) => {
            assert_eq!(pad, 0);
            assert_eq!(path, "/m/b.mp3");
        }
        other => panic!("unexpected {:?}", other),
    }
    assert!(s.filter.is_none());
}

#[test]
fn filter_esc_drops_the_filter() {
    let mut s = UiState::new();
    s.filter = Some(vec!['z']);
    assert_eq!(done(&press(&mut s, Key::Esc)), Some(Action::Filter));
    assert!(s.filter.is_none());
}

#[test]
fn enter_on_a_folder_enters_it() {
    let mut s = UiState::new();
    assert_eq!(done(&press(&mut s, Key::BackTab)), Some(Action::Focus));
    assert_eq!(s.cursor.focus(), Focus::Crate);
    s.crate_sel = 0;
    match press(&mut s, Key::Enter) {
        Reaction::Perform(Command::EnterDir(d)) => assert_eq!(d, "/m/Sets"),
        other => panic!("unexpected {:?}", other),
    }
    assert_eq!(s.crate_sel, 0);
}

#[test]
fn menu_opens_moves_and_runs() {
    let mut s = UiState::new();
    press(&mut s, Key::BackTab);
    assert_eq!(done(&press(&mut s, Key::Down)), Some(Action::CrateNav));
    assert_eq!(s.crate_sel, 1);
    assert_eq!(done(&press(&mut s, Key::Char('m'))), Some(Action::Mark));
    {
        let m = s.menu.as_ref().unwrap();
        assert_eq!(m.items.len(), 5);
        assert_eq!(m.items[0], MenuAction::Rename);
        assert_eq!(m.sel, 0);
    }
    press(&mut s, Key::Up);
    assert_eq!(s.menu.as_ref().unwrap().sel, 0);
    for _ in 0..10 {
        press(&mut s, Key::Down);
    }
    assert_eq!(s.menu.as_ref().unwrap().sel, 4);
    for _ in 0..4 {
        press(&mut s, Key::Up);
    }
    assert_eq!(done(&press(&mut s, Key::Enter)), Some(Action::Filter));
    assert!(s.menu.is_none());
    let (p, b) = s.rename.clone().unwrap();
    assert_eq!(p, "/m/b.mp3");
    assert_eq!(b, vec!['b', '.', 'm', 'p', '3']);
}

#[test]
fn menu_on_a_folder_has_no_track() {
    let mut s = UiState::new();
    press(&mut s, Key::BackTab);
    press(&mut s, Key::Char('m'));
    press(&mut s, Key::Down);
    assert_eq!(done(&press(&mut s, Key::Enter)), Some(Action::Nothing));
    assert!(s.menu.is_none());
    assert!(s.confirm_delete.is_none());
}

#[test]
fn menu_mark_then_paste_moves_the_track() {
    let mut s = UiState::new();
    press(&mut s, Key::BackTab);
    press(&mut s, Key::Down);
    press(&mut s, Key::Char('m'));
    press(&mut s, Key::Down);
    press(&mut s, Key::Down);
    assert_eq!(done(&press(&mut s, Key::Enter)), Some(Action::Mark));
    assert_eq!(s.move_mark.as_deref(), Some("/m/b.mp3"));
    press(&mut s, Key::Char('m'));
    for _ in 0..3 {
        press(&mut s, Key::Down);
    }
    match press(&mut s, Key::Enter) {
        Reaction::Perform(Command::MoveInto { track, dir }) => {
            assert_eq!(track, "/m/b.mp3");
            assert_eq!(dir, "");
        }
        other => panic!("unexpected {:?}", other),
    }
    assert!(s.move_mark.is_none());
    assert_eq!(s.crate_sel, 0);
}

#[test]
fn menu_closes_on_esc_and_m() {
    let mut s = UiState::new();
    press(&mut s, Key::Char('m'));
    assert_eq!(s.menu.as_ref().unwrap().items[0], MenuAction::Load);
    assert_eq!(done(&press(&mut s, Key::Esc)), Some(Action::Mark));
    assert!(s.menu.is_none());
    assert!(!s.confirm_quit);
    press(&mut s, Key::Char('m'));
    assert_eq!(done(&press(&mut s, Key::Char('m'))), Some(Action::Mark));
    assert!(s.menu.is_none());
}

#[test]
fn pad_menu_items_go_to_the_caller() {
    let mut s = UiState::new();
    press(&mut s, Key::Char('m'));
    press(&mut s, Key::Down);
    match press(&mut s, Key::Enter) {
        Reaction::Perform(Command::Menu(a)) => assert_eq!(a, MenuAction::CycleKind),
        other => panic!("unexpected {:?}", other),
    }
}

#[test]
fn clip_editor_keys() {
    let mut s = UiState::new();
    s.clip_edit = Some(2);
    match press(&mut s, Key::Right) {
        Reaction::Perform(Command::NudgeMark { pad, out_mark, delta }) => {
            assert_eq!((pad, out_mark, delta), (2, false, 441));
        }
        other => panic!("unexpected {:?}", other),
    }
    match on_key(&mut s, Key::Left, false, true, &library(), 16, 44100) {
        Reaction::Perform(Command::NudgeMark { pad, out_mark, delta }) => {
            assert_eq!((pad, out_mark, delta), (2, false, -4410));
        }
        other => panic!("unexpected {:?}", other),
    }
    assert_eq!(done(&press(&mut s, Key::Tab)), Some(Action::Mark));
    assert!(s.ce_out);
    match on_key(&mut s, Key::Right, false, false, &library(), 16, 50) {
        Reaction::Perform(Command::NudgeMark { pad, out_mark, delta }) => {
            assert_eq!((pad, out_mark, delta), (2, true, 1));
        }
        other => panic!("unexpected {:?}", other),
    }
    match press(&mut s, Key::Char(' ')) {
        Reaction::Perform(Command::Audition(p)) => assert_eq!(p, 2),
        other => panic!("unexpected {:?}", other),
    }
    match press(&mut s, Key::Enter) {
        Reaction::Perform(Command::Snip(p)) => assert_eq!(p, 2),
        other => panic!("unexpected {:?}", other),
    }
    assert!(!s.ce_out);
    assert_eq!(done(&press(&mut s, Key::Esc)), Some(Action::Mark));
    assert!(s.clip_edit.is_none());
    assert!(!s.confirm_quit);
}

#[test]
fn clip_editor_passes_other_keys_on() {
    let mut s = UiState::new();
    s.clip_edit = Some(0);
    assert_eq!(done(&press(&mut s, Key::Char('m'))), Some(Action::Mark));
    assert!(s.menu.is_some());
    assert_eq!(s.clip_edit, Some(0));
}

#[test]
fn surface_tab_arrows_and_enter() {
    let mut s = UiState::new();
    assert_eq!(done(&press(&mut s, Key::Right)), Some(Action::Focus));
    assert_eq!(s.cursor.focus(), Focus::Pad(1));
    match press(&mut s, Key::Up) {
        Reaction::Perform(Command::Volume { pad, up }) => assert_eq!((pad, up), (1, true)),
        other => panic!("unexpected {:?}", other),
    }
    match press(&mut s, Key::Enter) {
        Reaction::Perform(Command::PadPrimary(p)) => assert_eq!(p, 1),
        other => panic!("unexpected {:?}", other),
    }
    assert_eq!(done(&press(&mut s, Key::Tab)), Some(Action::Focus));
    assert_eq!(s.cursor.focus(), Focus::Timeline);
    assert_eq!(done(&press(&mut s, Key::Right)), Some(Action::Timeline));
    assert_eq!(done(&press(&mut s, Key::Down)), Some(Action::Timeline));
    assert_eq!((s.cursor.tl_lane(), s.cursor.tl_step()), (1, 1));
    match press(&mut s, Key::Enter) {
        Reaction::Perform(Command::ToggleStep { lane, step }) => assert_eq!((lane, step), (1, 1)),
        other => panic!("unexpected {:?}", other),
    }
    match press(&mut s, Key::Char(' ')) {
        Reaction::Perform(Command::Space(f)) => assert_eq!(f, Focus::Timeline),
        other => panic!("unexpected {:?}", other),
    }
    assert_eq!(done(&press(&mut s, Key::Other)), Some(Action::Nothing));
    assert_eq!(done(&press(&mut s, Key::Tab)), Some(Action::Focus));
    assert_eq!(s.cursor.focus(), Focus::Crate);
    assert_eq!(done(&press(&mut s, Key::Tab)), Some(Action::Focus));
    assert_eq!(s.cursor.focus(), Focus::Pad(1));
}
