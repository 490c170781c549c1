//! The terminal interface's key handling: what each key press decides,
//! given the prompts, typing modes and menus that may be open. The
//! decisions live here; what they call for outside (deleting or renaming a
//! file, loading a track, the mixer's moves) comes back as a command for
//! the caller to perform.
use vstd::prelude::*;
use crate::library::{matching, Crate, CrateEntry};
use crate::navigation::{crate_nav, wrapped, Arrow, Cursor, Focus};
use crate::paths::{file_name, file_name_of};
use crate::text::{chars_of, string_of};
use crate::trim::mark_step;

verus! {

/// A key press.
#[derive(Debug, Clone, Copy, PartialEq, Eq, Structural)]
pub enum Key {
    Char(char),
    Enter,
    Esc,
    Backspace,
    Tab,
    BackTab,
    Up,
    Down,
    Left,
    Right,
    Other,
}

/// What the event loop should do after a key.
#[derive(Debug, Clone, Copy, PartialEq, Eq, Structural)]
pub enum Action {
    /// Nothing to do.
    Nothing,
    Quit,
    ConfirmQuit,
    Focus,
    Filter,
    CrateNav,
    AssignPad,
    TriggerPad,
    Mark,
    Record,
    MasterGain,
    Timeline,
}

/// An item of the context menu.
#[derive(Debug, Clone, Copy, PartialEq, Eq, Structural)]
pub enum MenuAction {
    Rename,
    Delete,
    MarkMove,
    PasteHere,
    Filter,
    Load,
    CycleKind,
    ToggleActive,
    SaveNew,
    SaveOver,
    Export,
    Unload,
    PhraseRec,
    ClearPhrase,
    Record,
    Cut,
    Region,
    Clear,
    Render,
    TempoUp,
    TempoDown,
    MasterUp,
    MasterDown,
}

/// The open context menu: its items and the highlighted one.
#[derive(Debug, Clone)]
pub struct Menu {
    pub items: Vec<MenuAction>,
    pub sel: usize,
}

/// Outside work a key calls for; the caller performs it and answers with
/// the resulting action.
#[derive(Debug, Clone)]
pub enum Command {
    /// Delete the library file at this path.
    Delete(String),
    /// Rename the library file at `path` to `name`.
    Rename { path: String, name: String },
    /// Navigate the library into this folder.
    EnterDir(String),
    /// Decode the track at `path` onto pad `pad`.
    Load { pad: usize, path: String },
    /// Nudge pad `pad`'s volume.
    Volume { pad: usize, up: bool },
    /// Space on the focused area (a pad plays, the grid's transport toggles).
    Space(Focus),
    /// Enter on pad `pad` (edit its clip, or whip a scratch pad).
    PadPrimary(usize),
    /// Toggle the grid's hit at `lane`, `step`.
    ToggleStep { lane: usize, step: usize },
    /// Move pad `pad`'s out-mark (`out_mark`) or in-mark by `delta` frames.
    NudgeMark { pad: usize, out_mark: bool, delta: i64 },
    /// Play pad `pad`'s trimmed selection.
    Audition(usize),
    /// Keep only pad `pad`'s trimmed selection.
    Snip(usize),
    /// Move the marked track into folder `dir`.
    MoveInto { track: String, dir: String },
    /// Run a menu item that acts on the mixer or the arrangement.
    Menu(MenuAction),
}

/// What a key press comes to: a decided action, or work for the caller.
#[derive(Debug, Clone)]
pub enum Reaction {
    Done(Action),
    Perform(Command),
}

/// The interface's modes and selections.
pub struct UiState {
    pub should_quit: bool,
    /// The quit prompt is open.
    pub confirm_quit: bool,
    /// A delete prompt is open for this track.
    pub confirm_delete: Option<String>,
    /// A rename is being typed: the track and the name so far.
    pub rename: Option<(String, Vec<char>)>,
    /// A library filter is being typed.
    pub filter: Option<Vec<char>>,
    pub menu: Option<Menu>,
    /// The clip editor is open on this pad.
    pub clip_edit: Option<usize>,
    /// The clip editor's out-mark is the active one.
    pub ce_out: bool,
    /// A track marked to be moved.
    pub move_mark: Option<String>,
    pub cursor: Cursor,
    /// The highlighted library entry.
    pub crate_sel: usize,
}

/// The filter's text (empty when none is being typed).
pub open spec fn filter_text(f: Option<Vec<char>>) -> Seq<char> {
    match f {
        Some(v) => v@,
        None => Seq::empty(),
    }
}

/// The highlighted entry of `shown` under filter `q` at selection `sel`:
/// its path and whether it is a folder (the selection clamps to the list).
pub open spec fn selection(shown: Seq<(Seq<char>, Seq<char>, bool)>, q: Seq<char>, sel: usize) -> Option<(Seq<char>, bool)> {
    let es = matching(shown, q);
    if es.len() == 0 {
        None
    } else {
        let i = if sel < es.len() {
            sel as int
        } else {
            es.len() - 1
        };
        Some((es[i].0, es[i].2))
    }
}

/// The items of the context menu for an area.
pub open spec fn menu_items(f: Focus) -> Seq<MenuAction> {
    match f {
        Focus::Crate => seq![
            MenuAction::Rename,
            MenuAction::Delete,
            MenuAction::MarkMove,
            MenuAction::PasteHere,
            MenuAction::Filter,
        ],
        Focus::Pad(_) => seq![
            MenuAction::Load,
            MenuAction::CycleKind,
            MenuAction::ToggleActive,
            MenuAction::SaveNew,
            MenuAction::SaveOver,
            MenuAction::Export,
            MenuAction::Unload,
            MenuAction::PhraseRec,
            MenuAction::ClearPhrase,
        ],
        Focus::Timeline => seq![
            MenuAction::Record,
            MenuAction::Cut,
            MenuAction::Region,
            MenuAction::Clear,
            MenuAction::Render,
            MenuAction::TempoUp,
            MenuAction::TempoDown,
            MenuAction::MasterUp,
            MenuAction::MasterDown,
        ],
    }
}

impl UiState {
    /// The state is well formed: its cursor is, and an open menu highlights one of its items.
    pub open spec fn wf(&self) -> bool {
        &&& self.cursor.wf()
        &&& match self.menu {
            Some(m) => m.sel < m.items.len(),
            None => true,
        }
    }

    /// The starting state: nothing open, the first pad focused.
    pub fn new() -> (s: UiState)
        ensures
            s.wf(),
            !s.should_quit && !s.confirm_quit && !s.ce_out,
            s.confirm_delete is None && s.rename is None && s.filter is None,
            s.menu is None && s.clip_edit is None && s.move_mark is None,
            s.crate_sel == 0,
            s.cursor.focus_of() == Focus::Pad(0),
    {
        UiState {
            should_quit: false,
            confirm_quit: false,
            confirm_delete: None,
            rename: None,
            filter: None,
            menu: None,
            clip_edit: None,
            ce_out: false,
            move_mark: None,
            cursor: Cursor::new(),
            crate_sel: 0,
        }
    }
}

fn entry_of(e: &CrateEntry) -> (r: (String, bool))
    ensures
        r.0@ == e.path@ && r.1 == e.is_dir,
{
    (e.path.clone(), e.is_dir)
}

/// The highlighted library entry under the current filter.
fn selected(lib: &Crate, filter: &Option<Vec<char>>, sel: usize) -> (r: Option<(String, bool)>)
    ensures
        match selection(lib.shown(), filter_text(*filter), sel) {
            Some((p, d)) => r matches Some(x) && x.0@ == p && x.1 == d,
            None => r is None,
        },
{
    let q = match filter {
        Some(v) => string_of(v.as_slice()),
        None => String::new(),
    };
    let es = lib.filtered(q.as_str());
    let ghost m = matching(lib.shown(), filter_text(*filter));
    proof {
        assert(es@.map_values(|e: &CrateEntry| e@) == m);
        assert(es@.len() == m.len());
    }
    if es.len() == 0 {
        return None;
    }
    let i = if sel < es.len() {
        sel
    } else {
        es.len() - 1
    };
    proof {
        assert(es@.map_values(|e: &CrateEntry| e@)[i as int] == es@[i as int]@);
    }
    Some(entry_of(es[i]))
}

/// The highlighted library track under `s`'s filter and selection;
/// `None` when nothing is highlighted or a folder is (folders are not
/// tracks).
pub fn selected_path(s: &UiState, lib: &Crate) -> (r: Option<String>)
    ensures
        match selection(lib.shown(), filter_text(s.filter), s.crate_sel) {
            Some((p, false)) => r matches Some(x) && x@ == p,
            _ => r is None,
        },
{
    match selected(lib, &s.filter, s.crate_sel) {
        Some((p, false)) => Some(p),
        _ => None,
    }
}

/// The quit prompt: `y` quits, anything else closes the prompt.
pub open spec fn quit_prompt(old: UiState, new: UiState, key: Key, r: Reaction) -> bool {
    if key == Key::Char('y') || key == Key::Char('Y') {
        new == (UiState { should_quit: true, ..old }) && r == Reaction::Done(Action::Quit)
    } else {
        new == (UiState { confirm_quit: false, ..old }) && r == Reaction::Done(Action::Nothing)
    }
}

/// The delete prompt for `path`: `y` deletes (and resets the
/// highlight), anything else closes the prompt.
pub open spec fn delete_prompt(old: UiState, new: UiState, path: Seq<char>, key: Key, r: Reaction) -> bool {
    if key == Key::Char('y') || key == Key::Char('Y') {
        &&& new == (UiState { confirm_delete: None, crate_sel: 0, ..old })
        &&& r matches Reaction::Perform(Command::Delete(p)) && p@ == path
    } else {
        &&& new == (UiState { confirm_delete: None, ..old })
        &&& r == Reaction::Done(Action::Nothing)
    }
}

/// Typing a rename of `path`, the name so far `buf`: characters append,
/// Backspace erases, Esc gives up, Enter renames (when the name is not
/// empty).
pub open spec fn rename_typing(old: UiState, new: UiState, path: Seq<char>, buf: Seq<char>, key: Key, r: Reaction) -> bool {
    match key {
        Key::Char(c) => {
            &&& new == (UiState { rename: new.rename, ..old })
            &&& new.rename matches Some(x) && x.0@ == path && x.1@ == buf.push(c)
            &&& r == Reaction::Done(Action::Filter)
        },
        Key::Backspace => {
            &&& new == (UiState { rename: new.rename, ..old })
            &&& new.rename matches Some(x) && x.0@ == path && x.1@ == (if buf.len() > 0 {
                buf.drop_last()
            } else {
                buf
            })
            &&& r == Reaction::Done(Action::Filter)
        },
        Key::Esc => {
            &&& new == (UiState { rename: None, ..old })
            &&& r == Reaction::Done(Action::Filter)
        },
        Key::Enter => if buf.len() > 0 {
            &&& new == (UiState { rename: None, crate_sel: 0, ..old })
            &&& r matches Reaction::Perform(Command::Rename { path: p, name: n }) && p@ == path
                && n@ == buf
        } else {
            &&& new == (UiState { rename: None, ..old })
            &&& r == Reaction::Done(Action::Mark)
        },
        _ => new == old && r == Reaction::Done(Action::Nothing),
    }
}

/// What opening the highlighted entry does: a folder is entered, a track
/// is loaded onto the active pad, nothing highlighted does nothing.
pub open spec fn opens(sel: Option<(Seq<char>, bool)>, pad: usize, r: Reaction) -> bool {
    match sel {
        Some((p, true)) => r matches Reaction::Perform(Command::EnterDir(d)) && d@ == p,
        Some((p, false)) => r matches Reaction::Perform(Command::Load { pad: q, path: t }) && q
            == pad && t@ == p,
        None => r == Reaction::Done(Action::Nothing),
    }
}

/// The pad library loads go to.
pub open spec fn active_pad_of(c: Cursor) -> usize {
    match c.focus_of() {
        Focus::Pad(i) => i,
        _ => c.last_pad_of(),
    }
}

/// The highlight after moving one entry up (`up`) or down through `n`
/// entries, wrapping around.
pub open spec fn moved_sel(sel: usize, up: bool, n: nat) -> usize {
    wrapped(sel as int, if up {
        -1
    } else {
        1
    }, n as int) as usize
}

/// Typing a library filter `q` over the listing `shown`: characters
/// append (the highlight goes back to the top), Backspace erases, Esc
/// drops the filter, Enter drops it and opens the highlighted entry, the
/// arrows move the highlight through the filtered list.
pub open spec fn filter_typing(old: UiState, new: UiState, shown: Seq<(Seq<char>, Seq<char>, bool)>, q: Seq<char>, key: Key, r: Reaction) -> bool {
    match key {
        Key::Char(c) => {
            &&& new == (UiState { filter: new.filter, crate_sel: 0, ..old })
            &&& new.filter is Some
            &&& filter_text(new.filter) == q.push(c)
            &&& r == Reaction::Done(Action::Filter)
        },
        Key::Backspace => {
            &&& new == (UiState { filter: new.filter, ..old })
            &&& new.filter is Some
            &&& filter_text(new.filter) == (if q.len() > 0 {
                q.drop_last()
            } else {
                q
            })
            &&& r == Reaction::Done(Action::Filter)
        },
        Key::Esc => {
            &&& new == (UiState { filter: None, ..old })
            &&& r == Reaction::Done(Action::Filter)
        },
        Key::Enter => {
            let sel = selection(shown, Seq::empty(), old.crate_sel);
            &&& new == (UiState {
                filter: None,
                crate_sel: if sel matches Some((_, true)) {
                    0
                } else {
                    old.crate_sel
                },
                ..old
            })
            &&& opens(sel, active_pad_of(old.cursor), r)
        },
        Key::Up | Key::Down => {
            &&& new == (UiState {
                crate_sel: moved_sel(old.crate_sel, key == Key::Up, matching(shown, q).len()),
                ..old
            })
            &&& r == Reaction::Done(Action::CrateNav)
        },
        _ => new == old && r == Reaction::Done(Action::Nothing),
    }
}

/// A track the library's menu acts on: the highlighted entry when the
/// library has focus and it is a track.
pub open spec fn menu_track(old: UiState, shown: Seq<(Seq<char>, Seq<char>, bool)>) -> Option<Seq<char>> {
    match selection(shown, filter_text(old.filter), old.crate_sel) {
        Some((p, false)) => if old.cursor.focus_of() == Focus::Crate {
            Some(p)
        } else {
            None
        },
        _ => None,
    }
}

/// A menu item run from the menu: rename, delete and mark act on the
/// highlighted track, paste moves the marked track here, filter starts a
/// filter, load loads the highlighted track; the other items are the
/// caller's. The menu closes first.
pub open spec fn menu_run(old: UiState, new: UiState, a: MenuAction, shown: Seq<(Seq<char>, Seq<char>, bool)>, cwd: Seq<char>, r: Reaction) -> bool {
    let track = menu_track(old, shown);
    match a {
        MenuAction::Rename => match track {
            Some(p) => {
                &&& new == (UiState { menu: None, rename: new.rename, ..old })
                &&& new.rename matches Some(x) && x.0@ == p && x.1@ == (match file_name_of(p) {
                    Some(n) => n,
                    None => Seq::empty(),
                })
                &&& r == Reaction::Done(Action::Filter)
            },
            None => new == (UiState { menu: None, ..old }) && r == Reaction::Done(Action::Nothing),
        },
        MenuAction::Delete => match track {
            Some(p) => {
                &&& new == (UiState { menu: None, confirm_delete: new.confirm_delete, ..old })
                &&& new.confirm_delete matches Some(x) && x@ == p
                &&& r == Reaction::Done(Action::Mark)
            },
            None => new == (UiState { menu: None, ..old }) && r == Reaction::Done(Action::Nothing),
        },
        MenuAction::MarkMove => match track {
            Some(p) => {
                &&& new == (UiState { menu: None, move_mark: new.move_mark, ..old })
                &&& new.move_mark matches Some(x) && x@ == p
                &&& r == Reaction::Done(Action::Mark)
            },
            None => new == (UiState { menu: None, ..old }) && r == Reaction::Done(Action::Nothing),
        },
        MenuAction::PasteHere => match old.move_mark {
            Some(m) => {
                &&& new == (UiState { menu: None, move_mark: None, crate_sel: 0, ..old })
                &&& r matches Reaction::Perform(Command::MoveInto { track: t, dir: d }) && t@ == m@
                    && d@ == cwd
            },
            None => new == (UiState { menu: None, ..old }) && r == Reaction::Done(Action::Nothing),
        },
        MenuAction::Filter => {
            &&& new == (UiState { menu: None, filter: new.filter, crate_sel: 0, ..old })
            &&& new.filter is Some
            &&& filter_text(new.filter) == Seq::<char>::empty()
            &&& r == Reaction::Done(Action::Filter)
        },
        MenuAction::Load => {
            &&& new == (UiState { menu: None, ..old })
            &&& opens(
                match selection(shown, filter_text(old.filter), old.crate_sel) {
                    Some((p, false)) => Some((p, false)),
                    _ => None,
                },
                active_pad_of(old.cursor),
                r,
            )
        },
        _ => {
            &&& new == (UiState { menu: None, ..old })
            &&& r matches Reaction::Perform(Command::Menu(b)) && b == a
        },
    }
}

/// The open menu with items `items` and highlight `sel`: the arrows move
/// the highlight (clamped), Enter runs the item, Esc or `m` closes it.
pub open spec fn menu_keys(old: UiState, new: UiState, items: Seq<MenuAction>, sel: usize, shown: Seq<(Seq<char>, Seq<char>, bool)>, cwd: Seq<char>, key: Key, r: Reaction) -> bool {
    match key {
        Key::Up => {
            &&& new == (UiState { menu: new.menu, ..old })
            &&& new.menu matches Some(m) && m.items@ == items && m.sel == (if sel > 0 {
                sel - 1
            } else {
                0
            })
            &&& r == Reaction::Done(Action::Mark)
        },
        Key::Down => {
            &&& new == (UiState { menu: new.menu, ..old })
            &&& new.menu matches Some(m) && m.items@ == items && m.sel == (if sel + 1 < items.len() {
                sel + 1
            } else if items.len() > 0 {
                items.len() - 1
            } else {
                0
            })
            &&& r == Reaction::Done(Action::Mark)
        },
        Key::Enter => sel < items.len() && menu_run(old, new, items[sel as int], shown, cwd, r),
        Key::Esc | Key::Char('m') => {
            &&& new == (UiState { menu: None, ..old })
            &&& r == Reaction::Done(Action::Mark)
        },
        _ => new == old && r == Reaction::Done(Action::Nothing),
    }
}

/// How far one arrow press moves a clip mark at `rate`: 10 ms of frames,
/// 100 ms with Shift, at least one frame.
pub open spec fn mark_delta(rate: u32, shift: bool) -> int {
    if shift {
        if rate / 10 >= 1 {
            (rate / 10) as int
        } else {
            1
        }
    } else {
        if rate / 100 >= 1 {
            (rate / 100) as int
        } else {
            1
        }
    }
}

/// The clip editor on pad `pad`: Esc closes it, Tab or the vertical
/// arrows switch the active mark, the horizontal arrows move it by 10 ms
/// (100 ms with Shift), Space auditions, Enter snips. Other keys pass on
/// (`None`).
pub open spec fn clip_keys(old: UiState, new: UiState, pad: usize, key: Key, shift: bool, rate: u32, r: Option<Reaction>) -> bool {
    match key {
        Key::Esc => new == (UiState { clip_edit: None, ..old }) && r == Some(
            Reaction::Done(Action::Mark),
        ),
        Key::Tab | Key::Up | Key::Down => new == (UiState { ce_out: !old.ce_out, ..old }) && r
            == Some(Reaction::Done(Action::Mark)),
        Key::Left | Key::Right => {
            &&& new == old
            &&& r matches Some(Reaction::Perform(Command::NudgeMark { pad: p, out_mark: o, delta: d }))
                && p == pad && o == old.ce_out && d == (if key == Key::Right {
                mark_delta(rate, shift)
            } else {
                -mark_delta(rate, shift)
            })
        },
        Key::Char(' ') => {
            &&& new == old
            &&& r matches Some(Reaction::Perform(Command::Audition(p))) && p == pad
        },
        Key::Enter => {
            &&& new == (UiState { ce_out: false, ..old })
            &&& r matches Some(Reaction::Perform(Command::Snip(p))) && p == pad
        },
        _ => new == old && r is None,
    }
}

/// The main keys: Esc asks to quit, Tab and Shift-Tab move between areas,
/// the arrows navigate, Space plays, Enter is the area's primary action,
/// `m` opens the area's menu.
pub open spec fn surface_keys(old: UiState, new: UiState, shown: Seq<(Seq<char>, Seq<char>, bool)>, key: Key, total_steps: usize, r: Reaction) -> bool {
    match key {
        Key::Esc => new == (UiState { confirm_quit: true, ..old }) && r == Reaction::Done(
            Action::ConfirmQuit,
        ),
        Key::Tab | Key::BackTab => {
            &&& new == (UiState { cursor: new.cursor, ..old })
            &&& new.cursor.wf()
            &&& (new.cursor.focus_of(), new.cursor.last_pad_of()) == crate::navigation::area_after(
                old.cursor.focus_of(),
                old.cursor.last_pad_of(),
                key == Key::Tab,
            )
            &&& new.cursor.step_of() == old.cursor.step_of()
            &&& new.cursor.lane_of() == old.cursor.lane_of()
            &&& r == Reaction::Done(Action::Focus)
        },
        Key::Up | Key::Down | Key::Left | Key::Right => match old.cursor.focus_of() {
            Focus::Crate => if key == Key::Up || key == Key::Down {
                &&& new == (UiState {
                    crate_sel: moved_sel(
                        old.crate_sel,
                        key == Key::Up,
                        matching(shown, filter_text(old.filter)).len(),
                    ),
                    ..old
                })
                &&& r == Reaction::Done(Action::CrateNav)
            } else {
                new == old && r == Reaction::Done(Action::Nothing)
            },
            Focus::Pad(i) => if key == Key::Up || key == Key::Down {
                &&& new == old
                &&& r matches Reaction::Perform(Command::Volume { pad: p, up: u }) && p == i && u == (
                key == Key::Up)
            } else {
                &&& new == (UiState { cursor: new.cursor, ..old })
                &&& new.cursor.wf()
                &&& new.cursor.focus_of() == Focus::Pad(
                    if key == Key::Left {
                        if i > 0 {
                            (i - 1) as usize
                        } else {
                            0usize
                        }
                    } else {
                        if i + 1 < crate::timeline::PADS {
                            (i + 1) as usize
                        } else {
                            (crate::timeline::PADS - 1) as usize
                        }
                    },
                )
                &&& new.cursor.step_of() == old.cursor.step_of()
                &&& new.cursor.lane_of() == old.cursor.lane_of()
                &&& r == Reaction::Done(Action::Focus)
            },
            Focus::Timeline => {
                let last: int = if total_steps > 0 {
                    total_steps - 1
                } else {
                    0
                };
                let st = old.cursor.step_of() as int;
                let ln = old.cursor.lane_of() as int;
                &&& new == (UiState { cursor: new.cursor, ..old })
                &&& new.cursor.wf()
                &&& new.cursor.focus_of() == Focus::Timeline
                &&& new.cursor.last_pad_of() == old.cursor.last_pad_of()
                &&& new.cursor.step_of() == match key {
                    Key::Left => if st > 0 {
                        st - 1
                    } else {
                        0
                    },
                    Key::Right => if st + 1 < last {
                        st + 1
                    } else {
                        last
                    },
                    _ => st,
                }
                &&& new.cursor.lane_of() == match key {
                    Key::Up => if ln > 0 {
                        ln - 1
                    } else {
                        0
                    },
                    Key::Down => if ln + 1 < crate::timeline::PADS {
                        ln + 1
                    } else {
                        crate::timeline::PADS - 1
                    },
                    _ => ln,
                }
                &&& r == Reaction::Done(Action::Timeline)
            },
        },
        Key::Char(' ') => {
            &&& new == old
            &&& r matches Reaction::Perform(Command::Space(f)) && f == old.cursor.focus_of()
        },
        Key::Enter => match old.cursor.focus_of() {
            Focus::Crate => {
                let sel = selection(shown, filter_text(old.filter), old.crate_sel);
                &&& new == (UiState {
                    crate_sel: if sel matches Some((_, true)) {
                        0
                    } else {
                        old.crate_sel
                    },
                    ..old
                })
                &&& opens(sel, active_pad_of(old.cursor), r)
            },
            Focus::Pad(i) => {
                &&& new == old
                &&& r matches Reaction::Perform(Command::PadPrimary(p)) && p == i
            },
            Focus::Timeline => {
                &&& new == old
                &&& r matches Reaction::Perform(Command::ToggleStep { lane: l, step: s }) && l
                    == old.cursor.lane_of() && s == old.cursor.step_of()
            },
        },
        Key::Char('m') => {
            &&& new == (UiState { menu: new.menu, ..old })
            &&& new.menu matches Some(m) && m.items@ == menu_items(old.cursor.focus_of()) && m.sel == 0
            &&& r == Reaction::Done(Action::Mark)
        },
        _ => new == old && r == Reaction::Done(Action::Nothing),
    }
}

/// The track a rename is typed for.
pub open spec fn rename_path(r: Option<(String, Vec<char>)>) -> Seq<char> {
    match r {
        Some((p, _)) => p@,
        None => Seq::empty(),
    }
}

/// The name typed so far.
pub open spec fn rename_buf(r: Option<(String, Vec<char>)>) -> Seq<char> {
    match r {
        Some((_, b)) => b@,
        None => Seq::empty(),
    }
}

/// Whether the clip editor passes `key` on to the main keys.
pub open spec fn clip_passes(key: Key) -> bool {
    match key {
        Key::Esc | Key::Tab | Key::Up | Key::Down | Key::Left | Key::Right | Key::Enter => false,
        Key::Char(c) => c != ' ',
        _ => true,
    }
}

/// What a key press decides. Ctrl-C always quits; otherwise the first
/// open of the quit prompt, the delete prompt, rename typing, filter
/// typing and the menu takes the key; the clip editor takes its keys; the
/// rest go to the main keys. `shown` and `cwd` are the library's listing
/// and directory, `total_steps` the grid's length, `rate` the clip rate.
pub open spec fn key_rule(
    old: UiState,
    new: UiState,
    key: Key,
    ctrl: bool,
    shift: bool,
    shown: Seq<(Seq<char>, Seq<char>, bool)>,
    cwd: Seq<char>,
    total_steps: usize,
    rate: u32,
    r: Reaction,
) -> bool {
    if ctrl && key == Key::Char('c') {
        new == (UiState { should_quit: true, ..old }) && r == Reaction::Done(Action::Quit)
    } else if old.confirm_quit {
        quit_prompt(old, new, key, r)
    } else if old.confirm_delete is Some {
        delete_prompt(old, new, old.confirm_delete->0@, key, r)
    } else if old.rename is Some {
        rename_typing(old, new, rename_path(old.rename), rename_buf(old.rename), key, r)
    } else if old.filter is Some {
        filter_typing(old, new, shown, filter_text(old.filter), key, r)
    } else if old.menu is Some {
        menu_keys(old, new, old.menu->0.items@, old.menu->0.sel, shown, cwd, key, r)
    } else if old.clip_edit is Some && !clip_passes(key) {
        clip_keys(old, new, old.clip_edit->0, key, shift, rate, Some(r))
    } else {
        surface_keys(old, new, shown, key, total_steps, r)
    }
}

fn listed(lib: &Crate, filter: &Option<Vec<char>>) -> (n: usize)
    ensures
        n == matching(lib.shown(), filter_text(*filter)).len(),
{
    let q = match filter {
        Some(v) => string_of(v.as_slice()),
        None => String::new(),
    };
    let es = lib.filtered(q.as_str());
    proof {
        assert(es@.map_values(|e: &CrateEntry| e@).len() == es@.len());
    }
    es.len()
}

fn move_sel(sel: usize, up: bool, n: usize) -> (r: usize)
    ensures
        r == moved_sel(sel, up, n as nat),
{
    let d: isize = if up {
        -1
    } else {
        1
    };
    crate_nav(sel, d, n)
}

fn open_selection(sel: Option<(String, bool)>, pad: usize) -> (r: Reaction)
    ensures
        opens(
            match sel {
                Some(x) => Some((x.0@, x.1)),
                None => None,
            },
            pad,
            r,
        ),
{
    match sel {
        Some((p, true)) => Reaction::Perform(Command::EnterDir(p)),
        Some((p, false)) => Reaction::Perform(Command::Load { pad, path: p }),
        None => Reaction::Done(Action::Nothing),
    }
}

fn run_menu(s: &mut UiState, a: MenuAction, lib: &Crate) -> (r: Reaction)
    requires
        old(s).wf(),
        old(s).menu is None,
    ensures
        menu_run(
            UiState { menu: old(s).menu, ..*old(s) },
            *final(s),
            a,
            lib.shown(),
            lib.cwd_path(),
            r,
        ),
{
    proof {
        assert(*old(s) == (UiState { menu: None, ..*old(s) }));
    }
    let sel = selected(lib, &s.filter, s.crate_sel);
    let on_crate = match s.cursor.focus() {
        Focus::Crate => true,
        _ => false,
    };
    if a == MenuAction::Load {
        let pick = match sel {
            Some((p, false)) => Some((p, false)),
            _ => None,
        };
        return open_selection(pick, s.cursor.active_pad());
    }
    let track: Option<String> = match sel {
        Some((p, false)) => if on_crate {
            Some(p)
        } else {
            None
        },
        _ => None,
    };
    match a {
        MenuAction::Rename => match track {
            Some(p) => {
                let n = match file_name(p.as_str()) {
                    Some(n) => chars_of(n.as_str()),
                    None => Vec::new(),
                };
                s.rename = Some((p, n));
                Reaction::Done(Action::Filter)
            },
            None => Reaction::Done(Action::Nothing),
        },
        MenuAction::Delete => match track {
            Some(p) => {
                s.confirm_delete = Some(p);
                Reaction::Done(Action::Mark)
            },
            None => Reaction::Done(Action::Nothing),
        },
        MenuAction::MarkMove => match track {
            Some(p) => {
                s.move_mark = Some(p);
                Reaction::Done(Action::Mark)
            },
            None => Reaction::Done(Action::Nothing),
        },
        MenuAction::PasteHere => match s.move_mark.take() {
            Some(m) => {
                s.crate_sel = 0;
                Reaction::Perform(Command::MoveInto { track: m, dir: lib.cwd().to_owned() })
            },
            None => Reaction::Done(Action::Nothing),
        },
        MenuAction::Filter => {
            s.filter = Some(Vec::new());
            s.crate_sel = 0;
            Reaction::Done(Action::Filter)
        },
        _ => Reaction::Perform(Command::Menu(a)),
    }
}

/// Handle a key press (`ctrl`, `shift`: the modifiers held) against the
/// library `lib`, a grid of `total_steps` steps and a clip rate `rate`.
pub fn on_key(
    s: &mut UiState,
    key: Key,
    ctrl: bool,
    shift: bool,
    lib: &Crate,
    total_steps: usize,
    rate: u32,
) -> (r: Reaction)
    requires
        old(s).wf(),
    ensures
        final(s).wf(),
        key_rule(
            *old(s),
            *final(s),
            key,
            ctrl,
            shift,
            lib.shown(),
            lib.cwd_path(),
            total_steps,
            rate,
            r,
        ),
{
    if ctrl && key == Key::Char('c') {
        s.should_quit = true;
        return Reaction::Done(Action::Quit);
    }
    if s.confirm_quit {
        if key == Key::Char('y') || key == Key::Char('Y') {
            s.should_quit = true;
            return Reaction::Done(Action::Quit);
        }
        s.confirm_quit = false;
        return Reaction::Done(Action::Nothing);
    }
    if s.confirm_delete.is_some() {
        let p = s.confirm_delete.take();
        if key == Key::Char('y') || key == Key::Char('Y') {
            s.crate_sel = 0;
            return match p {
                Some(path) => Reaction::Perform(Command::Delete(path)),
                None => Reaction::Done(Action::Nothing),
            };
        }
        return Reaction::Done(Action::Nothing);
    }
    if s.rename.is_some() {
        return rename_key(s, key);
    }
    if s.filter.is_some() {
        return filter_key(s, key, lib);
    }
    if s.menu.is_some() {
        return menu_key(s, key, lib);
    }
    match s.clip_edit {
        Some(pad) => {
            let passes = match key {
                Key::Esc | Key::Tab | Key::Up | Key::Down | Key::Left | Key::Right | Key::Enter => false,
                Key::Char(c) => c != ' ',
                _ => true,
            };
            if !passes {
                return clip_key(s, pad, key, shift, rate);
            }
        },
        None => {},
    }
    surface_key(s, key, lib, total_steps)
}

fn rename_key(s: &mut UiState, key: Key) -> (r: Reaction)
    requires
        old(s).wf(),
        old(s).rename is Some,
    ensures
        final(s).wf(),
        rename_typing(*old(s), *final(s), rename_path(old(s).rename), rename_buf(old(s).rename), key, r),
{
    match key {
        Key::Char(_) | Key::Backspace | Key::Esc | Key::Enter => {},
        _ => {
            return Reaction::Done(Action::Nothing);
        },
    }
    let cur = s.rename.take();
    let (p, mut b) = match cur {
        Some(x) => x,
        None => {
            return Reaction::Done(Action::Nothing);
        },
    };
    match key {
        Key::Char(c) => {
            b.push(c);
            s.rename = Some((p, b));
            Reaction::Done(Action::Filter)
        },
        Key::Backspace => {
            if b.len() > 0 {
                b.pop();
            }
            s.rename = Some((p, b));
            Reaction::Done(Action::Filter)
        },
        Key::Esc => Reaction::Done(Action::Filter),
        Key::Enter => {
            if b.len() > 0 {
                s.crate_sel = 0;
                Reaction::Perform(Command::Rename { path: p, name: string_of(b.as_slice()) })
            } else {
                Reaction::Done(Action::Mark)
            }
        },
        _ => {
            s.rename = Some((p, b));
            Reaction::Done(Action::Nothing)
        },
    }
}

fn filter_key(s: &mut UiState, key: Key, lib: &Crate) -> (r: Reaction)
    requires
        old(s).wf(),
        old(s).filter is Some,
    ensures
        final(s).wf(),
        filter_typing(*old(s), *final(s), lib.shown(), filter_text(old(s).filter), key, r),
{
    match key {
        Key::Char(c) => {
            let mut q = match s.filter.take() {
                Some(q) => q,
                None => Vec::new(),
            };
            q.push(c);
            s.filter = Some(q);
            s.crate_sel = 0;
            Reaction::Done(Action::Filter)
        },
        Key::Backspace => {
            let mut q = match s.filter.take() {
                Some(q) => q,
                None => Vec::new(),
            };
            if q.len() > 0 {
                q.pop();
            }
            s.filter = Some(q);
            Reaction::Done(Action::Filter)
        },
        Key::Esc => {
            s.filter = None;
            Reaction::Done(Action::Filter)
        },
        Key::Enter => {
            s.filter = None;
            let sel = selected(lib, &s.filter, s.crate_sel);
            proof {
                assert(filter_text(s.filter) == Seq::<char>::empty());
            }
            let is_dir = match &sel {
                Some((_, d)) => *d,
                None => false,
            };
            if is_dir {
                s.crate_sel = 0;
            }
            open_selection(sel, s.cursor.active_pad())
        },
        Key::Up | Key::Down => {
            let n = listed(lib, &s.filter);
            s.crate_sel = move_sel(s.crate_sel, key == Key::Up, n);
            Reaction::Done(Action::CrateNav)
        },
        _ => Reaction::Done(Action::Nothing),
    }
}

fn menu_key(s: &mut UiState, key: Key, lib: &Crate) -> (r: Reaction)
    requires
        old(s).wf(),
        old(s).menu is Some,
    ensures
        final(s).wf(),
        menu_keys(
            *old(s),
            *final(s),
            old(s).menu->0.items@,
            old(s).menu->0.sel,
            lib.shown(),
            lib.cwd_path(),
            key,
            r,
        ),
{
    match key {
        Key::Up | Key::Down => {
            let mut m = match s.menu.take() {
                Some(m) => m,
                None => Menu { items: Vec::new(), sel: 0 },
            };
            if key == Key::Up {
                m.sel = if m.sel > 0 {
                    m.sel - 1
                } else {
                    0
                };
            } else {
                let n = m.items.len();
                m.sel = if m.sel + 1 < n {
                    m.sel + 1
                } else if n > 0 {
                    n - 1
                } else {
                    0
                };
            }
            s.menu = Some(m);
            Reaction::Done(Action::Mark)
        },
        Key::Enter => {
            let m = match s.menu.take() {
                Some(m) => m,
                None => Menu { items: Vec::new(), sel: 0 },
            };
            let a = m.items[m.sel];
            run_menu(s, a, lib)
        },
        Key::Esc | Key::Char('m') => {
            s.menu = None;
            Reaction::Done(Action::Mark)
        },
        _ => Reaction::Done(Action::Nothing),
    }
}

fn clip_key(s: &mut UiState, pad: usize, key: Key, shift: bool, rate: u32) -> (r: Reaction)
    requires
        old(s).wf(),
        old(s).clip_edit == Some(pad),
        !clip_passes(key),
    ensures
        final(s).wf(),
        clip_keys(*old(s), *final(s), pad, key, shift, rate, Some(r)),
{
    match key {
        Key::Esc => {
            s.clip_edit = None;
            Reaction::Done(Action::Mark)
        },
        Key::Left | Key::Right => {
            let step = mark_step(rate, shift) as i64;
            let d = if key == Key::Right {
                step
            } else {
                -step
            };
            Reaction::Perform(Command::NudgeMark { pad, out_mark: s.ce_out, delta: d })
        },
        Key::Char(_) => Reaction::Perform(Command::Audition(pad)),
        Key::Enter => {
            s.ce_out = false;
            Reaction::Perform(Command::Snip(pad))
        },
        _ => {
            s.ce_out = !s.ce_out;
            Reaction::Done(Action::Mark)
        },
    }
}

fn surface_key(s: &mut UiState, key: Key, lib: &Crate, total_steps: usize) -> (r: Reaction)
    requires
        old(s).wf(),
    ensures
        final(s).wf(),
        surface_keys(*old(s), *final(s), lib.shown(), key, total_steps, r),
{
    match key {
        Key::Esc => {
            s.confirm_quit = true;
            Reaction::Done(Action::ConfirmQuit)
        },
        Key::Tab | Key::BackTab => {
            s.cursor.next_area(key == Key::Tab);
            Reaction::Done(Action::Focus)
        },
        Key::Up | Key::Down | Key::Left | Key::Right => {
            let dir = match key {
                Key::Up => Arrow::Up,
                Key::Down => Arrow::Down,
                Key::Left => Arrow::Left,
                _ => Arrow::Right,
            };
            match s.cursor.focus() {
                Focus::Crate => {
                    if key == Key::Up || key == Key::Down {
                        let n = listed(lib, &s.filter);
                        s.crate_sel = move_sel(s.crate_sel, key == Key::Up, n);
                        Reaction::Done(Action::CrateNav)
                    } else {
                        Reaction::Done(Action::Nothing)
                    }
                },
                Focus::Pad(i) => {
                    if key == Key::Up || key == Key::Down {
                        Reaction::Perform(Command::Volume { pad: i, up: key == Key::Up })
                    } else {
                        let _ = s.cursor.arrow(dir, total_steps);
                        Reaction::Done(Action::Focus)
                    }
                },
                Focus::Timeline => {
                    let _ = s.cursor.arrow(dir, total_steps);
                    Reaction::Done(Action::Timeline)
                },
            }
        },
        Key::Char(' ') => Reaction::Perform(Command::Space(s.cursor.focus())),
        Key::Enter => match s.cursor.focus() {
            Focus::Crate => {
                let sel = selected(lib, &s.filter, s.crate_sel);
                let is_dir = match &sel {
                    Some((_, d)) => *d,
                    None => false,
                };
                if is_dir {
                    s.crate_sel = 0;
                }
                open_selection(sel, s.cursor.active_pad())
            },
            Focus::Pad(i) => Reaction::Perform(Command::PadPrimary(i)),
            Focus::Timeline => Reaction::Perform(
                Command::ToggleStep { lane: s.cursor.tl_lane(), step: s.cursor.tl_step() },
            ),
        },
        Key::Char('m') => {
            let items = menu_list(s.cursor.focus());
            s.menu = Some(Menu { items, sel: 0 });
            Reaction::Done(Action::Mark)
        },
        _ => Reaction::Done(Action::Nothing),
    }
}

fn menu_list(f: Focus) -> (v: Vec<MenuAction>)
    ensures
        v@ == menu_items(f),
{
    let v = match f {
        Focus::Crate => vec![
            MenuAction::Rename,
            MenuAction::Delete,
            MenuAction::MarkMove,
            MenuAction::PasteHere,
            MenuAction::Filter,
        ],
        Focus::Pad(_) => vec![
            MenuAction::Load,
            MenuAction::CycleKind,
            MenuAction::ToggleActive,
            MenuAction::SaveNew,
            MenuAction::SaveOver,
            MenuAction::Export,
            MenuAction::Unload,
            MenuAction::PhraseRec,
            MenuAction::ClearPhrase,
        ],
        Focus::Timeline => vec![
            MenuAction::Record,
            MenuAction::Cut,
            MenuAction::Region,
            MenuAction::Clear,
            MenuAction::Render,
            MenuAction::TempoUp,
            MenuAction::TempoDown,
            MenuAction::MasterUp,
            MenuAction::MasterDown,
        ],
    };
    proof {
        assert(v@ =~= menu_items(f));
    }
    v
}

} // verus!
