//! What each key and mouse event does to the state, and the outside work it
//! leaves for the caller (opening a file, re-reading the tree, carrying out
//! a prompt's action).
use vstd::prelude::*;
use crate::app::{
    App, AppModel, Mode, ModeView, PromptKind, PromptView, PromptAction, ActionView, on_row,
    move_up_spec, move_down_spec, open_selected_spec, toggle_expand_spec, go_to_parent_spec,
    start_filter_spec, start_prompt_spec, yank_path_spec, toggle_hidden_spec, cancel_filter_spec,
    confirm_filter_spec, apply_filter_spec, cancel_prompt_spec, confirm_prompt_spec, can_confirm,
    handle_click_spec,
};
use crate::fspath::{opt_view, parent_of};
use crate::text::push_char;
use crate::tree::rows_view;

verus! {

/// A key, as far as the view tells keys apart.
#[derive(Clone, Copy)]
pub enum Key {
    Char(char),
    Up,
    Down,
    Left,
    Right,
    Enter,
    Tab,
    Esc,
    Backspace,
    Delete,
    Other,
}

/// A key press, with whether Control was held.
#[derive(Clone, Copy)]
pub struct KeyInput {
    pub code: Key,
    pub ctrl: bool,
}

/// What a mouse event was.
#[derive(Clone, Copy)]
pub enum MouseKind {
    LeftDown,
    ScrollUp,
    ScrollDown,
    Other,
}

/// A mouse event on a terminal row.
#[derive(Clone, Copy)]
pub struct MouseInput {
    pub kind: MouseKind,
    pub row: u16,
}

/// The outside work an event leaves to the caller.
pub enum Effect {
    /// Nothing to do.
    Nothing,
    /// Send this command to the editor session.
    OpenFile(String),
    /// List the root again, run git, and hand both to `refresh_tree`.
    Refresh,
    /// Carry out the action, list the root again, run git, and hand all to
    /// `finish_prompt`.
    Run(PromptAction),
}

/// The value of an effect.
pub enum EffectView {
    Nothing,
    OpenFile(Seq<char>),
    Refresh,
    Run(ActionView),
}

impl View for Effect {
    type V = EffectView;

    open spec fn view(&self) -> EffectView {
        match self {
            Effect::Nothing => EffectView::Nothing,
            Effect::OpenFile(c) => EffectView::OpenFile(c@),
            Effect::Refresh => EffectView::Refresh,
            Effect::Run(a) => EffectView::Run(a@),
        }
    }
}

/// The effect of an optional editor command.
pub open spec fn open_effect(cmd: Option<Seq<char>>) -> EffectView {
    match cmd {
        Some(c) => EffectView::OpenFile(c),
        None => EffectView::Nothing,
    }
}

/// Keys in normal mode.
pub open spec fn normal_key_spec(m: AppModel, k: KeyInput) -> (AppModel, EffectView) {
    let sel = m.flat[m.selected];
    match k.code {
        Key::Char('q') => (AppModel { should_quit: true, ..m }, EffectView::Nothing),
        Key::Char('c') if k.ctrl => (AppModel { should_quit: true, ..m }, EffectView::Nothing),
        Key::Char('j') | Key::Down => (move_down_spec(m), EffectView::Nothing),
        Key::Char('k') | Key::Up => (move_up_spec(m), EffectView::Nothing),
        Key::Char('l') | Key::Right | Key::Enter => {
            let (m1, cmd) = open_selected_spec(m);
            (m1, open_effect(cmd))
        },
        Key::Char('h') | Key::Left => if on_row(m) {
            if sel.is_dir && sel.is_expanded {
                (toggle_expand_spec(m), EffectView::Nothing)
            } else {
                (go_to_parent_spec(m), EffectView::Nothing)
            }
        } else {
            (m, EffectView::Nothing)
        },
        Key::Tab => (toggle_expand_spec(m), EffectView::Nothing),
        Key::Char('/') => (start_filter_spec(m), EffectView::Nothing),
        Key::Char('n') => (start_prompt_spec(m, PromptView::NewFile), EffectView::Nothing),
        Key::Char('N') => (start_prompt_spec(m, PromptView::NewDir), EffectView::Nothing),
        Key::Char('d') | Key::Delete => if on_row(m) {
            (start_prompt_spec(m, PromptView::Delete(sel.path)), EffectView::Nothing)
        } else {
            (m, EffectView::Nothing)
        },
        Key::Char('r') => if on_row(m) {
            (start_prompt_spec(m, PromptView::Rename(sel.path)), EffectView::Nothing)
        } else {
            (m, EffectView::Nothing)
        },
        Key::Char('y') => (yank_path_spec(m), EffectView::Nothing),
        Key::Char('p') => if on_row(m) {
            (start_prompt_spec(m, PromptView::Copy(sel.path)), EffectView::Nothing)
        } else {
            (m, EffectView::Nothing)
        },
        Key::Char('.') => (toggle_hidden_spec(m), EffectView::Nothing),
        Key::Char('?') => (AppModel { mode: ModeView::Help, ..m }, EffectView::Nothing),
        Key::Char('R') => (m, EffectView::Refresh),
        _ => (m, EffectView::Nothing),
    }
}

/// A text without its last character, if it has one.
pub open spec fn pop_last(t: Seq<char>) -> Seq<char> {
    if t.len() > 0 {
        t.drop_last()
    } else {
        t
    }
}

/// Keys while a filter is typed: each change applies at once.
pub open spec fn filter_key_spec(m: AppModel, k: KeyInput) -> AppModel {
    match k.code {
        Key::Esc => cancel_filter_spec(m),
        Key::Enter => confirm_filter_spec(m),
        Key::Backspace => apply_filter_spec(AppModel { filter_text: pop_last(m.filter_text), ..m }),
        Key::Char(c) => apply_filter_spec(AppModel { filter_text: m.filter_text.push(c), ..m }),
        _ => m,
    }
}

/// Confirming a prompt from the keyboard; a rename of a path without a
/// parent leaves everything as it was.
pub open spec fn confirm_key_spec(m: AppModel) -> (AppModel, EffectView) {
    if can_confirm(m) {
        let (m1, act) = confirm_prompt_spec(m);
        (m1, EffectView::Run(act))
    } else {
        (m, EffectView::Nothing)
    }
}

/// Keys while a prompt is open: a deletion takes `y` or `Y` to confirm and
/// any other key to cancel; the other prompts take text.
pub open spec fn prompt_key_spec(m: AppModel, k: KeyInput) -> (AppModel, EffectView) {
    if m.mode matches ModeView::Prompt(PromptView::Delete(_)) {
        match k.code {
            Key::Char('y') | Key::Char('Y') => confirm_key_spec(AppModel { prompt_text: seq!['y'], ..m }),
            _ => (cancel_prompt_spec(m), EffectView::Nothing),
        }
    } else {
        match k.code {
            Key::Esc => (cancel_prompt_spec(m), EffectView::Nothing),
            Key::Enter => confirm_key_spec(m),
            Key::Backspace => (AppModel { prompt_text: pop_last(m.prompt_text), ..m }, EffectView::Nothing),
            Key::Char(c) => (AppModel { prompt_text: m.prompt_text.push(c), ..m }, EffectView::Nothing),
            _ => (m, EffectView::Nothing),
        }
    }
}

/// A key, by mode; any key closes the help.
pub open spec fn handle_key_spec(m: AppModel, k: KeyInput) -> (AppModel, EffectView) {
    match m.mode {
        ModeView::Normal => normal_key_spec(m, k),
        ModeView::Filter => (filter_key_spec(m, k), EffectView::Nothing),
        ModeView::Help => (AppModel { mode: ModeView::Normal, ..m }, EffectView::Nothing),
        ModeView::Prompt(_) => prompt_key_spec(m, k),
    }
}

/// A key event: in normal mode the message line is cleared first.
pub open spec fn key_event_spec(m: AppModel, k: KeyInput) -> (AppModel, EffectView) {
    let m1 = if m.mode is Normal {
        AppModel { message: None, ..m }
    } else {
        m
    };
    handle_key_spec(m1, k)
}

/// A mouse event at `now` milliseconds: a left click in normal mode on a
/// shown row clicks that row; the wheel moves the selection.
pub open spec fn mouse_spec(m: AppModel, e: MouseInput, now: u64) -> (AppModel, EffectView) {
    match e.kind {
        MouseKind::LeftDown => {
            let row = if e.row >= m.tree_start_y {
                e.row - m.tree_start_y
            } else {
                0
            };
            let item_row = row + m.scroll_offset;
            if m.mode is Normal && m.flat.len() > 0 && item_row < m.flat.len() {
                let (m1, cmd) = handle_click_spec(m, item_row, now);
                (m1, open_effect(cmd))
            } else {
                (m, EffectView::Nothing)
            }
        },
        MouseKind::ScrollUp => (move_up_spec(m), EffectView::Nothing),
        MouseKind::ScrollDown => (move_down_spec(m), EffectView::Nothing),
        MouseKind::Other => (m, EffectView::Nothing),
    }
}

/// The effect of an editor command.
fn effect_of(cmd: Option<String>) -> (e: Effect)
    ensures
        e@ == open_effect(opt_view(cmd)),
{
    match cmd {
        Some(c) => Effect::OpenFile(c),
        None => Effect::Nothing,
    }
}

/// The text without its last character.
fn popped(t: &String) -> (r: String)
    ensures
        r@ == pop_last(t@),
{
    let n = t.as_str().unicode_len();
    if n > 0 {
        String::from_str(t.as_str().substring_char(0, n - 1))
    } else {
        t.clone()
    }
}

impl App {
    /// A key in normal mode.
    pub fn handle_normal_key(&mut self, key: KeyInput) -> (e: Effect)
        ensures
            (final(self)@, e@) == normal_key_spec(old(self)@, key),
    {
        let on = self.selected < self.flat.len();
        proof {
            if on {
                assert(rows_view(self.flat@)[self.selected as int] == self.flat@[self.selected as int]@);
            }
        }
        match key.code {
            Key::Char('q') => {
                self.should_quit = true;
            },
            Key::Char('c') if key.ctrl => {
                self.should_quit = true;
            },
            Key::Char('j') | Key::Down => self.move_down(),
            Key::Char('k') | Key::Up => self.move_up(),
            Key::Char('l') | Key::Right | Key::Enter => {
                let cmd = self.open_selected();
                return effect_of(cmd);
            },
            Key::Char('h') | Key::Left => {
                if on {
                    if self.flat[self.selected].is_dir && self.flat[self.selected].is_expanded {
                        self.toggle_expand();
                    } else {
                        self.go_to_parent();
                    }
                }
            },
            Key::Tab => self.toggle_expand(),
            Key::Char('/') => self.start_filter(),
            Key::Char('n') => self.start_prompt(PromptKind::NewFile),
            Key::Char('N') => self.start_prompt(PromptKind::NewDir),
            Key::Char('d') | Key::Delete => {
                if on {
                    let path = self.flat[self.selected].path.clone();
                    self.start_prompt(PromptKind::Delete(path));
                }
            },
            Key::Char('r') => {
                if on {
                    let path = self.flat[self.selected].path.clone();
                    self.start_prompt(PromptKind::Rename(path));
                }
            },
            Key::Char('y') => self.yank_path(),
            Key::Char('p') => {
                if on {
                    let path = self.flat[self.selected].path.clone();
                    self.start_prompt(PromptKind::Copy(path));
                }
            },
            Key::Char('.') => self.toggle_hidden(),
            Key::Char('?') => {
                self.mode = Mode::Help;
            },
            Key::Char('R') => {
                return Effect::Refresh;
            },
            _ => {},
        }
        proof {
            assert(self@ =~= normal_key_spec(old(self)@, key).0);
        }
        Effect::Nothing
    }

    /// A key while a filter is typed.
    pub fn handle_filter_key(&mut self, key: KeyInput)
        ensures
            final(self)@ == filter_key_spec(old(self)@, key),
    {
        match key.code {
            Key::Esc => self.cancel_filter(),
            Key::Enter => self.confirm_filter(),
            Key::Backspace => {
                self.filter_text = popped(&self.filter_text);
                proof {
                    assert(self@ =~= AppModel { filter_text: pop_last(old(self)@.filter_text), ..old(self)@ });
                }
                self.apply_filter();
            },
            Key::Char(c) => {
                push_char(&mut self.filter_text, c);
                proof {
                    assert(self@ =~= AppModel { filter_text: old(self)@.filter_text.push(c), ..old(self)@ });
                }
                self.apply_filter();
            },
            _ => {},
        }
    }

    /// Confirms the prompt unless it is a rename of a path without a
    /// parent, which is left as it is.
    fn confirm_from_key(&mut self) -> (e: Effect)
        ensures
            (final(self)@, e@) == confirm_key_spec(old(self)@),
    {
        let renamable = match &self.mode {
            Mode::Prompt(PromptKind::Rename(from)) => {
                self.prompt_text.as_str().is_empty() || parent_of(from.as_str()).is_some()
            },
            _ => true,
        };
        if renamable {
            let act = self.confirm_prompt();
            Effect::Run(act)
        } else {
            Effect::Nothing
        }
    }

    /// A key while a prompt is open.
    pub fn handle_prompt_key(&mut self, key: KeyInput) -> (e: Effect)
        ensures
            (final(self)@, e@) == prompt_key_spec(old(self)@, key),
    {
        let is_delete = match &self.mode {
            Mode::Prompt(PromptKind::Delete(_)) => true,
            _ => false,
        };
        if is_delete {
            match key.code {
                Key::Char('y') | Key::Char('Y') => {
                    let y = "y";
                    self.prompt_text = String::from_str(y);
                    proof {
                        reveal_strlit("y");
                        assert(self@ =~= AppModel { prompt_text: seq!['y'], ..old(self)@ });
                    }
                    return self.confirm_from_key();
                },
                _ => {
                    self.cancel_prompt();
                    return Effect::Nothing;
                },
            }
        }
        match key.code {
            Key::Esc => {
                self.cancel_prompt();
                Effect::Nothing
            },
            Key::Enter => self.confirm_from_key(),
            Key::Backspace => {
                self.prompt_text = popped(&self.prompt_text);
                proof {
                    assert(self@ =~= prompt_key_spec(old(self)@, key).0);
                }
                Effect::Nothing
            },
            Key::Char(c) => {
                push_char(&mut self.prompt_text, c);
                proof {
                    assert(self@ =~= prompt_key_spec(old(self)@, key).0);
                }
                Effect::Nothing
            },
            _ => Effect::Nothing,
        }
    }

    /// A key, by mode.
    pub fn handle_key(&mut self, key: KeyInput) -> (e: Effect)
        ensures
            (final(self)@, e@) == handle_key_spec(old(self)@, key),
    {
        match &self.mode {
            Mode::Normal => self.handle_normal_key(key),
            Mode::Filter => {
                self.handle_filter_key(key);
                Effect::Nothing
            },
            Mode::Help => {
                self.mode = Mode::Normal;
                proof {
                    assert(self@ =~= handle_key_spec(old(self)@, key).0);
                }
                Effect::Nothing
            },
            Mode::Prompt(_) => self.handle_prompt_key(key),
        }
    }

    /// A key event as it arrives: the message line is cleared in normal
    /// mode, then the key is handled.
    pub fn key_event(&mut self, key: KeyInput) -> (e: Effect)
        ensures
            (final(self)@, e@) == key_event_spec(old(self)@, key),
    {
        if let Mode::Normal = self.mode {
            self.message = None;
        }
        proof {
            let m1 = if old(self)@.mode is Normal {
                AppModel { message: None, ..old(self)@ }
            } else {
                old(self)@
            };
            assert(self@ =~= m1);
        }
        self.handle_key(key)
    }

    /// A mouse event at `now_ms` milliseconds.
    pub fn handle_mouse(&mut self, mouse: MouseInput, now_ms: u64) -> (e: Effect)
        ensures
            (final(self)@, e@) == mouse_spec(old(self)@, mouse, now_ms),
    {
        match mouse.kind {
            MouseKind::LeftDown => {
                let normal = match &self.mode {
                    Mode::Normal => true,
                    _ => false,
                };
                if normal && !self.flat.is_empty() {
                    let row = mouse.row.saturating_sub(self.tree_start_y) as usize;
                    if self.scroll_offset < self.flat.len() && row < self.flat.len() - self.scroll_offset {
                        let item_row = row + self.scroll_offset;
                        let cmd = self.handle_click(item_row, now_ms);
                        return effect_of(cmd);
                    }
                }
                Effect::Nothing
            },
            MouseKind::ScrollUp => {
                self.move_up();
                Effect::Nothing
            },
            MouseKind::ScrollDown => {
                self.move_down();
                Effect::Nothing
            },
            MouseKind::Other => Effect::Nothing,
        }
    }
}

} // verus!
