//! The application state: the tree, its visible rows, the selection, the
//! scroll position, the filter and prompt being typed, and git's view of
//! the files; with every operation the keys and the mouse trigger.
use vstd::prelude::*;
use crate::tree::{TreeNode, FlatItem, ScanEntry, NodeModel, FlatModel, rows_view, flatten_spec, toggle_node, expand_node, refreshed, scans_view};
use crate::kak::{KakClient, open_command};
use crate::git::{StatusMap, PathSet, git_state, output_ok, read_git_status};
use crate::text::{lowercase, to_lower, chars_of, is_ascii_text, ascii_lower};
use crate::fspath::{same_path, path_parent, path_join, path_file_name, opt_view, paths_equal, parent_of, join_path, file_name_of};

verus! {

/// What a prompt is asking for.
pub enum PromptKind {
    NewFile,
    NewDir,
    Rename(String),
    Delete(String),
    Copy(String),
}

/// What the keys currently do.
pub enum Mode {
    Normal,
    Filter,
    Help,
    Prompt(PromptKind),
}

/// The value of a prompt kind.
pub enum PromptView {
    NewFile,
    NewDir,
    Rename(Seq<char>),
    Delete(Seq<char>),
    Copy(Seq<char>),
}

/// The value of a mode.
pub enum ModeView {
    Normal,
    Filter,
    Help,
    Prompt(PromptView),
}

impl View for PromptKind {
    type V = PromptView;

    open spec fn view(&self) -> PromptView {
        match self {
            PromptKind::NewFile => PromptView::NewFile,
            PromptKind::NewDir => PromptView::NewDir,
            PromptKind::Rename(p) => PromptView::Rename(p@),
            PromptKind::Delete(p) => PromptView::Delete(p@),
            PromptKind::Copy(p) => PromptView::Copy(p@),
        }
    }
}

impl View for Mode {
    type V = ModeView;

    open spec fn view(&self) -> ModeView {
        match self {
            Mode::Normal => ModeView::Normal,
            Mode::Filter => ModeView::Filter,
            Mode::Help => ModeView::Help,
            Mode::Prompt(k) => ModeView::Prompt(k@),
        }
    }
}

/// The file-system change that a confirmed prompt asks for.
pub enum PromptAction {
    Nothing,
    CreateFile(String),
    CreateDir(String),
    Rename(String, String),
    Copy(String, String),
    Delete(String),
}

/// The value of a prompt action.
pub enum ActionView {
    Nothing,
    CreateFile(Seq<char>),
    CreateDir(Seq<char>),
    Rename(Seq<char>, Seq<char>),
    Copy(Seq<char>, Seq<char>),
    Delete(Seq<char>),
}

impl View for PromptAction {
    type V = ActionView;

    open spec fn view(&self) -> ActionView {
        match self {
            PromptAction::Nothing => ActionView::Nothing,
            PromptAction::CreateFile(p) => ActionView::CreateFile(p@),
            PromptAction::CreateDir(p) => ActionView::CreateDir(p@),
            PromptAction::Rename(a, b) => ActionView::Rename(a@, b@),
            PromptAction::Copy(a, b) => ActionView::Copy(a@, b@),
            PromptAction::Delete(p) => ActionView::Delete(p@),
        }
    }
}

/// The whole state of the file-tree view.
pub struct App {
    pub root: TreeNode,
    pub flat: Vec<FlatItem>,
    pub selected: usize,
    pub mode: Mode,
    pub filter_text: String,
    pub prompt_text: String,
    pub show_hidden: bool,
    pub kak: KakClient,
    pub scroll_offset: usize,
    pub visible_height: usize,
    pub tree_start_y: u16,
    /// The time in milliseconds and the row of the last click that did not open.
    pub last_click: Option<(u64, usize)>,
    pub message: Option<String>,
    pub git_statuses: StatusMap,
    pub git_dirty_dirs: PathSet,
    pub should_quit: bool,
}

/// The value of the state.
#[verifier::ext_equal]
pub struct AppModel {
    pub root: NodeModel,
    pub flat: Seq<FlatModel>,
    pub selected: int,
    pub mode: ModeView,
    pub filter_text: Seq<char>,
    pub prompt_text: Seq<char>,
    pub show_hidden: bool,
    pub session: Seq<char>,
    pub client: Seq<char>,
    pub scroll_offset: int,
    pub visible_height: int,
    pub tree_start_y: int,
    pub last_click: Option<(u64, usize)>,
    pub message: Option<Seq<char>>,
    pub git_statuses: Seq<(Seq<char>, Seq<char>)>,
    pub git_dirty_dirs: Seq<Seq<char>>,
    pub should_quit: bool,
}

impl View for App {
    type V = AppModel;

    open spec fn view(&self) -> AppModel {
        AppModel {
            root: self.root@,
            flat: rows_view(self.flat@),
            selected: self.selected as int,
            mode: self.mode@,
            filter_text: self.filter_text@,
            prompt_text: self.prompt_text@,
            show_hidden: self.show_hidden,
            session: self.kak.session@,
            client: self.kak.client@,
            scroll_offset: self.scroll_offset as int,
            visible_height: self.visible_height as int,
            tree_start_y: self.tree_start_y as int,
            last_click: self.last_click,
            message: opt_view(self.message),
            git_statuses: self.git_statuses@,
            git_dirty_dirs: self.git_dirty_dirs@,
            should_quit: self.should_quit,
        }
    }
}

/// `i` is the first row whose path names the same place as `p`.
pub open spec fn is_first_row(rows: Seq<FlatModel>, p: Seq<char>, i: int) -> bool {
    0 <= i < rows.len() && same_path(rows[i].path, p) && forall|j: int|
        0 <= j < i ==> !same_path(#[trigger] rows[j].path, p)
}

/// The first row at the place `p`, if any.
pub open spec fn first_row(rows: Seq<FlatModel>, p: Seq<char>) -> Option<int> {
    if exists|i: int| is_first_row(rows, p, i) {
        Some(choose|i: int| is_first_row(rows, p, i))
    } else {
        None
    }
}

/// The selection after the rows change from `old_rows` to `rows`: the row
/// at the place of the old selection, else the old index pulled back onto
/// the last row.
pub open spec fn reselect(old_rows: Seq<FlatModel>, sel: int, rows: Seq<FlatModel>) -> int {
    let fallback = if sel >= rows.len() && rows.len() > 0 {
        rows.len() - 1
    } else {
        sel
    };
    if 0 <= sel < old_rows.len() {
        match first_row(rows, old_rows[sel].path) {
            Some(i) => i,
            None => fallback,
        }
    } else {
        fallback
    }
}

/// Recomputing the rows from the tree, keeping the selection on its place.
pub open spec fn refresh_flat_spec(m: AppModel) -> AppModel {
    let rows = flatten_spec(m.root, m.show_hidden, m.filter_text);
    AppModel { flat: rows, selected: reselect(m.flat, m.selected, rows), ..m }
}

/// Scrolling so that the selected row is in view.
pub open spec fn update_scroll_spec(m: AppModel) -> AppModel {
    let off = if m.selected < m.scroll_offset {
        m.selected
    } else {
        m.scroll_offset
    };
    let off2 = if m.visible_height > 0 && m.selected >= off + m.visible_height {
        m.selected - m.visible_height + 1
    } else {
        off
    };
    AppModel { scroll_offset: off2, ..m }
}

/// Moving the selection up a row, unless it is at the top.
pub open spec fn move_up_spec(m: AppModel) -> AppModel {
    if m.selected > 0 {
        AppModel { selected: m.selected - 1, ..m }
    } else {
        m
    }
}

/// Moving the selection down a row, unless it is at the last row.
pub open spec fn move_down_spec(m: AppModel) -> AppModel {
    if m.flat.len() > 0 && m.selected + 1 < m.flat.len() {
        AppModel { selected: m.selected + 1, ..m }
    } else {
        m
    }
}

/// Whether the selection is on a row.
pub open spec fn on_row(m: AppModel) -> bool {
    0 <= m.selected < m.flat.len()
}

/// Opening or closing the selected directory, then recomputing the rows.
pub open spec fn toggle_expand_spec(m: AppModel) -> AppModel {
    if on_row(m) && m.flat[m.selected].is_dir {
        refresh_flat_spec(AppModel { root: toggle_node(m.root, m.flat[m.selected].path).0, ..m })
    } else {
        m
    }
}

/// Opening the selection: a directory is toggled; a file gives the command
/// that opens it in the editor.
pub open spec fn open_selected_spec(m: AppModel) -> (AppModel, Option<Seq<char>>) {
    if on_row(m) {
        if m.flat[m.selected].is_dir {
            (toggle_expand_spec(m), None)
        } else {
            (m, Some(open_command(m.client, m.flat[m.selected].path)))
        }
    } else {
        (m, None)
    }
}

/// Selecting the row of the selection's parent directory, when it is shown.
pub open spec fn go_to_parent_spec(m: AppModel) -> AppModel {
    if on_row(m) {
        match path_parent(m.flat[m.selected].path) {
            Some(pp) => match first_row(m.flat, pp) {
                Some(i) => AppModel { selected: i, ..m },
                None => m,
            },
            None => m,
        }
    } else {
        m
    }
}

/// Switching whether hidden names are shown, then recomputing the rows.
pub open spec fn toggle_hidden_spec(m: AppModel) -> AppModel {
    refresh_flat_spec(AppModel { show_hidden: !m.show_hidden, ..m })
}

/// Replacing git's view of the files by what `output` says.
pub open spec fn git_spec(m: AppModel, output: Option<Seq<char>>) -> AppModel {
    let (s, d) = git_state(m.root.path, output);
    AppModel { git_statuses: s, git_dirty_dirs: d, ..m }
}

/// Re-reading the tree from a fresh listing of the root and git's output.
pub open spec fn refresh_tree_spec(m: AppModel, es: Seq<crate::tree::ScanModel>, output: Option<Seq<char>>) -> AppModel {
    let m1 = AppModel { root: refreshed(m.root, es), ..m };
    let m2 = refresh_flat_spec(git_spec(m1, output));
    AppModel { message: Some("Refreshed"@), ..m2 }
}

/// The longest time between two clicks on a row that open it.
pub open spec fn double_click_ms() -> u64 {
    400
}

/// A click on `row` at time `now`: a second click on the same row soon
/// after the first opens it; any other click selects the row.
pub open spec fn handle_click_spec(m: AppModel, row: int, now: u64) -> (AppModel, Option<Seq<char>>) {
    match m.last_click {
        Some((t, r)) if row == r && (if now >= t { now - t } else { 0 }) < double_click_ms() => {
            let (m1, cmd) = open_selected_spec(AppModel { selected: row, ..m });
            (AppModel { last_click: None, ..m1 }, cmd)
        },
        _ => (AppModel { selected: row, last_click: Some((now, row as usize)), ..m }, None),
    }
}

/// Starting a filter: filter mode with an empty filter.
pub open spec fn start_filter_spec(m: AppModel) -> AppModel {
    AppModel { mode: ModeView::Filter, filter_text: Seq::empty(), ..m }
}

/// Applying the filter: the first row is selected and the rows recomputed.
pub open spec fn apply_filter_spec(m: AppModel) -> AppModel {
    refresh_flat_spec(AppModel { selected: 0, ..m })
}

/// Dropping the filter: normal mode, no filter, rows recomputed.
pub open spec fn cancel_filter_spec(m: AppModel) -> AppModel {
    refresh_flat_spec(AppModel { filter_text: Seq::empty(), mode: ModeView::Normal, ..m })
}

/// Keeping the filter: back to normal mode.
pub open spec fn confirm_filter_spec(m: AppModel) -> AppModel {
    AppModel { mode: ModeView::Normal, ..m }
}

/// Opening a prompt: a rename starts from the current name.
pub open spec fn start_prompt_spec(m: AppModel, kind: PromptView) -> AppModel {
    let text = match kind {
        PromptView::Rename(p) => match path_file_name(p) {
            Some(n) => n,
            None => Seq::empty(),
        },
        _ => Seq::empty(),
    };
    AppModel { prompt_text: text, mode: ModeView::Prompt(kind), ..m }
}

/// Closing the prompt: normal mode and no prompt text.
pub open spec fn cancel_prompt_spec(m: AppModel) -> AppModel {
    AppModel { mode: ModeView::Normal, prompt_text: Seq::empty(), ..m }
}

/// The directory that new files go into: the selected directory, or the
/// directory of the selected file, or the root.
pub open spec fn current_dir_spec(m: AppModel) -> Seq<char> {
    if on_row(m) {
        if m.flat[m.selected].is_dir {
            m.flat[m.selected].path
        } else {
            match path_parent(m.flat[m.selected].path) {
                Some(pp) => pp,
                None => m.flat[m.selected].path,
            }
        }
    } else {
        m.root.path
    }
}

/// Showing the selected path in the message line.
pub open spec fn yank_path_spec(m: AppModel) -> AppModel {
    if on_row(m) {
        AppModel { message: Some(m.flat[m.selected].path), ..m }
    } else {
        m
    }
}

/// The prompt text asks to confirm a deletion: lowercased, it is exactly
/// `y`; for ASCII text, that is the text `y` or `Y`.
pub open spec fn says_yes(t: Seq<char>) -> bool {
    if is_ascii_text(t) {
        t == seq!['y'] || t == seq!['Y']
    } else {
        lowercase(t) == seq!['y']
    }
}

/// Confirming a prompt: the mode returns to normal, and the action is what
/// the prompt asked for with its text (no action for an empty name or a
/// deletion that was not confirmed).
pub open spec fn confirm_prompt_spec(m: AppModel) -> (AppModel, ActionView) {
    let m1 = AppModel { mode: ModeView::Normal, ..m };
    let t = m.prompt_text;
    let act = match m.mode {
        ModeView::Prompt(PromptView::NewFile) => if t.len() > 0 {
            ActionView::CreateFile(path_join(current_dir_spec(m), t))
        } else {
            ActionView::Nothing
        },
        ModeView::Prompt(PromptView::NewDir) => if t.len() > 0 {
            ActionView::CreateDir(path_join(current_dir_spec(m), t))
        } else {
            ActionView::Nothing
        },
        ModeView::Prompt(PromptView::Rename(from)) => if t.len() > 0 {
            ActionView::Rename(from, path_join(path_parent(from)->0, t))
        } else {
            ActionView::Nothing
        },
        ModeView::Prompt(PromptView::Copy(src)) => if t.len() > 0 {
            ActionView::Copy(src, path_join(current_dir_spec(m), t))
        } else {
            ActionView::Nothing
        },
        ModeView::Prompt(PromptView::Delete(p)) => if says_yes(t) {
            ActionView::Delete(p)
        } else {
            ActionView::Nothing
        },
        _ => ActionView::Nothing,
    };
    (m1, act)
}

/// A rename can be confirmed: the renamed path has a parent to rename in.
pub open spec fn can_confirm(m: AppModel) -> bool {
    m.mode matches ModeView::Prompt(PromptView::Rename(from)) ==> (m.prompt_text.len() > 0 ==> path_parent(from) is Some)
}

/// The path to select once an action has been done: the created, renamed or
/// copied path, when the action succeeded.
pub open spec fn action_target(a: ActionView, ok: bool) -> Option<Seq<char>> {
    if !ok {
        None
    } else {
        match a {
            ActionView::CreateFile(p) => Some(p),
            ActionView::CreateDir(p) => Some(p),
            ActionView::Rename(_, p) => Some(p),
            ActionView::Copy(_, p) => Some(p),
            _ => None,
        }
    }
}

/// After an action: the directories down to its target are expanded, the
/// tree is re-read, and the target's row is selected if it is shown.
pub open spec fn finish_prompt_spec(
    m: AppModel,
    a: ActionView,
    ok: bool,
    es: Seq<crate::tree::ScanModel>,
    output: Option<Seq<char>>,
) -> AppModel {
    let target = action_target(a, ok);
    let m1 = match target {
        Some(t) => AppModel { root: expand_node(m.root, t), ..m },
        None => m,
    };
    let m2 = refresh_tree_spec(m1, es, output);
    match target {
        Some(t) => match first_row(m2.flat, t) {
            Some(i) => AppModel { selected: i, ..m2 },
            None => m2,
        },
        None => m2,
    }
}

/// The state when the view starts: the root's children shown, nothing
/// hidden shown, no filter, and git's view read from `output`.
pub open spec fn new_app_spec(root: NodeModel, session: Seq<char>, client: Seq<char>, output: Option<Seq<char>>) -> AppModel {
    let m = AppModel {
        root,
        flat: flatten_spec(root, false, Seq::empty()),
        selected: 0,
        mode: ModeView::Normal,
        filter_text: Seq::empty(),
        prompt_text: Seq::empty(),
        show_hidden: false,
        session,
        client,
        scroll_offset: 0,
        visible_height: 0,
        tree_start_y: 0,
        last_click: None,
        message: None,
        git_statuses: Seq::empty(),
        git_dirty_dirs: Seq::empty(),
        should_quit: false,
    };
    git_spec(m, output)
}

/// The first row at the place `p`.
fn position_of_path(rows: &Vec<FlatItem>, p: &str) -> (r: Option<usize>)
    ensures
        match r {
            Some(i) => first_row(rows_view(rows@), p@) == Some(i as int) && i < rows.len(),
            None => first_row(rows_view(rows@), p@) is None,
        },
{
    let ghost rv = rows_view(rows@);
    let len = rows.len();
    let mut i: usize = 0;
    while i < len
        invariant
            len == rows.len(),
            rv == rows_view(rows@),
            i <= len,
            forall|j: int| 0 <= j < i ==> !same_path(#[trigger] rv[j].path, p@),
        decreases len - i,
    {
        if paths_equal(rows[i].path.as_str(), p) {
            proof {
                assert(is_first_row(rv, p@, i as int));
                let w = choose|w: int| is_first_row(rv, p@, w);
                if w < i {
                } else if w > i {
                }
            }
            return Some(i);
        }
        i = i + 1;
    }
    None
}

/// The string `a` followed by `b`.
fn joined(a: &str, b: &str) -> (r: String)
    ensures
        r@ == a@ + b@,
{
    let mut r = String::from_str(a);
    r.append(b);
    r
}

/// Whether the text, lowercased, is exactly `y`.
fn says_yes_exec(t: &str) -> (r: bool)
    ensures
        r == says_yes(t@),
{
    let lower = to_lower(t);
    let cs = chars_of(lower.as_str());
    let r = cs.len() == 1 && cs[0] == 'y';
    proof {
        if r {
            assert(cs@ =~= seq!['y']);
        }
        if is_ascii_text(t@) {
            if t@.len() == 1 {
                let c = t@[0];
                assert((cs@[0] as u32) == ascii_lower(c as u32));
                assert(('y' as u32) == 121 && ('Y' as u32) == 89);
                vstd::utf8::char_u32_cast(cs@[0], cs@[0] as u32);
                vstd::utf8::char_u32_cast('y', 121);
                vstd::utf8::char_u32_cast('Y', 89);
                vstd::utf8::char_u32_cast(c, c as u32);
                if c == 'y' || c == 'Y' {
                    assert(t@ =~= seq![c]);
                    assert(cs@[0] == 'y');
                } else {
                    assert(cs@[0] != 'y');
                    assert(t@ != seq!['y']);
                    assert(t@ != seq!['Y']);
                }
            } else {
                assert(t@ != seq!['y']);
                assert(t@ != seq!['Y']);
            }
        }
    }
    r
}

impl App {
    /// The view over the tree `root`, opening files through `kak`, with
    /// git's view of the files read from `git_output`.
    pub fn new(root: TreeNode, kak: KakClient, git_output: Option<String>) -> (app: App)
        requires
            git_output matches Some(t) ==> output_ok(t@),
        ensures
            app@ == new_app_spec(root@, kak.session@, kak.client@, opt_view(git_output)),
            app.git_statuses.wf(),
            app.git_dirty_dirs.wf(),
    {
        let empty = "";
        let flat = root.flatten(false, empty);
        let mut app = App {
            root,
            flat,
            selected: 0,
            mode: Mode::Normal,
            filter_text: String::new(),
            prompt_text: String::new(),
            show_hidden: false,
            kak,
            scroll_offset: 0,
            visible_height: 0,
            tree_start_y: 0,
            last_click: None,
            message: None,
            git_statuses: StatusMap::new(),
            git_dirty_dirs: PathSet::new(),
            should_quit: false,
        };
        proof {
            reveal_strlit("");
            assert(empty@ =~= Seq::<char>::empty());
            let m = new_app_spec(root@, app.kak.session@, app.kak.client@, None);
            assert(app@.flat == m.flat);
            assert(app@ =~= m);
        }
        app.refresh_git_status(git_output);
        app
    }

    /// Recomputes the rows from the tree, keeping the selection on the
    /// same place when it is still shown.
    pub fn refresh_flat(&mut self)
        ensures
            final(self)@ == refresh_flat_spec(old(self)@),
    {
        let old_path: Option<String> = if self.selected < self.flat.len() {
            Some(self.flat[self.selected].path.clone())
        } else {
            None
        };
        proof {
            if self.selected < self.flat.len() {
                assert(rows_view(self.flat@)[self.selected as int].path == self.flat@[self.selected as int].path@);
            }
        }
        self.flat = self.root.flatten(self.show_hidden, self.filter_text.as_str());
        let len = self.flat.len();
        match old_path {
            Some(p) => {
                match position_of_path(&self.flat, p.as_str()) {
                    Some(i) => {
                        self.selected = i;
                    },
                    None => {
                        if self.selected >= len && len > 0 {
                            self.selected = len - 1;
                        }
                    },
                }
            },
            None => {
                if self.selected >= len && len > 0 {
                    self.selected = len - 1;
                }
            },
        }
        proof {
            assert(self@ =~= refresh_flat_spec(old(self)@));
        }
    }

    /// Scrolls so that the selected row lies in the visible height.
    pub fn update_scroll(&mut self)
        ensures
            final(self)@ == update_scroll_spec(old(self)@),
    {
        if self.selected < self.scroll_offset {
            self.scroll_offset = self.selected;
        }
        if self.visible_height > 0 && self.selected - self.scroll_offset >= self.visible_height {
            self.scroll_offset = self.selected - self.visible_height + 1;
        }
        proof {
            assert(self@ =~= update_scroll_spec(old(self)@));
        }
    }

    /// Moves the selection one row up.
    pub fn move_up(&mut self)
        ensures
            final(self)@ == move_up_spec(old(self)@),
    {
        if self.selected > 0 {
            self.selected = self.selected - 1;
        }
        proof {
            assert(self@ =~= move_up_spec(old(self)@));
        }
    }

    /// Moves the selection one row down.
    pub fn move_down(&mut self)
        ensures
            final(self)@ == move_down_spec(old(self)@),
    {
        if !self.flat.is_empty() && self.selected < self.flat.len() - 1 {
            self.selected = self.selected + 1;
        }
        proof {
            assert(self@ =~= move_down_spec(old(self)@));
        }
    }

    /// Expands or collapses the selected directory.
    pub fn toggle_expand(&mut self)
        ensures
            final(self)@ == toggle_expand_spec(old(self)@),
    {
        if self.selected < self.flat.len() && self.flat[self.selected].is_dir {
            let path = self.flat[self.selected].path.clone();
            proof {
                assert(rows_view(self.flat@)[self.selected as int].path == path@);
            }
            self.root.toggle(path.as_str());
            proof {
                assert(self@ =~= AppModel { root: toggle_node(old(self)@.root, path@).0, ..old(self)@ });
            }
            self.refresh_flat();
        }
    }

    /// Opens the selection: a directory is expanded or collapsed; for a
    /// file, the command that opens it in the editor is returned.
    pub fn open_selected(&mut self) -> (cmd: Option<String>)
        ensures
            (final(self)@, opt_view(cmd)) == open_selected_spec(old(self)@),
    {
        if self.selected < self.flat.len() {
            if self.flat[self.selected].is_dir {
                self.toggle_expand();
                None
            } else {
                let cmd = self.kak.open_file(self.flat[self.selected].path.as_str());
                Some(cmd)
            }
        } else {
            None
        }
    }

    /// Selects the row of the selection's parent directory, when it is shown.
    pub fn go_to_parent(&mut self)
        ensures
            final(self)@ == go_to_parent_spec(old(self)@),
    {
        if self.selected < self.flat.len() {
            match parent_of(self.flat[self.selected].path.as_str()) {
                Some(pp) => {
                    match position_of_path(&self.flat, pp.as_str()) {
                        Some(idx) => {
                            self.selected = idx;
                        },
                        None => {},
                    }
                },
                None => {},
            }
        }
        proof {
            assert(self@ =~= go_to_parent_spec(old(self)@));
        }
    }

    /// Shows or hides the names that start with a dot.
    pub fn toggle_hidden(&mut self)
        ensures
            final(self)@ == toggle_hidden_spec(old(self)@),
    {
        self.show_hidden = !self.show_hidden;
        proof {
            assert(self@ =~= AppModel { show_hidden: !old(self)@.show_hidden, ..old(self)@ });
        }
        self.refresh_flat();
    }

    /// Replaces the tree's listing by a fresh one and git's view by
    /// `git_output`, and recomputes the rows.
    pub fn refresh_tree(&mut self, entries: &Vec<ScanEntry>, git_output: Option<String>)
        requires
            git_output matches Some(t) ==> output_ok(t@),
        ensures
            final(self)@ == refresh_tree_spec(old(self)@, scans_view(entries@), opt_view(git_output)),
            final(self).git_statuses.wf(),
            final(self).git_dirty_dirs.wf(),
    {
        self.root.refresh(entries);
        proof {
            assert(self@ =~= AppModel { root: refreshed(old(self)@.root, scans_view(entries@)), ..old(self)@ });
        }
        self.refresh_git_status(git_output);
        self.refresh_flat();
        self.message = Some(String::from_str("Refreshed"));
    }

    /// Replaces git's view of the files by what `git_output` says (the
    /// output of `git status --porcelain` run at the root; `None` when git
    /// could not be run or gave no text).
    pub fn refresh_git_status(&mut self, git_output: Option<String>)
        requires
            git_output matches Some(t) ==> output_ok(t@),
        ensures
            final(self)@ == git_spec(old(self)@, opt_view(git_output)),
            final(self).git_statuses.wf(),
            final(self).git_dirty_dirs.wf(),
    {
        let (s, d) = read_git_status(self.root.path.as_str(), &git_output);
        self.git_statuses = s;
        self.git_dirty_dirs = d;
        proof {
            assert(self@ =~= git_spec(old(self)@, opt_view(git_output)));
        }
    }

    /// A click on `row` at `now_ms` milliseconds: a second click on the
    /// same row within 400 ms opens it (returning the editor command for a
    /// file); any other click selects the row.
    pub fn handle_click(&mut self, row: usize, now_ms: u64) -> (cmd: Option<String>)
        ensures
            (final(self)@, opt_view(cmd)) == handle_click_spec(old(self)@, row as int, now_ms),
    {
        match self.last_click {
            Some((last_time, last_row)) => {
                if row == last_row && now_ms.saturating_sub(last_time) < 400 {
                    self.selected = row;
                    let cmd = self.open_selected();
                    self.last_click = None;
                    return cmd;
                }
            },
            None => {},
        }
        self.selected = row;
        self.last_click = Some((now_ms, row));
        proof {
            assert(self@ =~= handle_click_spec(old(self)@, row as int, now_ms).0);
        }
        None
    }

    /// Starts typing a filter.
    pub fn start_filter(&mut self)
        ensures
            final(self)@ == start_filter_spec(old(self)@),
    {
        self.mode = Mode::Filter;
        self.filter_text = String::new();
        proof {
            assert(self@ =~= start_filter_spec(old(self)@));
        }
    }

    /// Applies the filter typed so far, selecting the first row.
    pub fn apply_filter(&mut self)
        ensures
            final(self)@ == apply_filter_spec(old(self)@),
    {
        self.selected = 0;
        proof {
            assert(self@ =~= AppModel { selected: 0, ..old(self)@ });
        }
        self.refresh_flat();
    }

    /// Drops the filter and shows the whole tree again.
    pub fn cancel_filter(&mut self)
        ensures
            final(self)@ == cancel_filter_spec(old(self)@),
    {
        self.filter_text = String::new();
        self.mode = Mode::Normal;
        proof {
            assert(self@ =~= AppModel { filter_text: Seq::empty(), mode: ModeView::Normal, ..old(self)@ });
        }
        self.refresh_flat();
    }

    /// Keeps the filter and returns to normal keys.
    pub fn confirm_filter(&mut self)
        ensures
            final(self)@ == confirm_filter_spec(old(self)@),
    {
        self.mode = Mode::Normal;
        proof {
            assert(self@ =~= confirm_filter_spec(old(self)@));
        }
    }

    /// Opens a prompt of the given kind; a rename starts from the current name.
    pub fn start_prompt(&mut self, kind: PromptKind)
        ensures
            final(self)@ == start_prompt_spec(old(self)@, kind@),
    {
        let text = match &kind {
            PromptKind::Rename(path) => match file_name_of(path.as_str()) {
                Some(n) => n,
                None => String::new(),
            },
            _ => String::new(),
        };
        self.prompt_text = text;
        self.mode = Mode::Prompt(kind);
        proof {
            assert(self@ =~= start_prompt_spec(old(self)@, kind@));
        }
    }

    /// Confirms the prompt: returns to normal keys and gives the action the
    /// prompt asked for, for the caller to carry out and then report to
    /// `finish_prompt`.
    pub fn confirm_prompt(&mut self) -> (act: PromptAction)
        requires
            can_confirm(old(self)@),
        ensures
            (final(self)@, act@) == confirm_prompt_spec(old(self)@),
    {
        let mut mode = Mode::Normal;
        std::mem::swap(&mut mode, &mut self.mode);
        proof {
            assert(self@ =~= confirm_prompt_spec(old(self)@).0);
        }
        let nonempty = !self.prompt_text.as_str().is_empty();
        let act = match mode {
            Mode::Prompt(PromptKind::NewFile) => {
                if nonempty {
                    let base = self.current_dir();
                    PromptAction::CreateFile(join_path(base.as_str(), self.prompt_text.as_str()))
                } else {
                    PromptAction::Nothing
                }
            },
            Mode::Prompt(PromptKind::NewDir) => {
                if nonempty {
                    let base = self.current_dir();
                    PromptAction::CreateDir(join_path(base.as_str(), self.prompt_text.as_str()))
                } else {
                    PromptAction::Nothing
                }
            },
            Mode::Prompt(PromptKind::Rename(from)) => {
                if nonempty {
                    match parent_of(from.as_str()) {
                        Some(pp) => {
                            let to = join_path(pp.as_str(), self.prompt_text.as_str());
                            PromptAction::Rename(from, to)
                        },
                        None => PromptAction::Nothing,
                    }
                } else {
                    PromptAction::Nothing
                }
            },
            Mode::Prompt(PromptKind::Copy(src)) => {
                if nonempty {
                    let base = self.current_dir();
                    let dst = join_path(base.as_str(), self.prompt_text.as_str());
                    PromptAction::Copy(src, dst)
                } else {
                    PromptAction::Nothing
                }
            },
            Mode::Prompt(PromptKind::Delete(path)) => {
                if says_yes_exec(self.prompt_text.as_str()) {
                    PromptAction::Delete(path)
                } else {
                    PromptAction::Nothing
                }
            },
            _ => PromptAction::Nothing,
        };
        act
    }

    /// Reports the outcome of the action that `confirm_prompt` gave:
    /// expands the directories down to what was created, renamed or copied,
    /// re-reads the tree from `entries` and git's view from `git_output`,
    /// and selects the new path when it is shown. `outcome` holds the
    /// error text when the action failed.
    pub fn finish_prompt(
        &mut self,
        action: &PromptAction,
        outcome: &Result<(), String>,
        entries: &Vec<ScanEntry>,
        git_output: Option<String>,
    )
        requires
            git_output matches Some(t) ==> output_ok(t@),
        ensures
            final(self)@ == finish_prompt_spec(
                old(self)@,
                action@,
                outcome is Ok,
                scans_view(entries@),
                opt_view(git_output),
            ),
            final(self).git_statuses.wf(),
            final(self).git_dirty_dirs.wf(),
    {
        let mut target: Option<String> = None;
        match outcome {
            Ok(_) => {
                match action {
                    PromptAction::Nothing => {},
                    PromptAction::CreateFile(p) => {
                        self.message = Some(joined("Created ", self.prompt_text.as_str()));
                        target = Some(p.clone());
                    },
                    PromptAction::CreateDir(p) => {
                        self.message = Some(joined("Created dir ", self.prompt_text.as_str()));
                        target = Some(p.clone());
                    },
                    PromptAction::Rename(_, p) => {
                        self.message = Some(joined("Renamed to ", self.prompt_text.as_str()));
                        target = Some(p.clone());
                    },
                    PromptAction::Copy(_, p) => {
                        self.message = Some(joined("Copied to ", self.prompt_text.as_str()));
                        target = Some(p.clone());
                    },
                    PromptAction::Delete(p) => {
                        let name = match file_name_of(p.as_str()) {
                            Some(n) => n,
                            None => String::new(),
                        };
                        self.message = Some(joined("Deleted ", name.as_str()));
                    },
                }
            },
            Err(e) => {
                match action {
                    PromptAction::Nothing => {},
                    _ => {
                        self.message = Some(joined("Error: ", e.as_str()));
                    },
                }
            },
        }
        let ghost m0 = AppModel { message: self@.message, ..old(self)@ };
        proof {
            assert(self@ =~= m0);
            assert(opt_view(target) == action_target(action@, outcome is Ok));
        }
        match &target {
            Some(t) => {
                self.root.expand_to(t.as_str());
            },
            None => {},
        }
        let ghost m1 = self@;
        self.refresh_tree(entries, git_output);
        match &target {
            Some(t) => {
                match position_of_path(&self.flat, t.as_str()) {
                    Some(idx) => {
                        self.selected = idx;
                    },
                    None => {},
                }
            },
            None => {},
        }
        proof {
            let spec = finish_prompt_spec(old(self)@, action@, outcome is Ok, scans_view(entries@), opt_view(git_output));
            let s1 = match action_target(action@, outcome is Ok) {
                Some(t) => AppModel { root: expand_node(old(self)@.root, t), ..old(self)@ },
                None => old(self)@,
            };
            assert(refresh_tree_spec(m1, scans_view(entries@), opt_view(git_output)) =~= refresh_tree_spec(s1, scans_view(entries@), opt_view(git_output)));
            assert(self@ =~= spec);
        }
    }

    /// Closes the prompt without doing anything.
    pub fn cancel_prompt(&mut self)
        ensures
            final(self)@ == cancel_prompt_spec(old(self)@),
    {
        self.mode = Mode::Normal;
        self.prompt_text = String::new();
        proof {
            assert(self@ =~= cancel_prompt_spec(old(self)@));
        }
    }

    /// The directory that new entries go into.
    fn current_dir(&self) -> (d: String)
        ensures
            d@ == current_dir_spec(self@),
    {
        if self.selected < self.flat.len() {
            let item = &self.flat[self.selected];
            proof {
                assert(rows_view(self.flat@)[self.selected as int] == item@);
            }
            if item.is_dir {
                return item.path.clone();
            } else {
                return match parent_of(item.path.as_str()) {
                    Some(pp) => pp,
                    None => item.path.clone(),
                };
            }
        }
        self.root.path.clone()
    }

    /// Shows the selected path in the message line.
    pub fn yank_path(&mut self)
        ensures
            final(self)@ == yank_path_spec(old(self)@),
    {
        if self.selected < self.flat.len() {
            self.message = Some(self.flat[self.selected].path.clone());
        }
        proof {
            assert(self@ =~= yank_path_spec(old(self)@));
        }
    }
}

} // verus!
