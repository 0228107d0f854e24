//! What the terminal shows, computed from the state: the text and colour of
//! each row, the status line, and where the help popup goes.
use vstd::prelude::*;
use crate::app::{App, AppModel, ModeView, PromptKind, PromptView, Mode, update_scroll_spec};
use crate::tree::{FlatItem, FlatModel};
use crate::git::{status_of, set_contains};
use crate::fspath::{path_file_name, file_name_of};
use crate::text::push_char;

verus! {

/// The colours the view uses for text.
#[derive(Clone, Copy, Debug, PartialEq, Eq, Structural)]
pub enum Color {
    Default,
    Red,
    Green,
    Yellow,
    Cyan,
    White,
}

/// How a row is drawn.
#[derive(Clone, Copy, Debug, PartialEq, Eq, Structural)]
pub enum RowStyle {
    /// A file without a git status.
    Plain,
    /// A directory, in bold.
    Dir,
    /// A directory holding changes, in bold yellow.
    DirtyDir,
    /// A file with a git status, in the status's colour.
    Status(Color),
}

/// A rectangle of terminal cells.
#[derive(Clone, Copy, Debug, PartialEq, Eq, Structural)]
pub struct Area {
    pub x: u16,
    pub y: u16,
    pub width: u16,
    pub height: u16,
}

/// The colour of a git status: by its first letter, else by the letters it
/// holds.
pub open spec fn git_color_spec(s: Seq<char>) -> Color {
    if s.len() > 0 && s[0] == '?' {
        Color::Red
    } else if s.len() > 0 && s[0] == 'A' {
        Color::Green
    } else if s.len() > 0 && s[0] == 'M' {
        Color::Yellow
    } else if s.len() > 0 && s[0] == 'D' {
        Color::Red
    } else if s.len() > 0 && s[0] == 'R' {
        Color::Cyan
    } else if s.contains('M') {
        Color::Yellow
    } else if s.contains('A') {
        Color::Green
    } else if s.contains('D') {
        Color::Red
    } else {
        Color::White
    }
}

/// Whether the string holds the character `c`.
fn has_char(s: &str, c: char) -> (r: bool)
    ensures
        r == s@.contains(c),
{
    let n = s.unicode_len();
    let mut i: usize = 0;
    while i < n
        invariant
            n == s@.len(),
            i <= n,
            forall|j: int| 0 <= j < i ==> s@[j] != c,
        decreases n - i,
    {
        if s.get_char(i) == c {
            return true;
        }
        i = i + 1;
    }
    false
}

/// The colour of a git status.
pub fn git_color(status: &str) -> (c: Color)
    ensures
        c == git_color_spec(status@),
{
    let first = if status.is_empty() {
        None
    } else {
        Some(status.get_char(0))
    };
    match first {
        Some('?') => Color::Red,
        Some('A') => Color::Green,
        Some('M') => Color::Yellow,
        Some('D') => Color::Red,
        Some('R') => Color::Cyan,
        _ => {
            if has_char(status, 'M') {
                Color::Yellow
            } else if has_char(status, 'A') {
                Color::Green
            } else if has_char(status, 'D') {
                Color::Red
            } else {
                Color::White
            }
        },
    }
}

/// The marker before a row's name: open or closed for a directory, blank
/// for a file.
pub open spec fn icon(r: FlatModel) -> Seq<char> {
    if r.is_dir {
        if r.is_expanded {
            seq!['\u{25be}', ' ']
        } else {
            seq!['\u{25b8}', ' ']
        }
    } else {
        seq![' ', ' ']
    }
}

/// The text of a row: two spaces per level, the marker, the name.
pub open spec fn row_text_spec(r: FlatModel) -> Seq<char> {
    Seq::new((2 * r.depth) as nat, |i: int| ' ') + icon(r) + r.name
}

/// The text of a row.
pub fn row_text(item: &FlatItem) -> (t: String)
    ensures
        t@ == row_text_spec(item@),
{
    let mut t = String::new();
    let mut i: usize = 0;
    while i < item.depth
        invariant
            i <= item.depth,
            t@ == Seq::new((2 * i) as nat, |k: int| ' '),
        decreases item.depth - i,
    {
        push_char(&mut t, ' ');
        push_char(&mut t, ' ');
        proof {
            assert(t@ =~= Seq::new((2 * (i + 1)) as nat, |k: int| ' '));
        }
        i = i + 1;
    }
    let ghost indent = t@;
    if item.is_dir {
        if item.is_expanded {
            push_char(&mut t, '\u{25be}');
        } else {
            push_char(&mut t, '\u{25b8}');
        }
    } else {
        push_char(&mut t, ' ');
    }
    push_char(&mut t, ' ');
    proof {
        assert(t@ =~= indent + icon(item@));
    }
    t.append(item.name.as_str());
    t
}

/// How a row is drawn: directories in bold, yellow when they hold changes;
/// files in the colour of their git status.
pub open spec fn row_style_spec(m: AppModel, r: FlatModel) -> RowStyle {
    if r.is_dir {
        if set_contains(m.git_dirty_dirs, r.path) {
            RowStyle::DirtyDir
        } else {
            RowStyle::Dir
        }
    } else {
        match status_of(m.git_statuses, r.path) {
            Some(s) => RowStyle::Status(git_color_spec(s)),
            None => RowStyle::Plain,
        }
    }
}

/// The name shown for a path in a prompt: its last component, or nothing.
pub open spec fn shown_name(p: Seq<char>) -> Seq<char> {
    match path_file_name(p) {
        Some(n) => n,
        None => Seq::empty(),
    }
}

/// The status line and its colour, by mode.
pub open spec fn status_line_spec(m: AppModel) -> (Seq<char>, Color) {
    match m.mode {
        ModeView::Normal => match m.message {
            Some(msg) => (msg, Color::Green),
            None => (Seq::empty(), Color::Default),
        },
        ModeView::Filter => ("Filter: "@ + m.filter_text + "\u{2588}"@, Color::Yellow),
        ModeView::Help => ("Press any key to close"@, Color::Cyan),
        ModeView::Prompt(PromptView::NewFile) => ("New file: "@ + m.prompt_text + "\u{2588}"@, Color::Cyan),
        ModeView::Prompt(PromptView::NewDir) => ("New dir: "@ + m.prompt_text + "\u{2588}"@, Color::Cyan),
        ModeView::Prompt(PromptView::Rename(from)) => (
            "Rename: "@ + shown_name(from) + " \u{2192} "@ + m.prompt_text + "\u{2588}"@,
            Color::Cyan,
        ),
        ModeView::Prompt(PromptView::Delete(p)) => ("Delete "@ + shown_name(p) + "? y/n"@, Color::Red),
        ModeView::Prompt(PromptView::Copy(_)) => ("Copy to: "@ + m.prompt_text + "\u{2588}"@, Color::Cyan),
    }
}

/// The text in place of an empty tree.
pub open spec fn empty_text_spec(m: AppModel) -> Seq<char> {
    if m.filter_text.len() == 0 {
        "Empty directory"@
    } else {
        "No matches"@
    }
}

/// The name shown for a path in a prompt.
fn shown_name_exec(p: &str) -> (n: String)
    ensures
        n@ == shown_name(p@),
{
    match file_name_of(p) {
        Some(n) => n,
        None => String::new(),
    }
}

/// A string made of `a`, then `b`, then `c`.
fn three(a: &str, b: &str, c: &str) -> (r: String)
    ensures
        r@ == a@ + b@ + c@,
{
    let mut r = String::from_str(a);
    r.append(b);
    r.append(c);
    r
}

/// Recording where the tree is drawn, then scrolling the selection into view.
pub open spec fn place_tree_spec(m: AppModel, area: Area) -> AppModel {
    update_scroll_spec(AppModel { tree_start_y: area.y as int, visible_height: area.height as int, ..m })
}

impl App {
    /// Records the area the tree is drawn in (its first row and its height)
    /// and scrolls so that the selected row is in it.
    pub fn place_tree(&mut self, area: Area)
        ensures
            final(self)@ == place_tree_spec(old(self)@, area),
    {
        self.tree_start_y = area.y;
        self.visible_height = area.height as usize;
        proof {
            assert(self@ =~= AppModel { tree_start_y: area.y as int, visible_height: area.height as int, ..old(self)@ });
        }
        self.update_scroll();
    }

    /// How the row `item` is drawn.
    pub fn row_style(&self, item: &FlatItem) -> (s: RowStyle)
        ensures
            s == row_style_spec(self@, item@),
    {
        if item.is_dir {
            if self.git_dirty_dirs.contains(item.path.as_str()) {
                RowStyle::DirtyDir
            } else {
                RowStyle::Dir
            }
        } else {
            match self.git_statuses.get(item.path.as_str()) {
                Some(status) => RowStyle::Status(git_color(status.as_str())),
                None => RowStyle::Plain,
            }
        }
    }

    /// The status line and its colour.
    pub fn status_line(&self) -> (r: (String, Color))
        ensures
            (r.0@, r.1) == status_line_spec(self@),
    {
        match &self.mode {
            Mode::Normal => match &self.message {
                Some(msg) => (msg.clone(), Color::Green),
                None => (String::new(), Color::Default),
            },
            Mode::Filter => (three("Filter: ", self.filter_text.as_str(), "\u{2588}"), Color::Yellow),
            Mode::Help => (String::from_str("Press any key to close"), Color::Cyan),
            Mode::Prompt(kind) => match kind {
                PromptKind::NewFile => (three("New file: ", self.prompt_text.as_str(), "\u{2588}"), Color::Cyan),
                PromptKind::NewDir => (three("New dir: ", self.prompt_text.as_str(), "\u{2588}"), Color::Cyan),
                PromptKind::Rename(from) => {
                    let name = shown_name_exec(from.as_str());
                    let mut t = three("Rename: ", name.as_str(), " \u{2192} ");
                    t.append(self.prompt_text.as_str());
                    t.append("\u{2588}");
                    (t, Color::Cyan)
                },
                PromptKind::Delete(p) => {
                    let name = shown_name_exec(p.as_str());
                    (three("Delete ", name.as_str(), "? y/n"), Color::Red)
                },
                PromptKind::Copy(_) => (three("Copy to: ", self.prompt_text.as_str(), "\u{2588}"), Color::Cyan),
            },
        }
    }

    /// The text shown in place of an empty tree.
    pub fn empty_text(&self) -> (t: String)
        ensures
            t@ == empty_text_spec(self@),
    {
        if self.filter_text.as_str().is_empty() {
            String::from_str("Empty directory")
        } else {
            String::from_str("No matches")
        }
    }
}

/// Calls `ratatui::layout::Rect::new`, which (by its source) keeps `x` and
/// `y` and cuts the width and height so that the right and bottom edges stay
/// within `u16`.
#[verifier::external_body]
fn rect_new(x: u16, y: u16, width: u16, height: u16) -> (r: Area)
    ensures
        r.x == x,
        r.y == y,
        r.width == if width > u16::MAX - x { (u16::MAX - x) as u16 } else { width },
        r.height == if height > u16::MAX - y { (u16::MAX - y) as u16 } else { height },
{
    let r = ratatui::layout::Rect::new(x, y, width, height);
    Area { x: r.x, y: r.y, width: r.width, height: r.height }
}

/// The area of the given size centred in `r`, no larger than `r`.
pub fn centered_rect(r: Area, width: u16, height: u16) -> (c: Area)
    requires
        r.x + r.width <= u16::MAX,
        r.y + r.height <= u16::MAX,
    ensures
        c.width == if width < r.width { width } else { r.width },
        c.height == if height < r.height { height } else { r.height },
        c.x == r.x + (r.width - c.width) / 2,
        c.y == r.y + (r.height - c.height) / 2,
{
    let popup_width = if width < r.width { width } else { r.width };
    let popup_height = if height < r.height { height } else { r.height };
    let x = r.x + (r.width.saturating_sub(popup_width) / 2);
    let y = r.y + (r.height.saturating_sub(popup_height) / 2);
    rect_new(x, y, popup_width, popup_height)
}

} // verus!
