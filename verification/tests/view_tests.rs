use kakfiletree::app::{App, PromptKind};
use kakfiletree::git::{read_git_status, PathSet, StatusMap};
use kakfiletree::kak::KakClient;
use kakfiletree::text::{chars_of, find_seq, lex_less, matches_filter, starts_with_dot};
use kakfiletree::tree::{FlatItem, ScanEntry, TreeNode};
use kakfiletree::view::{centered_rect, git_color, row_text, Area, Color, RowStyle};

fn item(name: &str, is_dir: bool, is_expanded: bool, depth: usize) -> FlatItem {
    FlatItem { name: name.to_string(), path: format!("/p/{}", name), is_dir, is_expanded, depth }
}

fn app_with(listing: Vec<ScanEntry>, git: Option<String>) -> App {
    let root = TreeNode::new("/p".to_string(), true, &listing);
    App::new(root, KakClient { session: "s".to_string(), client: "c".to_string() }, git)
}

fn file(name: &str) -> ScanEntry {
    ScanEntry { name: name.to_string(), is_dir: false, children: vec![] }
}

#[test]
fn row_text_indents_and_marks() {
    assert_eq!(row_text(&item("src", true, false, 0)), "\u{25b8} src");
    assert_eq!(row_text(&item("src", true, true, 1)), "  \u{25be} src");
    assert_eq!(row_text(&item("a.rs", false, false, 2)), "      a.rs");
}

#[test]
fn git_colors_by_first_letter_then_content() {
    assert_eq!(git_color("??"), Color::Red);
    assert_eq!(git_color("A "), Color::Green);
    assert_eq!(git_color("MM"), Color::Yellow);
    assert_eq!(git_color("D "), Color::Red);
    assert_eq!(git_color("R "), Color::Cyan);
    assert_eq!(git_color(" M"), Color::Yellow);
    assert_eq!(git_color(" A"), Color::Green);
    assert_eq!(git_color(" D"), Color::Red);
    assert_eq!(git_color("UU"), Color::White);
    assert_eq!(git_color(""), Color::White);
}

#[test]
fn row_style_uses_git_view() {
    let listing = vec![
        ScanEntry { name: "src".to_string(), is_dir: true, children: vec![file("main.rs")] },
        ScanEntry { name: "lib".to_string(), is_dir: true, children: vec![] },
        file("new.txt"),
        file("same.txt"),
    ];
    let a = app_with(listing, Some(" M src/main.rs\n?? new.txt\n".to_string()));
    assert_eq!(a.flat[0].name, "lib");
    assert_eq!(a.row_style(&a.flat[0]), RowStyle::Dir);
    assert_eq!(a.row_style(&a.flat[1]), RowStyle::DirtyDir);
    assert_eq!(a.row_style(&a.flat[2]), RowStyle::Status(Color::Red));
    assert_eq!(a.row_style(&a.flat[3]), RowStyle::Plain);
}

#[test]
fn status_line_by_mode() {
    let mut a = app_with(vec![file("a.txt")], None);
    assert_eq!(a.status_line(), (String::new(), Color::Default));
    a.yank_path();
    assert_eq!(a.status_line(), ("/p/a.txt".to_string(), Color::Green));
    a.start_filter();
    a.filter_text = "ab".to_string();
    assert_eq!(a.status_line(), ("Filter: ab\u{2588}".to_string(), Color::Yellow));
    a.mode = kakfiletree::app::Mode::Help;
    assert_eq!(a.status_line(), ("Press any key to close".to_string(), Color::Cyan));
    a.start_prompt(PromptKind::NewFile);
    a.prompt_text = "x".to_string();
    assert_eq!(a.status_line(), ("New file: x\u{2588}".to_string(), Color::Cyan));
    a.start_prompt(PromptKind::NewDir);
    assert_eq!(a.status_line(), ("New dir: \u{2588}".to_string(), Color::Cyan));
    a.start_prompt(PromptKind::Rename("/p/a.txt".to_string()));
    assert_eq!(a.status_line(), ("Rename: a.txt \u{2192} a.txt\u{2588}".to_string(), Color::Cyan));
    a.start_prompt(PromptKind::Delete("/p/a.txt".to_string()));
    assert_eq!(a.status_line(), ("Delete a.txt? y/n".to_string(), Color::Red));
    a.start_prompt(PromptKind::Copy("/p/a.txt".to_string()));
    assert_eq!(a.status_line(), ("Copy to: \u{2588}".to_string(), Color::Cyan));
}

#[test]
fn centered_rect_centres_and_shrinks() {
    let r = Area { x: 0, y: 0, width: 100, height: 40 };
    assert_eq!(centered_rect(r, 46, 22), Area { x: 27, y: 9, width: 46, height: 22 });
    let small = Area { x: 5, y: 2, width: 30, height: 10 };
    assert_eq!(centered_rect(small, 46, 22), Area { x: 5, y: 2, width: 30, height: 10 });
    let odd = Area { x: 1, y: 1, width: 11, height: 5 };
    assert_eq!(centered_rect(odd, 4, 2), Area { x: 4, y: 2, width: 4, height: 2 });
}

#[test]
fn filter_match_folds_case() {
    assert!(matches_filter("README.md", "readme"));
    assert!(matches_filter("main.rs", "RS"));
    assert!(matches_filter("anything", ""));
    assert!(!matches_filter("main.rs", "lib"));
    assert!(matches_filter("Straße", "STRASSE") == "straße".contains("strasse"));
}

#[test]
fn hidden_names_start_with_dot() {
    assert!(starts_with_dot(".git"));
    assert!(!starts_with_dot("git"));
    assert!(!starts_with_dot(""));
}

#[test]
fn find_seq_gives_first_occurrence() {
    let hay = chars_of("a -> b -> c");
    let pat = chars_of(" -> ");
    assert_eq!(find_seq(&hay, &pat), Some(1));
    assert_eq!(find_seq(&hay, &chars_of("x")), None);
    assert_eq!(find_seq(&chars_of("ab"), &chars_of("abc")), None);
    assert_eq!(find_seq(&hay, &chars_of("")), Some(0));
}

#[test]
fn lex_order_by_code_point() {
    assert!(lex_less(&chars_of("a"), &chars_of("b")));
    assert!(lex_less(&chars_of("ab"), &chars_of("abc")));
    assert!(!lex_less(&chars_of("abc"), &chars_of("abc")));
    assert!(lex_less(&chars_of("Z"), &chars_of("a")));
    assert!(!lex_less(&chars_of("b"), &chars_of("a")));
}

#[test]
fn git_lines_with_crlf_and_wide_status() {
    let out = Some("M  a.txt\r\n?? b c.txt\n\nM  d.txt".to_string());
    let (s, d) = read_git_status("/p", &out);
    assert_eq!(s.get("/p/a.txt"), Some(&"M ".to_string()));
    assert_eq!(s.get("/p/b c.txt"), Some(&"??".to_string()));
    assert_eq!(s.get("/p/d.txt"), Some(&"M ".to_string()));
    assert_eq!(s.entries.len(), 3);
    assert!(d.contains("/p"));
    assert_eq!(d.items.len(), 1);
}

#[test]
fn git_later_line_overwrites_status() {
    let out = Some(" M a.txt\nA  a.txt\n".to_string());
    let (s, _) = read_git_status("/p", &out);
    assert_eq!(s.entries.len(), 1);
    assert_eq!(s.get("/p/a.txt"), Some(&"A ".to_string()));
}

#[test]
fn git_two_byte_first_char_is_whole_status() {
    let out = Some("\u{e9}xrest".to_string());
    let (s, _) = read_git_status("/p", &out);
    assert_eq!(s.get("/p/rest"), Some(&"\u{e9}".to_string()));
}

#[test]
fn git_line_too_short_is_skipped() {
    let out = Some("M\n".to_string());
    let (s, d) = read_git_status("/p", &out);
    assert!(s.entries.is_empty());
    assert!(d.items.is_empty());
}

#[test]
fn status_map_and_path_set_by_place() {
    let mut m = StatusMap::new();
    m.insert("/p/a".to_string(), "M ".to_string());
    m.insert("/p/a/".to_string(), "A ".to_string());
    assert_eq!(m.entries.len(), 1);
    assert_eq!(m.entries[0].0, "/p/a");
    assert_eq!(m.get("/p//a"), Some(&"A ".to_string()));
    let mut set = PathSet::new();
    set.insert("/p".to_string());
    set.insert("/p/".to_string());
    assert_eq!(set.items.len(), 1);
    assert!(set.contains("/p/."));
    assert!(!set.contains("/q"));
}

#[test]
fn kak_open_command_text() {
    let k = KakClient { session: "s1".to_string(), client: "main".to_string() };
    assert_eq!(k.open_file("/a b/c.txt"), "evaluate-commands -client main edit '/a b/c.txt'");
}

#[test]
fn place_tree_records_area_and_scrolls() {
    let mut a = app_with(vec![file("a"), file("b"), file("c"), file("d")], None);
    a.selected = 3;
    a.place_tree(Area { x: 2, y: 1, width: 20, height: 2 });
    assert_eq!(a.tree_start_y, 1);
    assert_eq!(a.visible_height, 2);
    assert_eq!(a.scroll_offset, 2);
}
