use kakfiletree::app::{App, Mode, PromptAction, PromptKind};
use kakfiletree::input::{Effect, Key, KeyInput, MouseInput, MouseKind};
use kakfiletree::kak::KakClient;
use kakfiletree::tree::{ScanEntry, TreeNode};

fn file(name: &str) -> ScanEntry {
    ScanEntry { name: name.to_string(), is_dir: false, children: vec![] }
}

fn dir(name: &str, children: Vec<ScanEntry>) -> ScanEntry {
    ScanEntry { name: name.to_string(), is_dir: true, children }
}

fn listing() -> Vec<ScanEntry> {
    vec![
        dir("src", vec![file("main.rs"), file("lib.rs")]),
        file("README.md"),
        file(".env"),
        dir("docs", vec![file("guide.md")]),
    ]
}

fn kak() -> KakClient {
    KakClient { session: "sess".to_string(), client: "client0".to_string() }
}

fn app() -> App {
    let root = TreeNode::new("/proj".to_string(), true, &listing());
    App::new(root, kak(), None)
}

fn key(c: char) -> KeyInput {
    KeyInput { code: Key::Char(c), ctrl: false }
}

fn code(k: Key) -> KeyInput {
    KeyInput { code: k, ctrl: false }
}

fn selected_path(a: &App) -> String {
    a.flat[a.selected].path.clone()
}

#[test]
fn new_app_shows_top_level_without_hidden() {
    let a = app();
    let names: Vec<&str> = a.flat.iter().map(|f| f.name.as_str()).collect();
    assert_eq!(names, vec!["docs", "src", "README.md"]);
    assert_eq!(a.selected, 0);
    assert!(matches!(a.mode, Mode::Normal));
    assert!(!a.should_quit);
    assert!(a.message.is_none());
}

#[test]
fn move_down_and_up_stay_in_bounds() {
    let mut a = app();
    a.move_up();
    assert_eq!(a.selected, 0);
    a.move_down();
    a.move_down();
    a.move_down();
    assert_eq!(a.selected, 2);
    a.move_up();
    assert_eq!(a.selected, 1);
}

#[test]
fn toggle_expand_keeps_selection_on_same_path() {
    let mut a = app();
    a.move_down();
    assert_eq!(selected_path(&a), "/proj/src");
    a.toggle_expand();
    assert_eq!(a.flat.len(), 5);
    assert_eq!(selected_path(&a), "/proj/src");
    a.move_down();
    assert_eq!(selected_path(&a), "/proj/src/lib.rs");
    a.go_to_parent();
    assert_eq!(selected_path(&a), "/proj/src");
}

#[test]
fn go_to_parent_of_top_level_row_stays() {
    let mut a = app();
    a.go_to_parent();
    assert_eq!(a.selected, 0);
}

#[test]
fn open_selected_file_gives_editor_command() {
    let mut a = app();
    a.selected = 2;
    let cmd = a.open_selected();
    assert_eq!(cmd, Some("evaluate-commands -client client0 edit '/proj/README.md'".to_string()));
}

#[test]
fn open_selected_dir_toggles_it() {
    let mut a = app();
    assert_eq!(a.open_selected(), None);
    assert!(a.flat[0].is_expanded);
    assert_eq!(a.flat[1].name, "guide.md");
}

#[test]
fn toggle_hidden_twice_restores_rows() {
    let mut a = app();
    a.toggle_hidden();
    assert_eq!(a.flat.len(), 4);
    assert_eq!(a.flat[2].name, ".env");
    a.toggle_hidden();
    assert_eq!(a.flat.len(), 3);
}

#[test]
fn selection_pulled_back_when_rows_shrink() {
    let mut a = app();
    a.selected = 2;
    let l = vec![dir("src", vec![]), dir("docs", vec![])];
    a.refresh_tree(&l, None);
    assert_eq!(a.flat.len(), 2);
    assert_eq!(a.selected, 1);
}

#[test]
fn filter_then_cancel_restores_rows_and_tree() {
    let mut a = app();
    a.key_event(key('/'));
    assert!(matches!(a.mode, Mode::Filter));
    for c in "guide".chars() {
        a.key_event(key(c));
    }
    let names: Vec<&str> = a.flat.iter().map(|f| f.name.as_str()).collect();
    assert_eq!(names, vec!["docs", "guide.md"]);
    assert_eq!(a.filter_text, "guide");
    assert!(!a.root.children[0].is_expanded);
    a.key_event(code(Key::Backspace));
    assert_eq!(a.filter_text, "guid");
    a.key_event(code(Key::Esc));
    assert!(matches!(a.mode, Mode::Normal));
    assert_eq!(a.filter_text, "");
    assert_eq!(a.flat.len(), 3);
}

#[test]
fn filter_with_no_match_gives_empty_rows_and_text() {
    let mut a = app();
    a.start_filter();
    a.filter_text = "nothing-here".to_string();
    a.apply_filter();
    assert!(a.flat.is_empty());
    assert_eq!(a.empty_text(), "No matches");
    a.cancel_filter();
    assert_eq!(a.empty_text(), "Empty directory");
}

#[test]
fn confirm_filter_keeps_filter() {
    let mut a = app();
    a.key_event(key('/'));
    a.key_event(key('m'));
    a.key_event(code(Key::Enter));
    assert!(matches!(a.mode, Mode::Normal));
    assert_eq!(a.filter_text, "m");
}

#[test]
fn update_scroll_brings_selection_into_view() {
    let mut a = app();
    a.visible_height = 2;
    a.selected = 2;
    a.update_scroll();
    assert_eq!(a.scroll_offset, 1);
    a.selected = 0;
    a.update_scroll();
    assert_eq!(a.scroll_offset, 0);
}

#[test]
fn update_scroll_without_height_only_clamps_up() {
    let mut a = app();
    a.scroll_offset = 5;
    a.selected = 2;
    a.update_scroll();
    assert_eq!(a.scroll_offset, 2);
}

#[test]
fn double_click_within_400ms_opens_file() {
    let mut a = app();
    assert_eq!(a.handle_click(2, 1000), None);
    assert_eq!(a.last_click, Some((1000, 2)));
    let cmd = a.handle_click(2, 1399);
    assert_eq!(cmd, Some("evaluate-commands -client client0 edit '/proj/README.md'".to_string()));
    assert_eq!(a.last_click, None);
}

#[test]
fn slow_second_click_only_selects() {
    let mut a = app();
    a.handle_click(2, 1000);
    assert_eq!(a.handle_click(2, 1400), None);
    assert_eq!(a.last_click, Some((1400, 2)));
}

#[test]
fn mouse_click_maps_screen_row_to_item() {
    let mut a = app();
    a.tree_start_y = 1;
    let e = a.handle_mouse(MouseInput { kind: MouseKind::LeftDown, row: 3 }, 10);
    assert!(matches!(e, Effect::Nothing));
    assert_eq!(a.selected, 2);
    let e = a.handle_mouse(MouseInput { kind: MouseKind::LeftDown, row: 3 }, 20);
    match e {
        Effect::OpenFile(c) => assert_eq!(c, "evaluate-commands -client client0 edit '/proj/README.md'"),
        _ => panic!("expected an open"),
    }
}

#[test]
fn mouse_click_below_rows_is_ignored() {
    let mut a = app();
    a.handle_mouse(MouseInput { kind: MouseKind::LeftDown, row: 9 }, 10);
    assert_eq!(a.selected, 0);
    assert_eq!(a.last_click, None);
}

#[test]
fn mouse_wheel_moves_selection() {
    let mut a = app();
    a.handle_mouse(MouseInput { kind: MouseKind::ScrollDown, row: 0 }, 0);
    assert_eq!(a.selected, 1);
    a.handle_mouse(MouseInput { kind: MouseKind::ScrollUp, row: 0 }, 0);
    assert_eq!(a.selected, 0);
}

#[test]
fn quit_keys() {
    let mut a = app();
    a.key_event(KeyInput { code: Key::Char('c'), ctrl: false });
    assert!(!a.should_quit);
    a.key_event(KeyInput { code: Key::Char('c'), ctrl: true });
    assert!(a.should_quit);
    let mut b = app();
    b.key_event(key('q'));
    assert!(b.should_quit);
}

#[test]
fn help_closes_on_any_key() {
    let mut a = app();
    a.key_event(key('?'));
    assert!(matches!(a.mode, Mode::Help));
    a.key_event(key('j'));
    assert!(matches!(a.mode, Mode::Normal));
    assert_eq!(a.selected, 0);
}

#[test]
fn left_collapses_open_dir_then_goes_to_parent() {
    let mut a = app();
    a.key_event(key('l'));
    assert!(a.flat[0].is_expanded);
    a.key_event(key('j'));
    assert_eq!(selected_path(&a), "/proj/docs/guide.md");
    a.key_event(code(Key::Left));
    assert_eq!(selected_path(&a), "/proj/docs");
    a.key_event(code(Key::Left));
    assert!(!a.flat[0].is_expanded);
}

#[test]
fn refresh_key_asks_for_refresh_and_refresh_tree_sets_message() {
    let mut a = app();
    let e = a.key_event(key('R'));
    assert!(matches!(e, Effect::Refresh));
    let mut l = listing();
    l.push(file("new.txt"));
    a.refresh_tree(&l, None);
    assert_eq!(a.message, Some("Refreshed".to_string()));
    assert_eq!(a.flat.len(), 4);
}

#[test]
fn yank_shows_path() {
    let mut a = app();
    a.key_event(key('y'));
    assert_eq!(a.message, Some("/proj/docs".to_string()));
    a.key_event(key('j'));
    assert_eq!(a.message, None);
}

#[test]
fn new_file_prompt_gives_create_action_in_selected_dir() {
    let mut a = app();
    a.key_event(key('n'));
    assert!(matches!(a.mode, Mode::Prompt(PromptKind::NewFile)));
    for c in "notes.md".chars() {
        a.key_event(key(c));
    }
    let e = a.key_event(code(Key::Enter));
    assert!(matches!(a.mode, Mode::Normal));
    match e {
        Effect::Run(PromptAction::CreateFile(p)) => assert_eq!(p, "/proj/docs/notes.md"),
        _ => panic!("expected a create action"),
    }
}

#[test]
fn new_dir_next_to_selected_file() {
    let mut a = app();
    a.selected = 2;
    a.start_prompt(PromptKind::NewDir);
    a.prompt_text = "out".to_string();
    match a.confirm_prompt() {
        PromptAction::CreateDir(p) => assert_eq!(p, "/proj/out"),
        _ => panic!("expected a mkdir action"),
    }
}

#[test]
fn empty_prompt_does_nothing() {
    let mut a = app();
    a.start_prompt(PromptKind::NewFile);
    assert!(matches!(a.confirm_prompt(), PromptAction::Nothing));
    assert!(matches!(a.mode, Mode::Normal));
}

#[test]
fn rename_prompt_starts_with_name_and_renames_in_place() {
    let mut a = app();
    a.selected = 2;
    a.key_event(key('r'));
    assert_eq!(a.prompt_text, "README.md");
    a.key_event(code(Key::Backspace));
    a.key_event(code(Key::Backspace));
    assert_eq!(a.prompt_text, "README.");
    a.key_event(key('t'));
    a.key_event(key('x'));
    a.key_event(key('t'));
    match a.key_event(code(Key::Enter)) {
        Effect::Run(PromptAction::Rename(from, to)) => {
            assert_eq!(from, "/proj/README.md");
            assert_eq!(to, "/proj/README.txt");
        }
        _ => panic!("expected a rename"),
    }
}

#[test]
fn rename_of_parentless_path_is_not_confirmed() {
    let mut a = app();
    a.start_prompt(PromptKind::Rename("/".to_string()));
    a.prompt_text = "x".to_string();
    let e = a.key_event(code(Key::Enter));
    assert!(matches!(e, Effect::Nothing));
    assert!(matches!(a.mode, Mode::Prompt(PromptKind::Rename(_))));
}

#[test]
fn copy_prompt_targets_current_dir() {
    let mut a = app();
    a.key_event(key('p'));
    for c in "copy.md".chars() {
        a.key_event(key(c));
    }
    match a.key_event(code(Key::Enter)) {
        Effect::Run(PromptAction::Copy(src, dst)) => {
            assert_eq!(src, "/proj/docs");
            assert_eq!(dst, "/proj/docs/copy.md");
        }
        _ => panic!("expected a copy"),
    }
}

#[test]
fn delete_needs_y() {
    let mut a = app();
    a.key_event(key('d'));
    assert!(matches!(a.mode, Mode::Prompt(PromptKind::Delete(_))));
    let e = a.key_event(key('n'));
    assert!(matches!(e, Effect::Nothing));
    assert!(matches!(a.mode, Mode::Normal));
    a.key_event(code(Key::Delete));
    match a.key_event(key('Y')) {
        Effect::Run(PromptAction::Delete(p)) => assert_eq!(p, "/proj/docs"),
        _ => panic!("expected a delete"),
    }
    assert_eq!(a.prompt_text, "y");
}

#[test]
fn delete_confirmed_by_typed_uppercase_y() {
    let mut a = app();
    a.start_prompt(PromptKind::Delete("/proj/docs".to_string()));
    a.prompt_text = "Y".to_string();
    assert!(matches!(a.confirm_prompt(), PromptAction::Delete(_)));
}

#[test]
fn finish_prompt_selects_created_file_after_refresh() {
    let mut a = app();
    a.start_prompt(PromptKind::NewFile);
    a.prompt_text = "notes.md".to_string();
    let act = a.confirm_prompt();
    let mut l = listing();
    l[3] = dir("docs", vec![file("guide.md"), file("notes.md")]);
    a.finish_prompt(&act, &Ok(()), &l, None);
    assert_eq!(selected_path(&a), "/proj/docs/notes.md");
    assert!(a.flat[0].is_expanded);
    assert_eq!(a.message, Some("Refreshed".to_string()));
}

#[test]
fn finish_prompt_after_error_selects_nothing_new() {
    let mut a = app();
    a.selected = 1;
    a.start_prompt(PromptKind::NewFile);
    a.prompt_text = "x".to_string();
    let act = a.confirm_prompt();
    a.finish_prompt(&act, &Err("permission denied".to_string()), &listing(), None);
    assert_eq!(selected_path(&a), "/proj/src");
    assert!(!a.flat[1].is_expanded);
    assert_eq!(a.message, Some("Refreshed".to_string()));
}

#[test]
fn cancel_prompt_clears_text() {
    let mut a = app();
    a.key_event(key('n'));
    a.key_event(key('x'));
    a.key_event(code(Key::Esc));
    assert!(matches!(a.mode, Mode::Normal));
    assert_eq!(a.prompt_text, "");
}

#[test]
fn git_status_marks_files_and_dirs() {
    let root = TreeNode::new("/proj".to_string(), true, &listing());
    let out = " M src/main.rs\n?? docs/guide.md\nR  old.txt -> README.md\n".to_string();
    let a = App::new(root, kak(), Some(out));
    assert_eq!(a.git_statuses.get("/proj/src/main.rs"), Some(&" M".to_string()));
    assert_eq!(a.git_statuses.get("/proj/docs/guide.md"), Some(&"??".to_string()));
    assert_eq!(a.git_statuses.get("/proj/README.md"), Some(&"R ".to_string()));
    assert!(a.git_dirty_dirs.contains("/proj/src"));
    assert!(a.git_dirty_dirs.contains("/proj/docs"));
    assert!(a.git_dirty_dirs.contains("/proj"));
    assert!(!a.git_dirty_dirs.contains("/"));
}

#[test]
fn git_status_without_output_is_empty() {
    let mut a = app();
    a.refresh_git_status(Some(" M src/lib.rs".to_string()));
    assert!(a.git_dirty_dirs.contains("/proj/src"));
    a.refresh_git_status(None);
    assert!(a.git_statuses.entries.is_empty());
    assert!(a.git_dirty_dirs.items.is_empty());
}

#[test]
fn git_status_enters_each_path_once() {
    let mut a = app();
    a.refresh_git_status(Some(" M src/lib.rs\nM  src/lib.rs\n?? src/main.rs\n".to_string()));
    assert_eq!(a.git_statuses.entries.len(), 2);
    assert_eq!(a.git_statuses.get("/proj/src/lib.rs"), Some(&"M ".to_string()));
    let dirs: Vec<&String> = a.git_dirty_dirs.items.iter().filter(|p| p.as_str() == "/proj/src").collect();
    assert_eq!(dirs.len(), 1);
}

#[test]
fn delete_confirmed_by_lowercase_y_key() {
    let mut a = app();
    a.key_event(key('d'));
    match a.key_event(key('y')) {
        Effect::Run(PromptAction::Delete(p)) => assert_eq!(p, "/proj/docs"),
        _ => panic!("expected a delete"),
    }
}
