use kakfiletree::tree::{FlatItem, ScanEntry, TreeNode};

fn file(name: &str) -> ScanEntry {
    ScanEntry { name: name.to_string(), is_dir: false, children: vec![] }
}

fn dir(name: &str, children: Vec<ScanEntry>) -> ScanEntry {
    ScanEntry { name: name.to_string(), is_dir: true, children }
}

/// /proj with: README.md, src/{main.rs, lib.rs}, .git/{config}, docs/{guide.md}, b.txt
fn sample() -> TreeNode {
    let entries = vec![
        file("README.md"),
        dir("src", vec![file("main.rs"), file("lib.rs")]),
        dir(".git", vec![file("config")]),
        file("b.txt"),
        dir("docs", vec![file("guide.md")]),
    ];
    TreeNode::new("/proj".to_string(), true, &entries)
}

fn names(rows: &[FlatItem]) -> Vec<String> {
    rows.iter().map(|r| r.name.clone()).collect()
}

#[test]
fn new_names_root_by_last_component() {
    let t = sample();
    assert_eq!(t.name, "proj");
    assert_eq!(t.path, "/proj");
    assert!(t.is_dir);
    assert!(t.is_expanded);
}

#[test]
fn new_on_root_path_uses_whole_path_as_name() {
    let t = TreeNode::new("/".to_string(), true, &vec![]);
    assert_eq!(t.name, "/");
}

#[test]
fn new_file_has_no_children() {
    let t = TreeNode::new("/x/a.txt".to_string(), false, &vec![file("ignored")]);
    assert_eq!(t.name, "a.txt");
    assert!(t.children.is_empty());
}

#[test]
fn children_sorted_dirs_first_then_lowercase_names() {
    let t = sample();
    let order: Vec<&str> = t.children.iter().map(|c| c.name.as_str()).collect();
    assert_eq!(order, vec![".git", "docs", "src", "b.txt", "README.md"]);
}

#[test]
fn children_paths_are_joined_and_collapsed() {
    let t = sample();
    let src = &t.children[2];
    assert_eq!(src.path, "/proj/src");
    assert!(!src.is_expanded);
    assert_eq!(src.children[0].path, "/proj/src/lib.rs");
    assert_eq!(src.children[1].path, "/proj/src/main.rs");
}

#[test]
fn sort_is_stable_for_equal_lowercase_names() {
    let entries = vec![file("b"), file("A"), file("a"), file("B")];
    let t = TreeNode::new("/r".to_string(), true, &entries);
    let order: Vec<&str> = t.children.iter().map(|c| c.name.as_str()).collect();
    assert_eq!(order, vec!["A", "a", "b", "B"]);
}

#[test]
fn flatten_hides_dot_names_and_keeps_collapsed_dirs_closed() {
    let t = sample();
    let rows = t.flatten(false, "");
    assert_eq!(names(&rows), vec!["docs", "src", "b.txt", "README.md"]);
    assert!(rows.iter().all(|r| r.depth == 0));
    assert!(!rows[0].is_expanded);
}

#[test]
fn flatten_shows_hidden_when_asked() {
    let t = sample();
    let rows = t.flatten(true, "");
    assert_eq!(names(&rows), vec![".git", "docs", "src", "b.txt", "README.md"]);
}

#[test]
fn flatten_expanded_dir_shows_children_one_level_deeper() {
    let mut t = sample();
    assert!(t.toggle("/proj/src"));
    let rows = t.flatten(false, "");
    assert_eq!(names(&rows), vec!["docs", "src", "lib.rs", "main.rs", "b.txt", "README.md"]);
    assert_eq!(rows[2].depth, 1);
    assert!(rows[1].is_expanded);
}

#[test]
fn filter_is_case_insensitive_substring_and_opens_ancestors() {
    let t = sample();
    let rows = t.flatten(false, "MAIN");
    assert_eq!(names(&rows), vec!["src", "main.rs"]);
    assert!(rows[0].is_expanded);
    assert_eq!(rows[1].depth, 1);
    assert_eq!(rows[1].path, "/proj/src/main.rs");
}

#[test]
fn filter_matching_nothing_gives_no_rows() {
    let t = sample();
    assert!(t.flatten(false, "zzz").is_empty());
}

#[test]
fn filter_does_not_look_inside_hidden_dirs() {
    let t = sample();
    assert!(t.flatten(false, "config").is_empty());
    assert_eq!(names(&t.flatten(true, "config")), vec![".git", "config"]);
}

#[test]
fn filter_on_dir_name_keeps_it_closed_without_inner_match() {
    let t = sample();
    let rows = t.flatten(false, "doc");
    assert_eq!(names(&rows), vec!["docs"]);
    assert!(!rows[0].is_expanded);
}

#[test]
fn toggle_twice_restores() {
    let mut t = sample();
    assert!(t.toggle("/proj/docs"));
    assert!(t.children[1].is_expanded);
    assert!(t.toggle("/proj/docs"));
    assert!(!t.children[1].is_expanded);
}

#[test]
fn toggle_ignores_files_and_unknown_paths() {
    let mut t = sample();
    assert!(!t.toggle("/proj/b.txt"));
    assert!(!t.toggle("/elsewhere"));
    assert!(t.children.iter().all(|c| !c.is_expanded));
}

#[test]
fn toggle_matches_paths_by_components() {
    let mut t = sample();
    assert!(t.toggle("/proj/src/"));
    assert!(t.children[2].is_expanded);
}

#[test]
fn expand_to_opens_every_dir_down_to_target() {
    let entries = vec![dir("a", vec![dir("b", vec![file("c.txt")]), dir("z", vec![])])];
    let mut t = TreeNode::new("/r".to_string(), true, &entries);
    t.expand_to("/r/a/b/c.txt");
    let a = &t.children[0];
    assert!(a.is_expanded);
    assert!(a.children[0].is_expanded);
    assert!(!a.children[1].is_expanded);
    t.expand_to("/r/a/b/c.txt");
    assert!(t.children[0].children[0].is_expanded);
}

#[test]
fn expand_to_outside_root_changes_nothing() {
    let mut t = sample();
    t.is_expanded = false;
    t.expand_to("/other/src");
    assert!(!t.is_expanded);
    assert!(t.children.iter().all(|c| !c.is_expanded));
}

#[test]
fn refresh_keeps_expansion_and_picks_up_new_entries() {
    let mut t = sample();
    t.toggle("/proj/src");
    let entries = vec![
        dir("src", vec![file("main.rs"), file("new.rs")]),
        file("b.txt"),
        dir("fresh", vec![]),
    ];
    t.refresh(&entries);
    let order: Vec<&str> = t.children.iter().map(|c| c.name.as_str()).collect();
    assert_eq!(order, vec!["fresh", "src", "b.txt"]);
    assert!(t.children[1].is_expanded);
    assert!(!t.children[0].is_expanded);
    assert!(t.is_expanded);
    assert_eq!(names(&t.flatten(false, "")), vec!["fresh", "src", "main.rs", "new.rs", "b.txt"]);
}

#[test]
fn refresh_of_a_file_changes_nothing() {
    let mut t = TreeNode::new("/x/a.txt".to_string(), false, &vec![]);
    t.refresh(&vec![file("other")]);
    assert!(t.children.is_empty());
    assert!(t.is_expanded);
}

fn rows_key(rows: &[FlatItem]) -> Vec<(String, String, bool, bool, usize)> {
    rows.iter().map(|r| (r.name.clone(), r.path.clone(), r.is_dir, r.is_expanded, r.depth)).collect()
}

fn expansion(t: &TreeNode, out: &mut Vec<(String, bool)>) {
    out.push((t.path.clone(), t.is_expanded));
    for c in &t.children {
        expansion(c, out);
    }
}

#[test]
fn filter_ignores_case_of_the_filter() {
    let t = sample();
    let lower = rows_key(&t.flatten(false, "main"));
    assert_eq!(rows_key(&t.flatten(false, "MAIN")), lower);
    assert_eq!(rows_key(&t.flatten(false, "MaIn")), lower);
    assert_eq!(rows_key(&t.flatten(true, "GUIDE")), rows_key(&t.flatten(true, "guide")));
}

#[test]
fn collect_then_restore_gives_the_tree_back() {
    let mut t = sample();
    assert!(t.toggle("/proj/src"));
    assert!(t.toggle("/proj/.git"));
    let mut before = Vec::new();
    expansion(&t, &mut before);
    let kept = t.collect_expanded();
    assert_eq!(kept, vec!["/proj".to_string(), "/proj/.git".to_string(), "/proj/src".to_string()]);
    t.restore_expanded(&kept);
    let mut after = Vec::new();
    expansion(&t, &mut after);
    assert_eq!(after, before);
    assert!(t.toggle("/proj/src"));
    t.restore_expanded(&kept);
    let mut again = Vec::new();
    expansion(&t, &mut again);
    assert_eq!(again, before);
}
