//! Properties that hold across the operations of the tree and the view.
use vstd::prelude::*;
use crate::fspath::{same_path, is_under, path_join, path_parent};
use crate::git::{
    key_index, is_first_key, status_of, map_insert, set_contains, set_insert, mark_dirty,
    apply_line, line_entry,
};
use crate::tree::{
    NodeModel, FlatModel, ScanModel, toggle_node, toggle_children, expand_node, refreshed,
    flatten_spec, rows_of, rows_of_children, is_visible, shown_open, next_depth, key_lt,
    insert_stable, sort_order, keys_of, entry_key, children_spec, build_node, collected,
    collected_children, restore_node, in_paths, has_match, passes_hidden, ordered_by_key, child_hit,
    lemma_insert_members, lemma_insert_sorted,
};
use crate::text::{is_hidden, name_matches, lowercase};
use crate::app::{
    AppModel, ModeView, ActionView, refresh_flat_spec, first_row, is_first_row, on_row,
    toggle_expand_spec, update_scroll_spec, cancel_filter_spec, toggle_hidden_spec,
    handle_click_spec, open_selected_spec, git_spec, refresh_tree_spec, finish_prompt_spec,
    action_target, says_yes, PromptView,
};
use crate::input::{KeyInput, Key, MouseInput, MouseKind, EffectView, key_event_spec, mouse_spec, pop_last};

verus! {

/// When some entry's path names the same place as `k`, a first such entry exists.
proof fn lemma_first_key_exists(m: Seq<(Seq<char>, Seq<char>)>, k: Seq<char>, j: int)
    requires
        0 <= j < m.len(),
        same_path(k, m[j].0),
    ensures
        exists|i: int| is_first_key(m, k, i),
    decreases j,
{
    if exists|j2: int| 0 <= j2 < j && same_path(k, #[trigger] m[j2].0) {
        let j2 = choose|j2: int| 0 <= j2 < j && same_path(k, #[trigger] m[j2].0);
        lemma_first_key_exists(m, k, j2);
    } else {
        assert(is_first_key(m, k, j));
    }
}

/// What is recorded for a path is what the last insertion for that path
/// recorded: after `insert(k, v)`, looking up `k` gives `v`.
pub proof fn law_status_read_after_write(m: Seq<(Seq<char>, Seq<char>)>, k: Seq<char>, v: Seq<char>)
    ensures
        status_of(map_insert(m, k, v), k) == Some(v),
{
    let m2 = map_insert(m, k, v);
    match key_index(m, k) {
        Some(i) => {
            assert(is_first_key(m, k, i));
            assert(is_first_key(m2, k, i));
            let w = choose|w: int| is_first_key(m2, k, w);
            assert(is_first_key(m2, k, w));
            if w < i {
                assert(!same_path(k, m2[w].0));
            } else if w > i {
                assert(!same_path(k, m2[i].0));
            }
        },
        None => {
            assert forall|j: int| 0 <= j < m.len() implies !same_path(k, #[trigger] m[j].0) by {
                if same_path(k, m[j].0) {
                    lemma_first_key_exists(m, k, j);
                }
            }
            assert(is_first_key(m2, k, m.len() as int));
            let w = choose|w: int| is_first_key(m2, k, w);
            assert(is_first_key(m2, k, w));
            if w < m.len() {
                assert(m2[w] == m[w]);
            }
        },
    }
}

/// After a path is added to a set of paths, the set holds it.
pub proof fn law_set_holds_inserted(s: Seq<Seq<char>>, k: Seq<char>)
    ensures
        set_contains(set_insert(s, k), k),
{
    if !set_contains(s, k) {
        assert(set_insert(s, k)[s.len() as int] == k);
    }
}

/// Adding paths to a set never drops a path.
proof fn lemma_set_insert_keeps(s: Seq<Seq<char>>, k: Seq<char>, q: Seq<char>)
    requires
        set_contains(s, q),
    ensures
        set_contains(set_insert(s, k), q),
{
    if !set_contains(s, k) {
        let i = choose|i: int| 0 <= i < s.len() && same_path(q, #[trigger] s[i]);
        assert(set_insert(s, k)[i] == s[i]);
    }
}

/// Walking up the parents only adds to the dirty set.
proof fn lemma_mark_dirty_keeps(dirs: Seq<Seq<char>>, p: Option<Seq<char>>, root: Seq<char>, fuel: nat, q: Seq<char>)
    requires
        set_contains(dirs, q),
    ensures
        set_contains(mark_dirty(dirs, p, root, fuel), q),
    decreases fuel,
{
    if fuel > 0 {
        match p {
            None => {},
            Some(r) => {
                if is_under(r, root) {
                    lemma_set_insert_keeps(dirs, r, q);
                    lemma_mark_dirty_keeps(set_insert(dirs, r), path_parent(r), root, (fuel - 1) as nat, q);
                }
            },
        }
    }
}

/// A line of git's output records its status for the changed path, and
/// marks the directory holding that path as dirty when it lies inside the
/// root.
pub proof fn law_git_line_marks(
    state: (Seq<(Seq<char>, Seq<char>)>, Seq<Seq<char>>),
    root: Seq<char>,
    line: Seq<char>,
)
    requires
        line_entry(line) is Some,
    ensures
        ({
            let (status, rel) = line_entry(line)->0;
            let full = path_join(root, rel);
            let after = apply_line(state, root, line);
            &&& status_of(after.0, full) == Some(status)
            &&& (path_parent(full) matches Some(q) ==> (is_under(q, root) ==> set_contains(after.1, q)))
        }),
{
    let (status, rel) = line_entry(line)->0;
    let full = path_join(root, rel);
    law_status_read_after_write(state.0, full, status);
    match path_parent(full) {
        Some(q) => {
            if is_under(q, root) {
                law_set_holds_inserted(state.1, q);
                lemma_mark_dirty_keeps(set_insert(state.1, q), path_parent(q), root, full.len(), q);
            }
        },
        None => {},
    }
}

/// Toggling over children twice gives the children back, with the same flag.
proof fn lemma_toggle_children_twice(n: NodeModel, n2: NodeModel, k: int, t: Seq<char>)
    requires
        0 <= k <= n.children.len(),
        k <= n2.children.len(),
        toggle_children(n, k, t).0.len() == k,
        forall|j: int| 0 <= j < k ==> n2.children[j] == #[trigger] toggle_children(n, k, t).0[j],
    ensures
        toggle_children(n2, k, t) == (n.children.take(k), toggle_children(n, k, t).1),
    decreases n, k,
{
    if k > 0 {
        let (pre, f) = toggle_children(n, k - 1, t);
        let cur = toggle_children(n, k, t).0;
        crate::tree::lemma_toggle_children_len(n, k - 1, t);
        assert forall|j: int| 0 <= j < k - 1 implies n2.children[j] == #[trigger] toggle_children(n, k - 1, t).0[j] by {
            assert(cur[j] == pre[j]);
        }
        lemma_toggle_children_twice(n, n2, k - 1, t);
        assert(toggle_children(n2, k - 1, t) == (n.children.take(k - 1), f));
        assert(n2.children[k - 1] == cur[k - 1]);
        assert(n.children.take(k - 1).push(n.children[k - 1]) =~= n.children.take(k));
        if !f {
            law_toggle_twice(n.children[k - 1], t);
            assert(cur[k - 1] == toggle_node(n.children[k - 1], t).0);
            assert(toggle_node(n2.children[k - 1], t) == (n.children[k - 1], toggle_node(n.children[k - 1], t).1));
        } else {
            assert(cur[k - 1] == n.children[k - 1]);
        }
    } else {
        assert(n.children.take(0) =~= Seq::<NodeModel>::empty());
    }
}

/// Toggling the same path twice leaves the tree as it was.
pub proof fn law_toggle_twice(n: NodeModel, t: Seq<char>)
    ensures
        toggle_node(toggle_node(n, t).0, t) == (n, toggle_node(n, t).1),
    decreases n, n.children.len() + 1,
{
    if !(same_path(n.path, t) && n.is_dir) {
        let (kids, f) = toggle_children(n, n.children.len() as int, t);
        let n1 = NodeModel { children: kids, ..n };
        crate::tree::lemma_toggle_children_len(n, n.children.len() as int, t);
        lemma_toggle_children_twice(n, n1, n.children.len() as int, t);
        assert(n.children.take(n.children.len() as int) =~= n.children);
    }
}

/// Expanding toward a path a second time changes nothing.
pub proof fn law_expand_idempotent(n: NodeModel, t: Seq<char>)
    ensures
        expand_node(expand_node(n, t), t) == expand_node(n, t),
    decreases n,
{
    let e = expand_node(n, t);
    if n.is_dir && is_under(t, n.path) {
        assert forall|i: int| 0 <= i < n.children.len() implies #[trigger] expand_node(e, t).children[i] == e.children[i] by {
            law_expand_idempotent(n.children[i], t);
        }
        assert(expand_node(e, t).children =~= e.children);
    }
}

/// The selection is on a row whenever there is a row.
pub open spec fn selection_valid(m: AppModel) -> bool {
    m.selected >= 0 && (m.flat.len() > 0 ==> m.selected < m.flat.len())
}

/// A row of the tree is shown properly: never a hidden name when hidden
/// names are off, and under a filter either a match or an opened directory
/// holding one.
pub open spec fn row_ok(r: FlatModel, show_hidden: bool, filter: Seq<char>) -> bool {
    &&& (!show_hidden ==> !is_hidden(r.name))
    &&& (filter.len() > 0 ==> name_matches(r.name, filter) || r.is_expanded)
}

/// Recomputing the rows always leaves the selection on a row.
proof fn lemma_refresh_flat_valid(m: AppModel)
    requires
        m.selected >= 0,
    ensures
        selection_valid(refresh_flat_spec(m)),
{
    let rows = flatten_spec(m.root, m.show_hidden, m.filter_text);
    if 0 <= m.selected < m.flat.len() {
        match first_row(rows, m.flat[m.selected].path) {
            Some(i) => {
                assert(is_first_row(rows, m.flat[m.selected].path, i));
            },
            None => {},
        }
    }
}

/// Toggling a directory keeps the selection on a row.
proof fn lemma_toggle_expand_valid(m: AppModel)
    requires
        selection_valid(m),
    ensures
        selection_valid(toggle_expand_spec(m)),
{
    if on_row(m) && m.flat[m.selected].is_dir {
        lemma_refresh_flat_valid(AppModel { root: toggle_node(m.root, m.flat[m.selected].path).0, ..m });
    }
}

/// Every key keeps the selection on a row.
pub proof fn law_key_keeps_selection(m: AppModel, k: KeyInput)
    requires
        selection_valid(m),
    ensures
        selection_valid(key_event_spec(m, k).0),
{
    let m1 = if m.mode is Normal {
        AppModel { message: None, ..m }
    } else {
        m
    };
    lemma_toggle_expand_valid(m1);
    lemma_refresh_flat_valid(AppModel { show_hidden: !m1.show_hidden, ..m1 });
    lemma_refresh_flat_valid(AppModel { filter_text: Seq::empty(), mode: ModeView::Normal, ..m1 });
    lemma_refresh_flat_valid(AppModel { selected: 0, filter_text: pop_last(m1.filter_text), ..m1 });
    match k.code {
        Key::Char(c) => {
            lemma_refresh_flat_valid(AppModel { selected: 0, filter_text: m1.filter_text.push(c), ..m1 });
        },
        _ => {},
    }
    if on_row(m1) {
        match path_parent(m1.flat[m1.selected].path) {
            Some(pp) => match first_row(m1.flat, pp) {
                Some(i) => {
                    assert(is_first_row(m1.flat, pp, i));
                },
                None => {},
            },
            None => {},
        }
    }
}

/// Every mouse event keeps the selection on a row.
pub proof fn law_mouse_keeps_selection(m: AppModel, e: MouseInput, now: u64)
    requires
        selection_valid(m),
        m.scroll_offset >= 0,
    ensures
        selection_valid(mouse_spec(m, e, now).0),
{
    let row = if e.row >= m.tree_start_y {
        e.row - m.tree_start_y
    } else {
        0
    };
    let item_row = row + m.scroll_offset;
    if e.kind is LeftDown && m.mode is Normal && m.flat.len() > 0 && item_row < m.flat.len() {
        lemma_toggle_expand_valid(AppModel { selected: item_row, ..m });
    }
}

/// Re-reading the tree, and finishing a prompt's action, leave the
/// selection on a row.
pub proof fn law_refresh_keeps_selection(
    m: AppModel,
    a: ActionView,
    ok: bool,
    es: Seq<ScanModel>,
    output: Option<Seq<char>>,
)
    requires
        m.selected >= 0,
    ensures
        selection_valid(refresh_tree_spec(m, es, output)),
        selection_valid(finish_prompt_spec(m, a, ok, es, output)),
{
    lemma_refresh_flat_valid(git_spec(AppModel { root: refreshed(m.root, es), ..m }, output));
    let target = action_target(a, ok);
    let m1 = match target {
        Some(t) => AppModel { root: expand_node(m.root, t), ..m },
        None => m,
    };
    lemma_refresh_flat_valid(git_spec(AppModel { root: refreshed(m1.root, es), ..m1 }, output));
    let m2 = refresh_tree_spec(m1, es, output);
    match target {
        Some(t) => match first_row(m2.flat, t) {
            Some(i) => {
                assert(is_first_row(m2.flat, t, i));
            },
            None => {},
        },
        None => {},
    }
}

/// After scrolling, the selected row lies within the visible height.
pub proof fn law_scroll_shows_selection(m: AppModel)
    requires
        m.selected >= 0,
        m.scroll_offset >= 0,
        m.visible_height > 0,
    ensures
        update_scroll_spec(m).scroll_offset <= m.selected < update_scroll_spec(m).scroll_offset + m.visible_height,
        update_scroll_spec(m).scroll_offset >= 0,
{
}

/// Typing, editing, applying or dropping a filter never changes the tree
/// itself: the opening of directories under a filter is only shown.
pub proof fn law_filter_keeps_tree(m: AppModel, k: KeyInput)
    requires
        m.mode is Filter,
    ensures
        key_event_spec(m, k).0.root == m.root,
{
}

/// Dropping the filter shows the rows of the tree without a filter.
pub proof fn law_cancel_filter_rows(m: AppModel)
    ensures
        cancel_filter_spec(m).flat == flatten_spec(m.root, m.show_hidden, Seq::empty()),
{
}

/// Showing and then hiding hidden names again gives back the rows.
pub proof fn law_toggle_hidden_twice(m: AppModel)
    ensures
        toggle_hidden_spec(toggle_hidden_spec(m)).flat == refresh_flat_spec(m).flat,
        toggle_hidden_spec(toggle_hidden_spec(m)).show_hidden == m.show_hidden,
{
}

/// A second click on the same row within 400 ms opens what the row shows:
/// a file gives its editor command, a directory is toggled.
pub proof fn law_double_click_opens(m: AppModel, row: int, t1: u64, t2: u64)
    requires
        m.last_click is None,
        0 <= row <= usize::MAX,
        t1 <= t2,
        t2 - t1 < 400,
    ensures
        ({
            let first = handle_click_spec(m, row, t1);
            let second = handle_click_spec(first.0, row, t2);
            let opened = open_selected_spec(AppModel { selected: row, ..m });
            &&& first.1 is None
            &&& second.1 == opened.1
            &&& second.0 == AppModel { last_click: None, ..opened.0 }
        }),
{
    let first = handle_click_spec(m, row, t1);
    assert(first.0.last_click == Some((t1, row as usize)));
    assert(AppModel { selected: row, ..first.0 } == AppModel { last_click: Some((t1, row as usize)), selected: row, ..m });
    let a = AppModel { selected: row, ..first.0 };
    let b = AppModel { selected: row, ..m };
    assert(open_selected_spec(a).1 == open_selected_spec(b).1);
    assert(toggle_expand_spec(a) == AppModel { last_click: Some((t1, row as usize)), ..toggle_expand_spec(b) });
}

/// The rows of a node's subtree are all shown properly.
proof fn lemma_rows_ok(n: NodeModel, d: int, sh: bool, f: Seq<char>)
    ensures
        forall|i: int| 0 <= i < rows_of(n, d, sh, f).len() ==> row_ok(#[trigger] rows_of(n, d, sh, f)[i], sh, f),
    decreases n, n.children.len() + 1,
{
    if is_visible(n, f, sh) {
        let open = shown_open(n, f, sh);
        let row = rows_of(n, d, sh, f)[0];
        assert(row_ok(row, sh, f));
        if n.is_dir && open {
            lemma_rows_children_ok(n, n.children.len() as int, next_depth(d), sh, f);
            let a = seq![row];
            let b = rows_of_children(n, n.children.len() as int, next_depth(d), sh, f);
            assert(rows_of(n, d, sh, f) == a + b);
            assert forall|i: int| 0 <= i < (a + b).len() implies row_ok(#[trigger] (a + b)[i], sh, f) by {
                if i < 1 {
                    assert((a + b)[i] == row);
                } else {
                    assert((a + b)[i] == b[i - 1]);
                }
            }
        }
    }
}

/// The rows of the first `k` children's subtrees are all shown properly.
proof fn lemma_rows_children_ok(n: NodeModel, k: int, d: int, sh: bool, f: Seq<char>)
    ensures
        forall|i: int| 0 <= i < rows_of_children(n, k, d, sh, f).len() ==> row_ok(
            #[trigger] rows_of_children(n, k, d, sh, f)[i],
            sh,
            f,
        ),
    decreases n, k,
{
    if 0 < k <= n.children.len() {
        lemma_rows_children_ok(n, k - 1, d, sh, f);
        lemma_rows_ok(n.children[k - 1], d, sh, f);
        let a = rows_of_children(n, k - 1, d, sh, f);
        let b = rows_of(n.children[k - 1], d, sh, f);
        assert forall|i: int| 0 <= i < (a + b).len() implies row_ok(#[trigger] (a + b)[i], sh, f) by {
            if i < a.len() {
                assert((a + b)[i] == a[i]);
            } else {
                assert((a + b)[i] == b[i - a.len()]);
            }
        }
    }
}

/// The flattened tree never shows a hidden name while hidden names are
/// off, and under a filter shows only matching names and the opened
/// directories that lead to them.
pub proof fn law_flatten_shows_only_matches(root: NodeModel, show_hidden: bool, filter: Seq<char>)
    ensures
        forall|i: int|
            0 <= i < flatten_spec(root, show_hidden, filter).len() ==> row_ok(
                #[trigger] flatten_spec(root, show_hidden, filter)[i],
                show_hidden,
                filter,
            ),
{
    lemma_rows_children_ok(root, root.children.len() as int, 0, show_hidden, filter);
}

/// The stable order of the first `k` keys is sorted and holds each index
/// below `k` exactly once.
proof fn lemma_sort_order(keys: Seq<(bool, Seq<char>)>, k: int)
    requires
        k >= 0,
    ensures
        sort_order(keys, k).len() == k,
        forall|j: int| 0 <= j < k ==> 0 <= #[trigger] sort_order(keys, k)[j] < k,
        forall|i: int, j: int| 0 <= i < j < k ==> #[trigger] sort_order(keys, k)[i] != #[trigger] sort_order(keys, k)[j],
        ordered_by_key(sort_order(keys, k), keys),
    decreases k,
{
    if k > 0 {
        let o = sort_order(keys, k - 1);
        lemma_sort_order(keys, k - 1);
        lemma_insert_members(o, keys, k - 1);
        lemma_insert_sorted(o, keys, k - 1);
        let r = sort_order(keys, k);
        assert forall|j: int| 0 <= j < k implies 0 <= #[trigger] r[j] < k by {
            if r[j] != k - 1 {
                let w = choose|w: int| 0 <= w < o.len() && o[w] == r[j];
            }
        }
        assert forall|i: int, j: int| 0 <= i < j < k implies #[trigger] r[i] != #[trigger] r[j] by {
            if r[i] == r[j] {
                // `k - 1` is new to the order and its members are distinct.
                lemma_insert_distinct(o, keys, k - 1, i, j);
            }
        }
    }
}

/// Inserting an index not yet present keeps the indices distinct.
proof fn lemma_insert_distinct(o: Seq<int>, keys: Seq<(bool, Seq<char>)>, x: int, i: int, j: int)
    requires
        forall|a: int, b: int| 0 <= a < b < o.len() ==> #[trigger] o[a] != #[trigger] o[b],
        !o.contains(x),
        0 <= i < j < o.len() + 1,
    ensures
        insert_stable(o, keys, x)[i] != insert_stable(o, keys, x)[j],
    decreases o.len(),
{
    let r = insert_stable(o, keys, x);
    if o.len() == 0 {
    } else if key_lt(keys[x], keys[o[0]]) {
        if i == 0 {
            assert(r[j] == o[j - 1]);
        } else {
            assert(r[i] == o[i - 1]);
            assert(r[j] == o[j - 1]);
        }
    } else {
        let rest = o.drop_first();
        assert forall|a: int, b: int| 0 <= a < b < rest.len() implies #[trigger] rest[a] != #[trigger] rest[b] by {
            assert(rest[a] == o[a + 1]);
            assert(rest[b] == o[b + 1]);
        }
        assert(!rest.contains(x)) by {
            if rest.contains(x) {
                let w = choose|w: int| 0 <= w < rest.len() && rest[w] == x;
                assert(o[w + 1] == x);
            }
        }
        let ri = insert_stable(rest, keys, x);
        assert(r == seq![o[0]] + ri);
        lemma_insert_members(rest, keys, x);
        if i == 0 {
            assert(r[j] == ri[j - 1]);
            if ri[j - 1] == x {
                assert(o[0] != x);
            } else {
                let w = choose|w: int| 0 <= w < rest.len() && rest[w] == ri[j - 1];
                assert(o[w + 1] == rest[w]);
            }
        } else {
            lemma_insert_distinct(rest, keys, x, i - 1, j - 1);
        }
    }
}

/// The children of a directory come in the listing's sorted order:
/// directories before files, each group by ascending lowercase name, and
/// every listed entry exactly once.
pub proof fn law_listing_sorted(dir: Seq<char>, es: Seq<ScanModel>)
    ensures
        ({
            let o = sort_order(keys_of(es), es.len() as int);
            let kids = children_spec(dir, es);
            &&& o.len() == es.len()
            &&& kids.len() == es.len()
            &&& forall|j: int| 0 <= j < o.len() ==> 0 <= #[trigger] o[j] < es.len()
            &&& forall|i: int, j: int| 0 <= i < j < o.len() ==> #[trigger] o[i] != #[trigger] o[j]
            &&& forall|j: int| 0 <= j < kids.len() ==> #[trigger] kids[j] == build_node(dir, es[o[j]])
            &&& forall|i: int, j: int|
                0 <= i < j < kids.len() ==> !key_lt(
                    (#[trigger] kids[j].is_dir, lowercase(kids[j].name)),
                    (#[trigger] kids[i].is_dir, lowercase(kids[i].name)),
                )
        }),
{
    let keys = keys_of(es);
    lemma_sort_order(keys, es.len() as int);
    let o = sort_order(keys, es.len() as int);
    let kids = children_spec(dir, es);
    assert forall|i: int, j: int| 0 <= i < j < kids.len() implies !key_lt(
        (#[trigger] kids[j].is_dir, lowercase(kids[j].name)),
        (#[trigger] kids[i].is_dir, lowercase(kids[i].name)),
    ) by {
        assert(kids[i] == build_node(dir, es[o[i]]));
        assert(kids[j] == build_node(dir, es[o[j]]));
        assert(keys[o[i]] == entry_key(es[o[i]]));
        assert(keys[o[j]] == entry_key(es[o[j]]));
    }
}

/// No collapsed node shares its place with a path of the list.
pub open spec fn collapsed_apart(n: NodeModel, paths: Seq<Seq<char>>) -> bool
    decreases n,
{
    &&& (!n.is_expanded ==> !in_paths(paths, n.path))
    &&& forall|i: int| 0 <= i < n.children.len() ==> collapsed_apart(#[trigger] n.children[i], paths)
}

/// The expanded paths of a child's subtree are among those of its parent.
proof fn lemma_collected_child(n: NodeModel, i: int, k: int, x: Seq<char>)
    requires
        0 <= i < k <= n.children.len(),
        collected(n.children[i]).contains(x),
    ensures
        collected_children(n, k).contains(x),
    decreases k,
{
    let a = collected_children(n, k - 1);
    let b = collected(n.children[k - 1]);
    if i < k - 1 {
        lemma_collected_child(n, i, k - 1, x);
        let w = choose|w: int| 0 <= w < a.len() && a[w] == x;
        assert((a + b)[w] == x);
    } else {
        let w = choose|w: int| 0 <= w < b.len() && b[w] == x;
        assert((a + b)[a.len() + w] == x);
    }
}

/// Restoring from a list holding every expanded path of the tree, and no
/// place of a collapsed node, leaves the tree as it is.
proof fn lemma_restore_same(n: NodeModel, paths: Seq<Seq<char>>)
    requires
        collapsed_apart(n, paths),
        forall|x: Seq<char>| collected(n).contains(x) ==> paths.contains(x),
    ensures
        restore_node(n, paths) == n,
    decreases n,
{
    if n.is_expanded {
        assert(collected(n)[0] == n.path);
        assert(collected(n).contains(n.path));
        assert(paths.contains(n.path));
        let w = choose|w: int| 0 <= w < paths.len() && paths[w] == n.path;
        assert(same_path(paths[w], n.path));
        assert(in_paths(paths, n.path));
    }
    let r = restore_node(n, paths);
    assert forall|i: int| 0 <= i < n.children.len() implies #[trigger] r.children[i] == n.children[i] by {
        assert forall|x: Seq<char>| collected(n.children[i]).contains(x) implies paths.contains(x) by {
            lemma_collected_child(n, i, n.children.len() as int, x);
            let c = collected_children(n, n.children.len() as int);
            let h = if n.is_expanded { seq![n.path] } else { Seq::<Seq<char>>::empty() };
            let w = choose|w: int| 0 <= w < c.len() && c[w] == x;
            assert(collected(n) == h + c);
            assert(collected(n)[h.len() + w] == x);
        }
        lemma_restore_same(n.children[i], paths);
    }
    assert(r.children =~= n.children);
    assert(r.is_expanded == n.is_expanded);
}

/// Putting back the expansion that was collected from a tree changes
/// nothing, when no collapsed node shares its place with an expanded one:
/// a refresh of an unchanged directory keeps every node open or closed as
/// it was.
pub proof fn law_restore_collected(n: NodeModel)
    requires
        collapsed_apart(n, collected(n)),
    ensures
        restore_node(n, collected(n)) == n,
{
    lemma_restore_same(n, collected(n));
}

/// The place and expansion of every node of the tree, in preorder.
pub open spec fn places(n: NodeModel) -> Seq<(Seq<char>, bool)>
    decreases n, n.children.len() + 1,
{
    seq![(n.path, n.is_expanded)] + places_children(n, n.children.len() as int)
}

/// The places of the first `k` children's subtrees, one after another.
pub open spec fn places_children(n: NodeModel, k: int) -> Seq<(Seq<char>, bool)>
    decreases n, k,
{
    if k <= 0 || k > n.children.len() {
        Seq::empty()
    } else {
        places_children(n, k - 1) + places(n.children[k - 1])
    }
}

/// No two nodes of the tree name the same place, as in a tree read from
/// the file system.
pub open spec fn places_distinct(n: NodeModel) -> bool {
    forall|i: int, j: int|
        0 <= i < places(n).len() && 0 <= j < places(n).len() && i != j ==> !same_path(
            #[trigger] places(n)[i].0,
            #[trigger] places(n)[j].0,
        )
}

/// Each collected path is the place of an expanded node.
proof fn lemma_collected_placed(n: NodeModel, a: int)
    requires
        0 <= a < collected(n).len(),
    ensures
        exists|j: int| 0 <= j < places(n).len() && (#[trigger] places(n)[j]).1 && places(n)[j].0 == collected(n)[a],
    decreases n, n.children.len() + 1,
{
    let h = if n.is_expanded { seq![n.path] } else { Seq::<Seq<char>>::empty() };
    let c = collected_children(n, n.children.len() as int);
    assert(collected(n) == h + c);
    if a < h.len() {
        assert(places(n)[0] == (n.path, n.is_expanded));
    } else {
        lemma_collected_children_placed(n, n.children.len() as int, a - h.len());
        let j = choose|j: int|
            0 <= j < places_children(n, n.children.len() as int).len() && (#[trigger] places_children(n, n.children.len() as int)[j]).1
                && places_children(n, n.children.len() as int)[j].0 == c[a - h.len()];
        assert(places(n)[j + 1] == places_children(n, n.children.len() as int)[j]);
    }
}

/// Each path collected from the first `k` children is the place of an
/// expanded node among them.
proof fn lemma_collected_children_placed(n: NodeModel, k: int, a: int)
    requires
        0 <= a < collected_children(n, k).len(),
    ensures
        exists|j: int|
            0 <= j < places_children(n, k).len() && (#[trigger] places_children(n, k)[j]).1 && places_children(n, k)[j].0
                == collected_children(n, k)[a],
    decreases n, k,
{
    if 0 < k <= n.children.len() {
        let c0 = collected_children(n, k - 1);
        let p0 = places_children(n, k - 1);
        let c1 = collected(n.children[k - 1]);
        let p1 = places(n.children[k - 1]);
        assert(collected_children(n, k) == c0 + c1);
        assert(places_children(n, k) == p0 + p1);
        if a < c0.len() {
            lemma_collected_children_placed(n, k - 1, a);
            let j = choose|j: int| 0 <= j < p0.len() && (#[trigger] p0[j]).1 && p0[j].0 == c0[a];
            assert(places_children(n, k)[j] == p0[j]);
        } else {
            assert(decreases_to!(n => n.children[k - 1]));
            lemma_collected_placed(n.children[k - 1], a - c0.len());
            let j = choose|j: int| 0 <= j < p1.len() && (#[trigger] p1[j]).1 && p1[j].0 == c1[a - c0.len()];
            assert(places_children(n, k)[p0.len() + j] == p1[j]);
        }
    }
}

/// Each place of a child's subtree is a place of the parent's tree.
proof fn lemma_child_placed(n: NodeModel, k: int, i: int, j: int)
    requires
        0 <= i < k <= n.children.len(),
        0 <= j < places(n.children[i]).len(),
    ensures
        exists|t: int| 0 <= t < places_children(n, k).len() && #[trigger] places_children(n, k)[t] == places(n.children[i])[j],
    decreases k,
{
    let p0 = places_children(n, k - 1);
    let p1 = places(n.children[k - 1]);
    assert(places_children(n, k) == p0 + p1);
    if i < k - 1 {
        lemma_child_placed(n, k - 1, i, j);
        let t = choose|t: int| 0 <= t < p0.len() && #[trigger] p0[t] == places(n.children[i])[j];
        assert(places_children(n, k)[t] == p0[t]);
    } else {
        assert(places_children(n, k)[p0.len() + j] == p1[j]);
    }
}

/// No collapsed node of the tree has its place in `paths`: then no
/// collapsed node shares its place with a path of the list.
proof fn lemma_places_apart(n: NodeModel, paths: Seq<Seq<char>>)
    requires
        forall|j: int| 0 <= j < places(n).len() && !(#[trigger] places(n)[j]).1 ==> !in_paths(paths, places(n)[j].0),
    ensures
        collapsed_apart(n, paths),
    decreases n,
{
    assert(places(n)[0] == (n.path, n.is_expanded));
    assert forall|i: int| 0 <= i < n.children.len() implies collapsed_apart(#[trigger] n.children[i], paths) by {
        let c = n.children[i];
        assert forall|j: int| 0 <= j < places(c).len() && !(#[trigger] places(c)[j]).1 implies !in_paths(paths, places(c)[j].0) by {
            lemma_child_placed(n, n.children.len() as int, i, j);
            let t = choose|t: int|
                0 <= t < places_children(n, n.children.len() as int).len() && #[trigger] places_children(n, n.children.len() as int)[t]
                    == places(c)[j];
            assert(places(n)[t + 1] == places_children(n, n.children.len() as int)[t]);
        }
        assert(decreases_to!(n => n.children[i]));
        lemma_places_apart(c, paths);
    }
}

/// Putting back the expansion that was collected from a tree whose nodes
/// all name different places changes nothing.
pub proof fn law_restore_collected_distinct(n: NodeModel)
    requires
        places_distinct(n),
    ensures
        restore_node(n, collected(n)) == n,
{
    let ps = places(n);
    let cs = collected(n);
    assert forall|j: int| 0 <= j < ps.len() && !(#[trigger] ps[j]).1 implies !in_paths(cs, ps[j].0) by {
        if in_paths(cs, ps[j].0) {
            let a = choose|a: int| 0 <= a < cs.len() && same_path(#[trigger] cs[a], ps[j].0);
            lemma_collected_placed(n, a);
            let t = choose|t: int| 0 <= t < ps.len() && (#[trigger] ps[t]).1 && ps[t].0 == cs[a];
            assert(t != j);
            assert(!same_path(ps[t].0, ps[j].0));
        }
    }
    lemma_places_apart(n, cs);
    law_restore_collected(n);
}

/// The node reached from `n` by following the child indices `idxs`.
pub open spec fn descend(n: NodeModel, idxs: Seq<int>) -> NodeModel
    decreases idxs.len(),
{
    if idxs.len() == 0 {
        n
    } else {
        descend(n.children[idxs[0]], idxs.drop_first())
    }
}

/// The indices lead through existing children, none of them hidden unless
/// hidden names are shown, every one but the last a directory.
pub open spec fn chain_ok(n: NodeModel, idxs: Seq<int>, show_hidden: bool) -> bool
    decreases idxs.len(),
{
    idxs.len() == 0 || {
        &&& 0 <= idxs[0] < n.children.len()
        &&& passes_hidden(n.children[idxs[0]].name, show_hidden)
        &&& (idxs.len() > 1 ==> n.children[idxs[0]].is_dir)
        &&& chain_ok(n.children[idxs[0]], idxs.drop_first(), show_hidden)
    }
}

/// A matching node below `n` gives `n` a match.
proof fn lemma_chain_has_match(n: NodeModel, idxs: Seq<int>, sh: bool, f: Seq<char>)
    requires
        idxs.len() >= 1,
        chain_ok(n, idxs, sh),
        name_matches(descend(n, idxs).name, f),
    ensures
        has_match(n, f, sh),
    decreases idxs.len(),
{
    let c = n.children[idxs[0]];
    let rest = idxs.drop_first();
    assert(descend(n, idxs) == descend(c, rest));
    assert(chain_ok(c, rest, sh));
    if idxs.len() > 1 {
        lemma_chain_has_match(c, rest, sh, f);
    } else {
        assert(descend(c, rest) == c);
    }
    assert(passes_hidden(n.children[idxs[0]].name, sh));
}

/// The rows of the first `k` children hold a row for every matching node
/// reached through the first `k` children.
proof fn lemma_rows_hold_match(n: NodeModel, k: int, d: int, sh: bool, f: Seq<char>, idxs: Seq<int>)
    requires
        idxs.len() >= 1,
        0 <= idxs[0] < k <= n.children.len(),
        chain_ok(n, idxs, sh),
        f.len() > 0,
        name_matches(descend(n, idxs).name, f),
    ensures
        exists|i: int|
            0 <= i < rows_of_children(n, k, d, sh, f).len() && (#[trigger] rows_of_children(n, k, d, sh, f)[i]).path
                == descend(n, idxs).path && rows_of_children(n, k, d, sh, f)[i].name == descend(n, idxs).name,
    decreases idxs.len(), k,
{
    let m = descend(n, idxs);
    let a = rows_of_children(n, k - 1, d, sh, f);
    let c = n.children[k - 1];
    let b = rows_of(c, d, sh, f);
    assert(rows_of_children(n, k, d, sh, f) == a + b);
    if idxs[0] < k - 1 {
        lemma_rows_hold_match(n, k - 1, d, sh, f, idxs);
        let i = choose|i: int| 0 <= i < a.len() && (#[trigger] a[i]).path == m.path && a[i].name == m.name;
        assert((a + b)[i] == a[i]);
    } else {
        let rest = idxs.drop_first();
        assert(c == n.children[idxs[0]]);
        assert(descend(n, idxs) == descend(c, rest));
        assert(chain_ok(c, rest, sh));
        if idxs.len() == 1 {
            assert(descend(c, rest) == c);
            assert(m == c);
            assert(is_visible(c, f, sh));
            assert((a + b)[a.len() as int] == b[0]);
        } else {
            assert(rest[0] == idxs[1]);
            assert(0 <= rest[0] < c.children.len());
            lemma_chain_has_match(c, rest, sh, f);
            assert(is_visible(c, f, sh));
            assert(shown_open(c, f, sh));
            let kids = rows_of_children(c, c.children.len() as int, next_depth(d), sh, f);
            lemma_rows_hold_match(c, c.children.len() as int, next_depth(d), sh, f, rest);
            assert(descend(c, rest) == m);
            let i = choose|i: int| 0 <= i < kids.len() && (#[trigger] kids[i]).path == m.path && kids[i].name == m.name;
            assert(b == seq![b[0]] + kids);
            assert(b[i + 1] == kids[i]);
            assert((a + b)[a.len() + i + 1] == b[i + 1]);
        }
    }
}

/// Under a filter, every node whose name matches is shown, however deep,
/// when neither it nor a directory above it is hidden (or hidden names are
/// shown).
pub proof fn law_filter_shows_every_match(root: NodeModel, show_hidden: bool, filter: Seq<char>, idxs: Seq<int>)
    requires
        filter.len() > 0,
        idxs.len() >= 1,
        chain_ok(root, idxs, show_hidden),
        name_matches(descend(root, idxs).name, filter),
    ensures
        exists|i: int|
            0 <= i < flatten_spec(root, show_hidden, filter).len() && (#[trigger] flatten_spec(root, show_hidden, filter)[i]).path
                == descend(root, idxs).path && flatten_spec(root, show_hidden, filter)[i].name == descend(root, idxs).name,
{
    lemma_rows_hold_match(root, root.children.len() as int, 0, show_hidden, filter, idxs);
    let rows = rows_of_children(root, root.children.len() as int, 0, show_hidden, filter);
    assert(flatten_spec(root, show_hidden, filter) == rows);
    let m = descend(root, idxs);
    let i = choose|i: int| 0 <= i < rows.len() && (#[trigger] rows[i]).path == m.path && rows[i].name == m.name;
    assert(flatten_spec(root, show_hidden, filter)[i] == rows[i]);
}

/// The indices lead through existing children.
pub open spec fn indices_ok(n: NodeModel, idxs: Seq<int>) -> bool
    decreases idxs.len(),
{
    idxs.len() == 0 || (0 <= idxs[0] < n.children.len() && indices_ok(n.children[idxs[0]], idxs.drop_first()))
}

/// Restoring commutes with descending: each node of the restored tree is
/// the restored node.
proof fn lemma_restore_descend(n: NodeModel, paths: Seq<Seq<char>>, idxs: Seq<int>)
    requires
        indices_ok(n, idxs),
    ensures
        indices_ok(restore_node(n, paths), idxs),
        descend(restore_node(n, paths), idxs) == restore_node(descend(n, idxs), paths),
    decreases idxs.len(),
{
    if idxs.len() > 0 {
        let r = restore_node(n, paths);
        assert(r.children[idxs[0]] == restore_node(n.children[idxs[0]], paths));
        lemma_restore_descend(n.children[idxs[0]], paths, idxs.drop_first());
    }
}

/// After the tree is re-read, each node of it is open exactly when an open
/// node of the tree before sat at the same place; the node's name, path and
/// kind are those of the new listing.
pub proof fn law_refresh_keeps_open_places(n: NodeModel, es: Seq<ScanModel>, idxs: Seq<int>)
    requires
        n.is_dir,
        indices_ok(NodeModel { children: children_spec(n.path, es), ..n }, idxs),
    ensures
        indices_ok(refreshed(n, es), idxs),
        ({
            let fresh = descend(NodeModel { children: children_spec(n.path, es), ..n }, idxs);
            let now = descend(refreshed(n, es), idxs);
            &&& now.is_expanded == in_paths(collected(n), now.path)
            &&& now.path == fresh.path
            &&& now.name == fresh.name
            &&& now.is_dir == fresh.is_dir
            &&& now.children.len() == fresh.children.len()
        }),
{
    let m = NodeModel { children: children_spec(n.path, es), ..n };
    lemma_restore_descend(m, collected(n), idxs);
}

/// A deletion is carried out on `y` or `Y`, and only then: any other key
/// closes the prompt and deletes nothing.
pub proof fn law_delete_needs_confirmation(m: AppModel, k: KeyInput)
    requires
        m.mode matches ModeView::Prompt(PromptView::Delete(_)),
    ensures
        ({
            let (m1, e) = key_event_spec(m, k);
            let p = m.mode->Prompt_0->Delete_0;
            if k.code == Key::Char('y') || k.code == Key::Char('Y') {
                &&& m1.mode == ModeView::Normal
                &&& e == EffectView::Run(ActionView::Delete(p))
            } else {
                &&& e == EffectView::Nothing
                &&& m1.mode == ModeView::Normal
                &&& m1.prompt_text.len() == 0
            }
        }),
{
    assert(says_yes(seq!['y'])) by {
        assert(('y' as u32) == 121);
    }
}

/// Two filters with the same lowercase form find the same matches below a node.
proof fn lemma_has_match_case(n: NodeModel, f1: Seq<char>, f2: Seq<char>, h: bool)
    requires
        lowercase(f1) == lowercase(f2),
    ensures
        has_match(n, f1, h) == has_match(n, f2, h),
    decreases n,
{
    assert forall|i: int| 0 <= i < n.children.len() implies child_hit(#[trigger] n.children[i], f1, h)
        == child_hit(n.children[i], f2, h) by {
        assert(decreases_to!(n => n.children[i]));
        lemma_has_match_case(n.children[i], f1, f2, h);
    }
    if has_match(n, f1, h) {
        let i = choose|i: int|
            0 <= i < n.children.len() && passes_hidden(#[trigger] n.children[i].name, h) && (
            name_matches(n.children[i].name, f1) || (n.children[i].is_dir && has_match(n.children[i], f1, h)));
        assert(child_hit(n.children[i], f1, h));
    }
    if has_match(n, f2, h) {
        let i = choose|i: int|
            0 <= i < n.children.len() && passes_hidden(#[trigger] n.children[i].name, h) && (
            name_matches(n.children[i].name, f2) || (n.children[i].is_dir && has_match(n.children[i], f2, h)));
        assert(child_hit(n.children[i], f2, h));
    }
}

/// Two filters with the same lowercase form, both empty or both not, give a
/// node the same rows.
proof fn lemma_rows_case(n: NodeModel, depth: int, h: bool, f1: Seq<char>, f2: Seq<char>)
    requires
        lowercase(f1) == lowercase(f2),
        (f1.len() == 0) == (f2.len() == 0),
    ensures
        rows_of(n, depth, h, f1) == rows_of(n, depth, h, f2),
    decreases n, n.children.len() + 1,
{
    lemma_has_match_case(n, f1, f2, h);
    lemma_rows_children_case(n, n.children.len() as int, next_depth(depth), h, f1, f2);
}

/// The rows of the first `k` children agree under two such filters.
proof fn lemma_rows_children_case(n: NodeModel, k: int, depth: int, h: bool, f1: Seq<char>, f2: Seq<char>)
    requires
        lowercase(f1) == lowercase(f2),
        (f1.len() == 0) == (f2.len() == 0),
    ensures
        rows_of_children(n, k, depth, h, f1) == rows_of_children(n, k, depth, h, f2),
    decreases n, k,
{
    if 0 < k <= n.children.len() {
        lemma_rows_children_case(n, k - 1, depth, h, f1, f2);
        assert(decreases_to!(n => n.children[k - 1]));
        lemma_rows_case(n.children[k - 1], depth, h, f1, f2);
    }
}

/// The filter ignores case: two filters that lowercase to the same text,
/// both empty or both not, show the same rows (`MAIN` shows what `main` shows).
pub proof fn law_filter_ignores_case(root: NodeModel, show_hidden: bool, f1: Seq<char>, f2: Seq<char>)
    requires
        lowercase(f1) == lowercase(f2),
        (f1.len() == 0) == (f2.len() == 0),
    ensures
        flatten_spec(root, show_hidden, f1) == flatten_spec(root, show_hidden, f2),
{
    lemma_rows_children_case(root, root.children.len() as int, 0, show_hidden, f1, f2);
}

/// The node at `idxs` below `n` has the place and name of the row `r`, and
/// its name matches the filter or something shown below it does.
pub open spec fn row_matches_at(n: NodeModel, idxs: Seq<int>, r: FlatModel, f: Seq<char>, h: bool) -> bool {
    &&& indices_ok(n, idxs)
    &&& descend(n, idxs).path == r.path
    &&& descend(n, idxs).name == r.name
    &&& (name_matches(descend(n, idxs).name, f) || has_match(descend(n, idxs), f, h))
}

/// The row `r` stands for a matching node of `n`'s subtree.
pub open spec fn row_matches_in(n: NodeModel, r: FlatModel, f: Seq<char>, h: bool) -> bool {
    exists|idxs: Seq<int>| #[trigger] row_matches_at(n, idxs, r, f, h)
}

/// The row `r` stands for a matching node strictly below `n`.
pub open spec fn row_matches_below(n: NodeModel, r: FlatModel, f: Seq<char>, h: bool) -> bool {
    exists|idxs: Seq<int>| idxs.len() >= 1 && #[trigger] row_matches_at(n, idxs, r, f, h)
}

/// Under a filter, each row of a node stands for a matching node of its subtree.
proof fn lemma_rows_of_match(n: NodeModel, depth: int, h: bool, f: Seq<char>)
    requires
        f.len() > 0,
    ensures
        forall|k: int| 0 <= k < rows_of(n, depth, h, f).len() ==> row_matches_in(n, #[trigger] rows_of(n, depth, h, f)[k], f, h),
    decreases n, n.children.len() + 1,
{
    let rs = rows_of(n, depth, h, f);
    if is_visible(n, f, h) {
        let nd = next_depth(depth);
        let len = n.children.len() as int;
        lemma_rows_children_match(n, len, nd, h, f);
        let rc = rows_of_children(n, len, nd, h, f);
        assert forall|k: int| 0 <= k < rs.len() implies row_matches_in(n, #[trigger] rs[k], f, h) by {
            if k == 0 {
                let e = Seq::<int>::empty();
                assert(descend(n, e) == n);
                assert(row_matches_at(n, e, rs[k], f, h));
            } else {
                assert(rs == seq![rs[0]] + rc);
                assert(rs[k] == rc[k - 1]);
                assert(row_matches_below(n, rc[k - 1], f, h));
                let w = choose|w: Seq<int>| w.len() >= 1 && #[trigger] row_matches_at(n, w, rc[k - 1], f, h);
                assert(row_matches_at(n, w, rs[k], f, h));
            }
        }
    }
}

/// Under a filter, each row of the first `k` children stands for a matching
/// node below one of them.
proof fn lemma_rows_children_match(n: NodeModel, k: int, depth: int, h: bool, f: Seq<char>)
    requires
        f.len() > 0,
    ensures
        forall|t: int| 0 <= t < rows_of_children(n, k, depth, h, f).len() ==> row_matches_below(n, #[trigger] rows_of_children(n, k, depth, h, f)[t], f, h),
    decreases n, k,
{
    if 0 < k <= n.children.len() {
        let r0 = rows_of_children(n, k - 1, depth, h, f);
        let c = n.children[k - 1];
        let r1 = rows_of(c, depth, h, f);
        let rc = rows_of_children(n, k, depth, h, f);
        assert(rc == r0 + r1);
        lemma_rows_children_match(n, k - 1, depth, h, f);
        assert(decreases_to!(n => n.children[k - 1]));
        lemma_rows_of_match(c, depth, h, f);
        assert forall|t: int| 0 <= t < rc.len() implies row_matches_below(n, #[trigger] rc[t], f, h) by {
            if t < r0.len() {
                assert(rc[t] == r0[t]);
                assert(row_matches_below(n, r0[t], f, h));
            } else {
                assert(rc[t] == r1[t - r0.len()]);
                assert(row_matches_in(c, r1[t - r0.len()], f, h));
                let w = choose|w: Seq<int>| #[trigger] row_matches_at(c, w, r1[t - r0.len()], f, h);
                let idxs = seq![k - 1] + w;
                assert(idxs.drop_first() =~= w);
                assert(idxs[0] == k - 1);
                assert(descend(n, idxs) == descend(c, w));
                assert(indices_ok(n, idxs));
                assert(row_matches_at(n, idxs, rc[t], f, h));
            }
        }
    }
}

/// Under a non-empty filter every row stands for a node of the tree (found by
/// a chain of child indices, with the row's place and name) whose name
/// matches the filter, or below which a shown node matches: a directory that
/// is open but holds no match gives no row.
pub proof fn law_filter_rows_match(root: NodeModel, show_hidden: bool, f: Seq<char>)
    requires
        f.len() > 0,
    ensures
        forall|k: int| 0 <= k < flatten_spec(root, show_hidden, f).len() ==> row_matches_below(
            root,
            #[trigger] flatten_spec(root, show_hidden, f)[k],
            f,
            show_hidden,
        ),
{
    lemma_rows_children_match(root, root.children.len() as int, 0, show_hidden, f);
}

/// Confirming a new file, a new directory or a copy with the text `t` makes
/// the new path `t` inside the selected directory, inside the directory of
/// the selected file, or inside the root when no row is selected.
pub proof fn law_new_entries_go_to_current_dir(m: AppModel, ctrl: bool)
    requires
        m.prompt_text.len() > 0,
        m.mode matches ModeView::Prompt(PromptView::NewFile) || m.mode matches ModeView::Prompt(PromptView::NewDir)
            || m.mode matches ModeView::Prompt(PromptView::Copy(_)),
    ensures
        ({
            let (m1, e) = key_event_spec(m, KeyInput { code: Key::Enter, ctrl });
            let t = m.prompt_text;
            let sel = m.flat[m.selected];
            let dir_ok = |d: Seq<char>| match m.mode {
                ModeView::Prompt(PromptView::NewFile) => e == EffectView::Run(ActionView::CreateFile(path_join(d, t))),
                ModeView::Prompt(PromptView::NewDir) => e == EffectView::Run(ActionView::CreateDir(path_join(d, t))),
                ModeView::Prompt(PromptView::Copy(src)) => e == EffectView::Run(ActionView::Copy(src, path_join(d, t))),
                _ => false,
            };
            &&& m1.mode == ModeView::Normal
            &&& (0 <= m.selected < m.flat.len() && !sel.is_dir && path_parent(sel.path) is Some ==> dir_ok(path_parent(sel.path)->0))
            &&& (0 <= m.selected < m.flat.len() && sel.is_dir ==> dir_ok(sel.path))
            &&& (!(0 <= m.selected < m.flat.len()) ==> dir_ok(m.root.path))
        }),
{
}

/// In normal mode `N` opens the new-directory prompt and `n` the new-file
/// prompt, each with an empty text, doing nothing else yet.
pub proof fn law_n_keys_open_prompts(m: AppModel, ctrl: bool)
    requires
        m.mode is Normal,
    ensures
        ({
            let (m1, e) = key_event_spec(m, KeyInput { code: Key::Char('N'), ctrl });
            &&& m1.mode == ModeView::Prompt(PromptView::NewDir)
            &&& m1.prompt_text.len() == 0
            &&& e == EffectView::Nothing
            &&& m1.flat == m.flat && m1.selected == m.selected && m1.root == m.root
        }),
        ({
            let (m1, e) = key_event_spec(m, KeyInput { code: Key::Char('n'), ctrl });
            &&& m1.mode == ModeView::Prompt(PromptView::NewFile)
            &&& m1.prompt_text.len() == 0
            &&& e == EffectView::Nothing
            &&& m1.flat == m.flat && m1.selected == m.selected && m1.root == m.root
        }),
{
}

/// A left click in normal mode on screen row `y` acts on row
/// `i = (y - tree_start_y, at least 0) + scroll_offset` when there is such a
/// row: it clicks row `i`, which selects it (or opens it on a double click).
pub proof fn law_click_acts_on_scrolled_row(m: AppModel, y: u16, now: u64)
    requires
        m.mode is Normal,
        m.scroll_offset >= 0,
        ({
            let i = (if y >= m.tree_start_y { y - m.tree_start_y } else { 0 }) + m.scroll_offset;
            i < m.flat.len()
        }),
    ensures
        ({
            let i = (if y >= m.tree_start_y { y - m.tree_start_y } else { 0 }) + m.scroll_offset;
            let (m1, e) = mouse_spec(m, MouseInput { kind: MouseKind::LeftDown, row: y }, now);
            let (c1, cmd) = handle_click_spec(m, i, now);
            &&& m1 == c1
            &&& e == match cmd {
                Some(c) => EffectView::OpenFile(c),
                None => EffectView::Nothing,
            }
            &&& (!(m.last_click matches Some((_, r)) && r == i) ==> m1.selected == i && cmd is None)
        }),
{
}

/// A first row at a place exists when some row is at that place.
proof fn lemma_first_row_exists(rows: Seq<FlatModel>, p: Seq<char>, j: int)
    requires
        0 <= j < rows.len(),
        same_path(rows[j].path, p),
    ensures
        exists|i: int| is_first_row(rows, p, i),
    decreases j,
{
    if exists|j2: int| 0 <= j2 < j && same_path(#[trigger] rows[j2].path, p) {
        let j2 = choose|j2: int| 0 <= j2 < j && same_path(#[trigger] rows[j2].path, p);
        lemma_first_row_exists(rows, p, j2);
    } else {
        assert(is_first_row(rows, p, j));
    }
}

/// Recomputing the rows keeps the selection on the place it was on: on the
/// first new row at that place; when no new row is at that place (or the
/// selection was on no row) the index stays where it is if it is still a
/// row, and otherwise moves back to the last row.
pub proof fn law_refresh_keeps_selected_place(m: AppModel)
    requires
        m.selected >= 0,
    ensures
        ({
            let rows = flatten_spec(m.root, m.show_hidden, m.filter_text);
            let m1 = refresh_flat_spec(m);
            let found = 0 <= m.selected < m.flat.len() && exists|j: int| 0 <= j < rows.len() && same_path(#[trigger] rows[j].path, m.flat[m.selected].path);
            &&& m1.flat == rows
            &&& (found ==> {
                &&& 0 <= m1.selected < rows.len()
                &&& same_path(rows[m1.selected].path, m.flat[m.selected].path)
                &&& forall|j: int| 0 <= j < m1.selected ==> !same_path(#[trigger] rows[j].path, m.flat[m.selected].path)
            })
            &&& (!found && m.selected < rows.len() ==> m1.selected == m.selected)
            &&& (!found && m.selected >= rows.len() && rows.len() > 0 ==> m1.selected == rows.len() - 1)
        }),
{
    let rows = flatten_spec(m.root, m.show_hidden, m.filter_text);
    if 0 <= m.selected < m.flat.len() {
        let p = m.flat[m.selected].path;
        if exists|j: int| 0 <= j < rows.len() && same_path(#[trigger] rows[j].path, p) {
            let j = choose|j: int| 0 <= j < rows.len() && same_path(#[trigger] rows[j].path, p);
            lemma_first_row_exists(rows, p, j);
        } else {
            assert(!exists|i: int| is_first_row(rows, p, i));
        }
    }
}

} // verus!
