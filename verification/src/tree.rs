//! The file tree: nodes read from a directory scan, their expansion state,
//! and the flat list of visible rows under a filter.
use vstd::prelude::*;
use crate::text::{is_hidden, name_matches, starts_with_dot, matches_filter, lowercase, lex_lt, lex_less, to_lower, chars_of};
use crate::fspath::{same_path, is_under, path_join, path_file_name, paths_equal, path_has_prefix, join_path, file_name_of};

verus! {

/// One entry of a directory listing as the file system gave it, with the
/// listing of its own contents when it is a directory.
pub struct ScanEntry {
    pub name: String,
    pub is_dir: bool,
    pub children: Vec<ScanEntry>,
}

/// A node of the file tree.
pub struct TreeNode {
    pub name: String,
    pub path: String,
    pub is_dir: bool,
    pub is_expanded: bool,
    pub children: Vec<TreeNode>,
}

/// One visible row of the tree.
pub struct FlatItem {
    pub name: String,
    pub path: String,
    pub is_dir: bool,
    pub is_expanded: bool,
    pub depth: usize,
}

/// The mathematical value of a scan entry.
pub struct ScanModel {
    pub name: Seq<char>,
    pub is_dir: bool,
    pub children: Seq<ScanModel>,
}

/// The mathematical value of a tree node.
pub struct NodeModel {
    pub name: Seq<char>,
    pub path: Seq<char>,
    pub is_dir: bool,
    pub is_expanded: bool,
    pub children: Seq<NodeModel>,
}

/// The mathematical value of a row.
pub struct FlatModel {
    pub name: Seq<char>,
    pub path: Seq<char>,
    pub is_dir: bool,
    pub is_expanded: bool,
    pub depth: int,
}

/// The value of a scan entry and, recursively, of its listing.
pub open spec fn scan_model(e: ScanEntry) -> ScanModel
    decreases e,
{
    ScanModel {
        name: e.name@,
        is_dir: e.is_dir,
        children: Seq::new(
            e.children@.len(),
            |i: int|
                if 0 <= i < e.children@.len() {
                    scan_model(e.children@[i])
                } else {
                    ScanModel { name: e.name@, is_dir: false, children: Seq::empty() }
                },
        ),
    }
}

/// The value of a node and, recursively, of its children.
pub open spec fn node_model(n: TreeNode) -> NodeModel
    decreases n,
{
    NodeModel {
        name: n.name@,
        path: n.path@,
        is_dir: n.is_dir,
        is_expanded: n.is_expanded,
        children: Seq::new(
            n.children@.len(),
            |i: int|
                if 0 <= i < n.children@.len() {
                    node_model(n.children@[i])
                } else {
                    NodeModel { name: n.name@, path: n.path@, is_dir: false, is_expanded: false, children: Seq::empty() }
                },
        ),
    }
}

impl View for ScanEntry {
    type V = ScanModel;

    open spec fn view(&self) -> ScanModel {
        scan_model(*self)
    }
}

impl View for TreeNode {
    type V = NodeModel;

    open spec fn view(&self) -> NodeModel {
        node_model(*self)
    }
}

impl View for FlatItem {
    type V = FlatModel;

    open spec fn view(&self) -> FlatModel {
        FlatModel {
            name: self.name@,
            path: self.path@,
            is_dir: self.is_dir,
            is_expanded: self.is_expanded,
            depth: self.depth as int,
        }
    }
}

/// The values of a list of rows.
pub open spec fn rows_view(s: Seq<FlatItem>) -> Seq<FlatModel> {
    s.map_values(|f: FlatItem| f@)
}

/// A node is shown unless it is hidden and hidden names are not shown.
pub open spec fn passes_hidden(name: Seq<char>, show_hidden: bool) -> bool {
    show_hidden || !is_hidden(name)
}

/// Some descendant of `n` (through shown directories) matches the filter.
pub open spec fn has_match(n: NodeModel, filter: Seq<char>, show_hidden: bool) -> bool
    decreases n,
{
    exists|i: int|
        0 <= i < n.children.len() && passes_hidden(#[trigger] n.children[i].name, show_hidden) && (
        name_matches(n.children[i].name, filter) || (n.children[i].is_dir && has_match(
            n.children[i],
            filter,
            show_hidden,
        )))
}

/// The child `c` makes its parent match: it is shown and matches, or it is a
/// directory with a match below it.
pub open spec fn child_hit(c: NodeModel, filter: Seq<char>, show_hidden: bool) -> bool {
    passes_hidden(c.name, show_hidden) && (name_matches(c.name, filter) || (c.is_dir && has_match(
        c,
        filter,
        show_hidden,
    )))
}

/// Whether the node gets a row of its own.
pub open spec fn is_visible(n: NodeModel, filter: Seq<char>, show_hidden: bool) -> bool {
    passes_hidden(n.name, show_hidden) && (filter.len() == 0 || name_matches(n.name, filter)
        || has_match(n, filter, show_hidden))
}

/// Whether a row shows its node as open: it is expanded, or a filter is set
/// and something below it matches.
pub open spec fn shown_open(n: NodeModel, filter: Seq<char>, show_hidden: bool) -> bool {
    n.is_expanded || (filter.len() != 0 && has_match(n, filter, show_hidden))
}

/// The depth of the next level, held at the largest `usize`.
pub open spec fn next_depth(depth: int) -> int {
    if depth < usize::MAX {
        depth + 1
    } else {
        depth
    }
}

/// The rows of a node and, when it is an open directory, of its subtree.
pub open spec fn rows_of(n: NodeModel, depth: int, show_hidden: bool, filter: Seq<char>) -> Seq<
    FlatModel,
>
    decreases n, n.children.len() + 1,
{
    if !is_visible(n, filter, show_hidden) {
        Seq::empty()
    } else {
        let open = shown_open(n, filter, show_hidden);
        let row = FlatModel {
            name: n.name,
            path: n.path,
            is_dir: n.is_dir,
            is_expanded: open,
            depth,
        };
        if n.is_dir && open {
            seq![row] + rows_of_children(n, n.children.len() as int, next_depth(depth), show_hidden, filter)
        } else {
            seq![row]
        }
    }
}

/// The rows of the first `k` children of `n`, one after another.
pub open spec fn rows_of_children(
    n: NodeModel,
    k: int,
    depth: int,
    show_hidden: bool,
    filter: Seq<char>,
) -> Seq<FlatModel>
    decreases n, k,
{
    if k <= 0 || k > n.children.len() {
        Seq::empty()
    } else {
        rows_of_children(n, k - 1, depth, show_hidden, filter) + rows_of(
            n.children[k - 1],
            depth,
            show_hidden,
            filter,
        )
    }
}

/// The rows of the whole tree: the root's children at depth zero.
pub open spec fn flatten_spec(root: NodeModel, show_hidden: bool, filter: Seq<char>) -> Seq<
    FlatModel,
> {
    rows_of_children(root, root.children.len() as int, 0, show_hidden, filter)
}

/// Toggling: the first directory in preorder whose path equals `t` has its
/// expansion flipped; the flag tells whether there was one.
pub open spec fn toggle_node(n: NodeModel, t: Seq<char>) -> (NodeModel, bool)
    decreases n, n.children.len() + 1,
{
    if same_path(n.path, t) && n.is_dir {
        (NodeModel { is_expanded: !n.is_expanded, ..n }, true)
    } else {
        let (kids, found) = toggle_children(n, n.children.len() as int, t);
        (NodeModel { children: kids, ..n }, found)
    }
}

/// Toggling over the first `k` children: the children after the pass, and
/// whether one of them held the directory.
pub open spec fn toggle_children(n: NodeModel, k: int, t: Seq<char>) -> (Seq<NodeModel>, bool)
    decreases n, k,
{
    if k <= 0 || k > n.children.len() {
        (Seq::empty(), false)
    } else {
        let (pre, found) = toggle_children(n, k - 1, t);
        if found {
            (pre.push(n.children[k - 1]), true)
        } else {
            let (c, g) = toggle_node(n.children[k - 1], t);
            (pre.push(c), g)
        }
    }
}

/// Expanding toward `t`: every directory at or above `t`, reached through
/// such directories from this node, becomes expanded.
pub open spec fn expand_node(n: NodeModel, t: Seq<char>) -> NodeModel
    decreases n,
{
    if n.is_dir && is_under(t, n.path) {
        NodeModel {
            is_expanded: true,
            children: Seq::new(
                n.children.len(),
                |i: int|
                    if 0 <= i < n.children.len() {
                        expand_node(n.children[i], t)
                    } else {
                        n
                    },
            ),
            ..n
        }
    } else {
        n
    }
}

/// The paths of the expanded nodes, in preorder.
pub open spec fn collected(n: NodeModel) -> Seq<Seq<char>>
    decreases n, n.children.len() + 1,
{
    (if n.is_expanded {
        seq![n.path]
    } else {
        Seq::empty()
    }) + collected_children(n, n.children.len() as int)
}

/// The expanded paths of the first `k` children's subtrees, one after another.
pub open spec fn collected_children(n: NodeModel, k: int) -> Seq<Seq<char>>
    decreases n, k,
{
    if k <= 0 || k > n.children.len() {
        Seq::empty()
    } else {
        collected_children(n, k - 1) + collected(n.children[k - 1])
    }
}

/// Some path of the list names the same place as `p`.
pub open spec fn in_paths(paths: Seq<Seq<char>>, p: Seq<char>) -> bool {
    exists|i: int| 0 <= i < paths.len() && same_path(#[trigger] paths[i], p)
}

/// Every node is expanded exactly when its path is in the list.
pub open spec fn restore_node(n: NodeModel, paths: Seq<Seq<char>>) -> NodeModel
    decreases n,
{
    NodeModel {
        is_expanded: in_paths(paths, n.path),
        children: Seq::new(
            n.children.len(),
            |i: int|
                if 0 <= i < n.children.len() {
                    restore_node(n.children[i], paths)
                } else {
                    n
                },
        ),
        ..n
    }
}

/// The values of a list of strings.
pub open spec fn strs_view(s: Seq<String>) -> Seq<Seq<char>> {
    s.map_values(|x: String| x@)
}

/// Tests whether some path of `paths` names the same place as `p`.
pub fn paths_contain(paths: &Vec<String>, p: &str) -> (r: bool)
    ensures
        r == in_paths(strs_view(paths@), p@),
{
    let len = paths.len();
    let mut i: usize = 0;
    while i < len
        invariant
            len == paths.len(),
            i <= len,
            forall|j: int| 0 <= j < i ==> !same_path(#[trigger] strs_view(paths@)[j], p@),
        decreases len - i,
    {
        if paths_equal(paths[i].as_str(), p) {
            proof {
                assert(same_path(strs_view(paths@)[i as int], p@));
            }
            return true;
        }
        i = i + 1;
    }
    false
}

/// The value of a node's children is the list of its children's values.
proof fn lemma_children_view(n: TreeNode)
    ensures
        n@.children.len() == n.children@.len(),
        forall|j: int| 0 <= j < n.children@.len() ==> #[trigger] n@.children[j] == n.children@[j]@,
{
}

/// A step of toggling past a child that held the directory leaves the rest alone.
proof fn lemma_toggle_children_found(n: NodeModel, i: int, k: int, t: Seq<char>)
    requires
        0 <= i < k <= n.children.len(),
        toggle_children(n, i + 1, t).1,
    ensures
        toggle_children(n, k, t) == (
            toggle_children(n, i + 1, t).0 + n.children.subrange(i + 1, k),
            true,
        ),
    decreases k,
{
    if k > i + 1 {
        lemma_toggle_children_found(n, i, k - 1, t);
        assert(toggle_children(n, i + 1, t).0 + n.children.subrange(i + 1, k) =~= (
        toggle_children(n, i + 1, t).0 + n.children.subrange(i + 1, k - 1)).push(n.children[k - 1]));
    } else {
        assert(n.children.subrange(i + 1, k) =~= Seq::<NodeModel>::empty());
        assert(toggle_children(n, i + 1, t).0 + n.children.subrange(i + 1, k) =~= toggle_children(n, i + 1, t).0);
    }
}

/// The first `k` children after toggling keep their number.
pub(crate) proof fn lemma_toggle_children_len(n: NodeModel, k: int, t: Seq<char>)
    requires
        0 <= k <= n.children.len(),
    ensures
        toggle_children(n, k, t).0.len() == k,
    decreases k,
{
    if k > 0 {
        lemma_toggle_children_len(n, k - 1, t);
    }
}

/// The sort key of an entry: directories first, then the lowercase name.
pub open spec fn entry_key(e: ScanModel) -> (bool, Seq<char>) {
    (e.is_dir, lowercase(e.name))
}

/// The sort keys of a listing.
pub open spec fn keys_of(es: Seq<ScanModel>) -> Seq<(bool, Seq<char>)> {
    es.map_values(|e: ScanModel| entry_key(e))
}

/// `a` sorts strictly before `b`: a directory before a file, else the
/// smaller lowercase name.
pub open spec fn key_lt(a: (bool, Seq<char>), b: (bool, Seq<char>)) -> bool {
    (a.0 && !b.0) || (a.0 == b.0 && lex_lt(a.1, b.1))
}

/// Inserts index `x` into `order` just before the first index whose key
/// comes strictly after the key of `x`.
pub open spec fn insert_stable(order: Seq<int>, keys: Seq<(bool, Seq<char>)>, x: int) -> Seq<int>
    decreases order.len(),
{
    if order.len() == 0 {
        seq![x]
    } else if key_lt(keys[x], keys[order[0]]) {
        seq![x] + order
    } else {
        seq![order[0]] + insert_stable(order.drop_first(), keys, x)
    }
}

/// The stable sorting order of the first `k` keys: the indices in the order
/// in which the listing is shown.
pub open spec fn sort_order(keys: Seq<(bool, Seq<char>)>, k: int) -> Seq<int>
    decreases k,
{
    if k <= 0 {
        Seq::empty()
    } else {
        insert_stable(sort_order(keys, k - 1), keys, k - 1)
    }
}

/// The node built for entry `e` of the directory at `dir`.
pub open spec fn build_node(dir: Seq<char>, e: ScanModel) -> NodeModel
    decreases e,
{
    let p = path_join(dir, e.name);
    NodeModel {
        name: e.name,
        path: p,
        is_dir: e.is_dir,
        is_expanded: false,
        children: if e.is_dir {
            children_spec(p, e.children)
        } else {
            Seq::empty()
        },
    }
}

/// The children built for the listing `es` of the directory at `dir`, in
/// sorted order.
pub open spec fn children_spec(dir: Seq<char>, es: Seq<ScanModel>) -> Seq<NodeModel>
    decreases es,
{
    let order = sort_order(keys_of(es), es.len() as int);
    Seq::new(
        order.len(),
        |j: int|
            if 0 <= j < order.len() && 0 <= order[j] < es.len() {
                build_node(dir, es[order[j]])
            } else {
                NodeModel { name: dir, path: dir, is_dir: false, is_expanded: false, children: Seq::empty() }
            },
    )
}

/// The root node for the path `path`.
pub open spec fn new_node(path: Seq<char>, is_dir: bool, es: Seq<ScanModel>) -> NodeModel {
    NodeModel {
        name: match path_file_name(path) {
            Some(n) => n,
            None => path,
        },
        path,
        is_dir,
        is_expanded: true,
        children: if is_dir {
            children_spec(path, es)
        } else {
            Seq::empty()
        },
    }
}

/// Re-reading a directory: new children from the listing, and every node
/// that was expanded before stays expanded.
pub open spec fn refreshed(n: NodeModel, es: Seq<ScanModel>) -> NodeModel {
    if n.is_dir {
        restore_node(NodeModel { children: children_spec(n.path, es), ..n }, collected(n))
    } else {
        n
    }
}

/// The values of a listing.
pub open spec fn scans_view(s: Seq<ScanEntry>) -> Seq<ScanModel> {
    s.map_values(|e: ScanEntry| e@)
}

/// The values of a list of nodes.
pub open spec fn nodes_view(s: Seq<TreeNode>) -> Seq<NodeModel> {
    s.map_values(|n: TreeNode| n@)
}

/// The value of an entry's listing is the list of its entries' values.
proof fn lemma_scan_children_view(e: ScanEntry)
    ensures
        e@.children == scans_view(e.children@),
{
    assert(e@.children =~= scans_view(e.children@));
}

/// Inserting at the first strictly greater key is the stable insertion.
proof fn lemma_insert_at(order: Seq<int>, keys: Seq<(bool, Seq<char>)>, x: int, p: int)
    requires
        0 <= p <= order.len(),
        forall|j: int| 0 <= j < p ==> !key_lt(keys[x], keys[#[trigger] order[j]]),
        p < order.len() ==> key_lt(keys[x], keys[order[p]]),
    ensures
        insert_stable(order, keys, x) == order.take(p).push(x) + order.skip(p),
    decreases order.len(),
{
    if order.len() == 0 {
        assert(order.take(p).push(x) + order.skip(p) =~= seq![x]);
    } else if p == 0 {
        assert(order.take(p).push(x) + order.skip(p) =~= seq![x] + order);
    } else {
        let rest = order.drop_first();
        assert forall|j: int| 0 <= j < p - 1 implies !key_lt(keys[x], keys[#[trigger] rest[j]]) by {
            assert(rest[j] == order[j + 1]);
        }
        lemma_insert_at(rest, keys, x, p - 1);
        assert(order.take(p).push(x) + order.skip(p) =~= seq![order[0]] + (rest.take(p - 1).push(x)
            + rest.skip(p - 1)));
    }
}

/// The stable order of the first `k` keys holds each index below `k` once.
proof fn lemma_sort_order_bounds(keys: Seq<(bool, Seq<char>)>, k: int)
    requires
        k >= 0,
    ensures
        sort_order(keys, k).len() == k,
        forall|j: int| 0 <= j < k ==> 0 <= #[trigger] sort_order(keys, k)[j] < k,
    decreases k,
{
    if k > 0 {
        lemma_sort_order_bounds(keys, k - 1);
        lemma_insert_bounds(sort_order(keys, k - 1), keys, k - 1);
    }
}

/// Inserting `x` into indices below it gives indices up to `x`.
proof fn lemma_insert_bounds(order: Seq<int>, keys: Seq<(bool, Seq<char>)>, x: int)
    requires
        x >= 0,
        forall|j: int| 0 <= j < order.len() ==> 0 <= #[trigger] order[j] < x,
    ensures
        insert_stable(order, keys, x).len() == order.len() + 1,
        forall|j: int| 0 <= j < order.len() + 1 ==> 0 <= #[trigger] insert_stable(order, keys, x)[j] <= x,
    decreases order.len(),
{
    if order.len() > 0 && !key_lt(keys[x], keys[order[0]]) {
        let rest = order.drop_first();
        assert forall|j: int| 0 <= j < rest.len() implies 0 <= #[trigger] rest[j] < x by {
            assert(rest[j] == order[j + 1]);
        }
        lemma_insert_bounds(rest, keys, x);
        let r = insert_stable(order, keys, x);
        assert forall|j: int| 0 <= j < order.len() + 1 implies 0 <= #[trigger] r[j] <= x by {
            if j > 0 {
                assert(r[j] == insert_stable(rest, keys, x)[j - 1]);
            }
        }
    }
}

pub(crate) proof fn lemma_lex_irreflexive(a: Seq<char>)
    ensures
        !lex_lt(a, a),
    decreases a.len(),
{
    if a.len() > 0 {
        lemma_lex_irreflexive(a.drop_first());
    }
}

pub(crate) proof fn lemma_lex_transitive(a: Seq<char>, b: Seq<char>, c: Seq<char>)
    requires
        lex_lt(a, b),
        lex_lt(b, c),
    ensures
        lex_lt(a, c),
    decreases a.len(),
{
    if a.len() > 0 && b.len() > 0 && c.len() > 0 && a[0] == b[0] && b[0] == c[0] {
        lemma_lex_transitive(a.drop_first(), b.drop_first(), c.drop_first());
    }
}

pub(crate) proof fn lemma_key_order(a: (bool, Seq<char>), b: (bool, Seq<char>), c: (bool, Seq<char>))
    ensures
        !key_lt(a, a),
        key_lt(a, b) && key_lt(b, c) ==> key_lt(a, c),
{
    lemma_lex_irreflexive(a.1);
    if key_lt(a, b) && key_lt(b, c) && a.0 == b.0 && b.0 == c.0 {
        lemma_lex_transitive(a.1, b.1, c.1);
    }
}

/// The indices of an order appear in it in increasing key order.
pub open spec fn ordered_by_key(o: Seq<int>, keys: Seq<(bool, Seq<char>)>) -> bool {
    forall|i: int, j: int| 0 <= i < j < o.len() ==> !key_lt(keys[#[trigger] o[j]], keys[#[trigger] o[i]])
}

/// Every member of the insertion is `x` or a member of `o`.
pub(crate) proof fn lemma_insert_members(o: Seq<int>, keys: Seq<(bool, Seq<char>)>, x: int)
    ensures
        insert_stable(o, keys, x).len() == o.len() + 1,
        forall|j: int| 0 <= j < o.len() + 1 ==> #[trigger] insert_stable(o, keys, x)[j] == x || o.contains(insert_stable(o, keys, x)[j]),
        insert_stable(o, keys, x).contains(x),
        forall|j: int| 0 <= j < o.len() ==> insert_stable(o, keys, x).contains(#[trigger] o[j]),
    decreases o.len(),
{
    let r = insert_stable(o, keys, x);
    if o.len() == 0 {
        assert(r[0] == x);
    } else if key_lt(keys[x], keys[o[0]]) {
        assert(r[0] == x);
        assert forall|j: int| 0 <= j < o.len() + 1 implies #[trigger] r[j] == x || o.contains(r[j]) by {
            if j > 0 {
                assert(r[j] == o[j - 1]);
            }
        }
        assert forall|j: int| 0 <= j < o.len() implies r.contains(#[trigger] o[j]) by {
            assert(r[j + 1] == o[j]);
        }
    } else {
        let rest = o.drop_first();
        lemma_insert_members(rest, keys, x);
        let ri = insert_stable(rest, keys, x);
        assert(r == seq![o[0]] + ri);
        assert forall|j: int| 0 <= j < o.len() + 1 implies #[trigger] r[j] == x || o.contains(r[j]) by {
            if j == 0 {
                assert(o[0] == r[0]);
            } else {
                assert(r[j] == ri[j - 1]);
                if ri[j - 1] != x {
                    let w = choose|w: int| 0 <= w < rest.len() && rest[w] == ri[j - 1];
                    assert(o[w + 1] == rest[w]);
                }
            }
        }
        let wx = choose|w: int| 0 <= w < ri.len() && ri[w] == x;
        assert(r[wx + 1] == x);
        assert forall|j: int| 0 <= j < o.len() implies r.contains(#[trigger] o[j]) by {
            if j == 0 {
                assert(r[0] == o[0]);
            } else {
                assert(o[j] == rest[j - 1]);
                assert(ri.contains(rest[j - 1]));
                let w = choose|w: int| 0 <= w < ri.len() && ri[w] == rest[j - 1];
                assert(r[w + 1] == ri[w]);
            }
        }
    }
}

/// Stable insertion keeps an order sorted by key.
pub(crate) proof fn lemma_insert_sorted(o: Seq<int>, keys: Seq<(bool, Seq<char>)>, x: int)
    requires
        ordered_by_key(o, keys),
    ensures
        ordered_by_key(insert_stable(o, keys, x), keys),
    decreases o.len(),
{
    let r = insert_stable(o, keys, x);
    if o.len() == 0 {
    } else if key_lt(keys[x], keys[o[0]]) {
        assert forall|i: int, j: int| 0 <= i < j < r.len() implies !key_lt(keys[#[trigger] r[j]], keys[#[trigger] r[i]]) by {
            if i == 0 {
                assert(r[j] == o[j - 1]);
                lemma_key_order(keys[o[j - 1]], keys[x], keys[o[0]]);
                lemma_key_order(keys[o[0]], keys[x], keys[o[0]]);
                if j - 1 > 0 {
                    assert(!key_lt(keys[o[j - 1]], keys[o[0]]));
                }
            } else {
                assert(r[i] == o[i - 1]);
                assert(r[j] == o[j - 1]);
            }
        }
    } else {
        let rest = o.drop_first();
        assert forall|i: int, j: int| 0 <= i < j < rest.len() implies !key_lt(keys[#[trigger] rest[j]], keys[#[trigger] rest[i]]) by {
            assert(rest[i] == o[i + 1]);
            assert(rest[j] == o[j + 1]);
        }
        lemma_insert_sorted(rest, keys, x);
        lemma_insert_members(rest, keys, x);
        let ri = insert_stable(rest, keys, x);
        assert(r == seq![o[0]] + ri);
        assert forall|i: int, j: int| 0 <= i < j < r.len() implies !key_lt(keys[#[trigger] r[j]], keys[#[trigger] r[i]]) by {
            if i == 0 {
                assert(r[j] == ri[j - 1]);
                if ri[j - 1] != x {
                    let w = choose|w: int| 0 <= w < rest.len() && rest[w] == ri[j - 1];
                    assert(o[w + 1] == rest[w]);
                    assert(!key_lt(keys[o[w + 1]], keys[o[0]]));
                }
            } else {
                assert(r[i] == ri[i - 1]);
                assert(r[j] == ri[j - 1]);
            }
        }
    }
}

/// Two different sequences are ordered one way or the other.
pub(crate) proof fn lemma_lex_total(a: Seq<char>, b: Seq<char>)
    ensures
        a == b || lex_lt(a, b) || lex_lt(b, a),
    decreases a.len(),
{
    if a.len() > 0 && b.len() > 0 && a[0] == b[0] {
        lemma_lex_total(a.drop_first(), b.drop_first());
        if a.drop_first() == b.drop_first() {
            assert(a =~= seq![a[0]] + a.drop_first());
            assert(b =~= seq![b[0]] + b.drop_first());
        }
    } else if a.len() == 0 && b.len() == 0 {
        assert(a =~= b);
    } else if a.len() > 0 && b.len() > 0 {
        vstd::utf8::char_u32_cast(a[0], a[0] as u32);
        vstd::utf8::char_u32_cast(b[0], b[0] as u32);
        assert((a[0] as u32) != (b[0] as u32));
    }
}

/// In a sorted order, once a key sorts strictly before an entry it sorts
/// strictly before every later entry.
pub(crate) proof fn lemma_sorted_monotone(o: Seq<int>, keys: Seq<(bool, Seq<char>)>, x: (bool, Seq<char>), p: int, q: int)
    requires
        ordered_by_key(o, keys),
        0 <= p < q < o.len(),
        key_lt(x, keys[o[p]]),
    ensures
        key_lt(x, keys[o[q]]),
{
    let kp = keys[o[p]];
    let kq = keys[o[q]];
    assert(!key_lt(kq, kp));
    lemma_lex_total(kp.1, kq.1);
    lemma_key_order(x, kp, kq);
    if kp.0 == kq.0 && kp.1 == kq.1 {
        assert(kp == kq);
    }
}

/// Tests whether key `a` sorts strictly before key `b`.
fn key_less(a: &(bool, Vec<char>), b: &(bool, Vec<char>)) -> (r: bool)
    ensures
        r == key_lt((a.0, a.1@), (b.0, b.1@)),
{
    if a.0 && !b.0 {
        true
    } else if a.0 == b.0 {
        lex_less(&a.1, &b.1)
    } else {
        false
    }
}

/// The values of a list of keys.
pub open spec fn keys_view(s: Seq<(bool, Vec<char>)>) -> Seq<(bool, Seq<char>)> {
    s.map_values(|k: (bool, Vec<char>)| (k.0, k.1@))
}

/// The values of a list of indices.
pub open spec fn ints_view(s: Seq<usize>) -> Seq<int> {
    s.map_values(|x: usize| x as int)
}

/// The stable sorting order of all the keys, by insertion; each insertion
/// point is found by binary search in the part already sorted.
fn sorted_order(keys: &Vec<(bool, Vec<char>)>) -> (order: Vec<usize>)
    ensures
        ints_view(order@) == sort_order(keys_view(keys@), keys.len() as int),
        order.len() == keys.len(),
        forall|j: int| 0 <= j < order.len() ==> #[trigger] order@[j] < keys.len(),
{
    let ghost kv = keys_view(keys@);
    let n = keys.len();
    let mut order: Vec<usize> = Vec::new();
    let mut i: usize = 0;
    while i < n
        invariant
            n == keys.len(),
            kv == keys_view(keys@),
            i <= n,
            ints_view(order@) == sort_order(kv, i as int),
            ordered_by_key(ints_view(order@), kv),
            order.len() == i,
            forall|j: int| 0 <= j < order.len() ==> #[trigger] order@[j] < i,
        decreases n - i,
    {
        let ghost ov = ints_view(order@);
        proof {
            assert(kv[i as int] == (keys@[i as int].0, keys@[i as int].1@));
        }
        let mut lo: usize = 0;
        let mut hi: usize = order.len();
        while lo < hi
            invariant
                n == keys.len(),
                kv == keys_view(keys@),
                i < n,
                order.len() == i,
                ov == ints_view(order@),
                ordered_by_key(ov, kv),
                forall|j: int| 0 <= j < order.len() ==> #[trigger] order@[j] < i,
                lo <= hi <= order.len(),
                forall|j: int| 0 <= j < lo ==> !key_lt(kv[i as int], kv[#[trigger] ov[j]]),
                forall|j: int| hi <= j < order.len() ==> key_lt(kv[i as int], kv[#[trigger] ov[j]]),
            decreases hi - lo,
        {
            let mid = lo + (hi - lo) / 2;
            proof {
                assert(kv[order@[mid as int] as int] == (keys@[order@[mid as int] as int].0, keys@[order@[mid as int] as int].1@));
                assert(ov[mid as int] == order@[mid as int] as int);
            }
            if key_less(&keys[i], &keys[order[mid]]) {
                proof {
                    assert forall|j: int| mid <= j < order.len() implies key_lt(kv[i as int], kv[#[trigger] ov[j]]) by {
                        if mid < j {
                            lemma_sorted_monotone(ov, kv, kv[i as int], mid as int, j);
                        }
                    }
                }
                hi = mid;
            } else {
                proof {
                    assert forall|j: int| 0 <= j < mid + 1 implies !key_lt(kv[i as int], kv[#[trigger] ov[j]]) by {
                        if j < mid && key_lt(kv[i as int], kv[ov[j]]) {
                            lemma_sorted_monotone(ov, kv, kv[i as int], j, mid as int);
                        }
                    }
                }
                lo = mid + 1;
            }
        }
        let p = lo;
        proof {
            lemma_insert_at(ov, kv, i as int, p as int);
            lemma_insert_sorted(ov, kv, i as int);
        }
        let ghost old_order = order@;
        order.insert(p, i);
        proof {
            assert(ints_view(order@) =~= ints_view(old_order).take(p as int).push(i as int) + ints_view(old_order).skip(p as int));
            assert forall|j: int| 0 <= j < order.len() implies #[trigger] order@[j] < i + 1 by {
                if j < p {
                    assert(order@[j] == old_order[j]);
                } else if j > p {
                    assert(order@[j] == old_order[j - 1]);
                }
            }
        }
        i = i + 1;
    }
    order
}

impl TreeNode {
    /// Builds the nodes for a directory listing: the entries in sorted order,
    /// each at its joined path, collapsed, with its own listing below it.
    fn read_children(dir: &str, entries: &Vec<ScanEntry>) -> (r: Vec<TreeNode>)
        ensures
            nodes_view(r@) == children_spec(dir@, scans_view(entries@)),
        decreases entries,
    {
        let ghost es = scans_view(entries@);
        let n = entries.len();
        let mut keys: Vec<(bool, Vec<char>)> = Vec::new();
        let mut i: usize = 0;
        while i < n
            invariant
                n == entries.len(),
                es == scans_view(entries@),
                i <= n,
                keys.len() == i,
                forall|j: int| 0 <= j < i ==> #[trigger] keys_view(keys@)[j] == keys_of(es)[j],
            decreases n - i,
        {
            let lower = to_lower(entries[i].name.as_str());
            let k = chars_of(lower.as_str());
            let ghost old_keys = keys@;
            keys.push((entries[i].is_dir, k));
            proof {
                assert(keys_view(keys@)[i as int] == keys_of(es)[i as int]);
                assert forall|j: int| 0 <= j < i + 1 implies #[trigger] keys_view(keys@)[j] == keys_of(es)[j] by {
                    if j < i {
                        assert(keys@[j] == old_keys[j]);
                        assert(keys_view(old_keys)[j] == keys_of(es)[j]);
                    }
                }
            }
            i = i + 1;
        }
        proof {
            assert(keys_view(keys@) =~= keys_of(es));
        }
        let order = sorted_order(&keys);
        proof {
            lemma_sort_order_bounds(keys_of(es), n as int);
        }
        let ghost spec_kids = children_spec(dir@, es);
        let mut r: Vec<TreeNode> = Vec::new();
        let mut j: usize = 0;
        while j < n
            invariant
                n == entries.len(),
                es == scans_view(entries@),
                order.len() == n,
                ints_view(order@) == sort_order(keys_of(es), n as int),
                forall|m: int| 0 <= m < order.len() ==> #[trigger] order@[m] < n,
                spec_kids == children_spec(dir@, es),
                spec_kids.len() == n,
                j <= n,
                r.len() == j,
                forall|m: int| 0 <= m < j ==> #[trigger] r@[m]@ == spec_kids[m],
            decreases n - j,
        {
            let k = order[j];
            let e = &entries[k];
            proof {
                assert(ints_view(order@)[j as int] == k as int);
                assert(es[k as int] == e@);
                assert(spec_kids[j as int] == build_node(dir@, e@));
                assert(decreases_to!(entries => entries@[k as int]));
                assert(decreases_to!(entries@[k as int] => entries@[k as int].children));
                lemma_scan_children_view(*e);
            }
            let path = join_path(dir, e.name.as_str());
            let children = if e.is_dir {
                TreeNode::read_children(path.as_str(), &e.children)
            } else {
                Vec::new()
            };
            let node = TreeNode {
                name: e.name.clone(),
                path,
                is_dir: e.is_dir,
                is_expanded: false,
                children,
            };
            proof {
                lemma_children_view(node);
                assert(node@.children =~= build_node(dir@, e@).children);
            }
            r.push(node);
            j = j + 1;
        }
        proof {
            assert(nodes_view(r@) =~= spec_kids);
        }
        r
    }

    /// The root node for `path`: named by the path's last component (or the
    /// whole path), expanded, and when it is a directory holding the
    /// listing `entries` of it.
    pub fn new(path: String, is_dir: bool, entries: &Vec<ScanEntry>) -> (n: TreeNode)
        ensures
            n@ == new_node(path@, is_dir, scans_view(entries@)),
    {
        let name = match file_name_of(path.as_str()) {
            Some(n) => n,
            None => path.clone(),
        };
        let children = if is_dir {
            TreeNode::read_children(path.as_str(), entries)
        } else {
            Vec::new()
        };
        let node = TreeNode { name, path, is_dir, is_expanded: true, children };
        proof {
            lemma_children_view(node);
            assert(node@.children =~= new_node(node.path@, is_dir, scans_view(entries@)).children);
        }
        node
    }

    /// Replaces the children of a directory by a fresh listing, keeping
    /// expanded every node whose path was expanded before.
    pub fn refresh(&mut self, entries: &Vec<ScanEntry>)
        ensures
            final(self)@ == refreshed(old(self)@, scans_view(entries@)),
    {
        if self.is_dir {
            let expanded = self.collect_expanded();
            self.children = TreeNode::read_children(self.path.as_str(), entries);
            proof {
                lemma_children_view(*self);
                assert(self@.children =~= children_spec(old(self)@.path, scans_view(entries@)));
                assert(self@ == NodeModel { children: children_spec(old(self)@.path, scans_view(entries@)), ..old(self)@ });
            }
            self.restore_expanded(&expanded);
        }
    }

    /// Flips the expansion of the first directory in preorder whose path
    /// equals `target`; tells whether there was one.
    pub fn toggle(&mut self, target: &str) -> (found: bool)
        ensures
            (final(self)@, found) == toggle_node(old(self)@, target@),
        decreases *old(self),
    {
        if self.is_dir && paths_equal(self.path.as_str(), target) {
            self.is_expanded = !self.is_expanded;
            proof {
                assert(self@.children =~= old(self)@.children);
            }
            return true;
        }
        let len = self.children.len();
        let mut i: usize = 0;
        proof {
            lemma_toggle_children_len(old(self)@, 0, target@);
        }
        while i < len
            invariant
                len == self.children.len(),
                len == old(self).children.len(),
                i <= len,
                self.name == old(self).name,
                self.path == old(self).path,
                self.is_dir == old(self).is_dir,
                self.is_expanded == old(self).is_expanded,
                !(same_path(old(self)@.path, target@) && old(self)@.is_dir),
                !toggle_children(old(self)@, i as int, target@).1,
                toggle_children(old(self)@, i as int, target@).0.len() == i,
                forall|j: int| 0 <= j < i ==> #[trigger] self.children@[j]@ == toggle_children(old(self)@, i as int, target@).0[j],
                forall|j: int| i <= j < len ==> self.children@[j] == old(self).children@[j],
            decreases len - i,
        {
            proof {
                assert(decreases_to!(*old(self) => old(self).children@[i as int]));
                assert(old(self)@.children[i as int] == old(self).children@[i as int]@);
            }
            let ghost pre = toggle_children(old(self)@, i as int, target@).0;
            let hit = self.children[i].toggle(target);
            proof {
                lemma_toggle_children_len(old(self)@, i + 1, target@);
                assert(toggle_children(old(self)@, i + 1, target@).0 == pre.push(self.children@[i as int]@));
            }
            if hit {
                proof {
                    lemma_toggle_children_found(old(self)@, i as int, len as int, target@);
                    lemma_children_view(*self);
                    assert(self@.children =~= toggle_children(old(self)@, len as int, target@).0);
                }
                return true;
            }
            i = i + 1;
        }
        proof {
            lemma_children_view(*self);
            assert(self@.children =~= toggle_children(old(self)@, len as int, target@).0);
        }
        false
    }

    /// Expands every directory from this node down toward `target`.
    pub fn expand_to(&mut self, target: &str)
        ensures
            final(self)@ == expand_node(old(self)@, target@),
        decreases *old(self),
    {
        if self.is_dir && path_has_prefix(target, self.path.as_str()) {
            self.is_expanded = true;
            let len = self.children.len();
            let mut i: usize = 0;
            while i < len
                invariant
                    len == self.children.len(),
                    len == old(self).children.len(),
                    i <= len,
                    self.name == old(self).name,
                    self.path == old(self).path,
                    self.is_dir == old(self).is_dir,
                    self.is_expanded,
                    forall|j: int| 0 <= j < i ==> #[trigger] self.children@[j]@ == expand_node(old(self)@.children[j], target@),
                    forall|j: int| i <= j < len ==> self.children@[j] == old(self).children@[j],
                decreases len - i,
            {
                proof {
                    assert(decreases_to!(*old(self) => old(self).children@[i as int]));
                    assert(old(self)@.children[i as int] == old(self).children@[i as int]@);
                }
                self.children[i].expand_to(target);
                i = i + 1;
            }
            proof {
                lemma_children_view(*self);
                assert(self@.children =~= expand_node(old(self)@, target@).children);
            }
        }
    }

    /// The paths of the expanded nodes of this subtree, in preorder.
    pub fn collect_expanded(&self) -> (r: Vec<String>)
        ensures
            strs_view(r@) == collected(self@),
        decreases self,
    {
        let mut r: Vec<String> = Vec::new();
        if self.is_expanded {
            r.push(self.path.clone());
        }
        let ghost head = strs_view(r@);
        proof {
            assert(head =~= (if self@.is_expanded { seq![self@.path] } else { Seq::empty() }));
            assert(strs_view(r@) =~= head + collected_children(self@, 0));
        }
        let len = self.children.len();
        let mut i: usize = 0;
        while i < len
            invariant
                len == self.children.len(),
                i <= len,
                strs_view(r@) == head + collected_children(self@, i as int),
            decreases len - i,
        {
            proof {
                assert(decreases_to!(self => self.children@[i as int]));
                assert(self@.children[i as int] == self.children@[i as int]@);
            }
            let mut sub = self.children[i].collect_expanded();
            let ghost before = r@;
            let ghost sub0 = sub@;
            r.append(&mut sub);
            proof {
                assert(r@ =~= before + sub0);
                assert(strs_view(r@) =~= strs_view(before) + strs_view(sub0));
                assert(strs_view(r@) =~= head + collected_children(self@, i + 1));
            }
            i = i + 1;
        }
        r
    }

    /// Sets every node's expansion to whether its path is in `expanded`.
    pub fn restore_expanded(&mut self, expanded: &Vec<String>)
        ensures
            final(self)@ == restore_node(old(self)@, strs_view(expanded@)),
        decreases *old(self),
    {
        self.is_expanded = paths_contain(expanded, self.path.as_str());
        let len = self.children.len();
        let mut i: usize = 0;
        while i < len
            invariant
                len == self.children.len(),
                len == old(self).children.len(),
                i <= len,
                self.name == old(self).name,
                self.path == old(self).path,
                self.is_dir == old(self).is_dir,
                self.is_expanded == in_paths(strs_view(expanded@), old(self)@.path),
                forall|j: int| 0 <= j < i ==> #[trigger] self.children@[j]@ == restore_node(old(self)@.children[j], strs_view(expanded@)),
                forall|j: int| i <= j < len ==> self.children@[j] == old(self).children@[j],
            decreases len - i,
        {
            proof {
                assert(decreases_to!(*old(self) => old(self).children@[i as int]));
                assert(old(self)@.children[i as int] == old(self).children@[i as int]@);
            }
            self.children[i].restore_expanded(expanded);
            i = i + 1;
        }
        proof {
            lemma_children_view(*self);
            assert(self@.children =~= restore_node(old(self)@, strs_view(expanded@)).children);
        }
    }

    /// Whether some shown child matches the filter, or has a match below it.
    fn has_match(&self, filter: &str, show_hidden: bool) -> (r: bool)
        ensures
            r == has_match(self@, filter@, show_hidden),
        decreases self,
    {
        let len = self.children.len();
        let mut i: usize = 0;
        while i < len
            invariant
                len == self.children.len(),
                i <= len,
                forall|j: int| 0 <= j < i ==> !child_hit(#[trigger] self@.children[j], filter@, show_hidden),
            decreases len - i,
        {
            let c = &self.children[i];
            proof {
                assert(self@.children[i as int] == c@);
            }
            if !show_hidden && starts_with_dot(c.name.as_str()) {
                i = i + 1;
                continue;
            }
            if matches_filter(c.name.as_str(), filter) {
                proof {
                    assert(child_hit(self@.children[i as int], filter@, show_hidden));
                }
                return true;
            }
            proof {
                assert(decreases_to!(self => self.children@[i as int]));
            }
            if c.is_dir && c.has_match(filter, show_hidden) {
                proof {
                    assert(child_hit(self@.children[i as int], filter@, show_hidden));
                }
                return true;
            }
            i = i + 1;
        }
        proof {
            assert forall|j: int|
                0 <= j < self@.children.len() && passes_hidden(#[trigger] self@.children[j].name, show_hidden)
                implies !(name_matches(self@.children[j].name, filter@) || (self@.children[j].is_dir
                && has_match(self@.children[j], filter@, show_hidden))) by {
                assert(!child_hit(self@.children[j], filter@, show_hidden));
            }
        }
        false
    }

    /// Appends the rows of this node and its open subtree to `r`.
    fn flatten_rec(&self, depth: usize, show_hidden: bool, filter: &str, r: &mut Vec<FlatItem>)
        ensures
            rows_view(final(r)@) == rows_view(old(r)@) + rows_of(self@, depth as int, show_hidden, filter@),
        decreases self,
    {
        proof {
            assert(rows_view(r@) =~= rows_view(old(r)@) + Seq::empty());
        }
        if !show_hidden && starts_with_dot(self.name.as_str()) {
            return;
        }
        let filter_set = !filter.is_empty();
        let mut matched = false;
        if filter_set {
            let nm = matches_filter(self.name.as_str(), filter);
            let dm = self.has_match(filter, show_hidden);
            if !nm && !dm {
                return;
            }
            matched = dm;
        }
        let auto_expand = filter_set && matched;
        let expanded = self.is_expanded || auto_expand;
        assert(expanded == shown_open(self@, filter@, show_hidden));
        let ghost before = rows_view(r@);
        r.push(
            FlatItem {
                name: self.name.clone(),
                path: self.path.clone(),
                is_dir: self.is_dir,
                is_expanded: expanded,
                depth,
            },
        );
        let ghost row = FlatModel {
            name: self@.name,
            path: self@.path,
            is_dir: self.is_dir,
            is_expanded: expanded,
            depth: depth as int,
        };
        proof {
            assert(rows_view(r@) =~= before + seq![row]);
        }
        if self.is_dir && expanded {
            let next = depth.saturating_add(1);
            let len = self.children.len();
            let mut i: usize = 0;
            while i < len
                invariant
                    len == self.children.len(),
                    i <= len,
                    next as int == next_depth(depth as int),
                    rows_view(r@) == before + seq![row] + rows_of_children(
                        self@,
                        i as int,
                        next as int,
                        show_hidden,
                        filter@,
                    ),
                decreases len - i,
            {
                proof {
                    assert(decreases_to!(self => self.children@[i as int]));
                    assert(self@.children[i as int] == self.children@[i as int]@);
                }
                let ghost mid = rows_view(r@);
                self.children[i].flatten_rec(next, show_hidden, filter, r);
                proof {
                    assert(rows_view(r@) =~= before + seq![row] + rows_of_children(
                        self@,
                        i + 1,
                        next as int,
                        show_hidden,
                        filter@,
                    ));
                }
                i = i + 1;
            }
        }
    }

    /// The visible rows of the tree below this node, in order, under the
    /// hidden-name setting and the filter.
    pub fn flatten(&self, show_hidden: bool, filter: &str) -> (rows: Vec<FlatItem>)
        ensures
            rows_view(rows@) == flatten_spec(self@, show_hidden, filter@),
    {
        let mut r: Vec<FlatItem> = Vec::new();
        let len = self.children.len();
        let mut i: usize = 0;
        proof {
            assert(rows_view(r@) =~= Seq::<FlatModel>::empty());
        }
        while i < len
            invariant
                len == self.children.len(),
                i <= len,
                rows_view(r@) == rows_of_children(self@, i as int, 0, show_hidden, filter@),
            decreases len - i,
        {
            proof {
                assert(self@.children[i as int] == self.children@[i as int]@);
            }
            self.children[i].flatten_rec(0, show_hidden, filter, &mut r);
            i = i + 1;
        }
        r
    }
}

} // verus!
