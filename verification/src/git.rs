//! Reading `git status --porcelain` output: the status of each changed file
//! and the set of directories (inside the tree's root) that hold changes.
use vstd::prelude::*;
use crate::text::{chars_of, push_char, has_substring, first_occurrence, find_seq};
use crate::fspath::{same_path, is_under, path_join, path_parent, opt_view, paths_equal, path_has_prefix, join_path, parent_of};

verus! {

/// Paths with their two-letter git status; no path is entered twice.
pub struct StatusMap {
    pub entries: Vec<(String, String)>,
}

/// A set of directory paths; no path is entered twice.
pub struct PathSet {
    pub items: Vec<String>,
}

impl View for StatusMap {
    type V = Seq<(Seq<char>, Seq<char>)>;

    open spec fn view(&self) -> Seq<(Seq<char>, Seq<char>)> {
        self.entries@.map_values(|e: (String, String)| (e.0@, e.1@))
    }
}

impl View for PathSet {
    type V = Seq<Seq<char>>;

    open spec fn view(&self) -> Seq<Seq<char>> {
        self.items@.map_values(|s: String| s@)
    }
}

/// No entry's path names the same place as an earlier entry's.
pub open spec fn keys_apart(m: Seq<(Seq<char>, Seq<char>)>) -> bool {
    forall|i: int, j: int| 0 <= i < j < m.len() ==> !same_path(#[trigger] m[j].0, #[trigger] m[i].0)
}

/// No path of the list names the same place as an earlier one.
pub open spec fn paths_apart(s: Seq<Seq<char>>) -> bool {
    forall|i: int, j: int| 0 <= i < j < s.len() ==> !same_path(#[trigger] s[j], #[trigger] s[i])
}

impl StatusMap {
    /// Well-formed: no path is entered twice.
    pub open spec fn wf(&self) -> bool {
        keys_apart(self@)
    }
}

impl PathSet {
    /// Well-formed: no path is entered twice.
    pub open spec fn wf(&self) -> bool {
        paths_apart(self@)
    }
}

/// `i` is the first entry whose path names the same place as `k`.
pub open spec fn is_first_key(m: Seq<(Seq<char>, Seq<char>)>, k: Seq<char>, i: int) -> bool {
    0 <= i < m.len() && same_path(k, m[i].0) && forall|j: int| 0 <= j < i ==> !same_path(k, #[trigger] m[j].0)
}

/// The entry for `k`, if there is one.
pub open spec fn key_index(m: Seq<(Seq<char>, Seq<char>)>, k: Seq<char>) -> Option<int> {
    if exists|i: int| is_first_key(m, k, i) {
        Some(choose|i: int| is_first_key(m, k, i))
    } else {
        None
    }
}

/// The status of `k` in the map, if any.
pub open spec fn status_of(m: Seq<(Seq<char>, Seq<char>)>, k: Seq<char>) -> Option<Seq<char>> {
    match key_index(m, k) {
        Some(i) => Some(m[i].1),
        None => None,
    }
}

/// Inserting into the map: an entry for the same place gets the new status
/// (and keeps its path), else the pair is added.
pub open spec fn map_insert(m: Seq<(Seq<char>, Seq<char>)>, k: Seq<char>, v: Seq<char>) -> Seq<
    (Seq<char>, Seq<char>),
> {
    match key_index(m, k) {
        Some(i) => m.update(i, (m[i].0, v)),
        None => m.push((k, v)),
    }
}

/// `i` is the first member that names the same place as `k`.
pub open spec fn is_first_member(s: Seq<Seq<char>>, k: Seq<char>, i: int) -> bool {
    0 <= i < s.len() && same_path(k, s[i]) && forall|j: int| 0 <= j < i ==> !same_path(k, #[trigger] s[j])
}

/// Whether the set holds a path naming the same place as `k`.
pub open spec fn set_contains(s: Seq<Seq<char>>, k: Seq<char>) -> bool {
    exists|i: int| 0 <= i < s.len() && same_path(k, #[trigger] s[i])
}

/// Inserting into the set: nothing changes when the place is already there.
pub open spec fn set_insert(s: Seq<Seq<char>>, k: Seq<char>) -> Seq<Seq<char>> {
    if set_contains(s, k) {
        s
    } else {
        s.push(k)
    }
}

impl StatusMap {
    /// An empty map.
    pub fn new() -> (r: StatusMap)
        ensures
            r@ == Seq::<(Seq<char>, Seq<char>)>::empty(),
            r.wf(),
    {
        let r = StatusMap { entries: Vec::new() };
        proof {
            assert(r@ =~= Seq::<(Seq<char>, Seq<char>)>::empty());
        }
        r
    }

    /// The index of the entry for `k`.
    fn find(&self, k: &str) -> (r: Option<usize>)
        ensures
            match r {
                Some(i) => key_index(self@, k@) == Some(i as int) && i < self@.len(),
                None => key_index(self@, k@) is None && forall|j: int| 0 <= j < self@.len() ==> !same_path(k@, #[trigger] self@[j].0),
            },
    {
        let len = self.entries.len();
        let mut i: usize = 0;
        while i < len
            invariant
                len == self.entries.len(),
                i <= len,
                forall|j: int| 0 <= j < i ==> !same_path(k@, #[trigger] self@[j].0),
            decreases len - i,
        {
            if paths_equal(k, self.entries[i].0.as_str()) {
                proof {
                    assert(is_first_key(self@, k@, i as int));
                    let w = choose|w: int| is_first_key(self@, k@, w);
                    if w < i {
                    } else if w > i {
                    }
                }
                return Some(i);
            }
            i = i + 1;
        }
        None
    }

    /// The status recorded for `k`.
    pub fn get(&self, k: &str) -> (r: Option<&String>)
        ensures
            match r {
                Some(v) => status_of(self@, k@) == Some(v@),
                None => status_of(self@, k@) is None,
            },
    {
        match self.find(k) {
            Some(i) => Some(&self.entries[i].1),
            None => None,
        }
    }

    /// Records `v` as the status of `k`.
    pub fn insert(&mut self, k: String, v: String)
        ensures
            final(self)@ == map_insert(old(self)@, k@, v@),
            old(self).wf() ==> final(self).wf(),
    {
        match self.find(k.as_str()) {
            Some(i) => {
                let key = self.entries[i].0.clone();
                let ghost old_entries = self.entries@;
                self.entries.set(i, (key, v));
                proof {
                    assert(self@ =~= map_insert(old(self)@, k@, v@));
                    assert forall|a: int| 0 <= a < self@.len() implies #[trigger] self@[a].0 == old(self)@[a].0 by {}
                }
            },
            None => {
                self.entries.push((k, v));
                proof {
                    assert(self@ =~= map_insert(old(self)@, k@, v@));
                    assert forall|a: int| 0 <= a < old(self)@.len() implies #[trigger] self@[a] == old(self)@[a] by {}
                }
            },
        }
    }
}

impl PathSet {
    /// An empty set.
    pub fn new() -> (r: PathSet)
        ensures
            r@ == Seq::<Seq<char>>::empty(),
            r.wf(),
    {
        let r = PathSet { items: Vec::new() };
        proof {
            assert(r@ =~= Seq::<Seq<char>>::empty());
        }
        r
    }

    /// Whether the set holds `k`.
    pub fn contains(&self, k: &str) -> (r: bool)
        ensures
            r == set_contains(self@, k@),
    {
        let len = self.items.len();
        let mut i: usize = 0;
        while i < len
            invariant
                len == self.items.len(),
                i <= len,
                forall|j: int| 0 <= j < i ==> !same_path(k@, #[trigger] self@[j]),
            decreases len - i,
        {
            if paths_equal(k, self.items[i].as_str()) {
                proof {
                    assert(same_path(k@, self@[i as int]));
                }
                return true;
            }
            i = i + 1;
        }
        false
    }

    /// Adds `k` unless the set already holds it.
    pub fn insert(&mut self, k: String)
        ensures
            final(self)@ == set_insert(old(self)@, k@),
            old(self).wf() ==> final(self).wf(),
    {
        if !self.contains(k.as_str()) {
            self.items.push(k);
            proof {
                assert(self@ =~= old(self)@.push(k@));
                assert forall|a: int| 0 <= a < old(self)@.len() implies !same_path(k@, #[trigger] old(self)@[a]) by {}
            }
        }
    }
}

/// The number of bytes that UTF-8 takes for `c`.
pub open spec fn utf8_width(c: char) -> int {
    if (c as u32) < 0x80 {
        1
    } else if (c as u32) < 0x800 {
        2
    } else if (c as u32) < 0x10000 {
        3
    } else {
        4
    }
}

/// How many characters make up the first two bytes of a line, or zero when
/// the line has fewer than two bytes or byte two falls inside a character.
pub open spec fn status_chars(line: Seq<char>) -> int {
    if line.len() >= 1 && utf8_width(line[0]) == 2 {
        1
    } else if line.len() >= 2 && utf8_width(line[0]) == 1 && utf8_width(line[1]) == 1 {
        2
    } else {
        0
    }
}

/// The arrow that separates the two paths of a rename.
pub open spec fn arrow() -> Seq<char> {
    seq![' ', '-', '>', ' ']
}

/// The status and path that a line gives: the status is the first two
/// bytes; the path is what follows the arrow of a rename, else what follows
/// the third byte.
pub open spec fn line_entry(line: Seq<char>) -> Option<(Seq<char>, Seq<char>)> {
    let k = status_chars(line);
    if k == 0 {
        None
    } else {
        let status = line.take(k);
        if status.contains('R') && first_occurrence(line, arrow()) is Some {
            Some((status, line.skip(first_occurrence(line, arrow())->0 + 4)))
        } else {
            Some((status, line.skip(k + 1)))
        }
    }
}

/// A line whose status is followed by a separator character, or by a rename
/// arrow; on any other line with a status, reading the path would fail.
pub open spec fn line_ok(line: Seq<char>) -> bool {
    let k = status_chars(line);
    k == 0 || (line.take(k).contains('R') && has_substring(line, arrow())) || (k < line.len()
        && utf8_width(line[k]) == 1)
}

/// The index of the first line break in `t`, or its length.
pub open spec fn newline_at(t: Seq<char>) -> nat
    decreases t.len(),
{
    if t.len() == 0 {
        0
    } else if t[0] == '\n' {
        0
    } else {
        1 + newline_at(t.drop_first())
    }
}

/// A line without the carriage return that ends it, if any.
pub open spec fn strip_cr(l: Seq<char>) -> Seq<char> {
    if l.len() > 0 && l.last() == '\r' {
        l.drop_last()
    } else {
        l
    }
}

/// The lines of a text as `str::lines` gives them: split at each line feed,
/// a carriage return before the feed dropped, no empty line after a final feed.
pub open spec fn text_lines(t: Seq<char>) -> Seq<Seq<char>>
    decreases t.len(),
{
    if t.len() == 0 {
        Seq::empty()
    } else {
        let i = newline_at(t);
        if i >= t.len() {
            seq![t]
        } else {
            seq![strip_cr(t.take(i as int))] + text_lines(t.skip(i as int + 1))
        }
    }
}

/// Every line of the output can be read.
pub open spec fn output_ok(t: Seq<char>) -> bool {
    forall|i: int| 0 <= i < text_lines(t).len() ==> line_ok(#[trigger] text_lines(t)[i])
}

/// Marks `p` and each of its parents as dirty while they lie under `root`.
/// `fuel` bounds the walk; since each parent is shorter than its path, a
/// walk from the parent of a path shorter than `fuel` never runs out.
pub open spec fn mark_dirty(dirs: Seq<Seq<char>>, p: Option<Seq<char>>, root: Seq<char>, fuel: nat) -> Seq<
    Seq<char>,
>
    decreases fuel,
{
    if fuel == 0 {
        dirs
    } else {
        match p {
            None => dirs,
            Some(q) => if is_under(q, root) {
                mark_dirty(set_insert(dirs, q), path_parent(q), root, (fuel - 1) as nat)
            } else {
                dirs
            },
        }
    }
}

/// What one line does to the statuses and dirty directories.
pub open spec fn apply_line(
    state: (Seq<(Seq<char>, Seq<char>)>, Seq<Seq<char>>),
    root: Seq<char>,
    line: Seq<char>,
) -> (Seq<(Seq<char>, Seq<char>)>, Seq<Seq<char>>) {
    match line_entry(line) {
        None => state,
        Some((status, rel)) => {
            let full = path_join(root, rel);
            (map_insert(state.0, full, status), mark_dirty(state.1, path_parent(full), root, full.len() + 1))
        },
    }
}

/// The statuses and dirty directories after reading the lines, in order.
pub open spec fn apply_lines(root: Seq<char>, lines: Seq<Seq<char>>) -> (
    Seq<(Seq<char>, Seq<char>)>,
    Seq<Seq<char>>,
)
    decreases lines.len(),
{
    if lines.len() == 0 {
        (Seq::empty(), Seq::empty())
    } else {
        apply_line(apply_lines(root, lines.drop_last()), root, lines.last())
    }
}

/// The statuses and dirty directories read from git's output (none when
/// git gave no output).
pub open spec fn git_state(root: Seq<char>, output: Option<Seq<char>>) -> (
    Seq<(Seq<char>, Seq<char>)>,
    Seq<Seq<char>>,
) {
    match output {
        None => (Seq::empty(), Seq::empty()),
        Some(t) => apply_lines(root, text_lines(t)),
    }
}

/// The UTF-8 width of `c`.
fn char_width(c: char) -> (w: usize)
    ensures
        w as int == utf8_width(c),
{
    let u = c as u32;
    if u < 0x80 {
        1
    } else if u < 0x800 {
        2
    } else if u < 0x10000 {
        3
    } else {
        4
    }
}

/// A string made of the characters `cs[from..to]`.
fn string_from(cs: &Vec<char>, from: usize, to: usize) -> (s: String)
    requires
        from <= to <= cs.len(),
    ensures
        s@ == cs@.subrange(from as int, to as int),
{
    let mut s = String::new();
    let mut i = from;
    while i < to
        invariant
            from <= i <= to,
            to <= cs.len(),
            s@ == cs@.subrange(from as int, i as int),
        decreases to - i,
    {
        push_char(&mut s, cs[i]);
        proof {
            assert(cs@.subrange(from as int, i + 1) =~= cs@.subrange(from as int, i as int).push(cs@[i as int]));
        }
        i = i + 1;
    }
    s
}

/// Reads one line into the statuses and dirty directories.
fn apply_git_line(root: &str, line: &Vec<char>, statuses: &mut StatusMap, dirs: &mut PathSet)
    requires
        line_ok(line@),
    ensures
        (final(statuses)@, final(dirs)@) == apply_line((old(statuses)@, old(dirs)@), root@, line@),
        old(statuses).wf() ==> final(statuses).wf(),
        old(dirs).wf() ==> final(dirs).wf(),
{
    let ghost l = line@;
    let n = line.len();
    let mut k: usize = 0;
    if n >= 1 && char_width(line[0]) == 2 {
        k = 1;
    } else if n >= 2 && char_width(line[0]) == 1 && char_width(line[1]) == 1 {
        k = 2;
    }
    if k == 0 {
        return;
    }
    let status = string_from(line, 0, k);
    proof {
        assert(status@ =~= l.take(k as int));
    }
    let has_r = line[0] == 'R' || (k == 2 && line[1] == 'R');
    proof {
        if has_r {
            if line@[0] == 'R' {
                assert(l.take(k as int)[0] == 'R');
            } else {
                assert(l.take(k as int)[1] == 'R');
            }
        } else {
            assert forall|j: int| 0 <= j < k implies l.take(k as int)[j] != 'R' by {}
        }
        assert(has_r == l.take(k as int).contains('R'));
    }
    let arrow_chars: Vec<char> = vec![' ', '-', '>', ' '];
    proof {
        assert(arrow_chars@ =~= arrow());
    }
    let mut start = k + 1;
    if has_r {
        match find_seq(line, &arrow_chars) {
            Some(a) => {
                start = a + 4;
            },
            None => {},
        }
    }
    let rel = string_from(line, start, n);
    proof {
        assert(rel@ =~= l.skip(start as int));
        assert(line_entry(l) == Some((status@, rel@)));
    }
    let full = join_path(root, rel.as_str());
    statuses.insert(full.clone(), status);
    let ghost st = statuses@;
    let ghost fuel: nat = full@.len() + 1;
    let mut cur = parent_of(full.as_str());
    let ghost mut left: nat = fuel;
    proof {
        assert(mark_dirty(old(dirs)@, path_parent(full@), root@, fuel) == mark_dirty(dirs@, opt_view(cur), root@, left));
    }
    while cur.is_some()
        invariant
            mark_dirty(old(dirs)@, path_parent(full@), root@, fuel) == mark_dirty(dirs@, opt_view(cur), root@, left),
            cur matches Some(q) ==> q@.len() < left,
            statuses@ == st,
            old(dirs).wf() ==> dirs.wf(),
        ensures
            dirs@ == mark_dirty(old(dirs)@, path_parent(full@), root@, fuel),
            statuses@ == st,
            old(dirs).wf() ==> dirs.wf(),
        decreases left,
    {
        let p = cur.unwrap();
        if path_has_prefix(p.as_str(), root) {
            let next = parent_of(p.as_str());
            dirs.insert(p);
            cur = next;
            proof {
                left = (left - 1) as nat;
            }
        } else {
            proof {
                assert(mark_dirty(dirs@, opt_view(Some(p)), root@, left) == dirs@);
            }
            break;
        }
    }
}

/// Advancing past the line break that ends a line.
proof fn lemma_newline_at(t: Seq<char>, j: int)
    requires
        0 <= j <= t.len(),
        forall|m: int| 0 <= m < j ==> t[m] != '\n',
        j == t.len() || t[j] == '\n',
    ensures
        newline_at(t) == j,
    decreases j,
{
    if j > 0 {
        lemma_newline_at(t.drop_first(), j - 1);
    }
}

/// The lines of a text, as `str::lines` gives them.
fn lines_of(text: &str) -> (r: Vec<Vec<char>>)
    ensures
        r@.map_values(|l: Vec<char>| l@) == text_lines(text@),
{
    let t = chars_of(text);
    let n = t.len();
    let ghost all = text_lines(t@);
    let mut r: Vec<Vec<char>> = Vec::new();
    let mut start: usize = 0;
    proof {
        assert(t@.skip(0) =~= t@);
        assert(r@.map_values(|l: Vec<char>| l@) + text_lines(t@.skip(0)) =~= all);
    }
    while start < n
        invariant
            n == t.len(),
            t@ == text@,
            all == text_lines(t@),
            start <= n,
            r@.map_values(|l: Vec<char>| l@) + text_lines(t@.skip(start as int)) == all,
        decreases n - start,
    {
        let mut j = start;
        while j < n && t[j] != '\n'
            invariant
                n == t.len(),
                start <= j <= n,
                forall|m: int| start <= m < j ==> t@[m] != '\n',
            decreases n - j,
        {
            j = j + 1;
        }
        let ghost rest = t@.skip(start as int);
        let ghost done = r@.map_values(|l: Vec<char>| l@);
        proof {
            lemma_newline_at(rest, j - start);
        }
        let mut end = j;
        if j < n && end > start && t[end - 1] == '\r' {
            end = end - 1;
        }
        let line = slice_chars(&t, start, end);
        proof {
            let i = newline_at(rest);
            if j < n {
                assert(rest.take(i as int) =~= t@.subrange(start as int, j as int));
                assert(strip_cr(rest.take(i as int)) =~= line@);
                assert(rest.skip(i as int + 1) =~= t@.skip(j + 1));
            } else {
                assert(rest =~= line@);
            }
        }
        r.push(line);
        proof {
            assert(r@.map_values(|l: Vec<char>| l@) =~= done.push(line@));
            if j < n {
                assert(r@.map_values(|l: Vec<char>| l@) + text_lines(t@.skip(j + 1)) =~= all);
            } else {
                assert(t@.skip(n as int) =~= Seq::<char>::empty());
                assert(r@.map_values(|l: Vec<char>| l@) + text_lines(t@.skip(n as int)) =~= all);
            }
        }
        start = if j < n { j + 1 } else { n };
    }
    proof {
        assert(t@.skip(n as int) =~= Seq::<char>::empty());
        assert(r@.map_values(|l: Vec<char>| l@) =~= all);
    }
    r
}

/// Whether every line of git's output can be read; `read_git_status` asks
/// for this.
pub fn output_readable(text: &str) -> (r: bool)
    ensures
        r == output_ok(text@),
{
    let lines = lines_of(text);
    let ghost ls = lines@.map_values(|l: Vec<char>| l@);
    let n = lines.len();
    let mut i: usize = 0;
    while i < n
        invariant
            n == lines.len(),
            ls == lines@.map_values(|l: Vec<char>| l@),
            ls == text_lines(text@),
            i <= n,
            forall|j: int| 0 <= j < i ==> line_ok(#[trigger] ls[j]),
        decreases n - i,
    {
        let line = &lines[i];
        let len = line.len();
        let mut k: usize = 0;
        if len >= 1 && char_width(line[0]) == 2 {
            k = 1;
        } else if len >= 2 && char_width(line[0]) == 1 && char_width(line[1]) == 1 {
            k = 2;
        }
        proof {
            assert(ls[i as int] == line@);
        }
        if k > 0 {
            let has_r = line[0] == 'R' || (k == 2 && line[1] == 'R');
            proof {
                let l = line@;
                if has_r {
                    if l[0] == 'R' {
                        assert(l.take(k as int)[0] == 'R');
                    } else {
                        assert(l.take(k as int)[1] == 'R');
                    }
                } else {
                    assert forall|j: int| 0 <= j < k implies l.take(k as int)[j] != 'R' by {}
                }
            }
            let arrow_chars: Vec<char> = vec![' ', '-', '>', ' '];
            proof {
                assert(arrow_chars@ =~= arrow());
            }
            let arrowed = has_r && find_seq(line, &arrow_chars).is_some();
            let spaced = k < len && char_width(line[k]) == 1;
            if !arrowed && !spaced {
                return false;
            }
        }
        i = i + 1;
    }
    true
}

/// Reads the statuses and dirty directories of git's output for the tree
/// rooted at `root`.
pub fn read_git_status(root: &str, output: &Option<String>) -> (r: (StatusMap, PathSet))
    requires
        output matches Some(t) ==> output_ok(t@),
    ensures
        (r.0@, r.1@) == git_state(root@, opt_view(*output)),
        r.0.wf(),
        r.1.wf(),
{
    let mut statuses = StatusMap::new();
    let mut dirs = PathSet::new();
    match output {
        None => {},
        Some(text) => {
            let lines = lines_of(text.as_str());
            let ghost ls = lines@.map_values(|l: Vec<char>| l@);
            let n = lines.len();
            let mut i: usize = 0;
            proof {
                assert(ls.take(0) =~= Seq::<Seq<char>>::empty());
            }
            while i < n
                invariant
                    n == lines.len(),
                    ls == lines@.map_values(|l: Vec<char>| l@),
                    ls == text_lines(text@),
                    output_ok(text@),
                    i <= n,
                    (statuses@, dirs@) == apply_lines(root@, ls.take(i as int)),
                    statuses.wf(),
                    dirs.wf(),
                decreases n - i,
            {
                proof {
                    assert(ls[i as int] == lines@[i as int]@);
                    assert(line_ok(ls[i as int]));
                }
                apply_git_line(root, &lines[i], &mut statuses, &mut dirs);
                proof {
                    assert(ls.take(i + 1).drop_last() =~= ls.take(i as int));
                }
                i = i + 1;
            }
            proof {
                assert(ls.take(n as int) =~= ls);
            }
        },
    }
    (statuses, dirs)
}

/// The characters `cs[from..to]`.
fn slice_chars(cs: &Vec<char>, from: usize, to: usize) -> (r: Vec<char>)
    requires
        from <= to <= cs.len(),
    ensures
        r@ == cs@.subrange(from as int, to as int),
{
    let mut r: Vec<char> = Vec::new();
    let mut i = from;
    while i < to
        invariant
            from <= i <= to,
            to <= cs.len(),
            r@ == cs@.subrange(from as int, i as int),
        decreases to - i,
    {
        r.push(cs[i]);
        proof {
            assert(cs@.subrange(from as int, i + 1) =~= cs@.subrange(from as int, i as int).push(cs@[i as int]));
        }
        i = i + 1;
    }
    r
}

} // verus!
