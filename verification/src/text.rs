//! Character-level helpers on names and filters: case folding, substring
//! search, the hidden-name test and the ordering of names.
use vstd::prelude::*;

verus! {

/// What `str::to_lowercase` gives for a string, as a sequence of characters.
pub uninterp spec fn lowercase(s: Seq<char>) -> Seq<char>;

/// Every character of `s` is ASCII.
pub open spec fn is_ascii_text(s: Seq<char>) -> bool {
    forall|i: int| 0 <= i < s.len() ==> (#[trigger] s[i] as u32) < 128
}

/// The code of the ASCII lowercase of a character with code `x`: `A`..`Z`
/// become `a`..`z`, every other character stays.
pub open spec fn ascii_lower(x: u32) -> u32 {
    if 65 <= x && x <= 90 {
        (x + 32) as u32
    } else {
        x
    }
}

/// Calls `str::to_lowercase`; the result is what std's Unicode lowercase
/// mapping gives for `s`, which takes Unicode tables to state and is named here.
/// Two facts of that mapping are claimed: every character lowercases to one
/// or more characters, so only the empty text gives the empty text; and on
/// ASCII text it maps `A`..`Z` to `a`..`z` one for one and keeps the rest.
#[verifier::external_body]
pub(crate) fn to_lower(s: &str) -> (r: String)
    ensures
        r@ == lowercase(s@),
        r@.len() == 0 <==> s@.len() == 0,
        is_ascii_text(s@) ==> r@.len() == s@.len() && forall|i: int|
            0 <= i < s@.len() ==> (#[trigger] r@[i] as u32) == ascii_lower(s@[i] as u32),
{
    s.to_lowercase()
}

/// The characters of `s`, in order.
pub fn chars_of(s: &str) -> (v: Vec<char>)
    ensures
        v@ == s@,
{
    let mut v: Vec<char> = Vec::new();
    for c in it: s.chars()
        invariant
            v@ == it.seq().take(it.index() as int),
            it.seq() == s@,
    {
        v.push(c);
    }
    proof {
        assert(v@ =~= s@);
    }
    v
}

/// `pat` occurs in `hay` starting at index `i`.
pub open spec fn occurs_at(hay: Seq<char>, pat: Seq<char>, i: int) -> bool {
    0 <= i && i + pat.len() <= hay.len() && hay.subrange(i, i + pat.len()) == pat
}

/// `pat` occurs somewhere in `hay` (the empty pattern occurs everywhere).
pub open spec fn has_substring(hay: Seq<char>, pat: Seq<char>) -> bool {
    exists|i: int| occurs_at(hay, pat, i)
}

/// The first index at which `pat` occurs in `hay`, if any.
pub open spec fn first_occurrence(hay: Seq<char>, pat: Seq<char>) -> Option<int> {
    if has_substring(hay, pat) {
        Some(choose|i: int| occurs_at(hay, pat, i) && forall|j: int| 0 <= j < i ==> !occurs_at(hay, pat, j))
    } else {
        None
    }
}

/// Tests whether `pat` occurs in `hay` at index `i`.
fn occurs_at_exec(hay: &Vec<char>, pat: &Vec<char>, i: usize) -> (r: bool)
    requires
        i + pat.len() <= hay.len(),
    ensures
        r == occurs_at(hay@, pat@, i as int),
{
    let n = pat.len();
    let mut j: usize = 0;
    while j < n
        invariant
            j <= n,
            n == pat.len(),
            i + n <= hay.len(),
            forall|k: int| 0 <= k < j ==> hay@[i + k] == pat@[k],
        decreases n - j,
    {
        if hay[i + j] != pat[j] {
            proof {
                assert(hay@.subrange(i as int, i + n)[j as int] != pat@[j as int]);
            }
            return false;
        }
        j = j + 1;
    }
    proof {
        assert(hay@.subrange(i as int, i + n) =~= pat@);
    }
    true
}

/// Finds the first occurrence of `pat` in `hay`.
pub fn find_seq(hay: &Vec<char>, pat: &Vec<char>) -> (r: Option<usize>)
    ensures
        match r {
            Some(i) => occurs_at(hay@, pat@, i as int) && forall|j: int| 0 <= j < i ==> !occurs_at(hay@, pat@, j),
            None => !has_substring(hay@, pat@),
        },
        r matches Some(i) ==> first_occurrence(hay@, pat@) == Some(i as int),
        r is None ==> first_occurrence(hay@, pat@) is None,
{
    if pat.len() > hay.len() {
        proof {
            assert forall|i: int| !occurs_at(hay@, pat@, i) by {}
        }
        return None;
    }
    let last = hay.len() - pat.len();
    let mut i: usize = 0;
    loop
        invariant
            last == hay.len() - pat.len(),
            i <= last,
            forall|j: int| 0 <= j < i ==> !occurs_at(hay@, pat@, j),
        decreases last - i,
    {
        if occurs_at_exec(hay, pat, i) {
            proof {
                let w = choose|k: int| occurs_at(hay@, pat@, k) && forall|j: int| 0 <= j < k ==> !occurs_at(hay@, pat@, j);
                assert(occurs_at(hay@, pat@, w));
                if w < i {
                } else if w > i {
                    assert(!occurs_at(hay@, pat@, i as int));
                }
            }
            return Some(i);
        }
        if i == last {
            proof {
                assert forall|k: int| !occurs_at(hay@, pat@, k) by {
                    if 0 <= k <= last {
                    }
                }
            }
            return None;
        }
        i = i + 1;
    }
}

/// The filter test of the tree: a name matches when its lowercase form
/// contains the lowercase form of the filter.
pub open spec fn name_matches(name: Seq<char>, filter: Seq<char>) -> bool {
    has_substring(lowercase(name), lowercase(filter))
}

/// Tests `name.to_lowercase().contains(&filter.to_lowercase())`.
pub fn matches_filter(name: &str, filter: &str) -> (r: bool)
    ensures
        r == name_matches(name@, filter@),
{
    let ln = to_lower(name);
    let lf = to_lower(filter);
    let hay = chars_of(ln.as_str());
    let pat = chars_of(lf.as_str());
    find_seq(&hay, &pat).is_some()
}

/// A name is hidden when it starts with a dot.
pub open spec fn is_hidden(name: Seq<char>) -> bool {
    name.len() > 0 && name[0] == '.'
}

/// Tests `name.starts_with('.')`.
pub fn starts_with_dot(name: &str) -> (r: bool)
    ensures
        r == is_hidden(name@),
{
    if name.is_empty() {
        false
    } else {
        name.get_char(0) == '.'
    }
}

/// Strict lexicographic order of character sequences, by code point; this is
/// the order of `String::cmp`, which compares UTF-8 bytes.
pub open spec fn lex_lt(a: Seq<char>, b: Seq<char>) -> bool
    decreases a.len(),
{
    if b.len() == 0 {
        false
    } else if a.len() == 0 {
        true
    } else if a[0] != b[0] {
        (a[0] as u32) < (b[0] as u32)
    } else {
        lex_lt(a.drop_first(), b.drop_first())
    }
}

/// Compares two character sequences by `lex_lt`.
pub fn lex_less(a: &Vec<char>, b: &Vec<char>) -> (r: bool)
    ensures
        r == lex_lt(a@, b@),
{
    let mut i: usize = 0;
    proof {
        assert(a@.skip(0) =~= a@);
        assert(b@.skip(0) =~= b@);
    }
    while i < a.len() && i < b.len()
        invariant
            i <= a.len(),
            i <= b.len(),
            forall|k: int| 0 <= k < i ==> a@[k] == b@[k],
            lex_lt(a@, b@) == lex_lt(a@.skip(i as int), b@.skip(i as int)),
        decreases a.len() - i,
    {
        if a[i] != b[i] {
            proof {
                assert(a@.skip(i as int)[0] == a@[i as int]);
                assert(b@.skip(i as int)[0] == b@[i as int]);
            }
            return (a[i] as u32) < (b[i] as u32);
        }
        proof {
            assert(a@.skip(i as int).drop_first() =~= a@.skip(i + 1));
            assert(b@.skip(i as int).drop_first() =~= b@.skip(i + 1));
        }
        i = i + 1;
    }
    proof {
        if i == b.len() {
            assert(b@.skip(i as int).len() == 0);
        } else {
            assert(a@.skip(i as int).len() == 0);
        }
    }
    i < b.len()
}

/// Calls `String::push`; claims that the character is appended.
#[verifier::external_body]
pub(crate) fn push_char(s: &mut String, c: char)
    ensures
        final(s)@ == old(s)@.push(c),
{
    s.push(c)
}

} // verus!
