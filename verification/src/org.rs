//! Recognising the org-mode lines a bookmarks file is made of: a link heading
//! `** [[url][title]]` (or `** [[url]]`), a heading whose link is not closed on
//! its own line, and a `:TAG:`/`:TAGS:` drawer line.
use vstd::prelude::*;
use crate::text::{
    ascii_lower, chars_of, find_pair, find_pair_in, has_pair, join_spaced, join_words, skip_stars,
    skip_white, split_words, string_of_range, to_ascii_lowercase, trim, trim_range, trim_stars,
    trim_start, views, words,
};

verus! {

/// `s` begins with `"[["`.
pub open spec fn starts_link(s: Seq<char>) -> bool {
    s.len() >= 2 && s[0] == '[' && s[1] == '['
}

/// After its leading white space, `line` begins with `'*'` (an org heading).
pub open spec fn is_star_heading(line: Seq<char>) -> bool {
    let rest = trim_start(line);
    rest.len() > 0 && rest[0] == '*'
}

/// What follows the heading stars of `line`, leading white space removed.
pub open spec fn after_stars(line: Seq<char>) -> Seq<char> {
    trim_start(trim_stars(trim_start(line)))
}

/// `line` is a heading that opens an org link (`* … [[`) but holds no `"]]"`:
/// its title wraps onto the lines that follow.
pub open spec fn opens_unclosed(line: Seq<char>) -> bool {
    &&& is_star_heading(line)
    &&& starts_link(after_stars(line))
    &&& !has_pair(line, ']', ']')
}

/// `s` with its white-space runs collapsed to single spaces and its ends
/// trimmed: its words joined by single spaces.
pub open spec fn collapse(s: Seq<char>) -> Seq<char> {
    join_spaced(words(s))
}

/// The `(url, title)` of a link heading `*… [[url][title]]…` or `*… [[url]]…`;
/// `None` for a line that is no such heading. The url is trimmed; the title has
/// its white space collapsed; a link without a title is titled by its url.
/// Whatever follows the first `"]]"` is ignored.
pub open spec fn link_of(line: Seq<char>) -> Option<(Seq<char>, Seq<char>)> {
    if !is_star_heading(line) || !starts_link(after_stars(line)) {
        None
    } else {
        let body = after_stars(line).skip(2);
        match find_pair(body, ']', ']') {
            None => None,
            Some(k) => {
                let inner = body.take(k);
                match find_pair(inner, ']', '[') {
                    Some(m) => Some((trim(inner.take(m)), collapse(inner.skip(m + 2)))),
                    None => Some((trim(inner), trim(inner))),
                }
            },
        }
    }
}

/// `":tag:"`
pub open spec fn tag_key() -> Seq<char> {
    seq![':', 't', 'a', 'g', ':']
}

/// `":tags:"`
pub open spec fn tags_key() -> Seq<char> {
    seq![':', 't', 'a', 'g', 's', ':']
}

/// `t` begins with `key` when ASCII case is ignored.
pub open spec fn has_key_ci(t: Seq<char>, key: Seq<char>) -> bool {
    t.len() >= key.len() && forall|i: int| 0 <= i < key.len() ==> ascii_lower(#[trigger] t[i]) == key[i]
}

/// The tags of a `:TAG:` or `:TAGS:` drawer line (the key in any ASCII case):
/// the words after the key; `None` for any other line.
pub open spec fn drawer_tags(line: Seq<char>) -> Option<Seq<Seq<char>>> {
    let t = trim(line);
    if has_key_ci(t, tag_key()) {
        Some(words(t.skip(5)))
    } else if has_key_ci(t, tags_key()) {
        Some(words(t.skip(6)))
    } else {
        None
    }
}

/// Where the text after the heading stars of `s` begins, if `s` is a heading.
fn heading_text_start(s: &[char]) -> (r: Option<usize>)
    ensures
        match r {
            Some(k) => is_star_heading(s@) && k <= s@.len() && after_stars(s@) == s@.subrange(
                k as int,
                s@.len() as int,
            ),
            None => !is_star_heading(s@),
        },
{
    let n = s.len();
    assert(s@.subrange(0, n as int) =~= s@);
    let i = skip_white(s, 0, n);
    if i == n || s[i] != '*' {
        return None;
    }
    let j = skip_stars(s, i, n);
    let k = skip_white(s, j, n);
    Some(k)
}

/// `line` is a heading that opens a link but does not close it.
pub fn opens_unclosed_link_chars(s: &[char]) -> (b: bool)
    ensures
        b == opens_unclosed(s@),
{
    let n = s.len();
    match heading_text_start(s) {
        None => false,
        Some(k) => {
            if n - k < 2 || s[k] != '[' || s[k + 1] != '[' {
                return false;
            }
            assert(s@.subrange(0, n as int) =~= s@);
            find_pair_in(s, 0, n, ']', ']').is_none()
        },
    }
}

/// A heading line that opens an org link (`* … [[`) but does not close it
/// (`]]`) on the same line: the sign that the lines after it continue its title.
pub fn opens_unclosed_link(line: &str) -> (b: bool)
    ensures
        b == opens_unclosed(line@),
{
    let s = chars_of(line);
    opens_unclosed_link_chars(s.as_slice())
}

/// `s[lo..hi]` with white-space runs collapsed to single spaces and trimmed.
pub fn collapse_range(s: &[char], lo: usize, hi: usize) -> (r: String)
    requires
        lo <= hi <= s@.len(),
    ensures
        r@ == collapse(s@.subrange(lo as int, hi as int)),
{
    let ws = split_words(s, lo, hi);
    join_words(&ws)
}

/// Collapse internal white-space runs (including the joins of a wrapped title)
/// into single spaces, and trim.
pub fn collapse_ws(s: &str) -> (r: String)
    ensures
        r@ == collapse(s@),
{
    let cs = chars_of(s);
    assert(cs@.subrange(0, cs@.len() as int) =~= cs@);
    collapse_range(cs.as_slice(), 0, cs.len())
}

/// The `(url, title)` of a link heading held in `s`.
pub fn heading_link_chars(s: &[char]) -> (r: Option<(String, String)>)
    ensures
        match r {
            Some((u, t)) => link_of(s@) == Some((u@, t@)),
            None => link_of(s@) is None,
        },
{
    let n = s.len();
    let k = match heading_text_start(s) {
        None => return None,
        Some(k) => k,
    };
    if n - k < 2 || s[k] != '[' || s[k + 1] != '[' {
        return None;
    }
    let b = k + 2;
    let ghost body = after_stars(s@).skip(2);
    assert(body =~= s@.subrange(b as int, n as int));
    match find_pair_in(s, b, n, ']', ']') {
        None => None,
        Some(e) => {
            let ghost inner = body.take(e - b);
            assert(inner =~= s@.subrange(b as int, e as int));
            match find_pair_in(s, b, e, ']', '[') {
                Some(m) => {
                    assert(inner.take(m - b) =~= s@.subrange(b as int, m as int));
                    assert(inner.skip(m - b + 2) =~= s@.subrange(m + 2, e as int));
                    let (u0, u1) = trim_range(s, b, m);
                    let url = string_of_range(s, u0, u1);
                    let title = collapse_range(s, m + 2, e);
                    Some((url, title))
                },
                None => {
                    let (u0, u1) = trim_range(s, b, e);
                    let url = string_of_range(s, u0, u1);
                    let title = string_of_range(s, u0, u1);
                    Some((url, title))
                },
            }
        },
    }
}

/// A `*…* [[url][title]]` (or `[[url]]`) org heading to `(url, title)`; `None`
/// for any heading that is not a link, so prose and section headings are
/// ignored. Text after the link (`… ]] :foo:`) is tolerated.
pub fn heading_link(line: &str) -> (r: Option<(String, String)>)
    ensures
        match r {
            Some((u, t)) => link_of(line@) == Some((u@, t@)),
            None => link_of(line@) is None,
        },
{
    let s = chars_of(line);
    heading_link_chars(s.as_slice())
}

/// `s[i..j]` begins with `key`, ASCII case ignored.
fn has_key_at(s: &[char], i: usize, j: usize, key: &Vec<char>) -> (b: bool)
    requires
        i <= j <= s@.len(),
    ensures
        b == has_key_ci(s@.subrange(i as int, j as int), key@),
{
    let ghost t = s@.subrange(i as int, j as int);
    if j - i < key.len() {
        return false;
    }
    let mut p: usize = 0;
    while p < key.len()
        invariant
            i <= j <= s@.len(),
            t == s@.subrange(i as int, j as int),
            key@.len() <= j - i,
            p <= key@.len(),
            forall|q: int| 0 <= q < p ==> ascii_lower(#[trigger] t[q]) == key@[q],
        decreases key@.len() - p,
    {
        if to_ascii_lowercase(s[i + p]) != key[p] {
            assert(t[p as int] == s@[i + p]);
            return false;
        }
        p = p + 1;
    }
    true
}

/// The tags of a drawer line held in `s`.
pub fn tag_line_chars(s: &[char]) -> (r: Option<Vec<String>>)
    ensures
        match r {
            Some(v) => drawer_tags(s@) == Some(views(v@)),
            None => drawer_tags(s@) is None,
        },
{
    let n = s.len();
    assert(s@.subrange(0, n as int) =~= s@);
    let (i, j) = trim_range(s, 0, n);
    let ghost t = s@.subrange(i as int, j as int);
    let tag = vec![':', 't', 'a', 'g', ':'];
    let tags = vec![':', 't', 'a', 'g', 's', ':'];
    assert(tag@ =~= tag_key());
    assert(tags@ =~= tags_key());
    if has_key_at(s, i, j, &tag) {
        assert(t.skip(5) =~= s@.subrange(i + 5, j as int));
        Some(split_words(s, i + 5, j))
    } else if has_key_at(s, i, j, &tags) {
        assert(t.skip(6) =~= s@.subrange(i + 6, j as int));
        Some(split_words(s, i + 6, j))
    } else {
        None
    }
}

/// A `:TAG:`/`:TAGS:` drawer line (case-insensitive) to its
/// white-space-separated tags; `None` for any other line.
pub fn tag_line(line: &str) -> (r: Option<Vec<String>>)
    ensures
        match r {
            Some(v) => drawer_tags(line@) == Some(views(v@)),
            None => drawer_tags(line@) is None,
        },
{
    let s = chars_of(line);
    tag_line_chars(s.as_slice())
}

} // verus!
