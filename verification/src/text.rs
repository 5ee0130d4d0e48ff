//! Character-level text primitives: Unicode white space, trimming, finding a
//! two-character marker, splitting into whitespace-separated words, joining
//! them back with single spaces, and splitting a text into lines.
use vstd::prelude::*;

verus! {

// ---------------------------------------------------------------------------
// Single chars, and appending one to a `String`
// ---------------------------------------------------------------------------

/// The Unicode `White_Space` property (PropList.txt): U+0009..U+000D, U+0020,
/// U+0085, U+00A0, U+1680, U+2000..U+200A, U+2028, U+2029, U+202F, U+205F and
/// U+3000.
pub open spec fn is_white_space(c: char) -> bool {
    let n = c as u32;
    ||| 0x09 <= n <= 0x0d
    ||| n == 0x20
    ||| n == 0x85
    ||| n == 0xa0
    ||| n == 0x1680
    ||| 0x2000 <= n <= 0x200a
    ||| n == 0x2028
    ||| n == 0x2029
    ||| n == 0x202f
    ||| n == 0x205f
    ||| n == 0x3000
}

/// Whether `c` has the Unicode `White_Space` property, as `char::is_whitespace`
/// answers it.
pub(crate) fn is_whitespace(c: char) -> (b: bool)
    ensures
        b == is_white_space(c),
{
    let n = c as u32;
    (0x09 <= n && n <= 0x0d) || n == 0x20 || n == 0x85 || n == 0xa0 || n == 0x1680 || (0x2000
        <= n && n <= 0x200a) || n == 0x2028 || n == 0x2029 || n == 0x202f || n == 0x205f || n
        == 0x3000
}

/// ASCII lower case: 'A'..='Z' map to 'a'..='z', every other char is unchanged.
pub open spec fn ascii_lower(c: char) -> char {
    if 'A' <= c <= 'Z' {
        ((c as u32) + 32) as char
    } else {
        c
    }
}

/// `c` in ASCII lower case, as `char::to_ascii_lowercase` gives it.
pub(crate) fn to_ascii_lowercase(c: char) -> (r: char)
    ensures
        r == ascii_lower(c),
{
    if 'A' <= c && c <= 'Z' {
        let b: u8 = c as u8;
        assert(b as u32 == c as u32);
        (b + 32) as char
    } else {
        c
    }
}

/// Calls `String::push`, documented as appending the given char to the end of
/// the string; the contract claims exactly that.
#[verifier::external_body]
pub(crate) fn push_char(s: &mut String, c: char)
    ensures
        final(s)@ == old(s)@.push(c),
{
    s.push(c)
}

// ---------------------------------------------------------------------------
// Conversions between `&str`, `String` and chars
// ---------------------------------------------------------------------------

/// The chars of `s`, in order.
pub fn chars_of(s: &str) -> (v: Vec<char>)
    ensures
        v@ == s@,
{
    let mut v: Vec<char> = Vec::new();
    for c in it: s.chars()
        invariant
            it.seq() == s@,
            v@ == s@.take(it.index() as int),
    {
        v.push(c);
    }
    v
}

/// A `String` holding `s[lo..hi]`.
pub fn string_of_range(s: &[char], lo: usize, hi: usize) -> (r: String)
    requires
        lo <= hi <= s@.len(),
    ensures
        r@ == s@.subrange(lo as int, hi as int),
{
    let mut r = String::new();
    let mut k = lo;
    while k < hi
        invariant
            lo <= k <= hi <= s@.len(),
            r@ == s@.subrange(lo as int, k as int),
        decreases hi - k,
    {
        push_char(&mut r, s[k]);
        k = k + 1;
    }
    r
}

/// The views of a sequence of strings.
pub open spec fn views(v: Seq<String>) -> Seq<Seq<char>> {
    v.map_values(|x: String| x@)
}

// ---------------------------------------------------------------------------
// Trimming
// ---------------------------------------------------------------------------

/// `s` without its leading white space.
pub open spec fn trim_start(s: Seq<char>) -> Seq<char>
    decreases s.len(),
{
    if s.len() > 0 && is_white_space(s[0]) {
        trim_start(s.drop_first())
    } else {
        s
    }
}

/// `s` without its trailing white space.
pub open spec fn trim_end(s: Seq<char>) -> Seq<char>
    decreases s.len(),
{
    if s.len() > 0 && is_white_space(s.last()) {
        trim_end(s.drop_last())
    } else {
        s
    }
}

/// `s` without leading and trailing white space.
pub open spec fn trim(s: Seq<char>) -> Seq<char> {
    trim_end(trim_start(s))
}

/// `s` without its leading `'*'`s.
pub open spec fn trim_stars(s: Seq<char>) -> Seq<char>
    decreases s.len(),
{
    if s.len() > 0 && s[0] == '*' {
        trim_stars(s.drop_first())
    } else {
        s
    }
}

/// The index of the first char of `s[lo..hi]` that is not white space (`hi`
/// when there is none).
pub fn skip_white(s: &[char], lo: usize, hi: usize) -> (i: usize)
    requires
        lo <= hi <= s@.len(),
    ensures
        lo <= i <= hi,
        trim_start(s@.subrange(lo as int, hi as int)) == s@.subrange(i as int, hi as int),
{
    let mut i = lo;
    while i < hi && is_whitespace(s[i])
        invariant
            lo <= i <= hi <= s@.len(),
            trim_start(s@.subrange(lo as int, hi as int)) == trim_start(
                s@.subrange(i as int, hi as int),
            ),
        decreases hi - i,
    {
        assert(s@.subrange(i as int, hi as int).drop_first() =~= s@.subrange(i + 1, hi as int));
        i = i + 1;
    }
    i
}

/// The index of the first char of `s[lo..hi]` that is not `'*'` (`hi` when
/// there is none).
pub fn skip_stars(s: &[char], lo: usize, hi: usize) -> (i: usize)
    requires
        lo <= hi <= s@.len(),
    ensures
        lo <= i <= hi,
        trim_stars(s@.subrange(lo as int, hi as int)) == s@.subrange(i as int, hi as int),
{
    let mut i = lo;
    while i < hi && s[i] == '*'
        invariant
            lo <= i <= hi <= s@.len(),
            trim_stars(s@.subrange(lo as int, hi as int)) == trim_stars(
                s@.subrange(i as int, hi as int),
            ),
        decreases hi - i,
    {
        assert(s@.subrange(i as int, hi as int).drop_first() =~= s@.subrange(i + 1, hi as int));
        i = i + 1;
    }
    i
}

/// The end of `s[lo..hi]` once its trailing white space is cut off.
pub fn back_white(s: &[char], lo: usize, hi: usize) -> (j: usize)
    requires
        lo <= hi <= s@.len(),
    ensures
        lo <= j <= hi,
        trim_end(s@.subrange(lo as int, hi as int)) == s@.subrange(lo as int, j as int),
{
    let mut j = hi;
    while j > lo && is_whitespace(s[j - 1])
        invariant
            lo <= j <= hi <= s@.len(),
            trim_end(s@.subrange(lo as int, hi as int)) == trim_end(
                s@.subrange(lo as int, j as int),
            ),
        decreases j - lo,
    {
        assert(s@.subrange(lo as int, j as int).drop_last() =~= s@.subrange(lo as int, j - 1));
        j = j - 1;
    }
    j
}

/// `(i, j)` with `s[i..j]` the trimmed `s[lo..hi]`.
pub fn trim_range(s: &[char], lo: usize, hi: usize) -> (r: (usize, usize))
    requires
        lo <= hi <= s@.len(),
    ensures
        lo <= r.0 <= r.1 <= hi,
        trim(s@.subrange(lo as int, hi as int)) == s@.subrange(r.0 as int, r.1 as int),
{
    let i = skip_white(s, lo, hi);
    let j = back_white(s, i, hi);
    (i, j)
}

// ---------------------------------------------------------------------------
// Two-character markers (`[[`, `]]`, `][`)
// ---------------------------------------------------------------------------

/// The first index at or after `k` where `s` holds `a` directly followed by `b`.
pub open spec fn find_pair_from(s: Seq<char>, a: char, b: char, k: int) -> Option<int>
    decreases s.len() - k,
{
    if k < 0 || k + 1 >= s.len() {
        None
    } else if s[k] == a && s[k + 1] == b {
        Some(k)
    } else {
        find_pair_from(s, a, b, k + 1)
    }
}

/// The first index where `s` holds `a` directly followed by `b`.
pub open spec fn find_pair(s: Seq<char>, a: char, b: char) -> Option<int> {
    find_pair_from(s, a, b, 0)
}

/// `s` holds `a` directly followed by `b` somewhere.
pub open spec fn has_pair(s: Seq<char>, a: char, b: char) -> bool {
    find_pair(s, a, b) is Some
}

/// The first index `p` in `lo..hi` with `s[p] == a` and `s[p + 1] == b` and
/// `p + 1 < hi`, as an index of `s`.
pub fn find_pair_in(s: &[char], lo: usize, hi: usize, a: char, b: char) -> (r: Option<usize>)
    requires
        lo <= hi <= s@.len(),
    ensures
        match r {
            Some(p) => lo <= p && p + 1 < hi && find_pair(s@.subrange(lo as int, hi as int), a, b)
                == Some(p - lo),
            None => find_pair(s@.subrange(lo as int, hi as int), a, b) is None,
        },
{
    let ghost t = s@.subrange(lo as int, hi as int);
    let mut k = lo;
    while hi - k > 1
        invariant
            lo <= k <= hi <= s@.len(),
            t == s@.subrange(lo as int, hi as int),
            find_pair(t, a, b) == find_pair_from(t, a, b, k - lo),
        decreases hi - k,
    {
        if s[k] == a && s[k + 1] == b {
            return Some(k);
        }
        k = k + 1;
    }
    None
}

// ---------------------------------------------------------------------------
// Words
// ---------------------------------------------------------------------------

/// Splitting `s` at white space, left to right: the words completed so far and
/// the word being read.
pub open spec fn words_fold(s: Seq<char>) -> (Seq<Seq<char>>, Seq<char>)
    decreases s.len(),
{
    if s.len() == 0 {
        (seq![], seq![])
    } else {
        let (done, cur) = words_fold(s.drop_last());
        if is_white_space(s.last()) {
            if cur.len() > 0 {
                (done.push(cur), seq![])
            } else {
                (done, cur)
            }
        } else {
            (done, cur.push(s.last()))
        }
    }
}

/// The maximal runs of non-white-space chars of `s`, in order (what
/// `str::split_whitespace` yields).
pub open spec fn words(s: Seq<char>) -> Seq<Seq<char>> {
    let (done, cur) = words_fold(s);
    if cur.len() > 0 {
        done.push(cur)
    } else {
        done
    }
}

/// `ws` joined by single spaces.
pub open spec fn join_spaced(ws: Seq<Seq<char>>) -> Seq<char>
    decreases ws.len(),
{
    if ws.len() == 0 {
        seq![]
    } else if ws.len() == 1 {
        ws[0]
    } else {
        join_spaced(ws.drop_last()) + seq![' '] + ws.last()
    }
}

/// The words of `s[lo..hi]`.
pub fn split_words(s: &[char], lo: usize, hi: usize) -> (ws: Vec<String>)
    requires
        lo <= hi <= s@.len(),
    ensures
        views(ws@) == words(s@.subrange(lo as int, hi as int)),
{
    let mut done: Vec<String> = Vec::new();
    let mut start = lo;
    let mut k = lo;
    while k < hi
        invariant
            lo <= start <= k <= hi <= s@.len(),
            (views(done@), s@.subrange(start as int, k as int)) == words_fold(
                s@.subrange(lo as int, k as int),
            ),
        decreases hi - k,
    {
        assert(s@.subrange(lo as int, k + 1).drop_last() =~= s@.subrange(lo as int, k as int));
        if is_whitespace(s[k]) {
            if start < k {
                let w = string_of_range(s, start, k);
                let ghost old_done = done@;
                done.push(w);
                assert(views(done@) =~= views(old_done).push(w@));
            }
            start = k + 1;
        } else {
            assert(s@.subrange(start as int, k + 1) =~= s@.subrange(start as int, k as int).push(
                s@[k as int],
            ));
        }
        k = k + 1;
    }
    if start < hi {
        let w = string_of_range(s, start, hi);
        let ghost old_done = done@;
        done.push(w);
        assert(views(done@) =~= views(old_done).push(w@));
    }
    done
}

/// `ws` joined by single spaces.
pub fn join_words(ws: &Vec<String>) -> (r: String)
    ensures
        r@ == join_spaced(views(ws@)),
{
    let mut r = String::new();
    let mut i: usize = 0;
    while i < ws.len()
        invariant
            i <= ws@.len(),
            r@ == join_spaced(views(ws@).take(i as int)),
        decreases ws@.len() - i,
    {
        let ghost before = views(ws@).take(i as int);
        if i > 0 {
            push_char(&mut r, ' ');
        }
        r.append(ws[i].as_str());
        assert(views(ws@).take(i + 1).drop_last() =~= before);
        if i == 0 {
            assert(views(ws@).take(1) =~= seq![ws@[0]@]);
        }
        i = i + 1;
    }
    assert(views(ws@).take(ws@.len() as int) =~= views(ws@));
    r
}

// ---------------------------------------------------------------------------
// Lines
// ---------------------------------------------------------------------------

/// `line` without one trailing carriage return.
pub open spec fn strip_cr(line: Seq<char>) -> Seq<char> {
    if line.len() > 0 && line.last() == '\r' {
        line.drop_last()
    } else {
        line
    }
}

/// Splitting `s` into lines, left to right: the lines completed by a `'\n'` so
/// far (each without its `"\n"` or `"\r\n"` ending) and the line being read.
pub open spec fn lines_fold(s: Seq<char>) -> (Seq<Seq<char>>, Seq<char>)
    decreases s.len(),
{
    if s.len() == 0 {
        (seq![], seq![])
    } else {
        let (done, cur) = lines_fold(s.drop_last());
        if s.last() == '\n' {
            (done.push(strip_cr(cur)), seq![])
        } else {
            (done, cur.push(s.last()))
        }
    }
}

/// The lines of `s` as `str::lines` yields them: split at `'\n'`, a `'\r'`
/// right before a `'\n'` dropped, and no empty last line after a final `'\n'`.
pub open spec fn lines_of(s: Seq<char>) -> Seq<Seq<char>> {
    let (done, cur) = lines_fold(s);
    if cur.len() > 0 {
        done.push(cur)
    } else {
        done
    }
}

} // verus!
