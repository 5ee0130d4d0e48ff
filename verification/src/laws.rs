//! What holds of every bookmarks text, every string literal and every subject
//! IRI the transreptor writes.
use vstd::prelude::*;
use crate::bookmarks::{with_tags, on_heading, push_opt, step, ScanState, bookmarks_in, blocks, finish, initial, scan, take_heading, turtle, turtle_header};
use crate::org::{drawer_tags, has_key_ci, tag_key, tags_key, after_stars, collapse, is_star_heading, link_of, opens_unclosed, starts_link};
use crate::text::{has_pair, find_pair, find_pair_from, trim_stars, lines_fold, strip_cr, ascii_lower, trim, trim_end, trim_start, is_white_space, join_spaced, lines_of, words, words_fold};
use crate::turtle::{hex_digit, FNV_OFFSET, FNV_PRIME, subjects, block, escape, escape_char, fnv1a, hex16, literal, nibble, skolem_iri, BookmarkModel};
use vstd::utf8::encode_utf8;
use vstd::wrapping::u64_specs::wrapping_mul;

verus! {

/// `line` is a heading whose text begins an org link (`* … [[`).
pub open spec fn opens_link(line: Seq<char>) -> bool {
    is_star_heading(line) && starts_link(after_stars(line))
}

proof fn lemma_scan_quiet(lines: Seq<Seq<char>>)
    requires
        forall|i: int| 0 <= i < lines.len() ==> !opens_link(#[trigger] lines[i]),
    ensures
        scan(lines) == initial(),
    decreases lines.len(),
{
    if lines.len() > 0 {
        let front = lines.drop_last();
        assert forall|i: int| 0 <= i < front.len() implies !opens_link(#[trigger] front[i]) by {
            assert(front[i] == lines[i]);
        }
        lemma_scan_quiet(front);
        let l = lines.last();
        assert(!opens_link(lines[lines.len() - 1]));
        assert(!opens_unclosed(l));
        assert(link_of(l) is None);
        assert(take_heading(initial(), l).done =~= initial().done);
    }
}

/// Prose, section headings and drawers are ignored: a text none of whose lines
/// is a heading that begins an org link is an empty graph, the prologue alone.
pub proof fn law_text_without_links_is_empty_graph(org: Seq<char>)
    requires
        forall|i: int|
            0 <= i < lines_of(org).len() ==> !opens_link(#[trigger] lines_of(org)[i]),
    ensures
        bookmarks_in(org) == Seq::<crate::turtle::BookmarkModel>::empty(),
        turtle(org) == turtle_header(),
{
    lemma_scan_quiet(lines_of(org));
    assert(finish(initial()) =~= Seq::<crate::turtle::BookmarkModel>::empty());
    assert(turtle_header() + blocks(Seq::empty()) =~= turtle_header());
}

/// An empty bookmarks text is an empty graph (not an error).
pub proof fn law_empty_text_is_empty_graph()
    ensures
        turtle(Seq::<char>::empty()) == turtle_header(),
{
    let e = Seq::<char>::empty();
    assert(lines_of(e) =~= Seq::<Seq<char>>::empty());
    law_text_without_links_is_empty_graph(e);
}

// ---------------------------------------------------------------------------
// String literals
// ---------------------------------------------------------------------------

/// The chars Turtle allows after a backslash in a string literal (ECHAR).
pub open spec fn is_echar(c: char) -> bool {
    c == 't' || c == 'b' || c == 'n' || c == 'r' || c == 'f' || c == '"' || c == '\'' || c == '\\'
}

/// The char a Turtle escape `\c` stands for.
pub open spec fn echar_value(c: char) -> char {
    if c == 't' {
        '\t'
    } else if c == 'b' {
        '\u{8}'
    } else if c == 'n' {
        '\n'
    } else if c == 'r' {
        '\r'
    } else if c == 'f' {
        '\u{c}'
    } else {
        c
    }
}

/// `e` is the body of a Turtle `STRING_LITERAL_QUOTE`: no raw `'"'`, `'\\'`,
/// line feed or carriage return, and every backslash begins an escape.
pub open spec fn is_quoted_body(e: Seq<char>) -> bool
    decreases e.len(),
{
    if e.len() == 0 {
        true
    } else if e[0] == '\\' {
        e.len() >= 2 && is_echar(e[1]) && is_quoted_body(e.skip(2))
    } else {
        e[0] != '"' && e[0] != '\n' && e[0] != '\r' && is_quoted_body(e.skip(1))
    }
}

/// The chars a Turtle literal body stands for, its escapes decoded.
pub open spec fn unescape(e: Seq<char>) -> Seq<char>
    decreases e.len(),
{
    if e.len() == 0 {
        seq![]
    } else if e[0] == '\\' && e.len() >= 2 {
        seq![echar_value(e[1])] + unescape(e.skip(2))
    } else {
        seq![e[0]] + unescape(e.skip(1))
    }
}

proof fn lemma_escape_concat(a: Seq<char>, b: Seq<char>)
    ensures
        escape(a + b) == escape(a) + escape(b),
    decreases b.len(),
{
    if b.len() == 0 {
        assert(a + b =~= a);
        assert(escape(a) + escape(b) =~= escape(a));
    } else {
        lemma_escape_concat(a, b.drop_last());
        assert((a + b).drop_last() =~= a + b.drop_last());
        assert((a + b).last() == b.last());
        assert(escape(a) + escape(b) =~= escape(a) + escape(b.drop_last()) + escape_char(b.last()));
    }
}

proof fn lemma_escape_front(s: Seq<char>)
    requires
        s.len() > 0,
    ensures
        escape(s) == escape_char(s[0]) + escape(s.skip(1)),
{
    let head = seq![s[0]];
    assert(s =~= head + s.skip(1));
    lemma_escape_concat(head, s.skip(1));
    assert(head.drop_last() =~= Seq::<char>::empty());
    assert(escape(head.drop_last()) =~= Seq::<char>::empty());
    assert(head.last() == s[0]);
    assert(escape(head) =~= escape_char(s[0]));
}

/// Every string a bookmark carries is written as a well-formed Turtle string
/// literal, and reading that literal gives the string back verbatim: a title
/// quote or a malformed URL is escaped, never leaked.
pub proof fn law_literal_round_trip(s: Seq<char>)
    ensures
        is_quoted_body(escape(s)),
        unescape(escape(s)) == s,
        literal(s) == seq!['"'] + escape(s) + seq!['"'],
    decreases s.len(),
{
    if s.len() == 0 {
        assert(escape(s) =~= Seq::<char>::empty());
        assert(unescape(Seq::<char>::empty()) =~= s);
    } else {
        let c = s[0];
        let rest = s.skip(1);
        law_literal_round_trip(rest);
        lemma_escape_front(s);
        let e = escape(s);
        let x = escape_char(c);
        assert(e == x + escape(rest));
        if x.len() == 2 {
            assert(e.skip(2) =~= escape(rest));
        } else {
            assert(e.skip(1) =~= escape(rest));
        }
        assert(unescape(e) =~= seq![c] + rest);
        assert(s =~= seq![c] + rest);
    }
}

// ---------------------------------------------------------------------------
// Subjects
// ---------------------------------------------------------------------------

/// `c` is a lower-case hex digit.
pub open spec fn is_lower_hex(c: char) -> bool {
    ('0' <= c <= '9') || ('a' <= c <= 'f')
}

/// A subject IRI is always valid, whatever the URL: `urn:cms:bookmark:` and
/// exactly sixteen lower-case hex digits, nothing of the URL itself.
pub proof fn law_subject_is_a_valid_iri(url: Seq<char>)
    ensures
        skolem_iri(url).len() == 33,
        skolem_iri(url).take(17) == "urn:cms:bookmark:"@,
        forall|i: int| 17 <= i < 33 ==> is_lower_hex(#[trigger] skolem_iri(url)[i]),
{
    reveal_strlit("urn:cms:bookmark:");
    let h = fnv1a(encode_utf8(url));
    let sk = skolem_iri(url);
    assert(sk.take(17) =~= "urn:cms:bookmark:"@);
    assert forall|i: int| 17 <= i < 33 implies is_lower_hex(#[trigger] sk[i]) by {
        let j = i - 17;
        let sh = (60 - 4 * j) as u64;
        assert((h >> sh) & 0xf < 16) by (bit_vector);
        assert(nibble(h, j) < 16);
        assert(sk[i] == hex16(h)[j]);
    }
}

/// Same URL, same subject: the subject of a bookmark's block depends on its URL
/// alone, never on its title or tags, so the graph stays diffable.
pub proof fn law_same_url_same_subject(a: BookmarkModel, b: BookmarkModel)
    requires
        a.url == b.url,
    ensures
        block(a).take(35) == block(b).take(35),
        block(a).take(35) == "\n<"@ + skolem_iri(a.url),
{
    reveal_strlit("\n<");
    law_subject_is_a_valid_iri(a.url);
    assert(block(a).take(35) =~= "\n<"@ + skolem_iri(a.url));
    assert(block(b).take(35) =~= "\n<"@ + skolem_iri(b.url));
}

// ---------------------------------------------------------------------------
// Collapsed white space
// ---------------------------------------------------------------------------

/// `w` is a word: not empty, and without white space.
pub open spec fn is_word(w: Seq<char>) -> bool {
    w.len() > 0 && forall|i: int| 0 <= i < w.len() ==> !is_white_space(#[trigger] w[i])
}

/// Every white-space char of `r` is a single `' '` between two chars that are
/// not white space; so `r` neither begins nor ends with white space.
pub open spec fn single_spaced(r: Seq<char>) -> bool {
    forall|i: int|
        0 <= i < r.len() && is_white_space(#[trigger] r[i]) ==> r[i] == ' ' && 0 < i && i + 1
            < r.len() && !is_white_space(r[i - 1]) && !is_white_space(r[i + 1])
}

proof fn lemma_words_fold_words(s: Seq<char>)
    ensures
        forall|i: int| 0 <= i < words_fold(s).0.len() ==> is_word(#[trigger] words_fold(s).0[i]),
        forall|j: int|
            0 <= j < words_fold(s).1.len() ==> !is_white_space(#[trigger] words_fold(s).1[j]),
    decreases s.len(),
{
    if s.len() > 0 {
        lemma_words_fold_words(s.drop_last());
        let (d, c) = words_fold(s.drop_last());
        if is_white_space(s.last()) {
            if c.len() > 0 {
                assert forall|i: int| 0 <= i < d.push(c).len() implies is_word(
                    #[trigger] d.push(c)[i],
                ) by {
                    if i < d.len() {
                        assert(d.push(c)[i] == d[i]);
                    }
                }
            }
        } else {
            assert forall|j: int| 0 <= j < c.push(s.last()).len() implies !is_white_space(
                #[trigger] c.push(s.last())[j],
            ) by {
                if j < c.len() {
                    assert(c.push(s.last())[j] == c[j]);
                }
            }
        }
    }
}

proof fn lemma_words_are_words(s: Seq<char>)
    ensures
        forall|i: int| 0 <= i < words(s).len() ==> is_word(#[trigger] words(s)[i]),
{
    lemma_words_fold_words(s);
    let (d, c) = words_fold(s);
    if c.len() > 0 {
        assert forall|i: int| 0 <= i < d.push(c).len() implies is_word(#[trigger] d.push(c)[i]) by {
            if i < d.len() {
                assert(d.push(c)[i] == d[i]);
            }
        }
    }
}

proof fn lemma_join_single_spaced(ws: Seq<Seq<char>>)
    requires
        forall|i: int| 0 <= i < ws.len() ==> is_word(#[trigger] ws[i]),
    ensures
        single_spaced(join_spaced(ws)),
        ws.len() > 0 ==> join_spaced(ws).len() > 0,
    decreases ws.len(),
{
    if ws.len() == 1 {
        assert(is_word(ws[0]));
    } else if ws.len() > 1 {
        let front = ws.drop_last();
        assert forall|i: int| 0 <= i < front.len() implies is_word(#[trigger] front[i]) by {
            assert(front[i] == ws[i]);
        }
        lemma_join_single_spaced(front);
        let a = join_spaced(front);
        let w = ws.last();
        assert(is_word(ws[ws.len() - 1]));
        let r = join_spaced(ws);
        assert(r == a + seq![' '] + w);
        assert(!is_white_space(a[a.len() - 1]));
        assert forall|i: int| 0 <= i < r.len() && is_white_space(#[trigger] r[i]) implies r[i]
            == ' ' && 0 < i && i + 1 < r.len() && !is_white_space(r[i - 1]) && !is_white_space(
            r[i + 1],
        ) by {
            if i < a.len() {
                assert(r[i] == a[i]);
                assert(r[i - 1] == a[i - 1]);
                assert(r[i + 1] == a[i + 1]);
            } else if i == a.len() {
                assert(r[i - 1] == a[a.len() - 1]);
                assert(r[i + 1] == w[0]);
            } else {
                assert(r[i] == w[i - a.len() - 1]);
            }
        }
    }
}

proof fn lemma_words_fold_append_word(x: Seq<char>, w: Seq<char>)
    requires
        forall|j: int| 0 <= j < w.len() ==> !is_white_space(#[trigger] w[j]),
    ensures
        words_fold(x + w) == (words_fold(x).0, words_fold(x).1 + w),
    decreases w.len(),
{
    if w.len() == 0 {
        assert(x + w =~= x);
        assert(words_fold(x).1 + w =~= words_fold(x).1);
    } else {
        let wf = w.drop_last();
        assert forall|j: int| 0 <= j < wf.len() implies !is_white_space(#[trigger] wf[j]) by {
            assert(wf[j] == w[j]);
        }
        lemma_words_fold_append_word(x, wf);
        assert((x + w).drop_last() =~= x + wf);
        assert((x + w).last() == w[w.len() - 1]);
        assert(words_fold(x).1 + wf + seq![w.last()] =~= words_fold(x).1 + w);
    }
}

proof fn lemma_words_fold_join(ws: Seq<Seq<char>>)
    requires
        ws.len() > 0,
        forall|i: int| 0 <= i < ws.len() ==> is_word(#[trigger] ws[i]),
    ensures
        words_fold(join_spaced(ws)) == (ws.drop_last(), ws.last()),
    decreases ws.len(),
{
    if ws.len() == 1 {
        assert(is_word(ws[0]));
        assert(Seq::<char>::empty() + ws[0] =~= ws[0]);
        lemma_words_fold_append_word(Seq::<char>::empty(), ws[0]);
        assert(ws.drop_last() =~= Seq::<Seq<char>>::empty());
    } else {
        let front = ws.drop_last();
        assert forall|i: int| 0 <= i < front.len() implies is_word(#[trigger] front[i]) by {
            assert(front[i] == ws[i]);
        }
        lemma_words_fold_join(front);
        let a = join_spaced(front);
        let sp = a + seq![' '];
        assert(sp.drop_last() =~= a);
        assert(is_word(front[front.len() - 1]));
        assert(front.drop_last().push(front.last()) =~= front);
        assert(words_fold(sp) == (front, Seq::<char>::empty()));
        assert(is_word(ws[ws.len() - 1]));
        lemma_words_fold_append_word(sp, ws.last());
        assert(Seq::<char>::empty() + ws.last() =~= ws.last());
    }
}

/// Collapsing white space leaves the words of a text as they were, joined by
/// single spaces with nothing before the first or after the last; so collapsing
/// twice is collapsing once.
pub proof fn law_collapse_keeps_words_single_spaced(s: Seq<char>)
    ensures
        words(collapse(s)) == words(s),
        single_spaced(collapse(s)),
        collapse(collapse(s)) == collapse(s),
{
    lemma_words_are_words(s);
    let ws = words(s);
    lemma_join_single_spaced(ws);
    if ws.len() == 0 {
        assert(collapse(s) =~= Seq::<char>::empty());
        assert(words_fold(Seq::<char>::empty()) == (Seq::<Seq<char>>::empty(), Seq::<char>::empty()));
        assert(words(collapse(s)) =~= ws);
    } else {
        lemma_words_fold_join(ws);
        assert(ws.last().len() > 0) by {
            assert(is_word(ws[ws.len() - 1]));
        }
        assert(ws.drop_last().push(ws.last()) =~= ws);
    }
}

// ---------------------------------------------------------------------------
// Drawers
// ---------------------------------------------------------------------------

proof fn lemma_trim_end_is_prefix(x: Seq<char>)
    ensures
        trim_end(x).len() <= x.len(),
        trim_end(x) == x.take(trim_end(x).len() as int),
    decreases x.len(),
{
    if x.len() > 0 && is_white_space(x.last()) {
        lemma_trim_end_is_prefix(x.drop_last());
        assert(x.drop_last().take(trim_end(x).len() as int) =~= x.take(trim_end(x).len() as int));
    } else {
        assert(x.take(x.len() as int) =~= x);
    }
}

/// A drawer line is never a heading: no `:TAG:` or `:TAGS:` line is read as a
/// link, nor opens a wrapped title, so each line is at most one of the two.
pub proof fn law_drawer_line_is_no_heading(line: Seq<char>)
    requires
        drawer_tags(line) is Some,
    ensures
        !is_star_heading(line),
        link_of(line) is None,
        !opens_unclosed(line),
{
    let t = trim(line);
    assert(has_key_ci(t, tag_key()) || has_key_ci(t, tags_key()));
    assert(tag_key()[0] == ':' && tags_key()[0] == ':');
    assert(t.len() > 0 && ascii_lower(t[0]) == ':');
    assert(t[0] == ':');
    lemma_trim_end_is_prefix(trim_start(line));
    assert(trim_start(line)[0] == t[0]);
}

/// The tags of a drawer are added after the ones the bookmark already has: its
/// block gains one `dc:subject` triple per new tag, after the earlier ones.
pub proof fn law_drawer_adds_subjects(b: BookmarkModel, line: Seq<char>, tags: Seq<Seq<char>>)
    requires
        drawer_tags(line) == Some(tags),
    ensures
        on_heading(Some(b), line) == (Some(with_tags(b, tags)), None::<BookmarkModel>),
        subjects(with_tags(b, tags).tags) == subjects(b.tags) + subjects(tags),
{
    law_drawer_line_is_no_heading(line);
    lemma_subjects_concat(b.tags, tags);
}

proof fn lemma_subjects_concat(a: Seq<Seq<char>>, b: Seq<Seq<char>>)
    ensures
        subjects(a + b) == subjects(a) + subjects(b),
    decreases b.len(),
{
    if b.len() == 0 {
        assert(a + b =~= a);
        assert(subjects(a) + subjects(b) =~= subjects(a));
    } else {
        lemma_subjects_concat(a, b.drop_last());
        assert((a + b).drop_last() =~= a + b.drop_last());
        assert((a + b).last() == b.last());
        assert(subjects(a) + subjects(b) =~= subjects(a) + subjects(b.drop_last())
            + " ;\n    dc:subject "@ + literal(b.last()));
    }
}

// ---------------------------------------------------------------------------
// Concatenated texts
// ---------------------------------------------------------------------------

/// The state after reading `lines` in order, starting from `st`.
pub open spec fn scan_from(st: ScanState, lines: Seq<Seq<char>>) -> ScanState
    decreases lines.len(),
{
    if lines.len() == 0 {
        st
    } else {
        step(scan_from(st, lines.drop_last()), lines.last())
    }
}

/// `st` with the bookmarks `p` completed before its own.
pub open spec fn after(st: ScanState, p: Seq<BookmarkModel>) -> ScanState {
    ScanState { cur: st.cur, done: p + st.done, pending: st.pending }
}

proof fn lemma_lines_fold_concat(a: Seq<char>, x: Seq<char>)
    requires
        lines_fold(a).1.len() == 0,
    ensures
        lines_fold(a + x) == (lines_fold(a).0 + lines_fold(x).0, lines_fold(x).1),
    decreases x.len(),
{
    if x.len() == 0 {
        assert(a + x =~= a);
        assert(lines_fold(a).0 + lines_fold(x).0 =~= lines_fold(a).0);
    } else {
        lemma_lines_fold_concat(a, x.drop_last());
        assert((a + x).drop_last() =~= a + x.drop_last());
        assert((a + x).last() == x.last());
        let (d, c) = lines_fold(x.drop_last());
        let la = lines_fold(a).0;
        assert((la + d).push(strip_cr(c)) =~= la + d.push(strip_cr(c)));
    }
}

proof fn lemma_scan_is_scan_from(lines: Seq<Seq<char>>)
    ensures
        scan(lines) == scan_from(initial(), lines),
    decreases lines.len(),
{
    if lines.len() > 0 {
        lemma_scan_is_scan_from(lines.drop_last());
    }
}

proof fn lemma_scan_from_concat(st: ScanState, l1: Seq<Seq<char>>, l2: Seq<Seq<char>>)
    ensures
        scan_from(st, l1 + l2) == scan_from(scan_from(st, l1), l2),
    decreases l2.len(),
{
    if l2.len() == 0 {
        assert(l1 + l2 =~= l1);
    } else {
        lemma_scan_from_concat(st, l1, l2.drop_last());
        assert((l1 + l2).drop_last() =~= l1 + l2.drop_last());
        assert((l1 + l2).last() == l2.last());
    }
}

proof fn lemma_push_opt_after(p: Seq<BookmarkModel>, d: Seq<BookmarkModel>, b: Option<BookmarkModel>)
    ensures
        push_opt(p + d, b) == p + push_opt(d, b),
{
    match b {
        Some(x) => {
            assert((p + d).push(x) =~= p + d.push(x));
        },
        None => {},
    }
}

proof fn lemma_step_after(st: ScanState, p: Seq<BookmarkModel>, line: Seq<char>)
    ensures
        step(after(st, p), line) == after(step(st, line), p),
{
    let s = step(st, line);
    match st.pending {
        Some(buf) => {
            let joined = buf + seq![' '] + trim(line);
            lemma_push_opt_after(p, st.done, on_heading(st.cur, joined).1);
        },
        None => {
            lemma_push_opt_after(p, st.done, on_heading(st.cur, line).1);
        },
    }
    assert(step(after(st, p), line).done =~= after(s, p).done);
}

proof fn lemma_scan_from_after(st: ScanState, p: Seq<BookmarkModel>, lines: Seq<Seq<char>>)
    ensures
        scan_from(after(st, p), lines) == after(scan_from(st, lines), p),
    decreases lines.len(),
{
    if lines.len() > 0 {
        lemma_scan_from_after(st, p, lines.drop_last());
        lemma_step_after(scan_from(st, lines.drop_last()), p, lines.last());
    }
}

proof fn lemma_finish_after(st: ScanState, p: Seq<BookmarkModel>)
    ensures
        finish(after(st, p)) == p + finish(st),
{
    match st.pending {
        Some(buf) => {
            lemma_push_opt_after(p, st.done, on_heading(st.cur, buf).1);
            let t = take_heading(st, buf);
            assert(take_heading(after(st, p), buf) == after(t, p));
            lemma_push_opt_after(p, t.done, t.cur);
        },
        None => {
            lemma_push_opt_after(p, st.done, st.cur);
        },
    }
}

proof fn lemma_blocks_concat(p: Seq<BookmarkModel>, q: Seq<BookmarkModel>)
    ensures
        blocks(p + q) == blocks(p) + blocks(q),
    decreases q.len(),
{
    if q.len() == 0 {
        assert(p + q =~= p);
        assert(blocks(p) + blocks(q) =~= blocks(p));
    } else {
        lemma_blocks_concat(p, q.drop_last());
        assert((p + q).drop_last() =~= p + q.drop_last());
        assert((p + q).last() == q.last());
        assert(blocks(p) + blocks(q) =~= blocks(p) + blocks(q.drop_last()) + block(q.last()));
    }
}

/// Converting two texts one after the other is converting each: when `a` is
/// empty or ends at a line break with every wrapped title it opens closed, and
/// `b` begins with a link heading that closes on its own line, the graph of
/// `a` followed by `b` is the graph of `a` followed by the blocks of `b` (the
/// graph of `b` without its prologue), and its bookmarks are those of `a`
/// followed by those of `b`.
pub proof fn law_concatenated_texts(a: Seq<char>, b: Seq<char>)
    requires
        a.len() == 0 || a.last() == '\n',
        scan(lines_of(a)).pending is None,
        lines_of(b).len() > 0,
        link_of(lines_of(b)[0]) is Some,
        !opens_unclosed(lines_of(b)[0]),
    ensures
        bookmarks_in(a + b) == bookmarks_in(a) + bookmarks_in(b),
        turtle(a + b) == turtle(a) + blocks(bookmarks_in(b)),
        turtle(a + b) == turtle(a) + turtle(b).skip(turtle_header().len() as int),
{
    if a.len() > 0 {
        assert(a.drop_last() + seq![a.last()] =~= a);
    }
    assert(lines_fold(a).1.len() == 0);
    lemma_lines_fold_concat(a, b);
    let la = lines_of(a);
    let lb = lines_of(b);
    assert(la == lines_fold(a).0);
    assert(lines_of(a + b) =~= la + lb);
    let l = lb[0];
    let rest = lb.skip(1);
    assert(lb =~= seq![l] + rest);
    let sa = scan(la);
    let p = finish(sa);
    assert(p == push_opt(sa.done, sa.cur));
    lemma_scan_is_scan_from(la);
    lemma_scan_is_scan_from(la + lb);
    lemma_scan_is_scan_from(lb);
    lemma_scan_from_concat(initial(), la, lb);
    assert(la + lb =~= la + (seq![l] + rest));
    lemma_scan_from_concat(sa, seq![l], rest);
    lemma_scan_from_concat(initial(), seq![l], rest);
    assert(seq![l].drop_last() =~= Seq::<Seq<char>>::empty());
    assert(seq![l].last() == l);
    assert(scan_from(sa, seq![l].drop_last()) == sa);
    assert(scan_from(initial(), seq![l].drop_last()) == initial());
    assert(scan_from(sa, seq![l]) == step(sa, l));
    assert(scan_from(initial(), seq![l]) == step(initial(), l));
    let s1 = step(initial(), l);
    assert(s1.done =~= Seq::<BookmarkModel>::empty());
    assert(step(sa, l) == after(s1, p)) by {
        assert(after(s1, p).done =~= p);
    }
    lemma_scan_from_after(s1, p, rest);
    let sb = scan(lb);
    assert(scan(la + lb) == after(sb, p));
    lemma_finish_after(sb, p);
    assert(bookmarks_in(a + b) == p + bookmarks_in(b));
    lemma_blocks_concat(p, bookmarks_in(b));
    assert(turtle(a + b) =~= turtle(a) + blocks(bookmarks_in(b)));
    assert(turtle(b).skip(turtle_header().len() as int) =~= blocks(bookmarks_in(b)));
}

// ---------------------------------------------------------------------------
// Lines that are not bookmarks
// ---------------------------------------------------------------------------

proof fn lemma_lines_fold_one_line(l: Seq<char>)
    requires
        forall|i: int| 0 <= i < l.len() ==> #[trigger] l[i] != '\n',
    ensures
        lines_fold(l) == (Seq::<Seq<char>>::empty(), l),
    decreases l.len(),
{
    if l.len() > 0 {
        let f = l.drop_last();
        assert forall|i: int| 0 <= i < f.len() implies #[trigger] f[i] != '\n' by {
            assert(f[i] == l[i]);
        }
        lemma_lines_fold_one_line(f);
        assert(l[l.len() - 1] != '\n');
        assert(f.push(l.last()) =~= l);
    } else {
        assert(l =~= Seq::<char>::empty());
    }
}

/// A line that is neither a link heading, a drawer line nor the start of a
/// wrapped title changes nothing: inserting it (a section heading such as
/// `* Web`, or prose) between two parts of a text, where the first part ends at
/// a line break with no wrapped title left open, leaves the bookmarks and the
/// graph as they were. In particular the bookmark being read before it is
/// neither dropped nor closed early.
pub proof fn law_other_lines_change_nothing(a: Seq<char>, l: Seq<char>, b: Seq<char>)
    requires
        a.len() == 0 || a.last() == '\n',
        scan(lines_of(a)).pending is None,
        forall|i: int| 0 <= i < l.len() ==> #[trigger] l[i] != '\n' && l[i] != '\r',
        link_of(l) is None,
        drawer_tags(l) is None,
        !opens_unclosed(l),
    ensures
        bookmarks_in(a + l + seq!['\n'] + b) == bookmarks_in(a + b),
        turtle(a + l + seq!['\n'] + b) == turtle(a + b),
{
    if a.len() > 0 {
        assert(a.drop_last() + seq![a.last()] =~= a);
    }
    assert(lines_fold(a).1.len() == 0);
    let x = l + seq!['\n'];
    assert forall|i: int| 0 <= i < l.len() implies #[trigger] l[i] != '\n' by {}
    lemma_lines_fold_one_line(l);
    assert(x.drop_last() =~= l);
    assert(strip_cr(l) == l) by {
        if l.len() > 0 {
            assert(l[l.len() - 1] != '\r');
        }
    }
    assert(lines_fold(x) == (seq![l], Seq::<char>::empty()));
    lemma_lines_fold_concat(a, x);
    lemma_lines_fold_concat(a + x, b);
    lemma_lines_fold_concat(a, b);
    let la = lines_of(a);
    let lb = lines_of(b);
    assert(la == lines_fold(a).0);
    assert(a + l + seq!['\n'] + b =~= (a + x) + b);
    assert(lines_of(a + l + seq!['\n'] + b) =~= (la + seq![l]) + lb);
    assert(lines_of(a + b) =~= la + lb);
    let sa = scan(la);
    lemma_scan_is_scan_from(la);
    lemma_scan_is_scan_from(la + seq![l]);
    lemma_scan_is_scan_from((la + seq![l]) + lb);
    lemma_scan_is_scan_from(la + lb);
    lemma_scan_from_concat(initial(), la, seq![l]);
    lemma_scan_from_concat(initial(), la + seq![l], lb);
    lemma_scan_from_concat(initial(), la, lb);
    assert(seq![l].drop_last() =~= Seq::<Seq<char>>::empty());
    assert(seq![l].last() == l);
    assert(scan_from(sa, seq![l].drop_last()) == sa);
    assert(scan_from(sa, seq![l]) == step(sa, l));
    assert(step(sa, l) == sa);
}

// ---------------------------------------------------------------------------
// Link headings
// ---------------------------------------------------------------------------

/// The heading `* [[u][t]]`.
pub open spec fn link_heading(u: Seq<char>, t: Seq<char>) -> Seq<char> {
    seq!['*', ' ', '[', '['] + u + seq![']', '['] + t + seq![']', ']']
}

proof fn lemma_find_pair_at(s: Seq<char>, a: char, b: char, k: int, p: int)
    requires
        0 <= k <= p,
        p + 1 < s.len(),
        s[p] == a && s[p + 1] == b,
        forall|j: int| k <= j < p ==> !(#[trigger] s[j] == a && s[j + 1] == b),
    ensures
        find_pair_from(s, a, b, k) == Some(p),
    decreases p - k,
{
    if k < p {
        lemma_find_pair_at(s, a, b, k + 1, p);
    }
}

proof fn lemma_trim_start_is_suffix(s: Seq<char>)
    ensures
        trim_start(s).len() <= s.len(),
        trim_start(s) == s.skip(s.len() - trim_start(s).len()),
        forall|k: int| 0 <= k < s.len() - trim_start(s).len() ==> is_white_space(#[trigger] s[k]),
        trim_start(s).len() > 0 ==> !is_white_space(trim_start(s)[0]),
    decreases s.len(),
{
    if s.len() > 0 && is_white_space(s[0]) {
        let r = s.drop_first();
        lemma_trim_start_is_suffix(r);
        assert(r.skip(r.len() - trim_start(r).len()) =~= s.skip(s.len() - trim_start(r).len()));
        assert forall|k: int| 0 <= k < s.len() - trim_start(s).len() implies is_white_space(
            #[trigger] s[k],
        ) by {
            if k > 0 {
                assert(s[k] == r[k - 1]);
            }
        }
    } else {
        assert(s.skip(0) =~= s);
    }
}

proof fn lemma_trim_end_keeps_prefix(x: Seq<char>)
    ensures
        trim_end(x).len() <= x.len(),
        trim_end(x) == x.take(trim_end(x).len() as int),
        forall|k: int| trim_end(x).len() <= k < x.len() ==> is_white_space(#[trigger] x[k]),
        trim_end(x).len() > 0 ==> !is_white_space(trim_end(x).last()),
    decreases x.len(),
{
    if x.len() > 0 && is_white_space(x.last()) {
        let f = x.drop_last();
        lemma_trim_end_keeps_prefix(f);
        assert(f.take(trim_end(x).len() as int) =~= x.take(trim_end(x).len() as int));
        assert forall|k: int| trim_end(x).len() <= k < x.len() implies is_white_space(
            #[trigger] x[k],
        ) by {
            if k < f.len() {
                assert(x[k] == f[k]);
            }
        }
    } else {
        assert(x.take(x.len() as int) =~= x);
    }
}

/// Trimming keeps the chars between the first and the last that are not white
/// space, each unchanged and in order, and drops only white space around them.
pub proof fn law_trim_keeps_inner_chars(s: Seq<char>)
    ensures
        exists|i: int, j: int|
            {
                &&& 0 <= i <= j <= s.len()
                &&& trim(s) == s.subrange(i, j)
                &&& forall|k: int| 0 <= k < i ==> is_white_space(#[trigger] s[k])
                &&& forall|k: int| j <= k < s.len() ==> is_white_space(#[trigger] s[k])
                &&& i < j ==> !is_white_space(s[i]) && !is_white_space(s[j - 1])
            },
{
    lemma_trim_start_is_suffix(s);
    let r = trim_start(s);
    let i = s.len() - r.len();
    lemma_trim_end_keeps_prefix(r);
    let j = i + trim_end(r).len();
    assert(trim(s) =~= s.subrange(i, j));
    assert forall|k: int| j <= k < s.len() implies is_white_space(#[trigger] s[k]) by {
        assert(s[k] == r[k - i]);
    }
    if i < j {
        assert(s[i] == r[0]);
        assert(trim_end(r)[0] == r[0]);
        assert(s[j - 1] == trim_end(r).last());
    }
}

/// The URL and title of a heading `* [[u][t]]` (neither holding `']'`) are `u`
/// with only its surrounding white space removed, every other char kept as it
/// is, and `t` with its white space collapsed.
pub proof fn law_link_heading_reads_url_verbatim(u: Seq<char>, t: Seq<char>)
    requires
        forall|i: int| 0 <= i < u.len() ==> #[trigger] u[i] != ']',
        forall|i: int| 0 <= i < t.len() ==> #[trigger] t[i] != ']',
    ensures
        link_of(link_heading(u, t)) == Some((trim(u), collapse(t))),
{
    let line = link_heading(u, t);
    assert(line[0] == '*');
    assert(!is_white_space('*'));
    assert(trim_start(line) == line);
    assert(is_star_heading(line));
    assert(line.drop_first() =~= line.skip(1));
    assert(line.skip(1)[0] == ' ');
    assert(trim_stars(line.skip(1)) == line.skip(1));
    assert(trim_stars(line) == line.skip(1));
    assert(is_white_space(' '));
    assert(line.skip(1).drop_first() =~= line.skip(2));
    assert(line.skip(2)[0] == '[');
    assert(!is_white_space('['));
    assert(trim_start(line.skip(2)) == line.skip(2));
    assert(trim_start(line.skip(1)) == line.skip(2));
    assert(after_stars(line) == line.skip(2));
    assert(starts_link(after_stars(line)));
    let body = line.skip(2).skip(2);
    assert(body =~= u + seq![']', '['] + t + seq![']', ']']);
    let n = u.len() as int;
    let p = n + 2 + t.len();
    assert forall|j: int| 0 <= j < p implies !(#[trigger] body[j] == ']' && body[j + 1] == ']') by {
        if j < n {
            assert(body[j] == u[j]);
        } else if j == n {
            assert(body[j + 1] == '[');
        } else if j == n + 1 {
            assert(body[j] == '[');
        } else {
            assert(body[j] == t[j - n - 2]);
        }
    }
    lemma_find_pair_at(body, ']', ']', 0, p);
    let inner = body.take(p);
    assert(inner =~= u + seq![']', '['] + t);
    assert forall|j: int| 0 <= j < n implies !(#[trigger] inner[j] == ']' && inner[j + 1] == '[') by {
        assert(inner[j] == u[j]);
    }
    lemma_find_pair_at(inner, ']', '[', 0, n);
    assert(inner.take(n) =~= u);
    assert(inner.skip(n + 2) =~= t);
}

// ---------------------------------------------------------------------------
// Drawer lines
// ---------------------------------------------------------------------------

proof fn lemma_words_fold_after_blank(p: Seq<char>, x: Seq<char>)
    requires
        words_fold(p) == (Seq::<Seq<char>>::empty(), Seq::<char>::empty()),
    ensures
        words_fold(p + x) == words_fold(x),
    decreases x.len(),
{
    if x.len() == 0 {
        assert(p + x =~= p);
    } else {
        lemma_words_fold_after_blank(p, x.drop_last());
        assert((p + x).drop_last() =~= p + x.drop_last());
        assert((p + x).last() == x.last());
    }
}

proof fn lemma_join_last(ws: Seq<Seq<char>>)
    requires
        ws.len() > 0,
        forall|i: int| 0 <= i < ws.len() ==> is_word(#[trigger] ws[i]),
    ensures
        join_spaced(ws).len() > 0,
        join_spaced(ws).last() == ws.last().last(),
{
    assert(is_word(ws[ws.len() - 1]));
    if ws.len() > 1 {
        let a = join_spaced(ws.drop_last());
        assert(join_spaced(ws) == a + seq![' '] + ws.last());
    }
}

/// The words of `key` followed by a space and `ws` joined by single spaces,
/// read as a drawer line: exactly `ws`.
proof fn lemma_drawer_words(key: Seq<char>, ws: Seq<Seq<char>>)
    requires
        key.len() >= 5,
        !is_white_space(key[0]),
        !is_white_space(key.last()),
        forall|i: int| 0 <= i < ws.len() ==> is_word(#[trigger] ws[i]),
    ensures
        trim(key + seq![' '] + join_spaced(ws)) == (if ws.len() == 0 {
            key
        } else {
            key + seq![' '] + join_spaced(ws)
        }),
        words(seq![' '] + join_spaced(ws)) == ws,
{
    let j = join_spaced(ws);
    let line = key + seq![' '] + j;
    assert(line[0] == key[0]);
    assert(trim_start(line) == line);
    let blank = seq![' '];
    assert(is_white_space(' '));
    assert(blank.drop_last() =~= Seq::<char>::empty());
    assert(blank.last() == ' ');
    assert(words_fold(Seq::<char>::empty()) == (Seq::<Seq<char>>::empty(), Seq::<char>::empty()));
    assert(words_fold(blank) == (Seq::<Seq<char>>::empty(), Seq::<char>::empty()));
    lemma_words_fold_after_blank(blank, j);
    if ws.len() == 0 {
        assert(j =~= Seq::<char>::empty());
        assert(line.drop_last() =~= key);
        assert(trim_end(key) == key);
        assert(blank + j =~= blank);
        assert(words(blank) =~= ws);
    } else {
        lemma_join_last(ws);
        assert(line.last() == j.last());
        assert(trim_end(line) == line);
        lemma_words_fold_join(ws);
        assert(is_word(ws[ws.len() - 1]));
        assert(ws.drop_last().push(ws.last()) =~= ws);
    }
}

/// A drawer line yields exactly the words after its key: for every list of
/// words `ws`, the line `:TAG: ` (or `:TAGS: `) followed by `ws` joined by
/// single spaces yields `ws`, all of them, in order.
pub proof fn law_drawer_yields_its_words(ws: Seq<Seq<char>>)
    requires
        forall|i: int| 0 <= i < ws.len() ==> is_word(#[trigger] ws[i]),
    ensures
        drawer_tags(seq![':', 'T', 'A', 'G', ':', ' '] + join_spaced(ws)) == Some(ws),
        drawer_tags(seq![':', 'T', 'A', 'G', 'S', ':', ' '] + join_spaced(ws)) == Some(ws),
{
    let tag = seq![':', 'T', 'A', 'G', ':'];
    let tags = seq![':', 'T', 'A', 'G', 'S', ':'];
    assert(!is_white_space(':'));
    assert(tag + seq![' '] =~= seq![':', 'T', 'A', 'G', ':', ' ']);
    assert(tags + seq![' '] =~= seq![':', 'T', 'A', 'G', 'S', ':', ' ']);
    assert(ascii_lower(':') == ':');
    assert(ascii_lower('T') == 't');
    assert(ascii_lower('A') == 'a');
    assert(ascii_lower('G') == 'g');
    assert(ascii_lower('S') == 's');
    lemma_drawer_words(tag, ws);
    let l1 = tag + seq![' '] + join_spaced(ws);
    let t1 = trim(l1);
    assert(has_key_ci(t1, tag_key()));
    if ws.len() == 0 {
        assert(t1.skip(5) =~= Seq::<char>::empty());
        assert(words(Seq::<char>::empty()) =~= ws);
    } else {
        assert(t1.skip(5) =~= seq![' '] + join_spaced(ws));
    }
    lemma_drawer_words(tags, ws);
    let l2 = tags + seq![' '] + join_spaced(ws);
    let t2 = trim(l2);
    assert(t2[4] == 'S');
    assert(!has_key_ci(t2, tag_key()));
    assert(has_key_ci(t2, tags_key()));
    if ws.len() == 0 {
        assert(t2.skip(6) =~= Seq::<char>::empty());
        assert(words(Seq::<char>::empty()) =~= ws);
    } else {
        assert(t2.skip(6) =~= seq![' '] + join_spaced(ws));
    }
}

// ---------------------------------------------------------------------------
// The hash behind a subject
// ---------------------------------------------------------------------------

/// FNV-1a takes in every byte of the URL, however long: the hash of no bytes
/// is the offset basis, and the hash of `bs` followed by `x` is the hash of
/// `bs` with `x` xor-ed in, times the prime, modulo 2^64.
pub proof fn law_hash_takes_every_byte(bs: Seq<u8>, x: u8)
    ensures
        fnv1a(Seq::<u8>::empty()) == FNV_OFFSET,
        fnv1a(bs.push(x)) == wrapping_mul(fnv1a(bs) ^ (x as u64), FNV_PRIME),
{
    assert(bs.push(x).drop_last() =~= bs);
}

/// The value of a lower-case hex digit.
pub open spec fn digit_value(c: char) -> int {
    if '0' <= c <= '9' {
        (c as int) - 48
    } else {
        (c as int) - 87
    }
}

/// The number lower-case hex digits `s` write, most significant first.
pub open spec fn hex_value(s: Seq<char>) -> int
    decreases s.len(),
{
    if s.len() == 0 {
        0
    } else {
        hex_value(s.drop_last()) * 16 + digit_value(s.last())
    }
}

proof fn lemma_hex16_prefix(h: u64, k: int)
    requires
        1 <= k <= 16,
    ensures
        hex_value(hex16(h).take(k)) == (h >> ((64 - 4 * k) as u64)) as int,
    decreases k,
{
    let sh = (64 - 4 * k) as u64;
    let n = nibble(h, k - 1);
    assert(n == (h >> sh) & 0xf);
    assert(((h >> sh) & 0xf) < 16) by (bit_vector);
    assert(digit_value(hex_digit(n)) == n);
    assert(hex16(h).take(k).last() == hex_digit(n));
    if k == 1 {
        assert(hex16(h).take(1).drop_last() =~= Seq::<char>::empty());
        assert(sh == 60);
        assert((h >> 60u64) & 0xf == h >> 60u64) by (bit_vector);
        assert(hex_value(Seq::<char>::empty()) == 0);
        assert(hex_value(hex16(h).take(1)) == hex_value(hex16(h).take(1).drop_last()) * 16
            + digit_value(hex16(h).take(1).last()));
    } else {
        lemma_hex16_prefix(h, k - 1);
        assert(hex16(h).take(k).drop_last() =~= hex16(h).take(k - 1));
        let s4 = (sh + 4) as u64;
        assert(s4 == (64 - 4 * (k - 1)) as u64);
        assert(sh <= 56);
        assert((h >> s4) * 16 + ((h >> sh) & 0xf) == h >> sh) by (bit_vector)
            requires
                sh <= 56,
                s4 == sh + 4,
        ;
        assert(hex_value(hex16(h).take(k)) == hex_value(hex16(h).take(k - 1)) * 16 + digit_value(
            hex_digit(n),
        ));
    }
}

/// The sixteen hex digits of a subject write the whole 64-bit FNV-1a hash of
/// the URL's UTF-8 bytes, nothing cut or added: reading them back as a number
/// gives the hash.
pub proof fn law_subject_writes_the_whole_hash(url: Seq<char>)
    ensures
        hex_value(skolem_iri(url).skip(17)) == fnv1a(encode_utf8(url)) as int,
{
    reveal_strlit("urn:cms:bookmark:");
    let h = fnv1a(encode_utf8(url));
    assert(skolem_iri(url).skip(17) =~= hex16(h));
    lemma_hex16_prefix(h, 16);
    assert(hex16(h).take(16) =~= hex16(h));
    assert(h >> 0u64 == h) by (bit_vector);
}

// ---------------------------------------------------------------------------
// Titles
// ---------------------------------------------------------------------------

/// A bookmark's block carries its subject, its URL and its whole title: it
/// opens with `\n<`, the subject IRI and `> dc:identifier `, then the literal
/// of the full URL; right after it comes ` ;\n    dc:title ` and then the
/// literal of the full title. Each literal reads back as what it carries.
pub proof fn law_block_carries_url_and_whole_title(b: BookmarkModel)
    ensures
        ({
            let k0 = "\n<"@.len() + skolem_iri(b.url).len() + "> dc:identifier "@.len();
            let k = k0 + escape(b.url).len() + 2;
            let m = k + " ;\n    dc:title "@.len();
            &&& block(b).subrange(0, k0 as int) == "\n<"@ + skolem_iri(b.url) + "> dc:identifier "@
            &&& block(b).subrange(k0 as int, k as int) == seq!['"'] + escape(b.url) + seq!['"']
            &&& block(b).subrange(k as int, m as int) == " ;\n    dc:title "@
            &&& block(b).subrange(m as int, (m + escape(b.title).len() + 2) as int) == seq!['"']
                + escape(b.title) + seq!['"']
            &&& unescape(escape(b.url)) == b.url
            &&& unescape(escape(b.title)) == b.title
        }),
{
    law_literal_round_trip(b.title);
    law_literal_round_trip(b.url);
    let a0 = "\n<"@ + skolem_iri(b.url) + "> dc:identifier "@;
    let lu = literal(b.url);
    let k0 = a0.len();
    let k = k0 + lu.len();
    let hd = " ;\n    dc:title "@;
    let m = k + hd.len();
    let lt = literal(b.title);
    let rest = subjects(b.tags) + " .\n"@;
    assert(block(b) =~= a0 + lu + hd + lt + rest);
    assert(block(b).subrange(0, k0 as int) =~= a0);
    assert(block(b).subrange(k0 as int, k as int) =~= lu);
    assert(block(b).subrange(k as int, m as int) =~= hd);
    assert(block(b).subrange(m as int, (m + lt.len()) as int) =~= lt);
}

/// Each tag is one `dc:subject` triple, carrying the literal of the whole tag.
pub proof fn law_each_tag_is_one_subject(t: Seq<char>)
    ensures
        subjects(seq![t]) == " ;\n    dc:subject "@ + literal(t),
{
    assert(seq![t].drop_last() =~= Seq::<Seq<char>>::empty());
    assert(subjects(Seq::<Seq<char>>::empty()) =~= Seq::<char>::empty());
    assert(Seq::<char>::empty() + " ;\n    dc:subject "@ + literal(t) =~= " ;\n    dc:subject "@
        + literal(t));
}

// ---------------------------------------------------------------------------
// Lines
// ---------------------------------------------------------------------------

/// A text is read line by line: after a text that is empty or ends at a line
/// break, a line `l` (holding no line feed and not ending in a carriage return)
/// followed by `"\n"`, by `"\r\n"`, or by the end of the text is one more line,
/// `l` itself.
pub proof fn law_lines_end_at_line_breaks(a: Seq<char>, l: Seq<char>)
    requires
        a.len() == 0 || a.last() == '\n',
        forall|i: int| 0 <= i < l.len() ==> #[trigger] l[i] != '\n',
        l.len() == 0 || l.last() != '\r',
    ensures
        lines_of(a + l + seq!['\n']) == lines_of(a).push(l),
        lines_of(a + l + seq!['\r', '\n']) == lines_of(a).push(l),
        l.len() > 0 ==> lines_of(a + l) == lines_of(a).push(l),
{
    if a.len() > 0 {
        assert(a.drop_last() + seq![a.last()] =~= a);
    }
    assert(lines_fold(a).1.len() == 0);
    let la = lines_fold(a).0;
    assert(lines_of(a) == la);
    lemma_lines_fold_one_line(l);
    // "\n"
    let x = l + seq!['\n'];
    assert(x.drop_last() =~= l);
    assert(strip_cr(l) == l);
    assert(lines_fold(x) == (seq![l], Seq::<char>::empty()));
    lemma_lines_fold_concat(a, x);
    assert(a + l + seq!['\n'] =~= a + x);
    assert(la + seq![l] =~= la.push(l));
    // "\r\n"
    let lr = l + seq!['\r'];
    assert forall|i: int| 0 <= i < lr.len() implies #[trigger] lr[i] != '\n' by {
        if i < l.len() {
            assert(lr[i] == l[i]);
        }
    }
    lemma_lines_fold_one_line(lr);
    let y = lr + seq!['\n'];
    assert(y.drop_last() =~= lr);
    assert(lr.drop_last() =~= l);
    assert(strip_cr(lr) == l);
    assert(lines_fold(y) == (seq![l], Seq::<char>::empty()));
    lemma_lines_fold_concat(a, y);
    assert(a + l + seq!['\r', '\n'] =~= a + y);
    // end of text
    lemma_lines_fold_concat(a, l);
    assert(la + Seq::<Seq<char>>::empty() =~= la);
}

// ---------------------------------------------------------------------------
// Wrapped titles
// ---------------------------------------------------------------------------

proof fn lemma_find_pair_found(s: Seq<char>, a: char, b: char, k: int)
    requires
        0 <= k,
    ensures
        find_pair_from(s, a, b, k) matches Some(p) ==> k <= p && p + 1 < s.len() && s[p] == a
            && s[p + 1] == b,
    decreases s.len() - k,
{
    if k + 1 < s.len() && !(s[k] == a && s[k + 1] == b) {
        lemma_find_pair_found(s, a, b, k + 1);
    }
}

proof fn lemma_find_pair_some(s: Seq<char>, a: char, b: char, k: int, q: int)
    requires
        0 <= k <= q,
        q + 1 < s.len(),
        s[q] == a && s[q + 1] == b,
    ensures
        find_pair_from(s, a, b, k) is Some,
    decreases q - k,
{
    if k < q && !(s[k] == a && s[k + 1] == b) {
        lemma_find_pair_some(s, a, b, k + 1, q);
    }
}

proof fn lemma_one_line(l: Seq<char>)
    requires
        forall|i: int| 0 <= i < l.len() ==> #[trigger] l[i] != '\n' && l[i] != '\r',
    ensures
        lines_fold(l + seq!['\n']) == (seq![l], Seq::<char>::empty()),
{
    assert forall|i: int| 0 <= i < l.len() implies #[trigger] l[i] != '\n' by {}
    lemma_lines_fold_one_line(l);
    assert((l + seq!['\n']).drop_last() =~= l);
    assert(strip_cr(l) == l) by {
        if l.len() > 0 {
            assert(l[l.len() - 1] != '\r');
        }
    }
}

/// A title that wraps is stitched: a heading line `l1` that opens a link
/// without closing it, followed by a line `l2` that holds `"]]"`, reads as the
/// one heading `l1`, a space, and `l2` trimmed, in place of the two lines. The
/// bookmarks and the graph are those of the text with that one line.
pub proof fn law_wrapped_title_is_stitched(a: Seq<char>, l1: Seq<char>, l2: Seq<char>, b: Seq<char>)
    requires
        a.len() == 0 || a.last() == '\n',
        scan(lines_of(a)).pending is None,
        forall|i: int| 0 <= i < l1.len() ==> #[trigger] l1[i] != '\n' && l1[i] != '\r',
        forall|i: int| 0 <= i < l2.len() ==> #[trigger] l2[i] != '\n' && l2[i] != '\r',
        opens_unclosed(l1),
        has_pair(l2, ']', ']'),
    ensures
        ({
            let joined = l1 + seq![' '] + trim(l2);
            &&& bookmarks_in(a + l1 + seq!['\n'] + l2 + seq!['\n'] + b) == bookmarks_in(
                a + joined + seq!['\n'] + b,
            )
            &&& turtle(a + l1 + seq!['\n'] + l2 + seq!['\n'] + b) == turtle(
                a + joined + seq!['\n'] + b,
            )
        }),
{
    let joined = l1 + seq![' '] + trim(l2);
    // the joined line holds "]]", so it is one line and no wrapped title
    lemma_find_pair_found(l2, ']', ']', 0);
    let q = find_pair(l2, ']', ']')->0;
    law_trim_keeps_inner_chars(l2);
    let (i, j) = choose|i: int, j: int|
        {
            &&& 0 <= i <= j <= l2.len()
            &&& trim(l2) == l2.subrange(i, j)
            &&& forall|k: int| 0 <= k < i ==> is_white_space(#[trigger] l2[k])
            &&& forall|k: int| j <= k < l2.len() ==> is_white_space(#[trigger] l2[k])
            &&& i < j ==> !is_white_space(l2[i]) && !is_white_space(l2[j - 1])
        };
    assert(!is_white_space(']'));
    assert(i <= q) by {
        if q < i {
            assert(is_white_space(l2[q]));
        }
    }
    assert(q + 1 < j) by {
        if q + 1 >= j {
            assert(is_white_space(l2[q + 1]));
        }
    }
    let qj = l1.len() + 1 + (q - i);
    assert(joined[qj] == l2[q] && joined[qj + 1] == l2[q + 1]);
    lemma_find_pair_some(joined, ']', ']', 0, qj);
    assert(!opens_unclosed(joined));
    assert forall|k: int| 0 <= k < joined.len() implies #[trigger] joined[k] != '\n' && joined[k]
        != '\r' by {
        if k < l1.len() {
            assert(joined[k] == l1[k]);
        } else if k > l1.len() {
            assert(joined[k] == l2[k - l1.len() - 1 + i]);
        }
    }
    // the lines of both texts
    if a.len() > 0 {
        assert(a.drop_last() + seq![a.last()] =~= a);
    }
    assert(lines_fold(a).1.len() == 0);
    let la = lines_fold(a).0;
    let lb = lines_of(b);
    lemma_one_line(l1);
    lemma_one_line(l2);
    lemma_one_line(joined);
    let x1 = l1 + seq!['\n'];
    let x2 = l2 + seq!['\n'];
    let xj = joined + seq!['\n'];
    lemma_lines_fold_concat(a, x1);
    lemma_lines_fold_concat(a + x1, x2);
    lemma_lines_fold_concat(a + x1 + x2, b);
    lemma_lines_fold_concat(a, xj);
    lemma_lines_fold_concat(a + xj, b);
    assert(a + l1 + seq!['\n'] + l2 + seq!['\n'] + b =~= a + x1 + x2 + b);
    assert(a + joined + seq!['\n'] + b =~= a + xj + b);
    let lines2 = la + seq![l1] + seq![l2];
    assert(lines_of(a + x1 + x2 + b) =~= lines2 + lb);
    assert(lines_of(a + xj + b) =~= (la + seq![joined]) + lb);
    // reading them
    let sa = scan(la);
    assert(lines_of(a) == la);
    lemma_scan_is_scan_from(la);
    lemma_scan_is_scan_from(lines2 + lb);
    lemma_scan_is_scan_from((la + seq![joined]) + lb);
    lemma_scan_from_concat(initial(), lines2, lb);
    lemma_scan_from_concat(initial(), la + seq![joined], lb);
    lemma_scan_from_concat(initial(), la, seq![l1] + seq![l2]);
    assert(lines2 =~= la + (seq![l1] + seq![l2]));
    lemma_scan_from_concat(initial(), la, seq![joined]);
    let two = seq![l1] + seq![l2];
    assert(two.drop_last() =~= seq![l1]);
    assert(two.last() == l2);
    assert(seq![l1].drop_last() =~= Seq::<Seq<char>>::empty());
    assert(seq![joined].drop_last() =~= Seq::<Seq<char>>::empty());
    assert(scan_from(sa, seq![l1].drop_last()) == sa);
    assert(scan_from(sa, seq![joined].drop_last()) == sa);
    assert(scan_from(sa, seq![l1]) == step(sa, l1));
    assert(scan_from(sa, two) == step(step(sa, l1), l2));
    assert(scan_from(sa, seq![joined]) == step(sa, joined));
    assert(step(step(sa, l1), l2) == step(sa, joined));
}

} // verus!
