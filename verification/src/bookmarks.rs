//! The transreptor: an org-mode bookmarks file, read line by line, becomes a
//! Turtle graph with one skolemized resource per `[[url][title]]` heading.
use vstd::prelude::*;
use crate::org::{drawer_tags, heading_link_chars, link_of, opens_unclosed, opens_unclosed_link_chars, tag_line_chars};
use crate::text::{find_pair_in, has_pair, lines_fold, lines_of, strip_cr, trim, trim_range, views};
use crate::turtle::{block, block_opt, emit, opt_view, Bookmark, BookmarkModel};

verus! {

// ---------------------------------------------------------------------------
// What a bookmarks file says
// ---------------------------------------------------------------------------

/// `b` with `tags` appended to its tags.
pub open spec fn with_tags(b: BookmarkModel, tags: Seq<Seq<char>>) -> BookmarkModel {
    BookmarkModel { url: b.url, title: b.title, tags: b.tags + tags }
}

/// What a heading `h` does to the bookmark being read, `cur`: the bookmark
/// being read after it, and the bookmark it completes, if any. A link heading
/// completes `cur` and opens a new bookmark without tags; a drawer line adds
/// its tags to `cur` (to nothing, before the first bookmark); any other line
/// changes nothing.
pub open spec fn on_heading(cur: Option<BookmarkModel>, h: Seq<char>) -> (
    Option<BookmarkModel>,
    Option<BookmarkModel>,
) {
    match link_of(h) {
        Some((url, title)) => (Some(BookmarkModel { url, title, tags: seq![] }), cur),
        None => match drawer_tags(h) {
            Some(tags) => (
                match cur {
                    Some(b) => Some(with_tags(b, tags)),
                    None => None,
                },
                None,
            ),
            None => (cur, None),
        },
    }
}

/// `done` with `b` appended, if there is one.
pub open spec fn push_opt(done: Seq<BookmarkModel>, b: Option<BookmarkModel>) -> Seq<
    BookmarkModel,
> {
    match b {
        Some(b) => done.push(b),
        None => done,
    }
}

/// Where the reading of a bookmarks file stands after some lines: the bookmark
/// being read, the bookmarks completed, and the heading being stitched
/// together from a title that wraps over several lines.
pub struct ScanState {
    pub cur: Option<BookmarkModel>,
    pub done: Seq<BookmarkModel>,
    pub pending: Option<Seq<char>>,
}

/// The state before the first line.
pub open spec fn initial() -> ScanState {
    ScanState { cur: None, done: seq![], pending: None }
}

/// `st` after the heading `h` is read.
pub open spec fn take_heading(st: ScanState, h: Seq<char>) -> ScanState {
    let (cur, closed) = on_heading(st.cur, h);
    ScanState { cur, done: push_opt(st.done, closed), pending: None }
}

/// `st` after one more line. While a wrapped title is being stitched, the line
/// is trimmed and joined to it by a space; the line that holds `"]]"` ends the
/// heading. Otherwise a heading that opens a link without closing it starts a
/// stitch, and any other line is a heading by itself.
pub open spec fn step(st: ScanState, line: Seq<char>) -> ScanState {
    match st.pending {
        Some(buf) => {
            let joined = buf + seq![' '] + trim(line);
            if has_pair(line, ']', ']') {
                take_heading(st, joined)
            } else {
                ScanState { cur: st.cur, done: st.done, pending: Some(joined) }
            }
        },
        None => if opens_unclosed(line) {
            ScanState { cur: st.cur, done: st.done, pending: Some(line) }
        } else {
            take_heading(st, line)
        },
    }
}

/// The state after `lines`, read in order.
pub open spec fn scan(lines: Seq<Seq<char>>) -> ScanState
    decreases lines.len(),
{
    if lines.len() == 0 {
        initial()
    } else {
        step(scan(lines.drop_last()), lines.last())
    }
}

/// The bookmarks read once the file ends: a stitch still open is a heading, and
/// the bookmark being read is complete.
pub open spec fn finish(st: ScanState) -> Seq<BookmarkModel> {
    let st2 = match st.pending {
        Some(buf) => take_heading(st, buf),
        None => st,
    };
    push_opt(st2.done, st2.cur)
}

/// The bookmarks of an org text, in file order.
pub open spec fn bookmarks_in(org: Seq<char>) -> Seq<BookmarkModel> {
    finish(scan(lines_of(org)))
}

/// The blocks of `bs`, in order.
pub open spec fn blocks(bs: Seq<BookmarkModel>) -> Seq<char>
    decreases bs.len(),
{
    if bs.len() == 0 {
        seq![]
    } else {
        blocks(bs.drop_last()) + block(bs.last())
    }
}

/// The Turtle prologue: the Dublin Core elements namespace as `dc:`.
pub open spec fn turtle_header() -> Seq<char> {
    "@prefix dc: <http://purl.org/dc/elements/1.1/> .\n"@
}

/// The Turtle graph of an org bookmarks text: the prologue, then one block per
/// bookmark in file order.
pub open spec fn turtle(org: Seq<char>) -> Seq<char> {
    turtle_header() + blocks(bookmarks_in(org))
}

// ---------------------------------------------------------------------------
// Reading it
// ---------------------------------------------------------------------------

/// The stitch buffer an `Option<Vec<char>>` holds, if any.
pub open spec fn pending_view(p: Option<Vec<char>>) -> Option<Seq<char>> {
    match p {
        Some(v) => Some(v@),
        None => None,
    }
}

proof fn lemma_blocks_push_opt(done: Seq<BookmarkModel>, b: Option<BookmarkModel>)
    ensures
        blocks(push_opt(done, b)) == blocks(done) + block_opt(b),
{
    match b {
        Some(x) => {
            assert(done.push(x).drop_last() =~= done);
        },
        None => {
            assert(blocks(done) + block_opt(b) =~= blocks(done));
        },
    }
}

/// Reads the heading `h`: writes the block of the bookmark it completes, if
/// any, and gives the bookmark being read after it.
fn read_heading(out: &mut String, cur: Option<Bookmark>, h: &[char]) -> (next: Option<Bookmark>)
    ensures
        opt_view(next) == on_heading(opt_view(cur), h@).0,
        final(out)@ == old(out)@ + block_opt(on_heading(opt_view(cur), h@).1),
{
    match heading_link_chars(h) {
        Some((url, title)) => {
            emit(out, cur);
            let b = Bookmark { url, title, tags: Vec::new() };
            assert(b@.tags =~= Seq::<Seq<char>>::empty());
            Some(b)
        },
        None => match tag_line_chars(h) {
            Some(mut tags) => {
                assert(old(out)@ + block_opt(None) =~= old(out)@);
                match cur {
                    Some(mut b) => {
                        let ghost before = b@;
                        let ghost added = tags@;
                        b.tags.append(&mut tags);
                        assert(b@.tags =~= before.tags + views(added));
                        Some(b)
                    },
                    None => None,
                }
            },
            None => {
                assert(old(out)@ + block_opt(None) =~= old(out)@);
                cur
            },
        },
    }
}

/// Reads one line in state `st` (held by `cur`, `pending` and what `out`
/// already holds) and gives the new bookmark being read and stitch buffer.
fn read_line(
    out: &mut String,
    cur: Option<Bookmark>,
    pending: Option<Vec<char>>,
    line: Vec<char>,
    Ghost(st): Ghost<ScanState>,
) -> (r: (Option<Bookmark>, Option<Vec<char>>))
    requires
        st.cur == opt_view(cur),
        st.pending == pending_view(pending),
        old(out)@ == turtle_header() + blocks(st.done),
    ensures
        step(st, line@).cur == opt_view(r.0),
        step(st, line@).pending == pending_view(r.1),
        final(out)@ == turtle_header() + blocks(step(st, line@).done),
{
    let n = line.len();
    assert(line@.subrange(0, n as int) =~= line@);
    match pending {
        Some(mut buf) => {
            let ghost b0 = buf@;
            buf.push(' ');
            let (a, z) = trim_range(line.as_slice(), 0, n);
            let ghost joined = buf@ + line@.subrange(a as int, z as int);
            let mut k = a;
            while k < z
                invariant
                    a <= k <= z <= n == line@.len(),
                    buf@ + line@.subrange(k as int, z as int) == joined,
                decreases z - k,
            {
                let ghost b1 = buf@;
                buf.push(line[k]);
                assert(b1 + line@.subrange(k as int, z as int) =~= buf@ + line@.subrange(
                    k + 1,
                    z as int,
                ));
                k = k + 1;
            }
            assert(line@.subrange(z as int, z as int) =~= Seq::<char>::empty());
            assert(buf@ =~= joined);
            assert(joined =~= b0 + seq![' '] + trim(line@));
            if find_pair_in(line.as_slice(), 0, n, ']', ']').is_some() {
                let next = read_heading(out, cur, buf.as_slice());
                proof {
                    lemma_blocks_push_opt(st.done, on_heading(st.cur, buf@).1);
                }
                (next, None)
            } else {
                (cur, Some(buf))
            }
        },
        None => {
            if opens_unclosed_link_chars(line.as_slice()) {
                (cur, Some(line))
            } else {
                let next = read_heading(out, cur, line.as_slice());
                proof {
                    lemma_blocks_push_opt(st.done, on_heading(st.cur, line@).1);
                }
                (next, None)
            }
        },
    }
}

/// Reading one more char of a text advances its line split by that char.
proof fn lemma_lines_fold_take(s: Seq<char>, i: int)
    requires
        0 <= i < s.len(),
    ensures
        lines_fold(s.take(i + 1)) == (if s[i] == '\n' {
            (lines_fold(s.take(i)).0.push(strip_cr(lines_fold(s.take(i)).1)), Seq::<char>::empty())
        } else {
            (lines_fold(s.take(i)).0, lines_fold(s.take(i)).1.push(s[i]))
        }),
{
    assert(s.take(i + 1).drop_last() =~= s.take(i));
}

/// Ends the reading in state `st`: a stitch still open is read as a heading and
/// the bookmark being read is written.
fn finish_reading(
    out: &mut String,
    cur: Option<Bookmark>,
    pending: Option<Vec<char>>,
    Ghost(st): Ghost<ScanState>,
)
    requires
        st.cur == opt_view(cur),
        st.pending == pending_view(pending),
        old(out)@ == turtle_header() + blocks(st.done),
    ensures
        final(out)@ == turtle_header() + blocks(finish(st)),
{
    let ghost st2 = match st.pending {
        Some(buf) => take_heading(st, buf),
        None => st,
    };
    let mut cur = cur;
    match pending {
        Some(buf) => {
            cur = read_heading(out, cur, buf.as_slice());
            proof {
                lemma_blocks_push_opt(st.done, on_heading(st.cur, buf@).1);
            }
        },
        None => {},
    }
    emit(out, cur);
    proof {
        lemma_blocks_push_opt(st2.done, st2.cur);
    }
}

/// Transrept org bookmarks to Turtle: the Dublin Core prologue, then, for each
/// `[[url][title]]` heading in file order, a skolemized resource carrying its
/// URL as `dc:identifier`, its title as `dc:title` and a `dc:subject` per tag of
/// the drawers that follow it. A title that wraps over lines is stitched back
/// together; any other line is ignored. An empty text is an empty graph.
pub fn bookmarks_to_turtle(org: &str) -> (ttl: String)
    ensures
        ttl@ == turtle(org@),
{
    let mut out = String::new();
    out.append("@prefix dc: <http://purl.org/dc/elements/1.1/> .\n");
    assert(out@ =~= turtle_header() + blocks(initial().done));
    let mut cur: Option<Bookmark> = None;
    let mut pending: Option<Vec<char>> = None;
    let mut line: Vec<char> = Vec::new();
    let ghost mut st = initial();
    for c in it: org.chars()
        invariant
            it.seq() == org@,
            line@ == lines_fold(org@.take(it.index() as int)).1,
            st == scan(lines_fold(org@.take(it.index() as int)).0),
            st.cur == opt_view(cur),
            st.pending == pending_view(pending),
            out@ == turtle_header() + blocks(st.done),
    {
        proof {
            lemma_lines_fold_take(org@, it.index() as int);
        }
        let ghost d = lines_fold(org@.take(it.index() as int)).0;
        if c == '\n' {
            if line.len() > 0 && line[line.len() - 1] == '\r' {
                line.pop();
            }
            assert(d.push(line@).drop_last() =~= d);
            let ghost lv = line@;
            let (c2, p2) = read_line(&mut out, cur, pending, line, Ghost(st));
            cur = c2;
            pending = p2;
            proof {
                st = step(st, lv);
            }
            line = Vec::new();
        } else {
            line.push(c);
        }
    }
    assert(org@.take(org@.len() as int) =~= org@);
    let ghost d = lines_fold(org@).0;
    if line.len() > 0 {
        assert(d.push(line@).drop_last() =~= d);
        let ghost lv = line@;
        let (c2, p2) = read_line(&mut out, cur, pending, line, Ghost(st));
        cur = c2;
        pending = p2;
        proof {
            st = step(st, lv);
        }
    }
    assert(st == scan(lines_of(org@)));
    finish_reading(&mut out, cur, pending, Ghost(st));
    out
}

} // verus!
