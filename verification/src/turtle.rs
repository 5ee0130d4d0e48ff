//! Writing bookmarks as Turtle: string literals with the minimal escapes,
//! skolem subject IRIs (FNV-1a of the URL, as sixteen lower-case hex digits)
//! and one block of Dublin Core triples per bookmark.
use vstd::prelude::*;
use vstd::utf8::encode_utf8;
use vstd::wrapping::u64_specs::wrapping_mul;
use crate::text::{push_char, views};

verus! {

// ---------------------------------------------------------------------------
// String literals
// ---------------------------------------------------------------------------

/// How one char is written inside a Turtle `"…"` literal.
pub open spec fn escape_char(c: char) -> Seq<char> {
    if c == '\\' {
        seq!['\\', '\\']
    } else if c == '"' {
        seq!['\\', '"']
    } else if c == '\n' {
        seq!['\\', 'n']
    } else if c == '\r' {
        seq!['\\', 'r']
    } else if c == '\t' {
        seq!['\\', 't']
    } else {
        seq![c]
    }
}

/// `s` with every char escaped as `escape_char` says.
pub open spec fn escape(s: Seq<char>) -> Seq<char>
    decreases s.len(),
{
    if s.len() == 0 {
        seq![]
    } else {
        escape(s.drop_last()) + escape_char(s.last())
    }
}

/// The Turtle string literal for `s`: `'"'`, the escaped chars, `'"'`.
pub open spec fn literal(s: Seq<char>) -> Seq<char> {
    seq!['"'] + escape(s) + seq!['"']
}

/// A Turtle string literal with the minimal escapes.
pub fn ttl_str(s: &str) -> (r: String)
    ensures
        r@ == literal(s@),
{
    let mut out = String::new();
    push_char(&mut out, '"');
    for c in it: s.chars()
        invariant
            it.seq() == s@,
            out@ == seq!['"'] + escape(s@.take(it.index() as int)),
    {
        let ghost before = out@;
        if c == '\\' {
            push_char(&mut out, '\\');
            push_char(&mut out, '\\');
        } else if c == '"' {
            push_char(&mut out, '\\');
            push_char(&mut out, '"');
        } else if c == '\n' {
            push_char(&mut out, '\\');
            push_char(&mut out, 'n');
        } else if c == '\r' {
            push_char(&mut out, '\\');
            push_char(&mut out, 'r');
        } else if c == '\t' {
            push_char(&mut out, '\\');
            push_char(&mut out, 't');
        } else {
            push_char(&mut out, c);
        }
        assert(out@ =~= before + escape_char(c));
        assert(s@.take(it.index() + 1).drop_last() =~= s@.take(it.index() as int));
    }
    assert(s@.take(s@.len() as int) =~= s@);
    push_char(&mut out, '"');
    out
}

// ---------------------------------------------------------------------------
// Skolem subjects
// ---------------------------------------------------------------------------

/// The FNV-1a 64-bit offset basis.
pub const FNV_OFFSET: u64 = 0xcbf2_9ce4_8422_2325;

/// The FNV-1a 64-bit prime.
pub const FNV_PRIME: u64 = 0x0000_0100_0000_01b3;

/// FNV-1a (64 bit) of `bytes`: from the offset basis, each byte in turn is
/// xor-ed in and the result multiplied by the prime, modulo 2^64.
pub open spec fn fnv1a(bytes: Seq<u8>) -> u64
    decreases bytes.len(),
{
    if bytes.len() == 0 {
        FNV_OFFSET
    } else {
        wrapping_mul(fnv1a(bytes.drop_last()) ^ (bytes.last() as u64), FNV_PRIME)
    }
}

/// The lower-case hex digit of `n < 16`.
pub open spec fn hex_digit(n: u64) -> char {
    if n < 10 {
        (48 + n) as char
    } else {
        (87 + n) as char
    }
}

/// Hex digit `i` (from the most significant) of `h`.
pub open spec fn nibble(h: u64, i: int) -> u64 {
    (h >> ((60 - 4 * i) as u64)) & 0xf
}

/// `h` as sixteen lower-case hex digits, most significant first, zero-padded.
pub open spec fn hex16(h: u64) -> Seq<char> {
    Seq::new(16, |i: int| hex_digit(nibble(h, i)))
}

/// The subject IRI minted for a bookmark URL: `urn:cms:bookmark:` and the
/// FNV-1a of the URL's UTF-8 bytes as sixteen hex digits.
pub open spec fn skolem_iri(url: Seq<char>) -> Seq<char> {
    "urn:cms:bookmark:"@ + hex16(fnv1a(encode_utf8(url)))
}

/// A stable, opaque, always-valid IRI for a bookmark: FNV-1a over its URL. The
/// URL itself is carried as a `dc:identifier` literal, so a malformed URL can
/// never leak into an invalid subject IRI. Same URL, same subject.
pub fn skolem(url: &str) -> (r: String)
    ensures
        r@ == skolem_iri(url@),
{
    let bytes = url.as_bytes();
    let mut hash: u64 = FNV_OFFSET;
    let mut i: usize = 0;
    while i < bytes.len()
        invariant
            i <= bytes@.len(),
            bytes@ == encode_utf8(url@),
            hash == fnv1a(bytes@.take(i as int)),
        decreases bytes@.len() - i,
    {
        assert(bytes@.take(i + 1).drop_last() =~= bytes@.take(i as int));
        hash = (hash ^ (bytes[i] as u64)).wrapping_mul(FNV_PRIME);
        i = i + 1;
    }
    assert(bytes@.take(bytes@.len() as int) =~= bytes@);
    let mut out = String::new();
    out.append("urn:cms:bookmark:");
    let ghost prefix = out@;
    let mut k: u64 = 0;
    while k < 16
        invariant
            k <= 16,
            out@ == prefix + hex16(hash).take(k as int),
        decreases 16 - k,
    {
        let shift: u64 = 60 - 4 * k;
        let nib: u64 = (hash >> shift) & 0xf;
        assert(nib == nibble(hash, k as int));
        assert(((hash >> shift) & 0xf) < 16) by (bit_vector);
        let d: u8 = if nib < 10 {
            48 + nib as u8
        } else {
            87 + nib as u8
        };
        let c = d as char;
        assert(c == hex_digit(nib));
        push_char(&mut out, c);
        assert(hex16(hash).take(k + 1) =~= hex16(hash).take(k as int).push(c));
        k = k + 1;
    }
    assert(hex16(hash).take(16) =~= hex16(hash));
    out
}

// ---------------------------------------------------------------------------
// Bookmark blocks
// ---------------------------------------------------------------------------

/// What a bookmark holds: its URL, its title and its tags.
pub struct BookmarkModel {
    pub url: Seq<char>,
    pub title: Seq<char>,
    pub tags: Seq<Seq<char>>,
}

/// A parsed bookmark: its URL (carried as `dc:identifier`; the subject IRI is
/// a skolem hashed from it), title, and tags.
pub struct Bookmark {
    pub url: String,
    pub title: String,
    pub tags: Vec<String>,
}

impl View for Bookmark {
    type V = BookmarkModel;

    open spec fn view(&self) -> BookmarkModel {
        BookmarkModel { url: self.url@, title: self.title@, tags: views(self.tags@) }
    }
}

/// The bookmark an `Option<Bookmark>` holds, if any.
pub open spec fn opt_view(b: Option<Bookmark>) -> Option<BookmarkModel> {
    match b {
        Some(b) => Some(b@),
        None => None,
    }
}

/// One `dc:subject` triple (continuing the block of a bookmark) per tag.
pub open spec fn subjects(tags: Seq<Seq<char>>) -> Seq<char>
    decreases tags.len(),
{
    if tags.len() == 0 {
        seq![]
    } else {
        subjects(tags.drop_last()) + " ;\n    dc:subject "@ + literal(tags.last())
    }
}

/// The Turtle block of one bookmark: its skolem subject with a `dc:identifier`
/// (the URL), a `dc:title` and one `dc:subject` per tag, every object a literal.
pub open spec fn block(b: BookmarkModel) -> Seq<char> {
    "\n<"@ + skolem_iri(b.url) + "> dc:identifier "@ + literal(b.url) + " ;\n    dc:title "@
        + literal(b.title) + subjects(b.tags) + " .\n"@
}

/// The block of a bookmark, or nothing.
pub open spec fn block_opt(b: Option<BookmarkModel>) -> Seq<char> {
    match b {
        Some(b) => block(b),
        None => seq![],
    }
}

/// Write one bookmark's triples. Skolemized: the subject is a stable minted IRI
/// (a hash of the URL), not the raw URL; the URL rides as a `dc:identifier`
/// literal.
pub fn emit(out: &mut String, bookmark: Option<Bookmark>)
    ensures
        final(out)@ == old(out)@ + block_opt(opt_view(bookmark)),
{
    let b = match bookmark {
        Some(b) => b,
        None => {
            assert(old(out)@ + block_opt(None) =~= old(out)@);
            return ;
        },
    };
    let ghost start = out@;
    out.append("\n<");
    let subject = skolem(b.url.as_str());
    out.append(subject.as_str());
    out.append("> dc:identifier ");
    let id = ttl_str(b.url.as_str());
    out.append(id.as_str());
    out.append(" ;\n    dc:title ");
    let title = ttl_str(b.title.as_str());
    out.append(title.as_str());
    let ghost head = out@;
    let mut i: usize = 0;
    while i < b.tags.len()
        invariant
            i <= b.tags@.len(),
            out@ == head + subjects(views(b.tags@).take(i as int)),
        decreases b.tags@.len() - i,
    {
        assert(views(b.tags@).take(i + 1).drop_last() =~= views(b.tags@).take(i as int));
        out.append(" ;\n    dc:subject ");
        let tag = ttl_str(b.tags[i].as_str());
        out.append(tag.as_str());
        i = i + 1;
    }
    assert(views(b.tags@).take(b.tags@.len() as int) =~= views(b.tags@));
    out.append(" .\n");
    assert(out@ =~= start + block(b@));
}

} // verus!
