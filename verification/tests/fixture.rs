use ikigai_cms::bookmarks_to_turtle;

const HEADER: &str = "@prefix dc: <http://purl.org/dc/elements/1.1/> .\n";

/// A bookmarks file with every shape the reader handles: a `:TAG:` drawer, a
/// `:TAGS:` drawer, a title wrapped across lines, a URL that is not a valid IRI,
/// a link without a title, and prose that is not a bookmark.
const ORG: &str = "\
#+TITLE: Bookmarks

* Bookmarks
some prose about bookmarks
** [[https://webassembly.org][WebAssembly]]
   :PROPERTIES:
   :TAG: webassembly wasm
   :END:
** [[http://x.example/nasa][NASA -
   Aquarius Yields Map]]
   :PROPERTIES:
   :TAGS: nasa science
   :END:
** [[https://ex.com/a%qi][Not an IRI]]
   :TAG: shared
** [[https://ex.com/bare]]
   :TAG: shared
";

/// One more bookmark, appended to the file.
const EDIT: &str = "** [[https://ex.com/new][Board game night]]\n   :TAG: games\n";

#[test]
fn the_fixture_is_the_bookmark_graph() {
    let ttl = bookmarks_to_turtle(ORG);
    // 4 bookmarks × (identifier + title) + 6 tags.
    assert_eq!(ttl.matches("dc:identifier ").count(), 4, "{ttl}");
    assert_eq!(ttl.matches("dc:title ").count(), 4, "{ttl}");
    assert_eq!(ttl.matches("dc:subject ").count(), 6, "{ttl}");
    // One skolem subject per bookmark: sixteen hex digits.
    let subjects: Vec<&str> = ttl
        .lines()
        .filter(|l| l.starts_with('<'))
        .map(|l| l.split(' ').next().unwrap())
        .collect();
    assert_eq!(subjects.len(), 4, "{ttl}");
    for subject in &subjects {
        assert!(subject.starts_with("<urn:cms:bookmark:") && subject.ends_with('>'), "{subject}");
        assert_eq!(subject.len(), "<urn:cms:bookmark:>".len() + 16, "{subject}");
        let hex = &subject["<urn:cms:bookmark:".len()..subject.len() - 1];
        assert!(hex.chars().all(|c| c.is_ascii_hexdigit() && !c.is_ascii_uppercase()), "{subject}");
    }

    assert!(
        ttl.contains("dc:identifier \"https://webassembly.org\""),
        "{ttl}"
    );
    assert!(ttl.contains("dc:subject \"wasm\""), "{ttl}");
    assert!(
        ttl.contains("dc:title \"NASA - Aquarius Yields Map\""),
        "a wrapped title is stitched:\n{ttl}"
    );
    assert!(
        ttl.contains("dc:subject \"science\""),
        "a :TAGS: drawer:\n{ttl}"
    );
    assert!(
        ttl.contains("dc:identifier \"https://ex.com/a%qi\"")
            && !ttl.contains("<https://ex.com/a%qi>"),
        "a malformed URL is carried verbatim, never as an IRI:\n{ttl}"
    );
    assert!(
        ttl.contains("dc:title \"https://ex.com/bare\""),
        "a link without a title is titled by its URL:\n{ttl}"
    );
    assert_eq!(
        ttl.matches("dc:subject \"shared\"").count(),
        2,
        "the tag axis joins entries:\n{ttl}"
    );
    assert!(!ttl.contains("some prose"), "{ttl}");
}

#[test]
fn an_appended_bookmark_appends_its_block() {
    let first = bookmarks_to_turtle(ORG);
    let edit = bookmarks_to_turtle(EDIT);
    let both = bookmarks_to_turtle(&format!("{ORG}{EDIT}"));
    assert_eq!(both, format!("{first}{}", &edit[HEADER.len()..]));
    assert!(both.contains("dc:title \"Board game night\""), "{both}");
    assert!(!first.contains("Board game night"), "{first}");
}
