use ikigai_cms::{bookmarks_to_turtle, skolem};

#[test]
fn a_bookmark_becomes_a_skolemized_resource_carrying_its_url() {
    let org = "* Bookmarks\n\
               ** [[https://webassembly][WebAssembly]]\n\
               \x20  :PROPERTIES:\n\
               \x20  :TAG: webassembly wasm\n\
               \x20  :END:\n";
    let ttl = bookmarks_to_turtle(org);
    // Subject is a stable minted urn; the URL rides as a dc:identifier literal.
    assert!(ttl.contains("<urn:cms:bookmark:"), "{ttl}");
    assert!(
        ttl.contains("dc:identifier \"https://webassembly\""),
        "{ttl}"
    );
    assert!(ttl.contains("dc:title \"WebAssembly\""), "{ttl}");
    assert!(ttl.contains("dc:subject \"webassembly\""), "{ttl}");
    assert!(ttl.contains("dc:subject \"wasm\""), "{ttl}");
}

#[test]
fn tags_share_the_dc_subject_axis_across_entries() {
    // The whole point: `dc:subject` is the join. "shared" appears on both.
    let org = "** [[https://a][A]]\n   :TAG: shared\n\
               ** [[https://b][B]]\n   :TAG: shared other\n";
    let ttl = bookmarks_to_turtle(org);
    assert_eq!(ttl.matches("dc:subject \"shared\"").count(), 2, "{ttl}");
}

#[test]
fn a_link_without_a_title_uses_the_url_and_a_title_quote_is_escaped() {
    let ttl = bookmarks_to_turtle("** [[https://x]]\n");
    assert!(ttl.contains("dc:identifier \"https://x\""), "{ttl}");
    assert!(ttl.contains("dc:title \"https://x\""), "{ttl}");
    let ttl = bookmarks_to_turtle("** [[https://y][He said \"hi\"]]\n");
    assert!(ttl.contains("dc:title \"He said \\\"hi\\\"\""), "{ttl}");
}

#[test]
fn non_bookmark_lines_are_ignored() {
    let ttl = bookmarks_to_turtle("* Bookmarks\nsome prose\n* Another Section\n");
    assert!(!ttl.contains("dc:title"), "{ttl}");
}

#[test]
fn a_title_that_wraps_across_lines_is_stitched_and_keeps_its_tags() {
    // A Pinboard title split over two lines (the closing `]]` on the second) —
    // the whole bookmark, including the drawer that follows, must survive.
    let org = "** [[http://x][NASA - \n\
               Aquarius Yields Map]]\n\
               \x20  :PROPERTIES:\n\
               \x20  :TAGS: nasa science\n\
               \x20  :END:\n";
    let ttl = bookmarks_to_turtle(org);
    assert!(ttl.contains("dc:identifier \"http://x\""), "{ttl}");
    assert!(
        ttl.contains("dc:title \"NASA - Aquarius Yields Map\""),
        "{ttl}"
    );
    assert!(ttl.contains("dc:subject \"nasa\""), "{ttl}");
    assert!(ttl.contains("dc:subject \"science\""), "{ttl}");
}

#[test]
fn a_malformed_url_yields_a_valid_subject_and_a_verbatim_identifier() {
    // The reason to skolemize: a bare `%`, a stray `#`, or a space make a URL an
    // invalid IRI. It must never be the subject — the subject is always a urn, and
    // the URL is carried verbatim as a dc:identifier literal.
    for url in [
        "https://ex.com/a%qi",
        "https://ex.com/p#a#b",
        "https://ex.com/a b",
    ] {
        let ttl = bookmarks_to_turtle(&format!("** [[{url}][X]]\n"));
        assert!(ttl.contains("<urn:cms:bookmark:"), "not skolemized: {ttl}");
        assert!(
            !ttl.contains(&format!("<{url}>")),
            "raw URL leaked as IRI: {ttl}"
        );
        assert!(
            ttl.contains(&format!("dc:identifier \"{url}\"")),
            "URL not carried verbatim: {ttl}"
        );
    }
}

#[test]
fn the_same_url_skolemizes_stably() {
    // Same URL → same subject (diffable), regardless of the title.
    let ttl = bookmarks_to_turtle("** [[https://ex.com/x][Anything]]\n");
    assert!(
        ttl.contains(&format!("<{}>", skolem("https://ex.com/x"))),
        "{ttl}"
    );
}
