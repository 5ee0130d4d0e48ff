use ikigai_cms::{
    bookmarks_to_turtle, collapse_ws, emit, heading_link, opens_unclosed_link, skolem, tag_line,
    ttl_str, Bookmark,
};

const HEADER: &str = "@prefix dc: <http://purl.org/dc/elements/1.1/> .\n";

#[test]
fn an_empty_text_is_the_prologue_alone() {
    assert_eq!(bookmarks_to_turtle(""), HEADER);
}

#[test]
fn prose_and_drawers_alone_are_the_prologue_alone() {
    let org = "* Bookmarks\nprose\n:TAG: lost\n** Section [[not a link]]\n";
    assert_eq!(bookmarks_to_turtle(org), HEADER);
}

#[test]
fn one_bookmark_is_one_exact_block() {
    let ttl = bookmarks_to_turtle("** [[https://a][A]]\n  :TAG: x y\n");
    let expected = format!(
        "{HEADER}\n<urn:cms:bookmark:8dc2b015d78ab66d> dc:identifier \"https://a\" ;\n    dc:title \"A\" ;\n    dc:subject \"x\" ;\n    dc:subject \"y\" .\n"
    );
    assert_eq!(ttl, expected);
}

#[test]
fn blocks_follow_file_order_and_drawers_accumulate() {
    let org = "** [[https://a][A]]\n:TAG: one\n:tags: two\n** [[https://ex.com/x]]\n";
    let ttl = bookmarks_to_turtle(org);
    let expected = format!(
        "{HEADER}\n<urn:cms:bookmark:8dc2b015d78ab66d> dc:identifier \"https://a\" ;\n    dc:title \"A\" ;\n    dc:subject \"one\" ;\n    dc:subject \"two\" .\n\n<urn:cms:bookmark:0a9474f02273ca5b> dc:identifier \"https://ex.com/x\" ;\n    dc:title \"https://ex.com/x\" .\n"
    );
    assert_eq!(ttl, expected);
}

#[test]
fn crlf_line_endings_are_lines_too() {
    let ttl = bookmarks_to_turtle("** [[https://a][A]]\r\n:TAG: t\r\n");
    assert!(ttl.contains("dc:title \"A\" ;"), "{ttl}");
    assert!(ttl.contains("dc:subject \"t\" ."), "{ttl}");
}

#[test]
fn a_last_line_without_newline_is_read() {
    let ttl = bookmarks_to_turtle("** [[https://a][A]]");
    assert!(ttl.contains("dc:title \"A\""), "{ttl}");
}

#[test]
fn a_wrapped_title_that_never_closes_is_no_bookmark() {
    let ttl = bookmarks_to_turtle("** [[https://a][A title\nthat goes on\n");
    assert_eq!(ttl, HEADER);
}

#[test]
fn a_wrapped_title_over_three_lines_is_stitched() {
    let ttl = bookmarks_to_turtle("** [[https://a][One\n   two\n three]] :x:\n");
    assert!(ttl.contains("dc:title \"One two three\""), "{ttl}");
}

#[test]
fn ttl_str_escapes_the_five_chars() {
    assert_eq!(ttl_str("a\\b\"c\nd\re\tf"), "\"a\\\\b\\\"c\\nd\\re\\tf\"");
    assert_eq!(ttl_str(""), "\"\"");
    assert_eq!(ttl_str("é ü"), "\"é ü\"");
}

#[test]
fn skolem_is_fnv1a_in_sixteen_hex_digits() {
    assert_eq!(skolem(""), "urn:cms:bookmark:cbf29ce484222325");
    assert_eq!(skolem("a"), "urn:cms:bookmark:af63dc4c8601ec8c");
    assert_eq!(skolem("é"), "urn:cms:bookmark:0ac21707b7181e01");
    assert_eq!(skolem("https://ex.com/x"), "urn:cms:bookmark:0a9474f02273ca5b");
}

#[test]
fn skolem_ignores_everything_but_the_url() {
    let a = bookmarks_to_turtle("** [[https://a][A]]\n");
    let b = bookmarks_to_turtle("* [[https://a][Other]]\n:TAG: t\n");
    let subject = |t: &str| t.split('>').next().unwrap().to_string();
    assert_eq!(subject(&a), subject(&b));
}

#[test]
fn collapse_ws_trims_and_single_spaces() {
    assert_eq!(collapse_ws("  a \t b\u{3000}c  "), "a b c");
    assert_eq!(collapse_ws(" \n "), "");
    assert_eq!(collapse_ws("x"), "x");
    assert_eq!(collapse_ws(&collapse_ws(" p  q ")), "p q");
}

#[test]
fn heading_link_reads_url_and_title() {
    assert_eq!(
        heading_link("  *** [[ https://a ][  A   b ]] :tag:"),
        Some(("https://a".to_string(), "A b".to_string()))
    );
    assert_eq!(
        heading_link("* [[ https://a ]]"),
        Some(("https://a".to_string(), "https://a".to_string()))
    );
    assert_eq!(heading_link("* Section"), None);
    assert_eq!(heading_link("[[https://a][A]]"), None);
    assert_eq!(heading_link("** [[https://a][A"), None);
    assert_eq!(heading_link(":TAG: [[x]]"), None);
}

#[test]
fn opens_unclosed_link_marks_a_wrapped_title() {
    assert!(opens_unclosed_link("** [[http://x][NASA -"));
    assert!(!opens_unclosed_link("** [[http://x][NASA]]"));
    assert!(!opens_unclosed_link("** Section"));
    assert!(!opens_unclosed_link("[[http://x][NASA -"));
}

#[test]
fn tag_line_reads_drawers_in_any_case() {
    assert_eq!(
        tag_line("   :Tags: a  b "),
        Some(vec!["a".to_string(), "b".to_string()])
    );
    assert_eq!(tag_line(":TAG:"), Some(vec![]));
    assert_eq!(tag_line(":TAG:x"), Some(vec!["x".to_string()]));
    assert_eq!(tag_line(":TAGGED: x"), None);
    assert_eq!(tag_line(":PROPERTIES:"), None);
    assert_eq!(tag_line("* [[u][t]]"), None);
}

#[test]
fn emit_writes_one_block_or_nothing() {
    let mut out = String::from("x");
    emit(&mut out, None);
    assert_eq!(out, "x");
    emit(
        &mut out,
        Some(Bookmark {
            url: "a".to_string(),
            title: "T\"".to_string(),
            tags: vec!["s".to_string()],
        }),
    );
    assert_eq!(
        out,
        "x\n<urn:cms:bookmark:af63dc4c8601ec8c> dc:identifier \"a\" ;\n    dc:title \"T\\\"\" ;\n    dc:subject \"s\" .\n"
    );
}

#[test]
fn white_space_is_what_std_calls_white_space() {
    for n in 0u32..0x3100 {
        if let Some(c) = char::from_u32(n) {
            let got = collapse_ws(&format!("a{c}b"));
            assert_eq!(got == "a b", c.is_whitespace(), "U+{n:04X}");
        }
    }
}

#[test]
fn drawer_keys_ignore_ascii_case_only() {
    for n in 0u32..0x250 {
        if let Some(c) = char::from_u32(n) {
            let is_tag = tag_line(&format!(":TA{c}: x")).is_some();
            assert_eq!(is_tag, c.to_ascii_lowercase() == 'g', "U+{n:04X}");
        }
    }
}
