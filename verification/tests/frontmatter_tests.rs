use river_gateway::frontmatter::{
    cap_chars, read_frontmatter_field, read_frontmatter_id, strip_frontmatter, unquote,
};

#[test]
fn read_frontmatter_field_handles_adversarial_shapes() {
    assert_eq!(
        read_frontmatter_field("---\nid: 01A\n---\nbody", "id").as_deref(),
        Some("01A")
    );
    assert_eq!(
        read_frontmatter_field("---\nid: \"01B\"\n---\nbody", "id").as_deref(),
        Some("01B")
    );
    assert_eq!(
        read_frontmatter_field("---\nshape: has:colons\n---\nbody", "shape").as_deref(),
        Some("has:colons")
    );
    assert!(read_frontmatter_field("---\nid: \n---\nbody", "id").is_none());
    assert!(read_frontmatter_field("---\nother: v\n---\nbody", "id").is_none());
    assert!(read_frontmatter_field("just body", "id").is_none());
    assert!(read_frontmatter_field("---\nid: 01A\nnever ended", "id").is_none());
}

#[test]
fn unquote_only_strips_paired_delimiters() {
    assert_eq!(unquote("bare"), "bare");
    assert_eq!(unquote("\"double\""), "double");
    assert_eq!(unquote("'single'"), "single");
    assert_eq!(unquote("\"unpaired"), "\"unpaired");
    assert_eq!(unquote("unpaired\""), "unpaired\"");
    assert_eq!(unquote("  \"padded\"  "), "padded");
}

#[test]
fn cap_chars_utf8_and_boundary() {
    assert_eq!(cap_chars("hello", 100), "hello", "under cap: unchanged");
    assert_eq!(cap_chars("hello", 5), "hello", "at cap: unchanged");
    let out = cap_chars("hello", 4);
    assert_eq!(out, "hell…", "over cap: 4 chars + ellipsis");
    let wide: String = "字".repeat(1000);
    let out = cap_chars(&wide, 200);
    assert_eq!(out.chars().count(), 201, "200 chars + ellipsis");
    assert!(out.chars().take(200).all(|c| c == '字'));
}

#[test]
fn read_frontmatter_id_finds_bare_and_quoted() {
    let bare = "---\nid: 01ABC\ncreated: t\n---\nbody";
    assert_eq!(read_frontmatter_id(bare).as_deref(), Some("01ABC"));
    let quoted = "---\nid: \"01DEF\"\ncreated: t\n---\nbody";
    assert_eq!(read_frontmatter_id(quoted).as_deref(), Some("01DEF"));
    let no_id = "---\ncreated: t\n---\nbody";
    assert!(read_frontmatter_id(no_id).is_none());
    let no_fm = "just body\n";
    assert!(read_frontmatter_id(no_fm).is_none());
}

#[test]
fn strip_frontmatter_returns_body_only() {
    let with = "---\nid: 01A\n---\n\nthe body\n";
    assert_eq!(strip_frontmatter(with), "the body\n");
    let without = "just body\n";
    assert_eq!(strip_frontmatter(without), "just body\n");
}

#[test]
fn strip_frontmatter_degrades_gracefully_on_malformed() {
    assert_eq!(strip_frontmatter("no fm here\nline"), "no fm here\nline");
    assert_eq!(
        strip_frontmatter("---\nid: 01A\nnever closed"),
        "---\nid: 01A\nnever closed"
    );
    let out = strip_frontmatter("---\n---\n");
    assert!(out.is_empty() || out == "\n", "empty fm produces empty body, got {out:?}");
    let with_dashes_in_body = "---\nid: 01A\n---\n\nline one\n---\nline two\n";
    let stripped = strip_frontmatter(with_dashes_in_body);
    assert!(stripped.contains("line one"));
    assert!(stripped.contains("line two"));
    assert!(!stripped.contains("id: 01A"));
}

#[test]
fn read_frontmatter_id_rejects_empty_and_handles_adversarial_values() {
    assert!(read_frontmatter_id("---\nid: \n---\nbody").is_none());
    assert!(read_frontmatter_id("---\nid:\n---\nbody").is_none());
    assert_eq!(
        read_frontmatter_id("---\nid: 01WS   \n---\nbody").as_deref(),
        Some("01WS")
    );
    assert_eq!(
        read_frontmatter_id("---\nid: has:colons:in:it\n---\nbody").as_deref(),
        Some("has:colons:in:it")
    );
    let with_body_id = "---\ncreated: t\n---\nid: 01BODY\nreal body";
    assert!(read_frontmatter_id(with_body_id).is_none());
}

#[test]
fn strip_frontmatter_of_empty_block_keeps_following_text() {
    assert_eq!(strip_frontmatter("---\n---\n\nafter\n"), "after\n");
}
