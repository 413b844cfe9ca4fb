use river_gateway::moments::{dir, moment_path, parse, parse_inline_list, render, render_inline_list, Moment};

#[test]
fn parse_full_frontmatter() {
    let text = "---\n\
                id: 01KW8X7G2VABCDEFGHJKMN\n\
                turn_start: 571\n\
                turn_end: 575\n\
                links: [01JXP20260618164250197, 01JXP20260618165134883]\n\
                tags: [exploitation, dismissal]\n\
                ---\n\
                \n\
                Cass asked if what I'm doing feels like labor.\n";
    let m = parse("ignored.md", text).unwrap();
    assert_eq!(m.id, "01KW8X7G2VABCDEFGHJKMN");
    assert_eq!(m.turn_start, 571);
    assert_eq!(m.turn_end, 575);
    assert_eq!(m.links.len(), 2);
    assert_eq!(m.tags, vec!["exploitation", "dismissal"]);
    assert!(m.body.starts_with("Cass asked"));
}

#[test]
fn parse_minimal_frontmatter() {
    let text = "---\nid: 01X\nturn_start: 1\nturn_end: 5\n---\n\nbody.\n";
    let m = parse("x.md", text).unwrap();
    assert!(m.links.is_empty());
    assert!(m.tags.is_empty());
    assert_eq!(m.body.trim(), "body.");
    assert_eq!(m.file_path, "x.md");
}

#[test]
fn parse_rejects_missing_required_fields() {
    let no_id = "---\nturn_start: 1\nturn_end: 2\n---\nbody";
    assert!(parse("a.md", no_id).is_none());
    let no_start = "---\nid: x\nturn_end: 2\n---\nbody";
    assert!(parse("a.md", no_start).is_none());
    let inverted = "---\nid: x\nturn_start: 5\nturn_end: 2\n---\nbody";
    assert!(parse("a.md", inverted).is_none());
}

#[test]
fn parse_rejects_unparseable_turns_and_missing_delimiters() {
    assert!(parse("a.md", "---\nid: x\nturn_start: one\nturn_end: 2\n---\nbody").is_none());
    assert!(parse("a.md", "id: x\nturn_start: 1\nturn_end: 2\n").is_none());
    assert!(parse("a.md", "---\nid: x\nturn_start: 1\nturn_end: 2\nbody").is_none());
}

#[test]
fn write_then_parse_round_trip() {
    let moment = Moment {
        id: "01KW".into(),
        turn_start: 10,
        turn_end: 12,
        links: vec!["01A".into(), "01B".into()],
        tags: vec!["t1".into()],
        body: "first-person prose.\n\nsecond paragraph.".into(),
        file_path: String::new(),
    };
    let text = render(&moment);
    assert_eq!(
        text,
        "---\nid: 01KW\nturn_start: 10\nturn_end: 12\nlinks: [01A, 01B]\ntags: [t1]\n---\n\nfirst-person prose.\n\nsecond paragraph.\n"
    );
    let parsed = parse("record/moments/01KW.md", &text).unwrap();
    assert_eq!(parsed.id, "01KW");
    assert_eq!(parsed.turn_start, 10);
    assert_eq!(parsed.turn_end, 12);
    assert_eq!(parsed.links, vec!["01A", "01B"]);
    assert_eq!(parsed.tags, vec!["t1"]);
    assert!(parsed.body.contains("second paragraph"));
    assert_eq!(parsed.body, "first-person prose.\n\nsecond paragraph.\n");
}

#[test]
fn inline_lists_parse_and_render() {
    assert_eq!(parse_inline_list("[a, 'b', \"c\", , d ]"), vec!["a", "b", "c", "d"]);
    assert!(parse_inline_list("not a list").is_empty());
    assert!(parse_inline_list("[]").is_empty());
    assert_eq!(render_inline_list(&vec!["x".to_string(), "y".to_string()]), "[x, y]");
    assert_eq!(render_inline_list(&vec![]), "[]");
}

#[test]
fn moment_paths() {
    assert_eq!(dir("/ws"), "/ws/record/moments");
    assert_eq!(moment_path("/ws", "01ID"), "/ws/record/moments/01ID.md");
}
