use river_gateway::moments::parse;
use river_gateway::record::{MoveLine, RecordRole, new_record_line};
use river_gateway::frontmatter::{read_frontmatter_id, strip_frontmatter};
use river_gateway::tools::{
    assemble_atomic, atomic_relative_path, channel_window, check_atomic_args, check_atomic_body,
    check_moment_range, check_moves_range, check_nonblank, compose_atomic, digestion_required,
    format_header, handoff_path, handoff_saved_message, known_atomic_stems, mime_for_extension,
    moment_written_message, new_moment, parse_string_list, parse_typed_link_list, read_limits,
    rejection_message, rejections_path, render_moves, resolve, spoken_message, truncate,
    unresolved_link_warnings, ArgList, ChannelEntry, DigestionInfo, EntryRole, RawLink, TypedLink,
    MAX_RESULT_BYTES,
};

fn link(t: &str, g: &str) -> TypedLink {
    TypedLink { link_type: t.to_string(), target: g.to_string() }
}

#[test]
fn results_within_the_limit_are_untouched() {
    assert_eq!(truncate("short".to_string()), "short");
    let exact = "a".repeat(MAX_RESULT_BYTES);
    assert_eq!(truncate(exact.clone()), exact);
}

#[test]
fn oversize_results_are_cut_on_a_char_boundary() {
    let long = "b".repeat(MAX_RESULT_BYTES + 10);
    let out = truncate(long);
    assert_eq!(out, format!("{}\n[... truncated at 65536 bytes]", "b".repeat(MAX_RESULT_BYTES)));
    // a three-byte glyph straddling the limit is left out whole
    let mut s = "c".repeat(MAX_RESULT_BYTES - 1);
    s.push('字');
    let out = truncate(s);
    assert!(out.starts_with(&"c".repeat(MAX_RESULT_BYTES - 1)));
    assert!(!out.contains('字'));
    assert!(out.ends_with("\n[... truncated at 65536 bytes]"));
}

#[test]
fn paths_resolve_against_the_workspace() {
    assert_eq!(resolve("/ws", "notes/a.md"), "/ws/notes/a.md");
    assert_eq!(resolve("/ws", "/etc/hosts"), "/etc/hosts");
    assert_eq!(handoff_path("/ws"), "/ws/handoff.md");
    assert_eq!(rejections_path("/ws"), "/ws/witness/rejections.jsonl");
    assert_eq!(atomic_relative_path("01A"), "knowledge/01A.md");
}

#[test]
fn mime_types_follow_the_extension() {
    assert_eq!(mime_for_extension("photo.PNG"), "image/png");
    assert_eq!(mime_for_extension("a.b.jpeg"), "image/jpeg");
    assert_eq!(mime_for_extension("notes.md"), "text/plain");
    assert_eq!(mime_for_extension("data.json"), "application/json");
    assert_eq!(mime_for_extension("archive.zip"), "application/zip");
    assert_eq!(mime_for_extension("README"), "application/octet-stream");
    assert_eq!(mime_for_extension("weird."), "application/octet-stream");
}

#[test]
fn write_atomic_frontmatter_key_order_and_omits_optionals() {
    let text = assemble_atomic("01ID", "2026-01-01T00:00:00Z", "a claim", &vec![link("extends", "01OTHER")], &vec![], None);
    assert_eq!(
        text,
        "---\nid: 01ID\ncreated: 2026-01-01T00:00:00Z\nlinks:\n  - extends: 01OTHER\n---\n\na claim\n"
    );
    let text = assemble_atomic(
        "01ID",
        "t",
        "body\n",
        &vec![link("extends", "a"), link("contradicts", "b")],
        &vec!["x".to_string(), "y".to_string()],
        Some("if A then B"),
    );
    assert_eq!(
        text,
        "---\nid: 01ID\ncreated: t\nlinks:\n  - extends: a\n  - contradicts: b\ntags: [x, y]\nshape: if A then B\n---\n\nbody\n"
    );
}

#[test]
fn atomic_notes_read_back_their_id_and_body() {
    let text = assemble_atomic("01ID", "t", "the claim", &vec![link("extends", "a")], &vec!["x".to_string()], None);
    assert_eq!(read_frontmatter_id(&text).as_deref(), Some("01ID"));
    assert_eq!(strip_frontmatter(&text), "the claim\n");
}

#[test]
fn write_atomic_rejects_empty_body_and_word_overflow() {
    assert_eq!(check_atomic_body("   ", 100).unwrap_err(), "body must be non-empty");
    assert_eq!(check_atomic_body("one two  three\nfour", 3).unwrap_err(), "body is 4 words; limit is 3");
    assert!(check_atomic_body("one two three", 3).is_ok());
}

fn raw(t: Option<&str>, g: Option<&str>) -> RawLink {
    RawLink { is_object: true, link_type: t.map(str::to_string), target: g.map(str::to_string) }
}

#[test]
fn typed_link_lists_are_checked_item_by_item() {
    let ok = parse_typed_link_list(ArgList::List(vec![raw(Some(" extends "), Some(" 01A "))]), "links").unwrap();
    assert_eq!(ok[0].link_type, "extends");
    assert_eq!(ok[0].target, "01A");
    assert_eq!(
        parse_typed_link_list(ArgList::List(vec![raw(Some("x"), Some("y")), raw(None, Some("y"))]), "links").unwrap_err(),
        "link 1: missing type"
    );
    assert_eq!(
        parse_typed_link_list(ArgList::List(vec![raw(Some("x"), Some("  "))]), "links").unwrap_err(),
        "link 0: target must be non-empty"
    );
    assert_eq!(
        parse_typed_link_list(
            ArgList::List(vec![RawLink { is_object: false, link_type: None, target: None }]),
            "links"
        )
        .unwrap_err(),
        "link 0: must be an object"
    );
    assert_eq!(parse_typed_link_list(ArgList::NotList, "links").unwrap_err(), "links must be a list of link objects");
    assert!(parse_typed_link_list(ArgList::Absent, "links").unwrap().is_empty());
}

#[test]
fn string_lists_are_checked() {
    assert_eq!(parse_string_list(ArgList::List(vec![Some("a".to_string())]), "tags").unwrap(), vec!["a"]);
    assert_eq!(parse_string_list(ArgList::List(vec![None]), "tags").unwrap_err(), "tags entries must be strings");
    assert_eq!(parse_string_list(ArgList::NotList, "tags").unwrap_err(), "tags must be a list of strings");
}

#[test]
fn write_atomic_rejects_no_links() {
    let err = check_atomic_args("a claim", 100, ArgList::List(vec![]), ArgList::Absent).unwrap_err();
    assert_eq!(err, "at least one typed link is required");
    let (links, tags) = check_atomic_args("a claim", 100, ArgList::List(vec![raw(Some("e"), Some("t"))]), ArgList::Absent).unwrap();
    assert_eq!(links.len(), 1);
    assert!(tags.is_empty());
}

#[test]
fn composed_atomics_carry_a_fresh_ulid() {
    let d = compose_atomic("t", "b", &vec![link("e", "x")], &vec![], None);
    assert_eq!(d.id.len(), 26);
    assert_eq!(d.relative, format!("knowledge/{}.md", d.id));
    assert_eq!(read_frontmatter_id(&d.text).as_deref(), Some(d.id.as_str()));
    assert_eq!(d.created, "t");
}

#[test]
fn unresolved_targets_warn() {
    let stems = known_atomic_stems(&vec!["01A.md".to_string(), "notes.txt".to_string(), "01B.md".to_string()]);
    assert_eq!(stems, vec!["01A", "01B"]);
    let w = unresolved_link_warnings(&vec![link("e", "01A"), link("e", "01Z"), link("e", "SELF")], "SELF", &stems);
    assert_eq!(w, vec!["unresolved link target: 01Z"]);
}

#[test]
fn create_moment_checks_its_range() {
    assert_eq!(
        check_moment_range(5, 3, 10).unwrap_err(),
        "turn_end must be greater than turn_start (a moment covers at least two turns)"
    );
    assert!(check_moment_range(5, 5, 10).is_err());
    assert_eq!(check_moment_range(5, 11, 10).unwrap_err(), "turn_end (11) is in the future — the current turn is 10");
    assert!(check_moment_range(5, 10, 10).is_ok());
    assert_eq!(check_nonblank("  ", "body").unwrap_err(), "body must be non-empty");
    assert_eq!(moment_written_message("01M", 3, 7), "moment 01M written (3–7)");
}

#[test]
fn new_moments_read_back_after_rendering() {
    let m = new_moment(
        2,
        4,
        9,
        "what it meant",
        ArgList::List(vec![Some("01A".to_string())]),
        ArgList::Absent,
    )
    .unwrap();
    assert_eq!(m.id.len(), 26);
    let text = river_gateway::moments::render(&m);
    let back = parse("x.md", &text).unwrap();
    assert_eq!(back.id, m.id);
    assert_eq!((back.turn_start, back.turn_end), (2, 4));
    assert_eq!(back.links, vec!["01A"]);
    assert!(new_moment(4, 2, 9, "b", ArgList::Absent, ArgList::Absent).is_err());
}

#[test]
fn read_moves_checks_range() {
    assert_eq!(check_moves_range(5, 4).unwrap_err(), "turn_end must be ≥ turn_start");
    assert_eq!(check_moves_range(1, 201).unwrap_err(), "range too wide: 201 turns (max 200)");
    assert!(check_moves_range(1, 200).is_ok());
    assert!(check_moves_range(0, u64::MAX).is_err());
}

#[test]
fn read_moves_returns_range_sorted_with_channel() {
    let lines = vec![
        new_record_line("a".to_string(), 1, "local_main", RecordRole::User, Some("hi"), None, None),
        new_record_line("b".to_string(), 1, "discord_1", RecordRole::Assistant, Some("yo"), None, None),
        new_record_line("c".to_string(), 2, "local_main", RecordRole::User, Some("x"), None, None),
    ];
    let moves = vec![
        MoveLine { id: "m1".to_string(), turn: 1, summary: "greeted".to_string() },
        MoveLine { id: "m2".to_string(), turn: 2, summary: "asked".to_string() },
        MoveLine { id: "m3".to_string(), turn: 3, summary: "left".to_string() },
    ];
    assert_eq!(
        render_moves(&moves, &lines),
        "turn 1 [discord_1]: greeted\nturn 2 [local_main]: asked\nturn 3 [(unknown)]: left\n"
    );
}

#[test]
fn compact_and_reject_messages() {
    assert_eq!(
        handoff_saved_message("héllo"),
        "handoff saved (6 bytes); compaction will run at the next turn start"
    );
    assert_eq!(rejection_message("c1", Some("off topic")), "rejected candidate c1 (off topic)");
    assert_eq!(rejection_message("c1", None), "rejected candidate c1 (no reason given)");
    assert!(digestion_required(None).is_err());
    let d = DigestionInfo { candidate_id: "c".to_string(), candidate_text: "t".to_string(), turn: 4 };
    assert_eq!(digestion_required(Some(&d)).unwrap().turn, 4);
    assert_eq!(
        spoken_message("local_main", None),
        "spoken on local_main — if you await a reply, end your turn; replies arrive as new turns"
    );
    assert!(spoken_message("discord_1", Some("99")).starts_with("spoken on discord_1 (msg 99) — "));
}

fn entry(id: &str) -> ChannelEntry {
    ChannelEntry { id: id.to_string(), cursor: false, up_to: None, content: Some("x".to_string()), author: None, role: EntryRole::Other }
}

#[test]
fn channel_read_windows() {
    let mut entries: Vec<ChannelEntry> = ["01", "02", "03", "04", "05"].iter().map(|i| entry(i)).collect();
    entries[2].cursor = true;
    assert_eq!(read_limits(None), (50, 50));
    assert_eq!(read_limits(Some(0)), (1, 1));
    assert_eq!(read_limits(Some(9000)), (9000, 500));
    assert_eq!(channel_window(&entries, None, None, 2).unwrap(), vec![3, 4]);
    assert_eq!(channel_window(&entries, Some("04"), None, 10).unwrap(), vec![0, 1]);
    assert_eq!(channel_window(&entries, None, Some("01"), 2).unwrap(), vec![1, 3]);
    assert_eq!(
        channel_window(&entries, Some("02"), Some("01"), 2).unwrap_err(),
        "before_id and after_id are mutually exclusive"
    );
    assert_eq!(format_header("c", &vec![], 50, 50), "— channel c (0 messages)");
    assert_eq!(
        format_header("c", &vec!["01".to_string(), "05".to_string()], 50, 50),
        "— channel c (2 messages, oldest: 01, newest: 05)"
    );
    assert_eq!(
        format_header("c", &vec!["01".to_string()], 900, 500),
        "— channel c (1 messages, showing 500 of 900 requested, oldest: 01, newest: 01)"
    );
}

#[test]
fn edit_replaces_the_single_occurrence() {
    let r = river_gateway::tools::apply_edit("alpha beta gamma", "beta", "BETA", "/ws/n.md");
    assert_eq!(r, Ok("alpha BETA gamma".to_string()));
    let r = river_gateway::tools::apply_edit("", "", "new", "/ws/e.md");
    assert_eq!(r, Ok("new".to_string()), "an empty file holds the empty string once");
}

#[test]
fn edit_refuses_missing_or_ambiguous_text() {
    let r = river_gateway::tools::apply_edit("alpha beta", "delta", "x", "/ws/n.md");
    assert_eq!(r, Err("old_string not found in /ws/n.md".to_string()));
    let r = river_gateway::tools::apply_edit("aaa", "aa", "b", "/ws/n.md");
    assert_eq!(r, Ok("ba".to_string()), "non-overlapping: one match");
    let r = river_gateway::tools::apply_edit("ab ab ab", "ab", "x", "/ws/n.md");
    assert_eq!(
        r,
        Err("old_string occurs 3 times in /ws/n.md; provide more context to make it unique".to_string())
    );
    let r = river_gateway::tools::apply_edit("abc", "", "x", "f");
    assert_eq!(r, Err("old_string occurs 4 times in f; provide more context to make it unique".to_string()));
}

#[test]
fn atomic_draft_made_now_carries_its_creation_time() {
    let links = vec![TypedLink { link_type: "extends".to_string(), target: "x".to_string() }];
    let d = river_gateway::tools::compose_atomic_now("body", &links, &vec![], None);
    assert_eq!(d.id.len(), 26);
    assert!(d.text.contains(&format!("created: {}", d.created)));
    assert_eq!(d.relative, format!("knowledge/{}.md", d.id));
    let c = d.created.as_bytes();
    assert_eq!(c[c.len() - 1], b'Z');
    assert_eq!((c[4], c[7], c[10], c[13], c[16]), (b'-', b'-', b'T', b':', b':'));
    assert!(c[..4].iter().all(|b| b.is_ascii_digit()));
}

#[test]
fn text_lines_follow_str_lines() {
    for text in ["", "a", "a\n", "a\r\nb\r\n", "\n", "a\n\nb", "x\ry\r", "a\r"] {
        let expected: Vec<String> = text.lines().map(|l| l.to_string()).collect();
        assert_eq!(river_gateway::tools::text_lines(text), expected, "{text:?}");
    }
}

#[test]
fn grep_numbers_matching_lines_and_stops_at_room() {
    let pattern = river_gateway::tools::GrepPattern::new(r"he.on").ok().unwrap();
    let text = "the heron waits\nno bird\r\nheron again\nand a heroon\n";
    assert_eq!(
        river_gateway::tools::grep_text("/ws/n.md", text, &pattern, 200),
        vec!["/ws/n.md:1: the heron waits".to_string(), "/ws/n.md:3: heron again".to_string()]
    );
    assert_eq!(river_gateway::tools::grep_text("/ws/n.md", text, &pattern, 1).len(), 1);
    assert!(river_gateway::tools::grep_text("/ws/n.md", text, &pattern, 0).is_empty());
    assert!(river_gateway::tools::GrepPattern::new("(").err().unwrap().starts_with("bad regex: "));
    assert!(river_gateway::tools::grep_skips_dir(".git"));
    assert!(river_gateway::tools::grep_skips_dir("node_modules"));
    assert!(!river_gateway::tools::grep_skips_dir("knowledge"));
}

fn schema(name: &str) -> river_gateway::model::ToolSchema {
    river_gateway::model::ToolSchema {
        name: name.to_string(),
        description: format!("the {name} tool"),
        parameters: "{}".to_string(),
    }
}

#[test]
fn the_model_sees_only_profiled_tools_in_registry_order() {
    let all = vec![schema("read"), schema("write"), schema("bash"), schema("speak")];
    let profile = vec!["speak".to_string(), "read".to_string(), "missing".to_string()];
    let seen = river_gateway::tools::profiled_schemas(&all, &profile);
    let names: Vec<&str> = seen.iter().map(|s| s.name.as_str()).collect();
    assert_eq!(names, vec!["read", "speak"]);
    assert_eq!(seen[1].description, "the speak tool");
}

#[test]
fn dispatch_is_profile_gated() {
    let names = vec!["read".to_string(), "bash".to_string(), "read".to_string()];
    let profile = vec!["read".to_string(), "ghost".to_string()];
    assert_eq!(river_gateway::tools::dispatch_target(&names, &profile, "read"), Some(0));
    assert_eq!(river_gateway::tools::dispatch_target(&names, &profile, "bash"), None);
    assert_eq!(river_gateway::tools::dispatch_target(&names, &profile, "ghost"), None);
    assert_eq!(
        river_gateway::tools::unavailable_message("bash"),
        "error: tool \"bash\" is not available"
    );
    assert_eq!(
        river_gateway::tools::malformed_arguments_message("EOF while parsing"),
        "error: malformed arguments: EOF while parsing"
    );
    assert_eq!(river_gateway::tools::tool_outcome(Ok("fine".to_string())), "fine");
    assert_eq!(river_gateway::tools::tool_outcome(Err("boom".to_string())), "error: boom");
}
