use river_gateway::spectator::compress::{
    compressed_moment_text, make_move_line, sanitize_channel, Compressor,
};
use river_gateway::spectator::format::{
    estimate_tokens, format_entries_budgeted, format_entry, HomeChannelEntry, MessageEntry, ToolEntry,
};
use river_gateway::spectator::handlers::{moment_from_captures, parse_moment_response, TURNS_PATTERN};
use river_gateway::spectator::prompt::substitute;
use river_gateway::spectator::{
    moves_context, observability_message, plan_spectator_sweep, sweep_due, SpectatorConfig, SweepPlan,
};

#[test]
fn test_moves_dir() {
    let compressor = Compressor::new("/workspace/embeddings".to_string());
    assert_eq!(compressor.moves_dir(), "/workspace/embeddings/moves");
}

#[test]
fn test_moments_dir() {
    let compressor = Compressor::new("/workspace/embeddings".to_string());
    assert_eq!(compressor.moments_dir(), "/workspace/embeddings/moments");
}

#[test]
fn test_classify_move_types() {
    let c = Compressor::new("/tmp".to_string());
    let tools = |names: &[&str]| names.iter().map(|s| s.to_string()).collect::<Vec<String>>();
    assert_eq!(c.classify_move("anything", &tools(&["send_message"])), "response");
    assert_eq!(c.classify_move("anything", &tools(&["grep"])), "exploration");
    assert_eq!(c.classify_move("anything", &tools(&["edit"])), "creation");
    assert_eq!(c.classify_move("anything", &tools(&["bash"])), "execution");
    assert_eq!(c.classify_move("A QUESTION came up", &tools(&[])), "question");
    assert_eq!(c.classify_move("what now?", &tools(&[])), "question");
    assert_eq!(c.classify_move("We Decided to go", &tools(&[])), "decision");
    assert_eq!(c.classify_move("it FAILED", &tools(&[])), "recovery");
    assert_eq!(c.classify_move("heartbeat tick", &tools(&[])), "pause");
    assert_eq!(c.classify_move("plain work", &tools(&[])), "processing");
}

#[test]
fn move_lines_cut_long_summaries_and_flatten_newlines() {
    assert_eq!(make_move_line(3, "question", "why?\nbecause"), "Move 3: [question] why? because\n");
    let long = "x".repeat(100);
    assert_eq!(
        make_move_line(7, "processing", &long),
        format!("Move 7: [processing] {}...\n", "x".repeat(80))
    );
    assert_eq!(sanitize_channel("discord/general chat\\x"), "discord-general-chat-x");
}

#[test]
fn test_substitute_single_var() {
    let template = "Turn {turn_number} completed.";
    let result = substitute(template, &[("turn_number", "5")]);
    assert_eq!(result, "Turn 5 completed.");
}

#[test]
fn test_substitute_multiple_vars() {
    let template = "Channel: {channel}, Moves: {moves}";
    let result = substitute(template, &[("channel", "general"), ("moves", "1,2,3")]);
    assert_eq!(result, "Channel: general, Moves: 1,2,3");
}

#[test]
fn test_substitute_no_vars() {
    let template = "No variables here.";
    let result = substitute(template, &[]);
    assert_eq!(result, "No variables here.");
}

#[test]
fn test_substitute_missing_var_left_as_is() {
    let template = "Hello {name}, your id is {id}.";
    let result = substitute(template, &[("name", "Iris")]);
    assert_eq!(result, "Hello Iris, your id is {id}.");
}

#[test]
fn substitute_replaces_every_occurrence() {
    assert_eq!(substitute("{a}{a}-{a}", &[("a", "x")]), "xx-x");
}

#[test]
fn test_moment_parses_turn_range() {
    let response = "turns: 5-20\n---\nThe agent worked through configuration issues.";
    let result = parse_moment_response(response).unwrap();
    assert_eq!(result.start_turn, 5);
    assert_eq!(result.end_turn, 20);
    assert_eq!(result.narrative, "The agent worked through configuration issues.");
}

#[test]
fn test_moment_parses_with_whitespace() {
    let response = "turns:  12 - 34 \n---\n\nA multi-paragraph\nnarrative here.";
    let result = parse_moment_response(response).unwrap();
    assert_eq!(result.start_turn, 12);
    assert_eq!(result.end_turn, 34);
    assert!(result.narrative.contains("multi-paragraph"));
}

#[test]
fn test_moment_rejects_missing_separator() {
    let response = "turns: 5-20\nThe agent worked through issues.";
    let result = parse_moment_response(response);
    assert!(result.is_err());
    assert!(result.unwrap_err().contains("No '---' separator"));
}

#[test]
fn test_moment_rejects_missing_turn_range() {
    let response = "some header\n---\nThe narrative.";
    let result = parse_moment_response(response);
    assert!(result.is_err());
    assert!(result.unwrap_err().contains("No 'turns: N-M'"));
}

#[test]
fn test_moment_rejects_empty_narrative() {
    let response = "turns: 1-10\n---\n";
    let result = parse_moment_response(response);
    assert!(result.is_err());
    assert!(result.unwrap_err().contains("Empty narrative"));
}

#[test]
fn test_moment_rejects_empty_narrative_whitespace() {
    let response = "turns: 1-10\n---\n   \n  ";
    let result = parse_moment_response(response);
    assert!(result.is_err());
    assert!(result.unwrap_err().contains("Empty narrative"));
}

#[test]
fn moment_captures_that_overflow_are_reported() {
    let err = moment_from_captures(
        "turns: 99999999999999999999-1",
        Some(("99999999999999999999".to_string(), "1".to_string())),
        "n".to_string(),
    )
    .unwrap_err();
    assert!(err.starts_with("Invalid start turn: "));
    let ok = moment_from_captures("turns: 1-2", Some(("1".to_string(), "2".to_string())), "n".to_string()).unwrap();
    assert_eq!((ok.start_turn, ok.end_turn), (1, 2));
    let none = moment_from_captures("h", None, "n".to_string()).unwrap_err();
    assert_eq!(none, "No 'turns: N-M' found in header: 'h'");
}

fn message(id: &str, role: &str, content: &str) -> MessageEntry {
    MessageEntry {
        id: id.to_string(),
        role: role.to_string(),
        content: content.to_string(),
        author: None,
        source_adapter: None,
        source_channel_id: None,
        source_channel_name: None,
    }
}

#[test]
fn entries_format_with_source_tags() {
    let mut m = message("1", "user", "hi");
    m.author = Some("cass".to_string());
    m.source_adapter = Some("discord".to_string());
    m.source_channel_id = Some("42".to_string());
    m.source_channel_name = Some("general".to_string());
    assert_eq!(
        format_entry(&HomeChannelEntry::Message(m)).as_deref(),
        Some("[1] user:discord:42/general cass: hi")
    );
    assert_eq!(
        format_entry(&HomeChannelEntry::Message(message("2", "user", "yo"))).as_deref(),
        Some("[2] user: unknown: yo")
    );
    assert_eq!(
        format_entry(&HomeChannelEntry::Message(message("3", "agent", "ok"))).as_deref(),
        Some("[3] agent: ok")
    );
    assert!(format_entry(&HomeChannelEntry::Message(message("4", "system", "[spectator] note"))).is_none());
    assert_eq!(
        format_entry(&HomeChannelEntry::Message(message("5", "system", "boot"))).as_deref(),
        Some("[5] system: boot")
    );
    assert!(format_entry(&heartbeat("h1")).is_none());
    assert!(format_entry(&cursor("c1")).is_none());
}

#[test]
fn tool_entries_format_by_name_and_size() {
    let call = ToolEntry {
        id: "7".to_string(),
        kind: "tool_call".to_string(),
        tool_name: "read".to_string(),
        result: None,
        result_file: None,
    };
    assert_eq!(format_entry(&HomeChannelEntry::Tool(call)).as_deref(), Some("[7] tool_call: read"));
    let result = ToolEntry {
        id: "8".to_string(),
        kind: "tool_result".to_string(),
        tool_name: "read".to_string(),
        result: Some("héllo".to_string()),
        result_file: None,
    };
    assert_eq!(
        format_entry(&HomeChannelEntry::Tool(result)).as_deref(),
        Some("[8] tool_result(read): [6 bytes]")
    );
    let file = ToolEntry {
        id: "9".to_string(),
        kind: "tool_result".to_string(),
        tool_name: "bash".to_string(),
        result: None,
        result_file: Some("out.txt".to_string()),
    };
    assert_eq!(
        format_entry(&HomeChannelEntry::Tool(file)).as_deref(),
        Some("[9] tool_result(bash): [file: out.txt]")
    );
}

#[test]
fn budgeted_formatting_keeps_at_least_one_entry() {
    assert_eq!(estimate_tokens(""), 0);
    assert_eq!(estimate_tokens("abcde"), 2);
    let entries = vec![
        heartbeat("h2"),
        HomeChannelEntry::Message(message("1", "agent", &"a".repeat(40))),
        HomeChannelEntry::Message(message("2", "agent", &"b".repeat(40))),
        HomeChannelEntry::Message(message("3", "agent", "c")),
    ];
    let (text, last) = format_entries_budgeted(&entries, 1);
    assert_eq!(last, 1);
    assert_eq!(text, format!("[1] agent: {}", "a".repeat(40)));
    let (text, last) = format_entries_budgeted(&entries, 1000);
    assert_eq!(last, 3);
    assert_eq!(text.lines().count(), 3);
    let (text, last) = format_entries_budgeted(&[], 10);
    assert_eq!((text.as_str(), last), ("", 0));
}

#[test]
fn spectator_config_defaults() {
    let c = SpectatorConfig::default();
    assert_eq!(c.spectator_dir, "spectator");
    assert_eq!(c.sweep_interval_secs, 300);
    assert_eq!(c.sweep_token_budget, 16384);
    assert_eq!(c.moves_tail, 10);
}

fn sf(seq: u32) -> String {
    format!("{:016}", seq as u64 * 1_000_000)
}

fn plain_message(id: String, role: &str, content: &str) -> MessageEntry {
    MessageEntry {
        id,
        role: role.to_string(),
        content: content.to_string(),
        author: None,
        source_adapter: None,
        source_channel_id: None,
        source_channel_name: None,
    }
}

fn agent_entry(seq: u32, content: &str) -> HomeChannelEntry {
    HomeChannelEntry::Message(plain_message(sf(seq), "agent", content))
}

#[test]
fn test_format_user_message() {
    let entry = HomeChannelEntry::Message(MessageEntry {
        id: sf(1),
        role: "user".to_string(),
        content: "hello world".to_string(),
        author: Some("cassie".to_string()),
        source_adapter: Some("discord".to_string()),
        source_channel_id: Some("general".to_string()),
        source_channel_name: Some("general".to_string()),
    });
    let result = format_entry(&entry);
    assert_eq!(result, Some(format!("[{}] user:discord:general/general cassie: hello world", sf(1))));
}

#[test]
fn test_format_agent_message() {
    let result = format_entry(&agent_entry(2, "hi there!"));
    assert_eq!(result, Some(format!("[{}] agent: hi there!", sf(2))));
}

#[test]
fn test_format_bystander_message() {
    let entry = HomeChannelEntry::Message(plain_message(sf(3), "bystander", "interesting work"));
    let result = format_entry(&entry);
    assert_eq!(result, Some(format!("[{}] bystander: interesting work", sf(3))));
}

#[test]
fn test_format_system_message() {
    let entry = HomeChannelEntry::Message(plain_message(sf(4), "system", "context pressure warning"));
    let result = format_entry(&entry);
    assert_eq!(result, Some(format!("[{}] system: context pressure warning", sf(4))));
}

#[test]
fn test_format_spectator_message_filtered() {
    let entry = HomeChannelEntry::Message(plain_message(
        sf(10),
        "system",
        "[spectator] move written covering entries abc001-abc009",
    ));
    let result = format_entry(&entry);
    assert_eq!(result, None);
}

#[test]
fn test_format_tool_call() {
    let entry = HomeChannelEntry::Tool(ToolEntry {
        id: sf(5),
        kind: "tool_call".to_string(),
        tool_name: "read_file".to_string(),
        result: None,
        result_file: None,
    });
    let result = format_entry(&entry);
    assert_eq!(result, Some(format!("[{}] tool_call: read_file", sf(5))));
}

#[test]
fn test_format_tool_result() {
    let entry = HomeChannelEntry::Tool(ToolEntry {
        id: sf(6),
        kind: "tool_result".to_string(),
        tool_name: "read_file".to_string(),
        result: Some("file contents here, this is some data".to_string()),
        result_file: None,
    });
    let result = format_entry(&entry);
    assert_eq!(result, Some(format!("[{}] tool_result(read_file): [37 bytes]", sf(6))));
}

#[test]
fn test_format_tool_result_file() {
    let entry = HomeChannelEntry::Tool(ToolEntry {
        id: sf(7),
        kind: "tool_result".to_string(),
        tool_name: "bash".to_string(),
        result: None,
        result_file: Some("/tmp/results/abc007.txt".to_string()),
    });
    let result = format_entry(&entry);
    assert_eq!(result, Some(format!("[{}] tool_result(bash): [file: /tmp/results/abc007.txt]", sf(7))));
}

#[test]
fn test_format_heartbeat_filtered() {
    let result = format_entry(&heartbeat(&sf(8)));
    assert_eq!(result, None);
}

#[test]
fn test_format_cursor_filtered() {
    let result = format_entry(&cursor(&sf(9)));
    assert_eq!(result, None);
}

#[test]
fn test_format_entries_with_budget() {
    let entries = vec![
        agent_entry(1, "short"),
        agent_entry(2, "also short"),
        agent_entry(3, "third message"),
    ];

    // Large budget — all entries fit
    let (transcript, last_idx) = format_entries_budgeted(&entries, 10000);
    assert_eq!(last_idx, 2);
    assert!(transcript.contains(&format!("[{}]", sf(1))));
    assert!(transcript.contains(&format!("[{}]", sf(3))));

    // Tiny budget — only first entry fits
    let (transcript, last_idx) = format_entries_budgeted(&entries, 10);
    assert_eq!(last_idx, 0);
    assert!(transcript.contains(&format!("[{}]", sf(1))));
    assert!(!transcript.contains(&format!("[{}]", sf(2))));
}

fn heartbeat(id: &str) -> HomeChannelEntry {
    HomeChannelEntry::Heartbeat { id: id.to_string(), timestamp: "2026-05-12T12:00:00Z".to_string() }
}

fn cursor(id: &str) -> HomeChannelEntry {
    HomeChannelEntry::Cursor { id: id.to_string() }
}

#[test]
fn sweep_gate_waits_for_the_interval_except_at_first() {
    assert!(!sweep_due(false, None, 300));
    assert!(sweep_due(true, None, 300));
    assert!(!sweep_due(true, Some(299_999), 300));
    assert!(sweep_due(true, Some(300_000), 300));
}

#[test]
fn sweep_plan_idle_without_entries() {
    assert!(matches!(plan_spectator_sweep(&vec![], 100), SweepPlan::Idle));
}

#[test]
fn sweep_plan_all_filtered_advances_with_no_activity() {
    let entries = vec![heartbeat("h1"), cursor("c2"), HomeChannelEntry::Message(plain_message(
        "m3".to_string(),
        "system",
        "[spectator] move written covering entries a-b",
    ))];
    match plan_spectator_sweep(&entries, 100) {
        SweepPlan::NoActivity { first_id, last_id } => {
            assert_eq!(first_id, "h1");
            assert_eq!(last_id, "m3");
        }
        other => panic!("unexpected {:?}", other),
    }
}

#[test]
fn sweep_plan_summarizes_within_budget_and_reports_more() {
    let entries = vec![heartbeat("h0"), agent_entry(1, "short"), agent_entry(2, "also short"), agent_entry(3, "third message")];
    match plan_spectator_sweep(&entries, 10) {
        SweepPlan::Summarize { first_id, last_id, transcript, has_more } => {
            assert_eq!(first_id, "h0");
            assert_eq!(last_id, sf(1));
            assert_eq!(transcript, format!("[{}] agent: short", sf(1)));
            assert!(has_more);
        }
        other => panic!("unexpected {:?}", other),
    }
    match plan_spectator_sweep(&entries, 10000) {
        SweepPlan::Summarize { last_id, has_more, .. } => {
            assert_eq!(last_id, sf(3));
            assert!(!has_more);
        }
        other => panic!("unexpected {:?}", other),
    }
}

#[test]
fn moves_context_joins_summaries() {
    assert_eq!(moves_context(&vec![]), "No previous moves.");
    assert_eq!(moves_context(&vec!["one".to_string(), "two".to_string()]), "one\n\ntwo");
}

#[test]
fn announcements_are_not_transcribed() {
    let text = observability_message("a1", "a9");
    assert_eq!(text, "[spectator] move written covering entries a1-a9");
    let entry = HomeChannelEntry::Message(plain_message("x".to_string(), "system", &text));
    assert_eq!(format_entry(&entry), None);
}

#[test]
fn compressor_file_names_are_channel_safe() {
    let c = Compressor::new("/tmp/embeddings".to_string());
    assert_eq!(c.moves_path("discord/general chat"), "/tmp/embeddings/moves/discord-general-chat.md");
    assert_eq!(
        c.archive_path("a b", "202605141200"),
        "/tmp/embeddings/moves/a-b-archive-202605141200.md"
    );
    assert_eq!(c.moment_path("home", "202605141200"), "/tmp/embeddings/moments/home-202605141200.md");
}

#[test]
fn compressed_moment_has_frontmatter_and_arc() {
    let text = compressed_moment_text("home", 1778760000, "2026-05-14T12:00:00+00:00", "Move 1: [response] hi");
    assert_eq!(
        text,
        "---\nid: moment-1778760000\ncreated: 2026-05-14T12:00:00+00:00\nauthor: spectator\ntype: moment\nchannel: home\n---\n\n## Arc Summary\n\nMove 1: [response] hi\n"
    );
    assert!(compressed_moment_text("c", -5, "x", "m").starts_with("---\nid: moment--5\n"));
}

fn mv(start: &str, end: &str, summary: &str) -> river_gateway::spectator::moves::MoveEntry {
    river_gateway::spectator::moves::MoveEntry {
        start: start.to_string(),
        end: end.to_string(),
        summary: summary.to_string(),
    }
}

#[test]
fn moves_tail_and_cursor() {
    let moves = vec![mv("a1", "a3", "one"), mv("a4", "a6", "two"), mv("a7", "a9", "three")];
    let tail = river_gateway::spectator::moves::moves_tail(&moves, 2);
    assert_eq!(tail.iter().map(|m| m.summary.as_str()).collect::<Vec<_>>(), vec!["two", "three"]);
    assert_eq!(river_gateway::spectator::moves::moves_tail(&moves, 10).len(), 3);
    assert!(river_gateway::spectator::moves::moves_tail(&moves, 0).is_empty());
    assert_eq!(river_gateway::spectator::moves::read_cursor(&moves), Some("a9".to_string()));
    assert_eq!(river_gateway::spectator::moves::read_cursor(&vec![]), None);
}


#[test]
fn moment_header_read_with_the_turns_pattern() {
    assert_eq!(TURNS_PATTERN, r"turns:\s*(\d+)\s*-\s*(\d+)");
    let ok = parse_moment_response("note turns:7 -\t9 later\n---\nn").unwrap();
    assert_eq!((ok.start_turn, ok.end_turn), (7, 9));
    let err = parse_moment_response("turns: \u{ff15}-20\n---\nn").unwrap_err();
    assert_eq!(err, "Invalid start turn: invalid digit found in string");
    let err = parse_moment_response("turns: 5 to 20\n---\nn").unwrap_err();
    assert_eq!(err, "No 'turns: N-M' found in header: 'turns: 5 to 20'");
}
