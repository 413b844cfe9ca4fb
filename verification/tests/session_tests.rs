use river_gateway::memory::Flash;
use river_gateway::record::{new_record_line, RecordIndex, RecordRole};
use river_gateway::session::{
    channel_from_record_tail, turns_path, FlashSnapshot, Session, SessionManager, PRIMARY_SESSION_ID,
};

fn flash(note_id: &str, text: &str) -> Flash {
    Flash {
        note_id: note_id.into(),
        text: text.into(),
        neighbors: vec![("extends".into(), "other".into())],
    }
}

#[test]
fn flash_snapshot_round_trip() {
    let original = (flash("n", "t"), 3);
    let snap = FlashSnapshot::from(&original);
    let restored = snap.into_active();
    assert_eq!(restored.0.note_id, original.0.note_id);
    assert_eq!(restored.0.text, original.0.text);
    assert_eq!(restored.0.neighbors, original.0.neighbors);
    assert_eq!(restored.1, original.1);
}

#[test]
fn test_primary_session() {
    let session = Session::primary();
    assert_eq!(session.id, PRIMARY_SESSION_ID);
    assert!(session.is_primary);
    assert_eq!(session.cycle_count, 0);
    assert_eq!(session.message_count, 0);
}

#[test]
fn test_record_cycle() {
    let mut session = Session::primary();
    assert_eq!(session.cycle_count, 0);
    session.record_cycle();
    assert_eq!(session.cycle_count, 1);
    session.record_cycle();
    assert_eq!(session.cycle_count, 2);
}

#[test]
fn test_record_messages() {
    let mut session = Session::primary();
    assert_eq!(session.message_count, 0);
    session.record_messages(5);
    assert_eq!(session.message_count, 5);
    session.record_messages(3);
    assert_eq!(session.message_count, 8);
}

#[test]
fn test_session_stats() {
    let session = Session::primary_at(1_000);
    let stats = session.stats_at(1_001);
    assert_eq!(stats.session_id, PRIMARY_SESSION_ID);
    assert!(stats.uptime_seconds < 2);
    assert_eq!(stats.uptime_seconds, 1);
    assert_eq!(session.idle_seconds_at(900), 0, "clock behind: never negative");
}

#[test]
fn clock_readings_are_elapsed_seconds() {
    let mut session = Session::primary_at(100);
    session.record_messages_at(4, 130);
    assert_eq!(session.last_active_at, 130);
    assert_eq!(session.uptime_seconds_at(160), 60);
    assert_eq!(session.idle_seconds_at(160), 30);
    session.record_cycle_at(150);
    assert_eq!(session.cycle_count, 1);
    assert_eq!(session.idle_seconds_at(160), 10);
}

fn line(id: &str, turn: u64, channel: &str, role: RecordRole, content: &str) -> river_gateway::record::RecordLine {
    new_record_line(id.to_string(), turn, channel, role, Some(content), None, None)
}

#[test]
fn channel_from_record_tail_returns_last_lines_channel() {
    let mut record = RecordIndex::new();
    record.push(line("01A", 1, "local_main", RecordRole::User, "hi"));
    record.push(line("01B", 2, "discord_12345", RecordRole::User, "hello"));
    record.push(line("01C", 3, "discord_12345", RecordRole::Assistant, "hey"));
    assert_eq!(channel_from_record_tail(&record).as_deref(), Some("discord_12345"));
}

#[test]
fn channel_from_empty_record_is_none() {
    let record = RecordIndex::new();
    assert!(channel_from_record_tail(&record).is_none());
}

#[test]
fn record_lives_under_the_workspace() {
    assert_eq!(turns_path("/ws"), "/ws/record/turns.jsonl");
}

#[test]
fn test_sub_session() {
    let session = Session::sub_session("7204389162983424000".to_string());
    assert!(!session.is_primary);
    assert_ne!(session.id, PRIMARY_SESSION_ID);
}

#[test]
fn test_session_manager() {
    let mut manager = SessionManager::new();

    assert_eq!(manager.current_session_id(), PRIMARY_SESSION_ID);

    manager.record_cycle();
    manager.record_messages(10);

    let stats = manager.stats();
    assert_eq!(stats.cycle_count, 1);
    assert_eq!(stats.message_count, 10);
}

#[test]
fn session_manager_clock_and_primary_access() {
    let mut manager = SessionManager::new_at(50);
    manager.record_messages_at(3, 60);
    manager.primary_mut().record_cycle_at(70);
    assert_eq!(manager.primary().cycle_count, 1);
    assert_eq!(manager.primary().message_count, 3);
    let stats = manager.stats_at(100);
    assert_eq!(stats.uptime_seconds, 50);
    assert_eq!(stats.idle_seconds, 30);
    assert_eq!(stats.session_id, "main");
    let sub = Session::sub_session_at("42".to_string(), 9);
    assert_eq!(sub.created_at, 9);
    assert_eq!(sub.cycle_count, 0);
}
