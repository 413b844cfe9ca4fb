use river_gateway::record::{
    last_turn, move_turns, new_record_line, read_moves, read_moves_chronological, read_moves_range,
    scan, scan_turn, tail, witness_cursor, MoveIndex, MoveLine, RecordIndex, RecordRole,
};

fn mv(turn: u64, summary: &str) -> MoveLine {
    MoveLine { id: format!("m{turn}"), turn, summary: summary.to_string() }
}

#[test]
fn appends_and_scans_back() {
    let mut record = RecordIndex::new();
    record.push(new_record_line("01A".to_string(), 1, "local_main", RecordRole::User, Some("[local_main] cass: hello"), None, None));
    record.push(new_record_line("01B".to_string(), 1, "local_main", RecordRole::Assistant, Some("hi"), None, None));
    let lines = scan(&record);
    assert_eq!(lines.len(), 2);
    assert_eq!(lines[0].turn, 1);
    assert_eq!(lines[0].channel, "local_main");
    assert_eq!(lines[0].role, RecordRole::User);
    assert_eq!(lines[1].role, RecordRole::Assistant);
}

#[test]
fn one_stream_holds_many_channels() {
    let mut record = RecordIndex::new();
    record.push(new_record_line("01A".to_string(), 1, "discord_general", RecordRole::User, Some("a"), None, None));
    record.push(new_record_line("01B".to_string(), 1, "local_main", RecordRole::Assistant, Some("b"), None, None));
    let lines = scan(&record);
    assert_eq!(lines.len(), 2);
    assert!(lines.iter().all(|l| l.turn == 1), "one turn, one place");
    assert_eq!(scan_turn(&record, 1).len(), 2);
    assert!(scan_turn(&record, 2).is_empty());
}

#[test]
fn last_turn_reads_the_tail() {
    let mut record = RecordIndex::new();
    assert_eq!(last_turn(&record), 0);
    assert!(tail(&record).is_none());
    record.push(new_record_line("01A".to_string(), 41, "local_main", RecordRole::User, Some("x"), None, None));
    assert_eq!(last_turn(&record), 41);
    assert_eq!(tail(&record).unwrap().turn, 41);
}

#[test]
fn witness_cursor_is_the_contiguous_frontier() {
    let mut moves = MoveIndex::new();
    assert_eq!(witness_cursor(&moves), 0, "no moves");
    for turn in [5u64, 6, 7] {
        moves.push(mv(turn, "m"));
    }
    assert_eq!(witness_cursor(&moves), 7, "contiguous: the tail");
    moves.push(mv(9, "m"));
    assert_eq!(witness_cursor(&moves), 7, "gap at 8");
    moves.push(mv(8, "m"));
    assert_eq!(witness_cursor(&moves), 9, "frontier recovered");
}

#[test]
fn missing_file_scans_empty() {
    let record = RecordIndex::new();
    assert!(scan(&record).is_empty());
}

#[test]
fn cached_moves_rebuild_after_delete_and_place_regeneration_by_turn() {
    let mut moves = MoveIndex::new();
    moves.push(mv(1, "one"));
    moves.push(mv(2, "two"));
    moves.push(mv(3, "three"));
    assert_eq!(read_moves(&moves).len(), 3);
    assert_eq!(witness_cursor(&moves), 3);

    let kept: Vec<MoveLine> = read_moves(&moves).into_iter().filter(|m| m.turn != 2).collect();
    moves.rebuild(kept);
    assert_eq!(move_turns(&moves), vec![1, 3]);
    assert_eq!(witness_cursor(&moves), 1);

    moves.push(mv(2, "two, regenerated"));
    let chronological = read_moves_chronological(&moves);
    assert_eq!(chronological.iter().map(|l| l.turn).collect::<Vec<_>>(), vec![1, 2, 3]);
    assert_eq!(chronological[1].summary, "two, regenerated");
    assert_eq!(witness_cursor(&moves), 3);
}

#[test]
fn duplicate_moves_preserve_append_order_but_not_cursor_duplicates() {
    let mut moves = MoveIndex::new();
    moves.push(mv(1, "one"));
    moves.push(mv(2, "first two"));
    moves.push(mv(2, "second two"));
    moves.push(mv(3, "three"));
    let twos = read_moves_range(&moves, 2, 2);
    assert_eq!(twos.iter().map(|l| l.summary.as_str()).collect::<Vec<_>>(), vec!["first two", "second two"]);
    assert_eq!(witness_cursor(&moves), 3);
}
