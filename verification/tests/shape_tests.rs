use river_gateway::memory::{ShapeAuthor, ShapeRow};
use river_gateway::shape::{
    accept_gloss, drift_jobs, gloss_request, hex_lower, knowledge_dir, missing_jobs, sha256_hex,
    shape_log_path, should_gloss, GlossJob, JobReason, LoadedPrompt, Prompt, ShapeLogEntry,
};

#[test]
fn prompt_hash_is_sha256_hex() {
    assert_eq!(
        sha256_hex(""),
        "e3b0c44298fc1c149afbf4c8996fb92427ae41e4649b934ca495991b7852b855"
    );
    assert_eq!(
        sha256_hex("abc"),
        "ba7816bf8f01cfea414140de5dae2223b00361a396177a9cb410ff61f20015ad"
    );
    assert_eq!(hex_lower(&vec![0u8, 15, 16, 255]), "000f10ff");
}

#[test]
fn prompt_cache_follows_modification_time() {
    let mut prompt = Prompt::at_workspace("/ws");
    assert_eq!(prompt.path(), "/ws/witness/on-shape.md");
    assert!(prompt.cached_for(Some(1)).is_none());
    let loaded = prompt.remember(Some(1), "Gloss: {note_body}".to_string());
    assert_eq!(loaded.hash, sha256_hex("Gloss: {note_body}"));
    let again = prompt.cached_for(Some(1)).unwrap();
    assert_eq!(again.text, "Gloss: {note_body}");
    assert!(prompt.cached_for(Some(2)).is_none());
    assert!(prompt.cached_for(None).is_none());
    prompt.forget();
    assert!(prompt.cached_for(Some(1)).is_none());
}

#[test]
fn gloss_requests_fill_the_body_slot() {
    let prompt = LoadedPrompt { text: "Shape of:\n{note_body}\n(keep {other})".to_string(), hash: String::new() };
    assert_eq!(gloss_request(&prompt, "the note"), "Shape of:\nthe note\n(keep {other})");
    assert_eq!(accept_gloss("  if A then B \n").as_deref(), Some("if A then B"));
    assert!(accept_gloss("   ").is_none());
}

#[test]
fn job_reasons_have_words() {
    assert_eq!(JobReason::Missing.as_str(), "missing");
    assert_eq!(JobReason::Drift.as_str(), "drift");
    assert_eq!(JobReason::Write.as_str(), "write");
}

#[test]
fn enqueue_missing_enqueues_new_atomics_only() {
    let files = vec![
        ("01A.md".to_string(), "---\nid: 01A\n---\nclaim a".to_string()),
        ("01B.md".to_string(), "---\nid: 01B\n---\nclaim b".to_string()),
        ("notes.txt".to_string(), "---\nid: 01C\n---\nnot markdown".to_string()),
        ("loose.md".to_string(), "no frontmatter".to_string()),
    ];
    let jobs = missing_jobs(&vec!["01A".to_string()], &files);
    assert_eq!(jobs.len(), 1);
    assert_eq!(jobs[0].note_id, "01B");
    assert_eq!(jobs[0].note_path, "knowledge/01B.md");
    assert_eq!(jobs[0].reason, JobReason::Missing);
}

fn row(id: &str, author: ShapeAuthor, model: &str, hash: &str) -> ShapeRow {
    ShapeRow {
        note_id: id.to_string(),
        file_path: format!("knowledge/{id}.md"),
        gloss: "g".to_string(),
        author,
        model_id: model.to_string(),
        prompt_hash: hash.to_string(),
        at: "t".to_string(),
    }
}

#[test]
fn enqueue_drift_targets_only_stale_witness_rows() {
    let rows = vec![
        row("01A", ShapeAuthor::Witness, "m1", "h1"),
        row("01B", ShapeAuthor::Witness, "m0", "h1"),
        row("01C", ShapeAuthor::Agent, "m0", "h0"),
        row("01D", ShapeAuthor::Witness, "m1", "h0"),
    ];
    let jobs = drift_jobs(&rows, "m1", "h1");
    let ids: Vec<&str> = jobs.iter().map(|j| j.note_id.as_str()).collect();
    assert_eq!(ids, vec!["01B", "01D"]);
    assert!(jobs.iter().all(|j| j.reason == JobReason::Drift));
    assert_eq!(jobs[0].note_path, "knowledge/01B.md");
}

#[test]
fn process_one_skips_agent_authored_row() {
    assert!(!should_gloss(Some(ShapeAuthor::Agent)));
    assert!(should_gloss(Some(ShapeAuthor::Witness)));
    assert!(should_gloss(None));
}

#[test]
fn receipts_and_paths() {
    let job = GlossJob { note_id: "01A".to_string(), note_path: "knowledge/01A.md".to_string(), reason: JobReason::Write };
    let e = ShapeLogEntry::for_gloss(&job, "model", "hash", "gloss".to_string(), "at".to_string());
    assert_eq!(e.author, "witness");
    assert_eq!(e.reason, "write");
    assert_eq!(e.note_id, "01A");
    assert_eq!(shape_log_path("/ws"), "/ws/witness/shape-log.jsonl");
    assert_eq!(knowledge_dir("/ws"), "/ws/knowledge");
}

#[test]
fn receipt_made_now_is_stamped() {
    let job = GlossJob { note_id: "01A".to_string(), note_path: "knowledge/01A.md".to_string(), reason: JobReason::Write };
    let entry = ShapeLogEntry::for_gloss_now(&job, "m1", "h1", "a gloss".to_string());
    assert_eq!(entry.author, "witness");
    assert_eq!(entry.reason, "write");
    assert!(entry.at.starts_with("20"), "an RFC 3339 instant: {}", entry.at);
    assert!(entry.at.ends_with('Z'));
    assert_eq!(entry.at.as_bytes()[10], b'T');
}
