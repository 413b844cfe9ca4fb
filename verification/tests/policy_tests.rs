use river_gateway::policy::{HealthPolicy, HealthStatus, ModelErrorAction};

fn policy() -> HealthPolicy {
    HealthPolicy::new("test".to_string(), "/tmp".to_string())
}

#[test]
fn test_health_status_default() {
    let policy = policy();
    assert_eq!(policy.status(), HealthStatus::Healthy);
    assert_eq!(HealthStatus::default(), HealthStatus::Healthy);
}

#[test]
fn test_tool_backoff_escalates() {
    let mut policy = policy();
    assert_eq!(policy.tool_backoff("bash"), 0);
    policy.on_tool_result("bash", false, 100);
    assert_eq!(policy.tool_backoff("bash"), 0);
    policy.on_tool_result("bash", false, 100);
    assert_eq!(policy.tool_backoff("bash"), 60);
    policy.on_tool_result("bash", false, 100);
    assert_eq!(policy.tool_backoff("bash"), 120);
    policy.on_tool_result("bash", false, 100);
    assert_eq!(policy.tool_backoff("bash"), 240);
}

#[test]
fn test_tool_backoff_caps_at_8_minutes() {
    let mut policy = policy();
    for _ in 0..10 {
        policy.on_tool_result("bash", false, 100);
    }
    assert_eq!(policy.tool_backoff("bash"), 480);
}

#[test]
fn test_tool_success_clears_failures() {
    let mut policy = policy();
    policy.on_tool_result("bash", false, 100);
    policy.on_tool_result("bash", false, 100);
    assert_eq!(policy.tool_backoff("bash"), 60);
    policy.on_tool_result("bash", true, 100);
    assert_eq!(policy.tool_backoff("bash"), 0);
}

#[test]
fn test_tool_failure_decay_after_one_hour() {
    let mut policy = policy();
    let t0: i64 = 1_700_000_000_000;
    for _ in 0..5 {
        policy.on_tool_result_at("bash", false, t0);
    }
    assert_eq!(policy.tool_backoff_at("bash", t0), 480);
    // two hours later the failures have decayed
    assert_eq!(policy.tool_backoff_at("bash", t0 + 2 * 3600 * 1000), 0);
    // an hour and a fraction of a second is not yet more than an hour
    assert_eq!(policy.tool_backoff_at("bash", t0 + 3600 * 1000 + 999), 480);
    assert_eq!(policy.tool_backoff_at("bash", t0 + 3601 * 1000), 0);
}

#[test]
fn tool_records_are_kept_per_tool() {
    let mut policy = policy();
    policy.on_tool_result("bash", false, 1);
    policy.on_tool_result("bash", false, 1);
    policy.on_tool_result("read", false, 1);
    assert_eq!(policy.failure_count("bash"), 2);
    assert_eq!(policy.failure_count("read"), 1);
    policy.on_tool_result("read", true, 1);
    assert_eq!(policy.failure_count("read"), 0);
    assert_eq!(policy.failure_count("bash"), 2);
}

#[test]
fn test_error_backoff_escalates() {
    let mut policy = policy();
    assert_eq!(policy.error_backoff(), 0);
    policy.on_turn_complete(1, 1);
    assert_eq!(policy.consecutive_errors(), 2);
    assert_eq!(policy.error_backoff(), 120);
    policy.on_turn_complete(1, 1);
    assert_eq!(policy.consecutive_errors(), 4);
}

#[test]
fn test_error_backoff_caps_at_15_minutes() {
    let mut policy = policy();
    for _ in 0..20 {
        policy.on_turn_complete(1, 1);
    }
    assert_eq!(policy.error_backoff(), 900);
}

#[test]
fn test_success_ratio_recovery() {
    let mut policy = policy();
    policy.on_turn_complete(1, 1);
    policy.on_turn_complete(1, 1);
    assert_eq!(policy.status(), HealthStatus::Degraded);
    policy.on_turn_complete(5, 1);
    assert_eq!(policy.status(), HealthStatus::Healthy);
    assert_eq!(policy.consecutive_errors(), 0);
}

#[test]
fn test_needs_attention_after_six_errors() {
    let mut policy = policy();
    policy.on_turn_complete(1, 1);
    policy.on_turn_complete(1, 1);
    policy.on_turn_complete(1, 1);
    assert_eq!(policy.status(), HealthStatus::NeedsAttention);
}

#[test]
fn test_zero_calls_is_clean_turn() {
    let mut policy = policy();
    policy.on_turn_complete(1, 1);
    policy.on_turn_complete(1, 1);
    assert_eq!(policy.status(), HealthStatus::Degraded);
    policy.on_turn_complete(0, 0);
    assert_eq!(policy.status(), HealthStatus::Healthy);
    assert_eq!(policy.consecutive_errors(), 0);
}

#[test]
fn test_partial_failure_accumulates_one_error() {
    let mut policy = policy();
    policy.on_turn_complete(5, 2);
    assert_eq!(policy.consecutive_errors(), 1);
    assert_eq!(policy.status(), HealthStatus::Healthy);
    policy.on_turn_complete(5, 2);
    assert_eq!(policy.consecutive_errors(), 2);
    assert_eq!(policy.status(), HealthStatus::Degraded);
}

#[test]
fn test_401_immediate_escalation() {
    let mut policy = policy();
    let (action, note) = policy.on_model_error_at(401, 5, "2026-01-01T00:00:00Z");
    assert_eq!(action, ModelErrorAction::Escalated);
    assert_eq!(policy.status(), HealthStatus::NeedsAttention);
    let note = note.expect("an attention note to write");
    assert_eq!(note.path, "/tmp/ATTENTION.md");
    assert!(note.content.starts_with("# Attention Required\n\n**Agent:** test\n**Time:** 2026-01-01T00:00:00Z\n"));
    assert!(note.content.contains("**Reason:** Authentication error: HTTP 401\n"));
    assert!(note.content.contains("API key may be invalid or expired. Check credentials."));
}

#[test]
fn test_403_immediate_escalation() {
    let mut policy = policy();
    let (action, note) = policy.on_model_error(403);
    assert_eq!(action, ModelErrorAction::Escalated);
    assert_eq!(policy.status(), HealthStatus::NeedsAttention);
    assert!(note.unwrap().content.contains("HTTP 403"));
}

#[test]
fn test_429_returns_retry_after() {
    let mut policy = policy();
    let (action, note) = policy.on_model_error(429);
    assert_eq!(action, ModelErrorAction::RetryAfter(60));
    assert!(note.is_none());
}

#[test]
fn test_500_returns_backoff() {
    let mut policy = policy();
    let (action, _) = policy.on_model_error(500);
    assert_eq!(action, ModelErrorAction::RetryWithBackoff(60));
    let (action, _) = policy.on_model_error(503);
    assert_eq!(action, ModelErrorAction::RetryWithBackoff(120));
}

#[test]
fn other_client_errors_degrade_without_retry() {
    let mut policy = policy();
    let (action, _) = policy.on_model_error(404);
    assert_eq!(action, ModelErrorAction::NoRetry);
    assert_eq!(policy.status(), HealthStatus::Degraded);
}

#[test]
fn setters_and_getters() {
    let mut policy = policy();
    policy.set_heartbeat_turn(true);
    policy.set_pending_messages(3);
    policy.set_turn_start_tokens(100);
    assert_eq!(policy.agent_name(), "test");
    assert_eq!(policy.data_dir(), "/tmp");
    assert_eq!(policy.recovery_attempts(), 0);
}

fn rfc3339_form(s: &str, zone: &str) -> bool {
    let Some(body) = s.strip_suffix(zone) else { return false };
    let Some(t) = body.find('T') else { return false };
    let (date, time) = (&body[..t], &body[t + 1..]);
    let digits = |x: &str| !x.is_empty() && x.chars().all(|c| c.is_ascii_digit());
    let parts: Vec<&str> = date.rsplitn(3, '-').collect();
    let year_ok = parts.len() == 3 && {
        let y = parts[2];
        (y.len() == 4 && digits(y)) || ((5..=7).contains(&y.len()) && (y.starts_with('+') || y.starts_with('-')) && digits(&y[1..]))
    };
    let (hms, frac) = match time.find('.') {
        Some(p) => (&time[..p], Some(&time[p + 1..])),
        None => (time, None),
    };
    let hms_parts: Vec<&str> = hms.split(':').collect();
    year_ok
        && parts[0].len() == 2 && digits(parts[0]) && parts[1].len() == 2 && digits(parts[1])
        && hms_parts.len() == 3 && hms_parts.iter().all(|p| p.len() == 2 && digits(p))
        && frac.map_or(true, |f| (1..=9).contains(&f.len()) && digits(f))
}

#[test]
fn attention_note_is_stamped_in_rfc3339_utc() {
    let mut policy = policy();
    let (_, note) = policy.on_model_error(401);
    let content = note.unwrap().content;
    let line = content.lines().find(|l| l.starts_with("**Time:** ")).unwrap();
    let time = line.trim_start_matches("**Time:** ");
    assert!(rfc3339_form(time, "+00:00"), "{time}");
    assert!(!rfc3339_form("2026-01-01 00:00:00+00:00", "+00:00"));
}
