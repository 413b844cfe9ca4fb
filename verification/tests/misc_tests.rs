use river_gateway::paths::{extension_str, file_stem_str, join_str};
use river_gateway::preferences::{
    format_current_time, preferences_path, time_line, IdentityPreferences, Preferences, CLOCK_FORMAT,
    SchedulePreferences, TimePreferences,
};
use river_gateway::search::MemorySearcher;

#[test]
fn test_preferences_load_missing_file() {
    let prefs = Preferences::default();
    assert_eq!(prefs.timezone(), "UTC");
    assert_eq!(prefs.preferred_name(), None);
}

#[test]
fn test_preferences_partial() {
    let prefs = Preferences {
        time: TimePreferences { timezone: Some("Europe/London".to_string()) },
        identity: IdentityPreferences::default(),
        schedule: SchedulePreferences::default(),
    };
    assert_eq!(prefs.timezone(), "Europe/London");
    assert_eq!(prefs.preferred_name(), None);
    assert_eq!(preferences_path("/ws"), "/ws/PREFERENCES.toml");
}

#[test]
fn test_format_time_with_timezone() {
    let result = format_current_time("America/Los_Angeles");
    assert!(result.contains("America/Los_Angeles"));
}

#[test]
fn test_format_time_invalid_timezone() {
    let result = format_current_time("Invalid/Zone");
    assert!(result.contains("UTC"));
}

#[test]
fn test_format_time_utc() {
    let result = format_current_time("UTC");
    assert!(result.contains("UTC"));
}

#[test]
fn time_lines_trim_the_reading() {
    assert_eq!(
        time_line("Europe/Paris", Some("Monday, May  4, 2026 at  9:05 AM "), ""),
        "Monday, May  4, 2026 at  9:05 AM (Europe/Paris)"
    );
    assert_eq!(time_line("Nowhere", None, " Monday ... "), "Monday ... UTC");
}

#[test]
fn search_filters() {
    assert!(MemorySearcher::passes_filters("chat", 10, None, None, None));
    assert!(!MemorySearcher::passes_filters("chat", 10, Some("notes"), None, None));
    assert!(MemorySearcher::passes_filters("notes", 10, Some("notes"), Some(10), Some(10)));
    assert!(!MemorySearcher::passes_filters("notes", 9, None, Some(10), None));
    assert!(!MemorySearcher::passes_filters("notes", 11, None, None, Some(10)));
    assert_eq!(MemorySearcher::candidates(5), 10);
}

#[test]
fn path_pieces() {
    assert_eq!(join_str("/a", "b"), "/a/b");
    assert_eq!(join_str("/a/", "b"), "/a/b");
    assert_eq!(join_str("/a", "/b"), "/b");
    assert_eq!(file_stem_str("dir/name.tar.gz").as_deref(), Some("name.tar"));
    assert_eq!(extension_str("dir/name.tar.gz").as_deref(), Some("gz"));
    assert_eq!(extension_str(".hidden"), None);
}

#[test]
fn clock_line_is_read_in_the_clock_format() {
    assert_eq!(CLOCK_FORMAT, "%A, %B %e, %Y at %l:%M %p");
    let utc = format_current_time("Invalid/Zone");
    assert!(utc.ends_with(" UTC"));
    assert!(utc.contains(" at "));
    assert!(utc.contains("AM") || utc.contains("PM"));
    let zoned = format_current_time("Asia/Tokyo");
    assert!(zoned.ends_with(" (Asia/Tokyo)"));
    assert!(zoned.contains(", 20"));
}
