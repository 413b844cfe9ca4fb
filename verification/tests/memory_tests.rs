use river_gateway::embedding::EmbeddingConfig;
use river_gateway::memory::{link_stem, wiki_links};
use river_gateway::segment::{segment, segment_with_cap, smaller_cap, SEGMENT_HARD_CAP, SEGMENT_TARGET_BYTES};

#[test]
fn wiki_link_parsing_handles_aliases_headings_and_dupes() {
    let body = "see [[a|alias]] and [[b#section]] and [[a]] and [[ ]]";
    assert_eq!(wiki_links(body), vec!["a".to_string(), "b".to_string()]);
}

#[test]
fn link_stem_handles_bare_id_paths_and_no_extension() {
    assert_eq!(link_stem("knowledge/01A.md"), "01A");
    assert_eq!(link_stem("01A"), "01A");
    assert_eq!(link_stem("a/b/c/01A.md"), "01A");
    assert_eq!(link_stem("plain-target"), "plain-target");
    assert_eq!(link_stem("dir/"), "");
}

#[test]
fn segmentation_accumulates_paragraphs() {
    let text = format!(
        "{}\n\n{}\n\n{}",
        "a".repeat(800),
        "b".repeat(800),
        "c".repeat(100)
    );
    let segments = segment(&text);
    assert_eq!(segments.len(), 2);
    assert!(segments[1].contains('c'));
}

#[test]
fn segmentation_splits_giant_paragraphs_and_skips_empty() {
    let segments = segment(&"x".repeat(20_000));
    assert!(segments.len() >= 4, "split despite no paragraph breaks");
    assert!(segments.iter().all(|s| s.len() <= 4 * SEGMENT_TARGET_BYTES));

    assert!(segment("").is_empty());
    assert!(segment("\n\n  \n\n").is_empty());
}

#[test]
fn segment_with_cap_on_empty_and_whitespace_returns_empty() {
    assert!(segment_with_cap("", 100).is_empty());
    assert!(segment_with_cap("   \n  \n\n   ", 100).is_empty());
}

#[test]
fn segments_respect_a_small_cap() {
    let segments = segment_with_cap(&"y".repeat(1000), 100);
    assert!(!segments.is_empty());
    assert!(segments.iter().all(|s| s.len() <= 100));
    assert_eq!(segments.concat().len(), 1000);
}

#[test]
fn embedding_test_config_default() {
    let config = EmbeddingConfig::default();
    assert_eq!(config.url, "http://localhost:8081");
    assert_eq!(config.dimensions, 768);
    assert_eq!(config.model, "nomic-embed-text-v1.5");
}

#[test]
fn segment_cap_halves_down_to_the_floor() {
    assert_eq!(smaller_cap(SEGMENT_HARD_CAP), Some(2400));
    assert_eq!(smaller_cap(2400), Some(1200));
    assert_eq!(smaller_cap(1200), Some(600));
    assert_eq!(smaller_cap(600), None);
    assert_eq!(smaller_cap(1199), None);
}

#[test]
fn small_caps_cut_ascii_text() {
    assert_eq!(segment_with_cap("abcdef", 2), vec!["ab", "cd", "ef"]);
    assert_eq!(segment_with_cap("a\n\nb", 1), vec!["a", "b"]);
    assert_eq!(segment_with_cap("abc", 3), vec!["abc"]);
    assert!(segment_with_cap("", 0).is_empty());
    assert!(segment_with_cap("\n\n\n\n", 0).is_empty());
}
