use river_gateway::memory::NoteInfo;
use river_gateway::watch::{normalize_path, WatchedTree};

fn tree(index_dirs: &[&str]) -> WatchedTree {
    let dirs: Vec<String> = index_dirs.iter().map(|d| d.to_string()).collect();
    WatchedTree::new("/ws", &dirs)
}

#[test]
fn path_matches_prefixes_empty_and_starts_with_pitfall() {
    let mem = tree(&[]);
    assert!(mem.path_matches_prefixes("/ws/anything/foo.md", &vec![]));
    assert!(mem.path_matches_prefixes("/ws/knowledge/01A.md", &vec!["knowledge/".to_string()]));
    assert!(
        mem.path_matches_prefixes("/ws/knowledgex/foo.md", &vec!["knowledge".to_string()]),
        "starts_with is literal — caller responsibility to trail-slash"
    );
    assert!(
        !mem.path_matches_prefixes("/ws/knowledgex/foo.md", &vec!["knowledge/".to_string()]),
        "trailing slash disambiguates"
    );
}

#[test]
fn is_atomic_path_scoped_to_knowledge_and_workspace_relative_strips_root() {
    let mem = tree(&[]);
    assert!(mem.is_atomic_path("/ws/knowledge/01A.md"));
    assert!(!mem.is_atomic_path("/ws/loom/2026.md"), "loom is not an atomic path");
    assert!(!mem.is_atomic_path("random/knowledge/01A.md"), "not workspace-anchored");
    assert_eq!(mem.workspace_relative("/ws/knowledge/01A.md"), "knowledge/01A.md");
    assert_eq!(mem.workspace_relative("outside/other.md"), "outside/other.md");
}

#[test]
fn loom_and_moments_are_always_watched() {
    let mem = tree(&[]);
    assert!(mem.is_watched("/ws/loom/telling.md"));
    assert!(mem.is_watched("/ws/knowledge/k.md"));
    assert!(!mem.is_watched("/ws/record/moments/m.md"), "a record component keeps a path out of the seam");
    assert!(!mem.is_watched("/ws/notes/n.md"), "not configured");
    assert!(!mem.is_watched("/ws/knowledgex/n.md"), "whole components only");
}

#[test]
fn hidden_record_and_channels_are_never_watched() {
    let mem = tree(&["."]);
    assert!(mem.is_watched("/ws/notes/n.md"));
    assert!(!mem.is_watched("/ws/.git/config"));
    assert!(!mem.is_watched("/ws/notes/.draft.md"));
    assert!(!mem.is_watched("/ws/channels/home.jsonl"));
    assert!(!mem.is_watched("/ws/record/turns.jsonl"));
    assert!(mem.is_watched("/ws/notes/recordings.md"), "only whole components are excluded");
}

#[test]
fn configured_dirs_are_normalized_and_deduplicated() {
    let a = tree(&["./knowledge", "extra/", "extra", "loom"]);
    let b = tree(&["extra"]);
    assert!(a.is_watched("/ws/extra/x.md"));
    assert!(b.is_watched("/ws/extra/x.md"));
    assert!(!a.is_watched("/elsewhere/extra/x.md"));
}

#[test]
fn flash_dirs_filter_who_may_surface() {
    let mem = tree(&[]);
    let notes = vec![NoteInfo {
        id: "01A".to_string(),
        path: "/ws/knowledge/01A.md".to_string(),
        body: String::new(),
        links: vec![],
    }];
    assert!(mem.may_flash(&vec![], "01A", &notes), "no filter: everything may surface");
    assert!(mem.may_flash(&vec!["knowledge".to_string()], "01A", &notes));
    assert!(!mem.may_flash(&vec!["loom".to_string()], "01A", &notes));
    assert!(mem.may_flash(&vec!["./loom/".to_string()], "/ws/loom/t.md", &notes), "unknown id: the id is the path");
}

#[test]
fn the_walk_passes_by_hidden_and_engine_managed_entries() {
    assert!(river_gateway::watch::walk_skips(".obsidian"));
    assert!(river_gateway::watch::walk_skips(".draft.md"));
    assert!(river_gateway::watch::walk_skips("record"));
    assert!(river_gateway::watch::walk_skips("channels"));
    assert!(!river_gateway::watch::walk_skips("recordings"));
    assert!(!river_gateway::watch::walk_skips("notes.md"));
}


#[test]
fn normalization_matches_path_components() {
    for p in [
        "", "/", "//", ".", "./", "./a", "a/./b", "a//b/", "/a/b/.", "..", "../a", ".a/b", "a/..",
        "/./a", "./.", "a/b/.", "/ws//knowledge/", "ws/./record/moments", ".//x", "a/.b/./c//",
    ] {
        let expected = std::path::Path::new(p)
            .components()
            .collect::<std::path::PathBuf>()
            .to_string_lossy()
            .into_owned();
        assert_eq!(normalize_path(p), expected, "{p:?}");
    }
}
