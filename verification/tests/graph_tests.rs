use river_gateway::graph::{
    bump_target, note_id_at, resonance_cut, resonates, flash_for, graph_edges, hop_carrier, neighbors, plan_wave, resolve_links, ResolvedLink,
};
use river_gateway::memory::{Carrier, NoteInfo, Resolver};

fn note(id: &str, path: &str, links: &[(&str, &str)]) -> NoteInfo {
    NoteInfo {
        id: id.to_string(),
        path: path.to_string(),
        body: String::new(),
        links: links.iter().map(|(t, x)| (t.to_string(), x.to_string())).collect(),
    }
}

fn edge(s: &str, t: &str, ty: &str) -> ResolvedLink {
    ResolvedLink { source: s.to_string(), target: t.to_string(), link_type: ty.to_string() }
}

fn triples(v: &[ResolvedLink]) -> Vec<(String, String, String)> {
    v.iter().map(|e| (e.source.clone(), e.target.clone(), e.link_type.clone())).collect()
}

#[test]
fn links_resolve_by_id_or_unique_stem_and_dangling_targets_drop() {
    let notes = vec![
        note("01A", "/ws/knowledge/alpha.md", &[("extends", "01B"), ("wiki", "beta"), ("wiki", "nowhere")]),
        note("01B", "/ws/knowledge/beta.md", &[("wiki", "knowledge/alpha.md")]),
    ];
    let resolver = Resolver::build(&notes);
    let edges = resolve_links(&notes, &resolver);
    assert_eq!(
        triples(&edges),
        vec![
            ("01A".to_string(), "01B".to_string(), "extends".to_string()),
            ("01A".to_string(), "01B".to_string(), "wiki".to_string()),
            ("01B".to_string(), "01A".to_string(), "wiki".to_string()),
        ]
    );
}

#[test]
fn neighbors_ignore_direction() {
    let edges = vec![edge("a", "b", "extends"), edge("c", "a", "wiki")];
    assert_eq!(neighbors(&edges, "a"), vec!["b".to_string(), "c".to_string()]);
    assert_eq!(neighbors(&edges, "b"), vec!["a".to_string()]);
    assert_eq!(neighbors(&edges, "c"), vec!["a".to_string()]);
    assert!(neighbors(&edges, "z").is_empty());
}

#[test]
fn graph_edges_drop_self_loops_and_repeats() {
    let edges = vec![edge("a", "b", "wiki"), edge("a", "a", "wiki"), edge("a", "b", "wiki"), edge("a", "b", "extends")];
    assert_eq!(
        triples(&graph_edges(&edges)),
        vec![
            ("a".to_string(), "b".to_string(), "wiki".to_string()),
            ("a".to_string(), "b".to_string(), "extends".to_string()),
        ]
    );
}

#[test]
fn wave_walks_three_hops_and_touches_each_note_once() {
    // a - b - c - d - e, plus a shortcut a - c
    let edges = vec![
        edge("a", "b", "wiki"),
        edge("b", "c", "wiki"),
        edge("c", "d", "extends"),
        edge("d", "e", "wiki"),
        edge("c", "a", "wiki"),
    ];
    let (ops, reached) = plan_wave(&edges, "a", 3);
    assert_eq!(
        ops,
        vec![("a".to_string(), 0), ("b".to_string(), 1), ("c".to_string(), 1), ("d".to_string(), 2), ("e".to_string(), 3)]
    );
    assert_eq!(reached.len(), 5);

    let (ops, reached) = plan_wave(&edges, "a", 1);
    assert_eq!(ops, vec![("a".to_string(), 0), ("b".to_string(), 1), ("c".to_string(), 1)]);
    assert_eq!(reached, vec!["a".to_string(), "b".to_string(), "c".to_string(), "d".to_string()]);
}

#[test]
fn wave_of_isolated_note_is_just_the_origin() {
    let (ops, reached) = plan_wave(&vec![], "solo", 3);
    assert_eq!(ops, vec![("solo".to_string(), 0)]);
    assert_eq!(reached, vec!["solo".to_string()]);
    let (ops, _) = plan_wave(&vec![edge("solo", "x", "wiki")], "solo", 0);
    assert_eq!(ops, vec![("solo".to_string(), 0)]);
}

#[test]
fn propagated_bumps_carry_propagation() {
    assert_eq!(hop_carrier(Carrier::Cognitive, 0), Carrier::Cognitive);
    assert_eq!(hop_carrier(Carrier::Ambient, 0), Carrier::Ambient);
    assert_eq!(hop_carrier(Carrier::Cognitive, 1), Carrier::Propagated);
    assert_eq!(hop_carrier(Carrier::Ambient, 3), Carrier::Propagated);
}

fn note_with_body(id: &str, path: &str, body: &str, links: &[(&str, &str)]) -> NoteInfo {
    let mut n = note(id, path, links);
    n.body = body.to_string();
    n
}

#[test]
fn flash_carries_neighbors() {
    let notes = vec![
        note_with_body("NH", "/ws/knowledge/h.md", "the heron waits", &[("same-pattern-as", "NO"), ("wiki", "missing")]),
        note_with_body("NO", "/ws/knowledge/o.md", "the owl is silent", &[]),
    ];
    let resolver = Resolver::build(&notes);
    let flash = flash_for("NH", &notes, &resolver).unwrap();
    assert_eq!(flash.note_id, "NH");
    assert_eq!(flash.text, "the heron waits");
    assert_eq!(flash.neighbors.len(), 1);
    assert_eq!(flash.neighbors[0].0, "same-pattern-as");
    assert!(flash.neighbors[0].1.contains("owl"));
    assert!(flash_for("/ws/loose.md", &notes, &resolver).is_none());
}

#[test]
fn flash_caps_text_and_neighbours() {
    let long = "x".repeat(1300);
    let links: Vec<(String, String)> = (0..8).map(|_| ("wiki".to_string(), "NO".to_string())).collect();
    let mut hub = note_with_body("NH", "/ws/knowledge/h.md", &long, &[]);
    hub.links = links;
    let notes = vec![hub, note_with_body("NO", "/ws/knowledge/o.md", "owl", &[])];
    let resolver = Resolver::build(&notes);
    let flash = flash_for("NH", &notes, &resolver).unwrap();
    assert_eq!(flash.text.chars().count(), 1201);
    assert!(flash.text.ends_with('…'));
    assert_eq!(flash.neighbors.len(), 6);
}

#[test]
fn frontmatter_id_keys_the_bump() {
    let notes = vec![note("01A", "/ws/knowledge/a.md", &[]), note("01B", "/ws/knowledge/a.md", &[])];
    assert_eq!(note_id_at(&notes, "/ws/knowledge/a.md"), Some("01B".to_string()), "a later note shadows");
    assert_eq!(bump_target(&notes, "/ws/knowledge/a.md", None), "01B");
    assert_eq!(
        bump_target(&notes, "/ws/knowledge/note.md", Some("---\nid: 01JXXTESTULID\n---\n\na claim")),
        "01JXXTESTULID"
    );
    assert_eq!(bump_target(&notes, "/ws/loom/t.md", Some("no frontmatter")), "/ws/loom/t.md");
    assert_eq!(bump_target(&vec![], "/ws/loom/t.md", None), "/ws/loom/t.md");
}

#[test]
fn resonance_reads_a_bounded_prefix_of_non_blank_text() {
    assert!(!resonates("  \n\t "));
    assert!(resonates(" a "));
    assert_eq!(resonance_cut("short"), 5);
    assert_eq!(resonance_cut(&"x".repeat(5000)), 4000);
    let wide = "字".repeat(2000);
    let cut = resonance_cut(&wide);
    assert_eq!(cut, 4000);
    let query = river_gateway::tools::prefix_within(&wide, cut);
    assert_eq!(query.len(), 3999, "cut moves back to a character boundary");
    assert_eq!(river_gateway::tools::prefix_within("héllo", 2), "h");
}
