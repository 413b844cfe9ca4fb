use river_gateway::sweep::{
    missing_rejections, plan_sweep, rejection_dims_drifted, shape_action, ShapeAction,
};

fn pair(p: &str, h: &str) -> (String, String) {
    (p.to_string(), h.to_string())
}

#[test]
fn plan_sweep_indexes_new_and_changed_files() {
    let on_disk = vec![pair("a.md", "h1"), pair("b.md", "h2"), pair("c.md", "h3")];
    let known = vec![pair("a.md", "h1"), pair("b.md", "old"), pair("gone.md", "h9")];
    let (index, removed) = plan_sweep(&on_disk, &known);
    assert_eq!(index, vec![1, 2]);
    assert_eq!(removed, vec![2]);
}

#[test]
fn plan_sweep_empty_disk_removes_everything() {
    let known = vec![pair("a.md", "h1"), pair("b.md", "h2")];
    let (index, removed) = plan_sweep(&Vec::new(), &known);
    assert!(index.is_empty());
    assert_eq!(removed, vec![0, 1]);
}

#[test]
fn plan_sweep_unchanged_tree_does_nothing() {
    let files = vec![pair("a.md", "h1"), pair("b.md", "h2")];
    let (index, removed) = plan_sweep(&files, &files);
    assert!(index.is_empty());
    assert!(removed.is_empty());
}

#[test]
fn shape_action_skips_note_without_id() {
    let text = "---\ntitle: x\n---\nbody\n";
    assert!(matches!(shape_action(text), ShapeAction::Skip));
    assert!(matches!(shape_action("no frontmatter"), ShapeAction::Skip));
}

#[test]
fn shape_action_upserts_agent_shape() {
    let text = "---\nid: 01ABC\nshape: a note about shapes\n---\nbody\n";
    match shape_action(text) {
        ShapeAction::UpsertAgent { id, shape } => {
            assert_eq!(id, "01ABC");
            assert_eq!(shape, "a note about shapes");
        }
        other => panic!("unexpected {:?}", other),
    }
}

#[test]
fn shape_action_glosses_when_no_shape_line() {
    let text = "---\nid: 01ABC\n---\nbody\n";
    match shape_action(text) {
        ShapeAction::GlossUnlessPresent { id } => assert_eq!(id, "01ABC"),
        other => panic!("unexpected {:?}", other),
    }
}

fn ids(v: &[&str]) -> Vec<String> {
    v.iter().map(|s| s.to_string()).collect()
}

#[test]
fn rebuild_embeds_only_unknown_rejections_in_log_order() {
    let entries = ids(&["c1", "c2", "c3", "c2"]);
    let known = ids(&["c2"]);
    assert_eq!(missing_rejections(&entries, &known), vec![0, 2]);
    assert_eq!(missing_rejections(&entries, &Vec::new()), vec![0, 1, 2, 3]);
    assert!(missing_rejections(&Vec::new(), &known).is_empty());
}

#[test]
fn dimension_drift_wipes_only_on_mismatch() {
    assert!(!rejection_dims_drifted(None, 768));
    assert!(!rejection_dims_drifted(Some(3072), 768));
    assert!(rejection_dims_drifted(Some(3072), 1024));
    assert!(rejection_dims_drifted(Some(0), u64::MAX));
}

#[test]
fn second_rebuild_after_planned_ids_plans_nothing() {
    let entries = ids(&["c1", "c2", "c3", "c2", "c1"]);
    let mut known = ids(&["c2"]);
    let planned = missing_rejections(&entries, &known);
    assert_eq!(planned, vec![0, 2, 4]);
    for i in planned {
        known.push(entries[i].clone());
    }
    assert!(missing_rejections(&entries, &known).is_empty());
}

#[test]
fn sweep_after_applying_plan_plans_nothing() {
    let on_disk = vec![pair("a.md", "h1"), pair("b.md", "h2"), pair("c.md", "h3")];
    let known = vec![pair("a.md", "h1"), pair("b.md", "old"), pair("gone.md", "h9")];
    let (index, removed) = plan_sweep(&on_disk, &known);
    assert_eq!((index.len(), removed.len()), (2, 1));
    let (index, removed) = plan_sweep(&on_disk, &on_disk);
    assert!(index.is_empty());
    assert!(removed.is_empty());
}
