use structured_log_viewer::model::NodeSummary;
use structured_log_viewer::tree::TreeModel;

fn node(id: &str, has_children: bool) -> NodeSummary {
    NodeSummary {
        id: id.to_string(),
        kind: "Folder".to_string(),
        title: id.to_string(),
        name: None,
        value: None,
        has_children,
        child_count: 0,
        is_low_relevance: false,
        state: String::new(),
        has_source: false,
        can_preprocess: false,
        child_index: None,
        props: Vec::new(),
    }
}

fn shape(m: &TreeModel) -> Vec<(String, usize, bool, bool)> {
    m.rows().iter().map(|r| (r.node.id.clone(), r.depth, r.expanded, r.loading)).collect()
}

#[test]
fn a_new_model_shows_only_its_root() {
    let m = TreeModel::new(node("root", true));
    assert_eq!(m.len(), 1);
    assert_eq!(m.row(0).unwrap().depth, 0);
    assert!(m.row(1).is_none());
    assert!(m.needs_fetch(0));
    assert!(!m.needs_fetch(1));
    assert_eq!(TreeModel::default().len(), 0);
}

#[test]
fn children_splice_in_under_their_parent() {
    let mut m = TreeModel::new(node("root", true));
    m.mark_loading(0);
    assert!(!m.needs_fetch(0));
    assert_eq!(m.apply_children("root", vec![node("a", true), node("b", false)]), Some(0));
    assert_eq!(
        shape(&m),
        vec![
            ("root".to_string(), 0, true, false),
            ("a".to_string(), 1, false, false),
            ("b".to_string(), 1, false, false),
        ]
    );
    assert_eq!(m.index_of("b"), Some(2));
    assert_eq!(m.index_of("nope"), None);
    assert_eq!(m.parent_index(2), Some(0));
    assert_eq!(m.parent_index(0), None);
    assert_eq!(m.parent_index(7), None);
    assert!(m.needs_fetch(1));
    assert!(!m.needs_fetch(2));
}

#[test]
fn children_for_a_vanished_or_open_parent_change_nothing_but_loading() {
    let mut m = TreeModel::new(node("root", true));
    assert_eq!(m.apply_children("gone", vec![node("x", false)]), None);
    assert_eq!(m.len(), 1);
    m.apply_children("root", vec![node("a", false)]);
    m.mark_loading(0);
    assert_eq!(m.apply_children("root", vec![node("again", false)]), Some(0));
    assert_eq!(shape(&m), vec![("root".to_string(), 0, true, false), ("a".to_string(), 1, false, false)]);
}

#[test]
fn collapsing_removes_the_whole_subtree_and_undoes_an_expand() {
    let mut m = TreeModel::new(node("root", true));
    m.apply_children("root", vec![node("a", true), node("b", false)]);
    m.apply_children("a", vec![node("a1", false), node("a2", false)]);
    assert_eq!(m.len(), 5);
    assert_eq!(m.parent_index(2), Some(1));
    assert_eq!(m.parent_index(4), Some(0));
    assert!(m.collapse(1));
    assert_eq!(
        shape(&m),
        vec![
            ("root".to_string(), 0, true, false),
            ("a".to_string(), 1, false, false),
            ("b".to_string(), 1, false, false),
        ]
    );
    assert!(!m.collapse(1));
    assert!(!m.collapse(9));
    assert!(m.collapse(0));
    assert_eq!(shape(&m), vec![("root".to_string(), 0, false, false)]);
    assert!(m.is_well_shaped());
}
