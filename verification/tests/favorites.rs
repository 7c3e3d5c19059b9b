use structured_log_viewer::favorites::Favorites;
use structured_log_viewer::model::NodeSummary;

fn node(id: &str) -> NodeSummary {
    NodeSummary {
        id: id.to_string(),
        kind: "Target".to_string(),
        title: format!("Target {id}"),
        name: Some(id.to_string()),
        value: None,
        has_children: true,
        child_count: 2,
        is_low_relevance: false,
        state: String::new(),
        has_source: false,
        can_preprocess: false,
        child_index: None,
        props: Vec::new(),
    }
}

fn ids(f: &Favorites) -> Vec<String> {
    f.nodes().iter().map(|n| n.id.clone()).collect()
}

#[test]
fn toggling_pins_then_unpins() {
    let mut f = Favorites::default();
    assert!(!f.contains("1"));
    assert!(f.toggle(node("1")));
    assert!(f.contains("1"));
    assert!(f.toggle(node("2")));
    assert_eq!(ids(&f), vec!["1", "2"]);
    assert!(!f.toggle(node("1")));
    assert!(!f.contains("1"));
    assert_eq!(ids(&f), vec!["2"]);
    assert!(f.has_distinct_ids());
}

#[test]
fn toggling_twice_restores_an_unpinned_node() {
    let mut f = Favorites::default();
    f.toggle(node("1"));
    f.toggle(node("2"));
    let before = ids(&f);
    f.toggle(node("3"));
    f.toggle(node("3"));
    assert_eq!(ids(&f), before);
}

#[test]
fn toggling_a_pinned_node_twice_keeps_it_pinned_at_the_end() {
    let mut f = Favorites::default();
    f.toggle(node("1"));
    f.toggle(node("2"));
    f.toggle(node("1"));
    f.toggle(node("1"));
    assert_eq!(ids(&f), vec!["2", "1"]);
}

#[test]
fn removing_unpins_and_ignores_strangers() {
    let mut f = Favorites::default();
    f.toggle(node("1"));
    f.toggle(node("2"));
    f.remove("9");
    assert_eq!(ids(&f), vec!["1", "2"]);
    f.remove("1");
    assert_eq!(ids(&f), vec!["2"]);
    assert!(!f.contains("1"));
}
