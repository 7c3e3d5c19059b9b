use structured_log_viewer::inspector::{facts, shown_full_text, shows_state, source_label, NodeDetails};
use structured_log_viewer::model::NodeSummary;

fn details() -> NodeDetails {
    NodeDetails {
        node: NodeSummary {
            id: "n7".to_string(),
            kind: "Target".to_string(),
            title: "Build".to_string(),
            name: Some("Build".to_string()),
            value: None,
            has_children: true,
            child_count: 12,
            is_low_relevance: false,
            state: "success".to_string(),
            has_source: true,
            can_preprocess: false,
            child_index: None,
            props: vec![
                ("zeta".to_string(), "last".to_string()),
                ("Alpha".to_string(), "first".to_string()),
                ("empty".to_string(), String::new()),
                ("beta".to_string(), "second".to_string()),
            ],
        },
        parent_id: None,
        start_time: Some("10:00:00".to_string()),
        end_time: Some(String::new()),
        full_text: None,
        source_file: Some("/src/a.proj".to_string()),
        source_line: Some(42),
    }
}

fn pair(a: &str, b: &str) -> (String, String) {
    (a.to_string(), b.to_string())
}

#[test]
fn facts_come_in_order_with_properties_sorted_by_name() {
    let d = details();
    assert_eq!(
        facts(&d, Some("1.500 s".to_string())),
        vec![
            pair("Node id", "n7"),
            pair("Duration", "1.500 s"),
            pair("Start", "10:00:00"),
            pair("Children", "12"),
            pair("Source", "/src/a.proj:42"),
            pair("Alpha", "first"),
            pair("beta", "second"),
            pair("zeta", "last"),
        ]
    );
    let mut bare = details();
    bare.node.has_children = false;
    bare.node.props.clear();
    bare.source_file = None;
    assert_eq!(facts(&bare, None), vec![pair("Node id", "n7"), pair("Start", "10:00:00")]);
}

#[test]
fn the_source_label_names_the_line_when_known() {
    let mut d = details();
    assert_eq!(source_label(&d), Some("/src/a.proj:42".to_string()));
    d.source_line = None;
    assert_eq!(source_label(&d), Some("/src/a.proj".to_string()));
    d.source_file = None;
    assert_eq!(source_label(&d), None);
}

#[test]
fn long_full_texts_are_cut_at_a_character() {
    assert_eq!(shown_full_text(None), "");
    assert_eq!(shown_full_text(Some("short".to_string())), "short");
    let exact = "a".repeat(20000);
    assert_eq!(shown_full_text(Some(exact.clone())), exact);
    let long = "a".repeat(20001);
    assert_eq!(shown_full_text(Some(long)), format!("{}\n… (truncated)", "a".repeat(20000)));
    // A two-byte character straddling the limit is left out whole.
    let straddle = format!("{}é{}", "a".repeat(19999), "b".repeat(10));
    assert_eq!(shown_full_text(Some(straddle)), format!("{}\n… (truncated)", "a".repeat(19999)));
}

#[test]
fn the_state_shows_unless_blank_or_none() {
    assert!(shows_state("success"));
    assert!(!shows_state("none"));
    assert!(!shows_state(""));
}
