use structured_log_viewer::model::{default_true, format_bytes, SemanticLocation, SemanticSkippedImport};

/// What the viewer computes with floating point, for comparison.
fn float_format(bytes: u64) -> String {
    const KB: f64 = 1024.0;
    let b = bytes as f64;
    if b >= KB * KB * KB {
        format!("{:.1} GB", b / (KB * KB * KB))
    } else if b >= KB * KB {
        format!("{:.1} MB", b / (KB * KB))
    } else if b >= KB {
        format!("{:.1} KB", b / KB)
    } else {
        format!("{bytes} B")
    }
}

#[test]
fn format_bytes_picks_the_largest_unit() {
    assert_eq!(format_bytes(0), "0 B");
    assert_eq!(format_bytes(1023), "1023 B");
    assert_eq!(format_bytes(1024), "1.0 KB");
    assert_eq!(format_bytes(1536), "1.5 KB");
    assert_eq!(format_bytes(1024 * 1024), "1.0 MB");
    assert_eq!(format_bytes(5 * 1024 * 1024 * 1024 + 512 * 1024 * 1024), "5.5 GB");
}

#[test]
fn format_bytes_rounds_ties_to_even() {
    // 1.25 KB and 1.75 KB are exact halves in binary.
    assert_eq!(format_bytes(1280), float_format(1280));
    assert_eq!(format_bytes(1792), float_format(1792));
}

#[test]
fn format_bytes_agrees_with_float_formatting() {
    let mut values: Vec<u64> = Vec::new();
    for i in 0..5000u64 {
        values.push(i);
        values.push(i * 37 + 1000);
        values.push(1024 * 1024 - 2500 + i);
        values.push(1024 * 1024 * 1024 - 2500 + i * 3);
        values.push((1u64 << 53) - 2500 + i);
        values.push(u64::MAX - i * 1_000_003);
        values.push(i.wrapping_mul(0x9E37_79B9_7F4A_7C15));
        values.push((i % 64).checked_shl(i as u32 % 64).unwrap_or(1) * 1025);
    }
    for k in 10..64 {
        let p = 1u64 << k;
        values.push(p);
        values.push(p - 1);
        values.push(p + p / 2);
        values.push(p + p / 4);
        values.push(p + p / 20);
    }
    for v in values {
        assert_eq!(format_bytes(v), float_format(v), "{v}");
    }
}

#[test]
fn absent_available_flag_means_available() {
    assert!(default_true());
}

fn skipped(condition: Option<&str>, evaluated: Option<&str>, reason: Option<&str>) -> SemanticSkippedImport {
    SemanticSkippedImport {
        line: 3,
        column: 5,
        file_spec: None,
        reason: reason.map(String::from),
        condition: condition.map(String::from),
        evaluated_condition: evaluated.map(String::from),
    }
}

#[test]
fn skipped_import_explains_its_condition() {
    let s = skipped(Some("'$(A)' != ''"), Some("'' != ''"), Some("ignored"));
    assert!(s.has_condition());
    assert_eq!(s.explanation(), "Condition '$(A)' != '' evaluated as '' != '' → false");
    assert_eq!(s.annotation(), "'' != '' → false");
}

#[test]
fn skipped_import_without_condition_gives_its_reason() {
    let s = skipped(None, None, Some("Not imported due to false condition"));
    assert!(!s.has_condition());
    assert_eq!(s.explanation(), "Not imported due to false condition");
    assert_eq!(s.annotation(), "Not imported due to false condition");
    let bare = skipped(Some("x"), None, None);
    assert!(!bare.has_condition());
    assert_eq!(bare.explanation(), "Not imported.");
    assert_eq!(bare.annotation(), "Not imported.");
}

fn location(path: Option<&str>, label: Option<&str>, detail: Option<&str>) -> SemanticLocation {
    SemanticLocation {
        path: path.map(String::from),
        line: None,
        label: label.map(String::from),
        detail: detail.map(String::from),
        node_id: None,
        available: false,
    }
}

#[test]
fn location_title_prefers_the_label() {
    assert_eq!(location(Some("/a/b.props"), Some("b.props"), None).title(), "b.props");
    assert_eq!(location(Some("/a/b.props"), None, None).title(), "/a/b.props");
    assert_eq!(location(None, None, None).title(), "");
}

#[test]
fn location_secondary_says_something_new() {
    assert_eq!(location(Some("/a/b.props"), Some("b.props"), None).secondary(), Some("/a/b.props".to_string()));
    assert_eq!(location(Some("b.props"), Some("b.props"), Some("detail")).secondary(), Some("detail".to_string()));
    assert_eq!(location(Some(""), None, None).secondary(), None);
    assert_eq!(location(None, Some("x"), Some("x")).secondary(), None);
}

#[test]
fn location_reachability() {
    let mut l = location(None, None, None);
    assert!(!l.is_reachable());
    l.node_id = Some("12".into());
    assert!(l.is_reachable());
    l.node_id = None;
    l.available = true;
    assert!(l.is_reachable());
}

#[test]
fn a_fact_is_read_by_its_one_name() {
    let mut n = structured_log_viewer::model::NodeSummary {
        id: "n".to_string(),
        kind: "Project".to_string(),
        title: "t".to_string(),
        name: None,
        value: None,
        has_children: false,
        child_count: 0,
        is_low_relevance: false,
        state: String::new(),
        has_source: false,
        can_preprocess: false,
        child_index: None,
        props: vec![("a".to_string(), "1".to_string()), ("b".to_string(), String::new())],
    };
    assert_eq!(n.prop("a"), Some("1"));
    assert_eq!(n.prop("b"), None);
    assert_eq!(n.prop("c"), None);
    n.props.push(("c".to_string(), "3".to_string()));
    assert_eq!(n.prop("c"), Some("3"));
}
