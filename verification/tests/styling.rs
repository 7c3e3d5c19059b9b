use structured_log_viewer::model::NodeSummary;
use structured_log_viewer::styling::{
    project_tint, segments, state_accent, style_for, CopyEnd, NodeIcon, SegmentStyle, StateColor, Tint, Tone,
};

fn node(kind: &str, title: &str) -> NodeSummary {
    NodeSummary {
        id: "7".to_string(),
        kind: kind.to_string(),
        title: title.to_string(),
        name: None,
        value: None,
        has_children: false,
        child_count: 0,
        is_low_relevance: false,
        state: String::new(),
        has_source: false,
        can_preprocess: false,
        child_index: None,
        props: Vec::new(),
    }
}

fn with_props(mut n: NodeSummary, props: &[(&str, &str)]) -> NodeSummary {
    n.props = props.iter().map(|(k, v)| (k.to_string(), v.to_string())).collect();
    n
}

fn texts(n: &NodeSummary, duration: Option<&str>) -> Vec<(String, SegmentStyle)> {
    segments(n, duration.map(|d| d.to_string())).into_iter().map(|s| (s.text, s.style)).collect()
}

#[test]
fn kinds_pick_their_icons_and_tones() {
    assert_eq!(style_for(&node("Target", "t")).icon, NodeIcon::Chip(Tone::Target));
    let mut failed = node("Target", "t");
    failed.state = "failed".to_string();
    assert_eq!(style_for(&failed).icon, NodeIcon::Chip(Tone::Error));
    assert_eq!(style_for(&node("AddItem", "i")).icon, NodeIcon::Plus(Tone::Item));
    assert_eq!(style_for(&node("RemoveItem", "i")).icon, NodeIcon::Minus(Tone::Item));
    assert_eq!(style_for(&node("Package", "p")).color, Tone::NuGet);
    assert_eq!(style_for(&node("Message", "m")).icon, NodeIcon::Chip(Tone::Message));
    assert_eq!(style_for(&node("SomethingNew", "m")).icon, NodeIcon::Chip(Tone::Message));
    let copy = with_props(node("FileCopy", "c"), &[("copyKind", "Destination")]);
    assert_eq!(style_for(&copy).icon, NodeIcon::Copy(CopyEnd::Destination, Tone::Target));
    assert_eq!(style_for(&node("FileCopy", "c")).icon, NodeIcon::Copy(CopyEnd::Both, Tone::Target));
}

#[test]
fn projects_are_tinted_by_extension() {
    let p = with_props(node("Project", "p"), &[("extension", ".CsProj")]);
    assert_eq!(project_tint(&p), Tint::Pair(0x1f801f, 0x5cc05c));
    assert_eq!(
        style_for(&p).icon,
        NodeIcon::Document { tint: Tint::Pair(0x1f801f, 0x5cc05c), evaluation: false }
    );
    let e = with_props(node("ProjectEvaluation", "p"), &[("extension", ".esproj")]);
    assert_eq!(style_for(&e).icon, NodeIcon::Document { tint: Tint::ThemeWarning, evaluation: true });
    assert_eq!(style_for(&e).color.accent(), None);
    assert_eq!(project_tint(&node("Project", "p")), Tint::Pair(0x5a5a5f, 0xa0a0a8));
    assert_eq!(Tone::Task.accent(), Some((0x0969da, 0x58a6ff)));
}

#[test]
fn state_marks_failed_and_skipped_nodes() {
    let mut n = node("Target", "t");
    assert_eq!(state_accent(&n), None);
    n.state = "failed".to_string();
    assert_eq!(state_accent(&n), Some(StateColor::Error));
    n.state = "skipped".to_string();
    assert_eq!(state_accent(&n), Some(StateColor::TextTertiary));
}

#[test]
fn import_rows_lead_with_their_kind_and_location() {
    let n = with_props(node("Import", "Sdk.props"), &[("line", "49"), ("column", "3")]);
    assert_eq!(
        texts(&n, None),
        vec![
            ("Import".to_string(), SegmentStyle::KindLabel),
            ("Sdk.props".to_string(), SegmentStyle::Primary),
            ("at (49;3)".to_string(), SegmentStyle::Secondary),
        ]
    );
    let skipped = with_props(node("NoImport", "x.props"), &[("reason", "false condition"), ("line", "2")]);
    assert_eq!(
        texts(&skipped, Some("12 ms")),
        vec![
            ("NoImport".to_string(), SegmentStyle::KindLabel),
            ("x.props".to_string(), SegmentStyle::Primary),
            ("false condition".to_string(), SegmentStyle::Chip),
            ("12 ms".to_string(), SegmentStyle::Duration),
        ]
    );
}

#[test]
fn project_rows_show_name_badges_and_targets() {
    let mut p = with_props(
        node("Project", "App.csproj"),
        &[("adornment", "net8.0"), ("targetsText", "→ Build"), ("evaluationText", "")],
    );
    assert_eq!(texts(&p, None), vec![("App.csproj".to_string(), SegmentStyle::Primary)]);
    p.name = Some("App".to_string());
    assert_eq!(
        texts(&p, None),
        vec![
            ("App".to_string(), SegmentStyle::Primary),
            ("net8.0".to_string(), SegmentStyle::Badge),
            ("→ Build".to_string(), SegmentStyle::Targets),
        ]
    );
    assert_eq!(texts(&node("Task", "Csc"), None), vec![("Csc".to_string(), SegmentStyle::Primary)]);
}
