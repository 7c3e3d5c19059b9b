use structured_log_viewer::styling::StateColor;
use structured_log_viewer::tree::Row;
use structured_log_viewer::model::NodeSummary;
use structured_log_viewer::tree::TreeModel;
use structured_log_viewer::tree_view::{
    chevron, children_text, ellipsize, open_or_toggle, title_tone, RowOpen, TitleTone, menu_entries, project_context, resort, reveal_step, MenuAction, RevealStep, SortModes,
};

fn node(id: &str, kind: &str, has_children: bool) -> NodeSummary {
    NodeSummary {
        id: id.to_string(),
        kind: kind.to_string(),
        title: format!("{kind} {id}"),
        name: None,
        value: None,
        has_children,
        child_count: 0,
        is_low_relevance: false,
        state: String::new(),
        has_source: false,
        can_preprocess: false,
        child_index: None,
        props: Vec::new(),
    }
}

#[test]
fn ellipsize_trims_and_cuts() {
    assert_eq!(ellipsize("  short  ", 10), "short");
    assert_eq!(ellipsize("abcdefgh", 5), "abcd…");
    assert_eq!(ellipsize("abcde", 5), "abcde");
    assert_eq!(ellipsize("abc", 0), "…");
    assert_eq!(ellipsize("   ", 3), "");
    assert_eq!(ellipsize("\u{3000}héllo wörld\t", 7), "héllo …");
}

#[test]
fn a_leaf_gets_the_short_menu() {
    let entries = menu_entries(&node("a", "Message", false), false, false);
    let labels: Vec<&str> = entries.iter().map(|(l, _)| l.as_str()).collect();
    assert_eq!(labels, vec!["Add to Favorites", "", "Copy", "", "Search 'Message a'"]);
    assert_eq!(entries[2].1, Some(MenuAction::Copy("Message a".to_string())));
    assert_eq!(entries[4].1, Some(MenuAction::SetSearch("Message a".to_string())));
}

#[test]
fn a_named_target_with_children_gets_every_group() {
    let mut n = node("42", "Target", true);
    n.name = Some("Build".to_string());
    n.has_source = true;
    n.props = vec![("file".to_string(), "/src/a.targets".to_string())];
    let entries = menu_entries(&n, true, true);
    let labels: Vec<&str> = entries.iter().map(|(l, _)| l.as_str()).collect();
    assert_eq!(
        labels,
        vec![
            "Remove from Favorites",
            "View Source",
            "",
            "Copy",
            "Copy name",
            "Copy file path",
            "Copy subtree",
            "Copy children",
            "",
            "Search in subtree",
            "Exclude subtree from search",
            "Search in 'Build'",
            "Search 'Build'",
            "Show in Timeline",
            "",
            "Sort children by name",
            "Sort children by duration",
            "Restore child order",
        ]
    );
    assert_eq!(entries[9].1, Some(MenuAction::AppendSearch("under($42)".to_string())));
    assert_eq!(entries[10].1, Some(MenuAction::AppendSearch("notunder($42)".to_string())));
    assert_eq!(entries[11].1, Some(MenuAction::AppendSearch("under($target Build)".to_string())));
    assert_eq!(entries[5].1, Some(MenuAction::Copy("/src/a.targets".to_string())));
    assert_eq!(entries[17].1, Some(MenuAction::Sort(0)));
}

#[test]
fn a_nameless_untitled_folder_ends_on_a_separator_before_sorting() {
    let mut n = node("x1", "Folder", true);
    n.title = String::new();
    let entries = menu_entries(&n, false, false);
    let labels: Vec<&str> = entries.iter().map(|(l, _)| l.as_str()).collect();
    assert_eq!(
        labels,
        vec![
            "Add to Favorites",
            "",
            "Copy",
            "Copy subtree",
            "Copy children",
            "",
            "Sort children by name",
            "Sort children by duration",
            "Restore child order",
        ]
    );
}

#[test]
fn the_project_context_is_the_nearest_project_or_evaluation() {
    let mut m = TreeModel::new(node("0", "Build", true));
    m.apply_children("0", vec![node("1", "ProjectEvaluation", true), node("2", "Project", true)]);
    m.apply_children("1", vec![node("3", "Folder", true)]);
    m.apply_children("3", vec![node("4", "Property", false)]);
    // rows: 0 Build, 1 Eval, 3 Folder, 4 Property, 2 Project
    assert_eq!(project_context(&m, 3), Some(1));
    assert_eq!(project_context(&m, 4), Some(4));
    assert_eq!(project_context(&m, 0), None);
    assert_eq!(project_context(&m, 99), None);
    m.apply_children("2", vec![node("5", "ProjectEvaluation", false)]);
    assert_eq!(project_context(&m, 5), Some(4));
}

use structured_log_viewer::tree_view::{begin_expand, finish_expand, key_step, toggle, Toggled, TreeKey, TreeMove};

fn shape(m: &TreeModel) -> Vec<(String, usize, bool, bool)> {
    m.rows().iter().map(|r| (r.node.id.clone(), r.depth, r.expanded, r.loading)).collect()
}

#[test]
fn expanding_fetches_once_and_a_failed_fetch_restores_the_row() {
    let mut m = TreeModel::new(node("0", "Build", true));
    assert_eq!(begin_expand(&mut m, 0), Some("0".to_string()));
    assert!(m.rows()[0].loading);
    assert_eq!(begin_expand(&mut m, 0), None);
    finish_expand(&mut m, "0", None);
    assert_eq!(shape(&m), vec![("0".to_string(), 0, false, false)]);
    assert_eq!(begin_expand(&mut m, 0), Some("0".to_string()));
    finish_expand(&mut m, "0", Some(vec![node("1", "Target", false)]));
    assert_eq!(shape(&m), vec![("0".to_string(), 0, true, false), ("1".to_string(), 1, false, false)]);
}

#[test]
fn toggling_folds_open_rows_and_parks_a_hidden_selection() {
    let mut m = TreeModel::new(node("0", "Build", true));
    assert_eq!(toggle(&mut m, None, 0), Toggled::Fetch("0".to_string()));
    finish_expand(&mut m, "0", Some(vec![node("1", "Target", false), node("2", "Target", false)]));
    assert_eq!(toggle(&mut m, Some(2), 0), Toggled::Folded { park: true });
    assert_eq!(m.len(), 1);
    assert_eq!(toggle(&mut m, Some(0), 5), Toggled::Unchanged);
    let mut leaf = TreeModel::new(node("x", "Message", false));
    assert_eq!(toggle(&mut leaf, None, 0), Toggled::Unchanged);
}

#[test]
fn keys_move_the_selection_and_fold() {
    let mut m = TreeModel::new(node("0", "Build", true));
    m.apply_children("0", vec![node("1", "Target", true), node("2", "Target", false)]);
    assert_eq!(key_step(&m, None, TreeKey::Next), TreeMove::Select(0));
    assert_eq!(key_step(&m, Some(1), TreeKey::Next), TreeMove::Select(2));
    assert_eq!(key_step(&m, Some(2), TreeKey::Next), TreeMove::Select(2));
    assert_eq!(key_step(&m, Some(0), TreeKey::Previous), TreeMove::Select(0));
    assert_eq!(key_step(&m, Some(2), TreeKey::Previous), TreeMove::Select(1));
    assert_eq!(key_step(&m, Some(1), TreeKey::Last), TreeMove::Select(2));
    assert_eq!(key_step(&m, None, TreeKey::Expand), TreeMove::Select(0));
    assert_eq!(key_step(&m, Some(0), TreeKey::Expand), TreeMove::Select(1));
    assert_eq!(key_step(&m, Some(1), TreeKey::Expand), TreeMove::Expand(1));
    assert_eq!(key_step(&m, Some(2), TreeKey::Expand), TreeMove::Nothing);
    assert_eq!(key_step(&m, Some(0), TreeKey::Collapse), TreeMove::Toggle(0));
    assert_eq!(key_step(&m, Some(2), TreeKey::Collapse), TreeMove::Select(0));
    assert_eq!(key_step(&m, None, TreeKey::Collapse), TreeMove::Nothing);
    assert_eq!(key_step(&m, Some(9), TreeKey::Toggle), TreeMove::Toggle(2));
}

#[test]
fn revealing_fetches_only_closed_ancestors() {
    let mut m = TreeModel::new(node("root", "Build", true));
    assert_eq!(reveal_step(&m, "root"), RevealStep::Fetch);
    assert_eq!(reveal_step(&m, "missing"), RevealStep::Stop);
    m.mark_loading(0);
    m.apply_children("root", vec![node("a", "Project", true)]);
    assert_eq!(reveal_step(&m, "root"), RevealStep::Skip);
    assert_eq!(reveal_step(&m, "a"), RevealStep::Fetch);
}

#[test]
fn copied_children_are_one_title_per_line() {
    let mut a = node("a", "Project", false);
    a.title = "First".to_string();
    let mut b = node("b", "Project", false);
    b.title = "Second".to_string();
    assert_eq!(children_text(&[a.clone(), b]), "First\nSecond");
    assert_eq!(children_text(&[a]), "First");
    assert_eq!(children_text(&[]), "");
}

#[test]
fn a_chosen_sort_mode_is_read_back_and_restoring_forgets_it() {
    let mut modes = SortModes::new();
    assert_eq!(modes.get("a"), 0);
    modes.set("a", 2);
    modes.set("b", 1);
    assert_eq!(modes.get("a"), 2);
    modes.set("a", 1);
    assert_eq!(modes.get("a"), 1);
    assert_eq!(modes.get("b"), 1);
    modes.set("a", 0);
    assert_eq!(modes.get("a"), 0);
    assert_eq!(modes.get("b"), 1);
}

#[test]
fn resorting_an_open_row_fetches_its_children_again() {
    let mut m = TreeModel::new(node("root", "Build", true));
    let mut modes = SortModes::new();
    // A closed row only remembers the mode.
    assert_eq!(resort(&mut m, &mut modes, "root", 0, 2), None);
    assert_eq!(modes.get("root"), 2);
    assert_eq!(m.len(), 1);
    m.mark_loading(0);
    m.apply_children("root", vec![node("a", "Project", false), node("b", "Project", false)]);
    assert_eq!(m.len(), 3);
    assert_eq!(resort(&mut m, &mut modes, "root", 0, 1), Some(("root".to_string(), 1)));
    assert_eq!(m.len(), 1);
    assert!(m.row(0).unwrap().loading);
}

#[test]
fn chevrons_show_whether_a_row_is_open() {
    let row = |has_children: bool, expanded: bool, loading: bool| Row {
        node: node("n", "Target", has_children),
        depth: 0,
        expanded,
        loading,
    };
    assert_eq!(chevron(&row(false, false, false)), None);
    assert_eq!(chevron(&row(true, false, false)), Some("▶"));
    assert_eq!(chevron(&row(true, true, false)), Some("▼"));
    assert_eq!(chevron(&row(true, false, true)), Some("…"));
}

#[test]
fn titles_take_the_colour_of_their_kind_and_state() {
    let mut n = node("n", "Error", false);
    assert_eq!(title_tone(&n, true), TitleTone::OnAccent);
    assert_eq!(title_tone(&n, false), TitleTone::Error);
    n.kind = "Warning".to_string();
    assert_eq!(title_tone(&n, false), TitleTone::Warning);
    n.kind = "Target".to_string();
    n.state = "failed".to_string();
    assert_eq!(title_tone(&n, false), TitleTone::State(StateColor::Error));
    n.state = "skipped".to_string();
    assert_eq!(title_tone(&n, false), TitleTone::State(StateColor::TextTertiary));
    n.state = "success".to_string();
    assert_eq!(title_tone(&n, false), TitleTone::Text);
}

#[test]
fn a_double_click_opens_source_or_toggles() {
    let mut m = TreeModel::new(node("root", "Build", true));
    assert!(matches!(open_or_toggle(&mut m, None, 5), RowOpen::NoRow));
    assert!(matches!(open_or_toggle(&mut m, None, 0), RowOpen::Toggle(Toggled::Fetch(ref id)) if id == "root"));
    let mut with_source = node("p", "Project", false);
    with_source.has_source = true;
    let mut m = TreeModel::new(with_source);
    assert!(matches!(open_or_toggle(&mut m, None, 0), RowOpen::ViewSource(ref id) if id == "p"));
}

use structured_log_viewer::tree_view::{star_glyph, star_tone, StarTone};

#[test]
fn the_star_shows_on_favourites_and_the_selected_row() {
    assert_eq!(star_glyph(true, false), Some("★"));
    assert_eq!(star_glyph(true, true), Some("★"));
    assert_eq!(star_glyph(false, true), Some("☆"));
    assert_eq!(star_glyph(false, false), None);
    assert_eq!(star_tone(true, true), StarTone::OnAccent);
    assert_eq!(star_tone(true, false), StarTone::Warning);
    assert_eq!(star_tone(false, false), StarTone::TextTertiary);
}
