use structured_log_viewer::model::{SemanticLocation, SemanticSkippedImport, SemanticSymbol};
use structured_log_viewer::msbuild::{Navigation, Preference, Token, TokenKind};
use structured_log_viewer::source::{
    activation, begin_selection, byte_of_column, drop_empty_selection, extend_selection, follow, selected_text, Follow,
    Selection, find_anchor, find_matches, first_match_from, step_match, hover_action, Hover, HoverAction, definitions_title, evaluation_count, executions_title, imports_title, more_locations, find_status, import_quick_body, row_of_offset, line_ranges, line_text, no_evaluation_body, symbol_quick_body, tab_id,
    widest_line, Activation, QuickBody, TabKind, TabStrip,
};

fn token(kind: TokenKind, name: &str) -> Token {
    Token { kind, name: name.to_string(), range: 0..name.len(), line: 1 }
}

fn location(path: &str) -> SemanticLocation {
    SemanticLocation {
        path: Some(path.to_string()),
        line: Some(3),
        label: None,
        detail: None,
        node_id: None,
        available: true,
    }
}

fn skipped() -> SemanticSkippedImport {
    SemanticSkippedImport {
        line: 4,
        column: 2,
        file_spec: Some("a.props".to_string()),
        reason: Some("FalseCondition".to_string()),
        condition: None,
        evaluated_condition: None,
    }
}

#[test]
fn tab_ids_tell_files_from_preprocessed_views() {
    assert_eq!(tab_id(TabKind::File, "/src/a.proj"), "file:/src/a.proj");
    assert_eq!(tab_id(TabKind::Preprocessed, "/src/a.proj"), "pre:/src/a.proj");
}

#[test]
fn line_ranges_cover_each_line_without_its_break() {
    let text = "ab\r\ncd\n\nlast";
    let lines = line_ranges(text);
    assert_eq!(lines, vec![0..3, 4..6, 7..7, 8..12]);
    assert_eq!(line_text(text, lines[0].clone()), "ab");
    assert_eq!(line_text(text, lines[2].clone()), "");
    assert_eq!(line_text(text, lines[3].clone()), "last");
}

#[test]
fn empty_text_has_one_empty_line() {
    assert_eq!(line_ranges(""), vec![0..0]);
    assert_eq!(line_ranges("x\n"), vec![0..1, 2..2]);
}

#[test]
fn widest_line_counts_characters_and_takes_the_last_on_a_tie() {
    let text = "héllo\r\nabcde\nab";
    let lines = line_ranges(text);
    // "héllo" has five characters but six bytes; "abcde" ties and comes later.
    assert_eq!(widest_line(text, &lines), 1);
    let text = "abcdef\nxy\r\r\r\r\r";
    let lines = line_ranges(text);
    assert_eq!(widest_line(text, &lines), 0);
    assert_eq!(widest_line("", &Vec::new()), 0);
}

#[test]
fn a_click_on_an_import_follows_it() {
    assert!(matches!(activation(&token(TokenKind::ImportPath, "a.props"), false), Activation::FollowImport));
    assert!(matches!(activation(&token(TokenKind::SdkReference, "Sdk"), true), Activation::FollowImport));
}

#[test]
fn a_click_on_a_symbol_resolves_it_when_there_is_an_evaluation() {
    assert!(matches!(activation(&token(TokenKind::Property, "Configuration"), false), Activation::Nothing));
    match activation(&token(TokenKind::TargetDefinition, "Build"), true) {
        Activation::Resolve { kind, preference } => {
            assert_eq!(kind, "target");
            assert_eq!(preference, Preference::Executions);
        }
        _ => panic!("expected a resolve"),
    }
    match activation(&token(TokenKind::Item, "Compile"), true) {
        Activation::Resolve { kind, preference } => {
            assert_eq!(kind, "item");
            assert_eq!(preference, Preference::Definitions);
        }
        _ => panic!("expected a resolve"),
    }
}

#[test]
fn import_popup_prefers_destinations_then_skipped_imports() {
    match import_quick_body(Navigation::Open(location("/a.props")), vec![skipped()]) {
        QuickBody::Imports(v) => assert_eq!(v, vec![location("/a.props")]),
        _ => panic!("expected imports"),
    }
    match import_quick_body(Navigation::Unavailable("none".to_string()), vec![skipped()]) {
        QuickBody::SkippedImports(v) => assert_eq!(v, vec![skipped()]),
        _ => panic!("expected skipped imports"),
    }
    match import_quick_body(Navigation::Unavailable("none".to_string()), Vec::new()) {
        QuickBody::Unavailable(m) => assert_eq!(m, "none"),
        _ => panic!("expected a reason"),
    }
}

#[test]
fn symbol_popup_shows_the_answer_or_the_error() {
    let symbol = SemanticSymbol {
        kind: "property".to_string(),
        name: "Configuration".to_string(),
        found: true,
        value: Some("Debug".to_string()),
        note: None,
        definitions: Vec::new(),
        executions: Vec::new(),
        facts: Vec::new(),
    };
    assert!(matches!(symbol_quick_body(Ok(symbol)), QuickBody::Symbol(s) if s.name == "Configuration"));
    assert!(matches!(symbol_quick_body(Err("boom".to_string())), QuickBody::Unavailable(m) if m == "boom"));
    assert!(matches!(no_evaluation_body(), QuickBody::Unavailable(m) if m == "No evaluation context for this file."));
}

#[test]
fn a_match_is_found_on_the_line_that_holds_it() {
    let lines = line_ranges("ab\ncd\n\nlast");
    assert_eq!(row_of_offset(&lines, 0), 0);
    assert_eq!(row_of_offset(&lines, 2), 0);
    assert_eq!(row_of_offset(&lines, 3), 1);
    assert_eq!(row_of_offset(&lines, 6), 2);
    assert_eq!(row_of_offset(&lines, 7), 3);
    assert_eq!(row_of_offset(&lines, 100), 3);
    assert_eq!(row_of_offset(&[], 5), 0);
    assert_eq!(row_of_offset(&[4..6, 7..9], 1), 0);
}

#[test]
fn columns_map_to_byte_offsets() {
    assert_eq!(byte_of_column("héllo", 0), 0);
    assert_eq!(byte_of_column("héllo", 1), 1);
    assert_eq!(byte_of_column("héllo", 2), 3);
    assert_eq!(byte_of_column("héllo", 5), 6);
    assert_eq!(byte_of_column("héllo", 99), 6);
    assert_eq!(byte_of_column("", 3), 0);
}

#[test]
fn find_bar_counts_matches() {
    assert_eq!(find_status(true, 0, None), (String::new(), false));
    assert_eq!(find_status(false, 0, None), ("No matches".to_string(), true));
    assert_eq!(find_status(false, 12, Some(2)), ("3 of 12".to_string(), false));
    assert_eq!(find_status(false, 12, None), ("12 matches".to_string(), false));
}

#[test]
fn a_file_opens_in_one_tab_only() {
    let mut strip = TabStrip::new();
    assert_eq!(strip.selected(), 0);
    assert_eq!(strip.open(tab_id(TabKind::File, "/a.proj")), 0);
    assert_eq!(strip.open(tab_id(TabKind::File, "/b.proj")), 1);
    assert_eq!(strip.selected(), 2);
    assert_eq!(strip.open(tab_id(TabKind::File, "/a.proj")), 0);
    assert_eq!(strip.len(), 2);
    assert_eq!(strip.selected(), 1);
    // The preprocessed view of the same project is a tab of its own.
    assert_eq!(strip.open(tab_id(TabKind::Preprocessed, "/a.proj")), 2);
    assert_eq!(strip.len(), 3);
    assert_eq!(strip.position("file:/b.proj"), Some(1));
    assert_eq!(strip.position("file:/c.proj"), None);
}

#[test]
fn closing_tabs_moves_the_selection_along() {
    let mut strip = TabStrip::new();
    strip.open("a".to_string());
    strip.open("b".to_string());
    strip.open("c".to_string());
    assert_eq!(strip.selected(), 3);
    assert!(!strip.close(5));
    assert!(strip.close(2));
    assert_eq!(strip.selected(), 2);
    assert!(strip.close(0));
    assert_eq!(strip.selected(), 1);
    assert_eq!(strip.position("b"), Some(0));
    assert!(strip.close(0));
    assert_eq!(strip.selected(), 0);
    assert_eq!(strip.len(), 0);
}

#[test]
fn quick_info_captions_count_what_they_list() {
    assert_eq!(definitions_title(1), "Defined in");
    assert_eq!(definitions_title(3), "Defined in 3 places");
    assert_eq!(executions_title(1), "Ran once");
    assert_eq!(executions_title(0), "Ran 0 times");
    assert_eq!(imports_title(1), "Imports");
    assert_eq!(imports_title(2), "Imports 2 files");
    assert_eq!(more_locations(20), None);
    assert_eq!(more_locations(23), Some("…and 3 more".to_string()));
}

#[test]
fn the_evaluation_count_reads_by_file_kind() {
    assert_eq!(evaluation_count(1, true), None);
    assert_eq!(evaluation_count(3, true), Some("evaluated 3 times".to_string()));
    assert_eq!(evaluation_count(12, false), Some("imported by 12 evaluations".to_string()));
}

#[test]
fn a_drag_moves_the_selection_head_and_a_click_lets_go() {
    let mut sel = Some(begin_selection("file:/a", 4));
    assert!(!extend_selection(&mut sel, 4));
    assert!(extend_selection(&mut sel, 9));
    assert_eq!(sel.as_ref().unwrap().anchor, 4);
    assert_eq!(sel.as_ref().unwrap().head, 9);
    drop_empty_selection(&mut sel);
    assert!(sel.is_some());
    let mut empty = Some(begin_selection("file:/a", 2));
    drop_empty_selection(&mut empty);
    assert!(empty.is_none());
    let mut none: Option<Selection> = None;
    assert!(!extend_selection(&mut none, 3));
}

#[test]
fn the_selected_text_runs_either_way() {
    let text = "héllo world";
    let forward = Selection { tab: "t".to_string(), anchor: 0, head: 6 };
    assert_eq!(selected_text(text, &forward), Some("héllo".to_string()));
    let backward = Selection { tab: "t".to_string(), anchor: 12, head: 7 };
    assert_eq!(selected_text(text, &backward), Some("world".to_string()));
    let empty = Selection { tab: "t".to_string(), anchor: 3, head: 3 };
    assert_eq!(selected_text(text, &empty), None);
}

#[test]
fn following_goes_chooses_or_explains() {
    assert!(matches!(follow(Navigation::Open(location("/a.props"))), Follow::Go(_)));
    match follow(Navigation::Choose(vec![location("/a"), location("/b")])) {
        Follow::Choose(v) => assert_eq!(v.len(), 2),
        _ => panic!("expected a choice"),
    }
    assert!(matches!(follow(Navigation::Unavailable("no".to_string())), Follow::Message(m) if m == "no"));
}

#[test]
fn a_pinned_popup_outlasts_the_pointer() {
    let h = |line: usize, name: &str| Some(Hover { tab: "file:/a".to_string(), line, token: token(TokenKind::Property, name) });
    assert_eq!(hover_action(&h(1, "A"), &h(1, "A"), None), HoverAction::Unchanged);
    assert_eq!(hover_action(&None, &h(1, "A"), None), HoverAction::Show { schedule: true });
    assert_eq!(hover_action(&h(1, "A"), &h(2, "A"), Some(true)), HoverAction::Show { schedule: false });
    assert_eq!(hover_action(&h(1, "A"), &None, Some(false)), HoverAction::Leave { close: true });
    assert_eq!(hover_action(&h(1, "A"), &None, Some(true)), HoverAction::Leave { close: false });
    assert_eq!(hover_action(&h(1, "A"), &None, None), HoverAction::Leave { close: false });
    assert_eq!(hover_action(&None, &None, Some(false)), HoverAction::Unchanged);
}

#[test]
fn find_steps_through_matches_and_wraps() {
    let text = "<Import Project=\"a\" />\n<!-- IMPORT -->\n<Import Project=\"b\" />";
    let matches = find_matches(text, "import");
    assert_eq!(matches.len(), 3);
    let current = first_match_from(&matches, 0);
    assert_eq!(current, Some(0));
    let sel = Selection { tab: "t".to_string(), anchor: matches[0].start, head: matches[0].end };
    assert_eq!(selected_text(text, &sel).map(|t| t.to_ascii_lowercase()), Some("import".to_string()));
    assert_eq!(find_status(false, matches.len(), current), ("1 of 3".to_string(), false));
    let next = step_match(current, 1, matches.len());
    assert_eq!(next, Some(1));
    let last = step_match(next, 1, matches.len());
    assert_eq!(last, Some(2));
    // Enter past the last match wraps to the first; shift-Enter before the
    // first wraps to the last.
    assert_eq!(step_match(last, 1, matches.len()), Some(0));
    assert_eq!(step_match(Some(0), -1, matches.len()), Some(2));
}

#[test]
fn a_refreshed_search_keeps_its_place() {
    assert_eq!(find_anchor(Some(40), Some(7)), 40);
    assert_eq!(find_anchor(None, Some(7)), 7);
    assert_eq!(find_anchor(None, None), 0);
    let matches = find_matches("ab ab ab", "ab");
    assert_eq!(first_match_from(&matches, find_anchor(None, Some(4))), Some(2));
    assert_eq!(first_match_from(&matches, find_anchor(Some(7), None)), Some(0));
}
