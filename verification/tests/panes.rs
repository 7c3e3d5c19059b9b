use structured_log_viewer::search::{activate_result, context_label, one_line, result_text, Failure, SearchState, SpanStyle};
use structured_log_viewer::model::Highlight;
use structured_log_viewer::model::NodeSummary;
use structured_log_viewer::search::{
    combined_query, is_executable, result_rows, runs_search, same_context, SearchMode, SearchTreeNode,
};
use structured_log_viewer::source::{find_matches, first_match_from, step_match, Selection};
use structured_log_viewer::timeline::{block_color, category, count_blocks, filter_labels, rank, BlockColor, Category, Counts, Filter};
use structured_log_viewer::workspace::{active_pane, build_summary, build_verdict, query_launch, tab_badge, launch_pane, pill_label, pill_query, preprocess_title, select_pane, visible_tabs, Divider, Sidebar, SidebarTab};

fn node(id: &str) -> NodeSummary {
    NodeSummary {
        id: id.to_string(),
        kind: "Project".to_string(),
        title: id.to_string(),
        name: None,
        value: None,
        has_children: false,
        child_count: 0,
        is_low_relevance: false,
        state: String::new(),
        has_source: false,
        can_preprocess: false,
        child_index: None,
        props: Vec::new(),
    }
}

fn leaf(text: &str) -> SearchTreeNode {
    SearchTreeNode { node: None, text: Some(text.to_string()), highlights: None, children: None }
}

fn folder(text: &str, children: Vec<SearchTreeNode>) -> SearchTreeNode {
    SearchTreeNode { node: None, text: Some(text.to_string()), highlights: None, children: Some(children) }
}

#[test]
fn the_default_filter_shows_everything_and_each_switch_hides_its_kind() {
    let f = Filter::default();
    for kind in ["ProjectEvaluation", "Project", "Target", "Task", "Message"] {
        assert!(f.allows(kind));
    }
    let no_tasks = Filter { tasks: false, ..Filter::default() };
    assert!(!no_tasks.allows("Task"));
    assert!(no_tasks.allows("Target"));
    let no_other = Filter { other: false, ..Filter::default() };
    assert!(!no_other.allows("Message"));
    assert_eq!(category("ProjectEvaluation"), Category::Evaluation);
    assert_eq!(category("Csc"), Category::Other);
}

#[test]
fn containers_rank_first_and_kinds_have_colours() {
    assert_eq!(rank("Project"), 0);
    assert_eq!(rank("ProjectEvaluation"), 0);
    assert_eq!(rank("Target"), 1);
    assert_eq!(rank("Task"), 2);
    assert_eq!(rank("Message"), 3);
    assert_eq!(block_color("Task", false), BlockColor::Rgb(0x0a84ff));
    assert_eq!(block_color("Task", true), BlockColor::ThemeError);
    assert_eq!(block_color("Other", false), BlockColor::Rgb(0x8e8e93));
}

#[test]
fn panes_parse_and_archive_panes_need_an_archive() {
    assert_eq!(SidebarTab::parse("log"), Some(SidebarTab::SearchLog));
    assert_eq!(SidebarTab::parse("props"), Some(SidebarTab::PropertiesAndItems));
    assert_eq!(SidebarTab::parse("findinfiles"), Some(SidebarTab::FindInFiles));
    assert_eq!(SidebarTab::parse("Files"), None);
    assert_eq!(SidebarTab::FindInFiles.label(), "Find");
    assert_eq!(SidebarTab::FindInFiles.element_id(), "tab-find-in-files");
    assert!(SidebarTab::Files.needs_archive());
    assert!(!SidebarTab::Favorites.needs_archive());
    assert_eq!(
        visible_tabs(false),
        vec![SidebarTab::SearchLog, SidebarTab::PropertiesAndItems, SidebarTab::Favorites]
    );
    assert_eq!(visible_tabs(true).len(), 5);
    assert_eq!(Divider::Inspector.element_id(), "divider-inspector");
    assert_eq!(Divider::Sidebar.toggle_id(), "toggle-sidebar");
}

#[test]
fn queries_run_when_long_enough_or_a_clause() {
    assert!(!is_executable("  ab "));
    assert!(is_executable("abc"));
    assert!(is_executable(" $t"));
    assert!(!is_executable("   "));
    assert!(!runs_search(SearchMode::PropertiesAndItems, false, "Configuration"));
    assert!(runs_search(SearchMode::PropertiesAndItems, true, "Configuration"));
    assert!(runs_search(SearchMode::Log, false, "$error"));
}

#[test]
fn clauses_join_the_trimmed_query() {
    assert_eq!(combined_query("  csc ", "under($42)"), "csc under($42)");
    assert_eq!(combined_query("   ", "under($42)"), "under($42)");
    assert!(same_context(&None, &None));
    assert!(same_context(&Some(node("1")), &Some(node("1"))));
    assert!(!same_context(&Some(node("1")), &Some(node("2"))));
    assert!(!same_context(&Some(node("1")), &None));
}

#[test]
fn result_rows_walk_the_tree_and_respect_folds() {
    let roots = vec![folder("a", vec![leaf("a0"), folder("a1", vec![leaf("x")])]), leaf("b")];
    let rows = result_rows(&roots, &[]);
    let paths: Vec<(&str, usize, bool)> = rows.iter().map(|r| (r.path.as_str(), r.depth, r.has_children)).collect();
    assert_eq!(
        paths,
        vec![("0", 0, true), ("0/0", 1, false), ("0/1", 1, true), ("0/1/0", 2, false), ("1", 0, false)]
    );
    assert_eq!(rows[3].position, vec![0, 1, 0]);
    let folded = result_rows(&roots, &["0/1".to_string()]);
    let paths: Vec<&str> = folded.iter().map(|r| r.path.as_str()).collect();
    assert_eq!(paths, vec!["0", "0/0", "0/1", "1"]);
    let empty_children = vec![folder("e", vec![])];
    assert!(!result_rows(&empty_children, &[])[0].has_children);
}

#[test]
fn find_matches_ignores_ascii_case_and_does_not_overlap() {
    let text = "Foo foo FOOfoo";
    let spans: Vec<(usize, usize)> = find_matches(text, "foo").iter().map(|r| (r.start, r.end)).collect();
    assert_eq!(spans, vec![(0, 3), (4, 7), (8, 11), (11, 14)]);
    let spans: Vec<(usize, usize)> = find_matches("aaaa", "aa").iter().map(|r| (r.start, r.end)).collect();
    assert_eq!(spans, vec![(0, 2), (2, 4)]);
    assert!(find_matches("abc", "").is_empty());
    let spans: Vec<(usize, usize)> = find_matches("Ünï ünï Ünï", "Ünï").iter().map(|r| (r.start, r.end)).collect();
    assert_eq!(spans, vec![(0, 5), (12, 17)]);
}

#[test]
fn find_matches_stops_at_the_limit() {
    let text = "a".repeat(20_005);
    assert_eq!(find_matches(&text, "a").len(), 20_000);
}

#[test]
fn the_current_match_follows_the_anchor_and_wraps() {
    let matches = find_matches("x.x.x", "x");
    assert_eq!(first_match_from(&matches, 1), Some(1));
    assert_eq!(first_match_from(&matches, 9), Some(0));
    assert_eq!(first_match_from(&Vec::new(), 0), None);
    assert_eq!(step_match(Some(2), 1, 3), Some(0));
    assert_eq!(step_match(Some(0), -1, 3), Some(2));
    assert_eq!(step_match(None, 1, 3), Some(0));
    assert_eq!(step_match(None, -1, 3), Some(0));
    assert_eq!(step_match(Some(1), 5, 3), Some(0));
    assert_eq!(step_match(None, 1, 0), None);
}

#[test]
fn a_selection_orders_its_ends() {
    let s = Selection { tab: "t".to_string(), anchor: 9, head: 4 };
    assert_eq!(s.range(), 4..9);
    assert!(!s.is_empty());
    assert!(Selection { tab: "t".to_string(), anchor: 3, head: 3 }.is_empty());
}

use structured_log_viewer::workspace::{parse_launch, parse_usize, Launch};

fn args(words: &[&str]) -> Vec<String> {
    words.iter().map(|w| w.to_string()).collect()
}

#[test]
fn line_numbers_parse_like_usize() {
    assert_eq!(parse_usize("163"), Some(163));
    assert_eq!(parse_usize("+7"), Some(7));
    assert_eq!(parse_usize(""), None);
    assert_eq!(parse_usize("+"), None);
    assert_eq!(parse_usize("-1"), None);
    assert_eq!(parse_usize("12a"), None);
    assert_eq!(parse_usize("99999999999999999999999"), None);
    assert_eq!(parse_usize(&usize::MAX.to_string()), Some(usize::MAX));
}

#[test]
fn launch_arguments_name_options_and_the_log() {
    let (launch, path) =
        parse_launch(&args(&["build.binlog", "--search", "$warning", "--reveal", "124", "--line", "12", "--timeline", "--pane", "files", "--verbose"]));
    assert_eq!(path, Some("build.binlog".to_string()));
    assert_eq!(launch.search, Some("$warning".to_string()));
    assert_eq!(launch.reveal, Some("124".to_string()));
    assert_eq!(launch.line, Some(12));
    assert!(launch.timeline);
    assert_eq!(launch.pane, Some("files".to_string()));
    assert_eq!(launch.props, None);
    let (launch, path) = parse_launch(&args(&["--line", "x", "--find"]));
    assert_eq!(path, None);
    assert_eq!(launch.line, None);
    assert_eq!(launch.find, None);
    assert_eq!(parse_launch(&[]).0, Launch::default());
}

use structured_log_viewer::source::{goto_row, selected_after_close};

#[test]
fn going_to_a_line_stays_inside_the_document() {
    assert_eq!(goto_row(Some(1), 10), Some(0));
    assert_eq!(goto_row(Some(163), 10), Some(9));
    assert_eq!(goto_row(Some(0), 10), None);
    assert_eq!(goto_row(None, 10), None);
    assert_eq!(goto_row(Some(5), 0), Some(0));
}

#[test]
fn closing_a_tab_keeps_a_sensible_selection() {
    // Tabs: Details (0), then source tabs 1, 2, 3; two remain after closing.
    assert_eq!(selected_after_close(2, 1, 2), 2);
    assert_eq!(selected_after_close(3, 2, 2), 2);
    assert_eq!(selected_after_close(3, 0, 2), 2);
    assert_eq!(selected_after_close(1, 2, 2), 1);
    assert_eq!(selected_after_close(0, 0, 2), 0);
}

#[test]
fn launch_picks_the_pane_to_show() {
    let mut launch = Launch::default();
    assert_eq!(launch_pane(&launch), None);
    launch.find = Some("needle".to_string());
    assert_eq!(launch_pane(&launch), Some(SidebarTab::FindInFiles));
    launch.props = Some("Configuration".to_string());
    assert_eq!(launch_pane(&launch), Some(SidebarTab::PropertiesAndItems));
    launch.pane = Some("nonsense".to_string());
    assert_eq!(launch_pane(&launch), Some(SidebarTab::PropertiesAndItems));
    launch.pane = Some("favorites".to_string());
    assert_eq!(launch_pane(&launch), Some(SidebarTab::Favorites));
}

#[test]
fn preprocessed_views_are_titled_by_project_file() {
    let mut n = node("p1");
    n.title = "Project a.csproj".to_string();
    assert_eq!(preprocess_title(&n), "Project a.csproj");
    n.name = Some("a".to_string());
    assert_eq!(preprocess_title(&n), "a");
    n.props.push(("projectFile".to_string(), "C:\\src\\a.csproj".to_string()));
    assert_eq!(preprocess_title(&n), "a.csproj");
    n.props[0].1 = "/src/b/b.proj".to_string();
    assert_eq!(preprocess_title(&n), "b.proj");
}

#[test]
fn a_superseded_reply_is_dropped() {
    let mut state: SearchState<u32> = SearchState::new();
    let first = state.begin(true).unwrap();
    let second = state.begin(true).unwrap();
    assert_eq!(second, first + 1);
    assert!(!state.land(first, Ok(7)));
    assert!(state.searching);
    assert_eq!(state.response, None);
    assert!(state.land(second, Ok(9)));
    assert!(!state.searching);
    assert_eq!(state.response, Some(9));
}

#[test]
fn failures_show_unless_cancelled() {
    let mut state: SearchState<u32> = SearchState::new();
    let g = state.begin(true).unwrap();
    let cancelled = Failure { summary: "cancelled".to_string(), detail: "cancelled".to_string() };
    assert!(!state.land(g, Err(cancelled)));
    assert!(!state.searching);
    assert_eq!(state.error, None);
    let g = state.begin(true).unwrap();
    let failed = Failure { summary: "boom".to_string(), detail: "boom: disk".to_string() };
    assert!(!state.land(g, Err(failed)));
    assert_eq!(state.error, Some("boom: disk".to_string()));
    assert_eq!(state.begin(false), None);
    assert_eq!(state.error, None);
    assert_eq!(state.response, None);
    assert!(!state.searching);
}

#[test]
fn rows_stay_on_one_line() {
    assert_eq!(one_line("a\nb\n"), "a b ");
    assert_eq!(one_line("plain"), "plain");
    assert_eq!(one_line(""), "");
}

#[test]
fn result_rows_join_their_spans_and_mark_them() {
    let span = |text: &str, is_highlight: bool, style: Option<&str>| Highlight {
        text: text.to_string(),
        is_highlight,
        style: style.map(|s| s.to_string()),
    };
    let mut row = leaf("fallback");
    row.highlights = Some(vec![span("12:00 ", false, Some("time")), span("héllo ", false, None), span("wörld\n", true, None)]);
    let (text, marks) = result_text(&row);
    assert_eq!(text, "12:00 héllo wörld ");
    assert_eq!(marks, vec![(0..6, SpanStyle::Time), (13..20, SpanStyle::Match)]);
    row.highlights = Some(Vec::new());
    assert_eq!(result_text(&row), ("fallback".to_string(), Vec::new()));
    row.node = Some(node("n1"));
    assert_eq!(result_text(&row).0, "n1");
}

#[test]
fn the_context_bar_names_the_project_file() {
    assert_eq!(context_label(&None), "no project selected");
    let mut n = node("p");
    n.title = "Project a".to_string();
    assert_eq!(context_label(&Some(n.clone())), "Project a");
    n.props.push(("projectFile".to_string(), "/src/a/a.csproj".to_string()));
    assert_eq!(context_label(&Some(n)), "a.csproj");
}

#[test]
fn timeline_blocks_are_counted_by_category() {
    let kinds: Vec<String> =
        ["Project", "Target", "Target", "Task", "ProjectEvaluation", "Message"].iter().map(|s| s.to_string()).collect();
    let counts = count_blocks(&kinds);
    assert_eq!(counts, Counts { evaluations: 1, projects: 1, targets: 2, tasks: 1, other: 1 });
    let labels = filter_labels(counts);
    assert_eq!(labels.len(), 5);
    assert_eq!(labels[2], (Category::Target, "Targets (2)".to_string()));
    assert_eq!(labels[4], (Category::Other, "Other (1)".to_string()));
    let none = filter_labels(count_blocks(&[]));
    assert_eq!(none.len(), 4);
    assert_eq!(none[0].1, "Evaluations (0)");
}

#[test]
fn panes_needing_an_archive_are_refused_without_one() {
    let mut sidebar = Sidebar { tab: SidebarTab::SearchLog, visible: false };
    assert!(!select_pane(&mut sidebar, SidebarTab::Files, false));
    assert_eq!(sidebar, Sidebar { tab: SidebarTab::SearchLog, visible: false });
    assert!(select_pane(&mut sidebar, SidebarTab::Favorites, false));
    assert_eq!(sidebar, Sidebar { tab: SidebarTab::Favorites, visible: true });
    assert!(select_pane(&mut sidebar, SidebarTab::FindInFiles, true));
    assert_eq!(sidebar.tab, SidebarTab::FindInFiles);
}

#[test]
fn activating_a_result_reveals_its_node_or_folds_its_group() {
    let rows = result_rows(&[SearchTreeNode { node: None, text: Some("group".to_string()), highlights: None, children: Some(vec![leaf("x")]) }], &[]);
    let group = SearchTreeNode { node: None, text: Some("group".to_string()), highlights: None, children: Some(vec![leaf("x")]) };
    let mut collapsed: Vec<String> = Vec::new();
    assert_eq!(activate_result(&group, &rows[0], &mut collapsed), None);
    assert_eq!(collapsed, vec![rows[0].path.clone()]);
    assert_eq!(activate_result(&group, &rows[0], &mut collapsed), None);
    assert!(collapsed.is_empty());
    let hit = SearchTreeNode { node: Some(node("n9")), text: None, highlights: None, children: None };
    assert_eq!(activate_result(&hit, &rows[1], &mut collapsed), Some("n9".to_string()));
    assert!(collapsed.is_empty());
}

#[test]
fn the_status_bar_words_the_build() {
    assert_eq!(pill_label(1, "error"), "1 error");
    assert_eq!(pill_label(0, "warning"), "0 warnings");
    assert_eq!(pill_label(12, "warning"), "12 warnings");
    assert_eq!(pill_query(0, "$error"), None);
    assert_eq!(pill_query(3, "$error"), Some("$error".to_string()));
    assert_eq!(build_verdict(true), "Build succeeded");
    assert_eq!(build_verdict(false), "Build failed");
    assert_eq!(build_summary(2048, 17, &Some("17.9".to_string())), "2.0 KB · 17 nodes · MSBuild 17.9");
    assert_eq!(build_summary(10, 0, &None), "10 B · 0 nodes · MSBuild ?");
}

#[test]
fn the_page_address_becomes_a_launch() {
    let s = |v: &str| Some(v.to_string());
    let (launch, binlog) = query_launch(s("https://x/b.binlog"), s("$error"), None, s("/a.props"), s("+12"), true);
    assert_eq!(binlog, s("https://x/b.binlog"));
    assert_eq!(launch.search, s("$error"));
    assert_eq!(launch.source, s("/a.props"));
    assert_eq!(launch.line, Some(12));
    assert!(launch.timeline);
    let (launch, binlog) = query_launch(None, None, None, None, s("twelve"), false);
    assert_eq!(binlog, None);
    assert_eq!(launch, Launch::default());
}

#[test]
fn the_sidebar_falls_back_to_search_and_badges_favorites() {
    assert_eq!(active_pane(SidebarTab::Files, false), SidebarTab::SearchLog);
    assert_eq!(active_pane(SidebarTab::Files, true), SidebarTab::Files);
    assert_eq!(active_pane(SidebarTab::Favorites, false), SidebarTab::Favorites);
    assert_eq!(tab_badge(SidebarTab::Favorites, 0), None);
    assert_eq!(tab_badge(SidebarTab::Favorites, 3), Some("3".to_string()));
    assert_eq!(tab_badge(SidebarTab::SearchLog, 3), None);
}

use structured_log_viewer::source::find_step;

#[test]
fn a_find_step_selects_the_match_it_lands_on() {
    let text = "imp x imp y imp";
    let matches = find_matches(text, "imp");
    assert_eq!(matches.len(), 3);
    let mut current = Some(2);
    let mut selection = None;
    find_step(&mut current, &mut selection, "tab-1", true, &matches, 1);
    assert_eq!(current, Some(0), "Enter on the last match wraps to the first");
    assert_eq!(selection, Some(Selection { tab: "tab-1".to_string(), anchor: 0, head: 3 }));
    find_step(&mut current, &mut selection, "tab-1", true, &matches, -1);
    assert_eq!(current, Some(2));
    assert_eq!(selection, Some(Selection { tab: "tab-1".to_string(), anchor: 12, head: 15 }));
    let mut current = None;
    find_step(&mut current, &mut selection, "tab-1", true, &matches, -1);
    assert_eq!(current, Some(0), "from no current match any step lands on the first");
    assert_eq!(selection, Some(Selection { tab: "tab-1".to_string(), anchor: 0, head: 3 }));
}

#[test]
fn a_find_step_without_matches_or_tab_leaves_the_selection() {
    let kept = Some(Selection { tab: "t".to_string(), anchor: 4, head: 9 });
    let mut current = None;
    let mut selection = kept.clone();
    find_step(&mut current, &mut selection, "t", true, &[], 1);
    assert_eq!(current, None);
    assert_eq!(selection, kept);
    let matches = find_matches("ab ab", "ab");
    let mut current = Some(0);
    find_step(&mut current, &mut selection, "t", false, &matches, 1);
    assert_eq!(current, Some(1));
    assert_eq!(selection, kept);
}
