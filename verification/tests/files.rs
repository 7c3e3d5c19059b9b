use structured_log_viewer::files::{find_preview, search_term};
use structured_log_viewer::files::{build_tree, emit, separator, utf16_to_byte, FileRow};
use structured_log_viewer::model::FileEntry;

fn entry(path: &str) -> FileEntry {
    FileEntry { path: path.to_string(), lines: 1, length: 1 }
}

fn row_paths(rows: &[FileRow]) -> Vec<(usize, String)> {
    rows.iter().map(|r| (r.depth, r.name.clone())).collect()
}

#[test]
fn compresses_single_child_folders_and_sorts_folders_first() {
    let files = [entry("/a/b/c/one.props"), entry("/a/b/c/two.targets"), entry("/a/b/loose.txt")];
    let tree = build_tree(&files);
    // /a/b is one chain to a single node; under it, folder c precedes
    // the file that sits beside it.
    assert_eq!(tree.len(), 1);
    assert_eq!(tree[0].name, "a/b");
    let names: Vec<_> = tree[0].children.iter().map(|c| (c.name.as_str(), c.file)).collect();
    assert_eq!(names, vec![("c", false), ("loose.txt", true)]);
}

#[test]
fn folded_folders_hide_their_contents() {
    let files = [entry("/a/b/one.props")];
    let tree = build_tree(&files);
    let mut rows = Vec::new();
    emit(&tree[0], 0, "", &[], &mut rows);
    assert_eq!(row_paths(&rows), vec![(0, "a/b".to_string())]);

    let expanded: Vec<String> = vec!["a/b".to_string()];
    let mut rows = Vec::new();
    emit(&tree[0], 0, "", &expanded, &mut rows);
    assert_eq!(row_paths(&rows), vec![(0, "a/b".to_string()), (1, "one.props".to_string())]);
}

#[test]
fn a_filter_opens_folders_and_drops_the_rest() {
    let files = [entry("/a/keep/one.props"), entry("/a/drop/two.targets")];
    let tree = build_tree(&files);
    let mut rows = Vec::new();
    // No folder is expanded, yet the filter still reaches the match.
    emit(&tree[0], 0, "one", &[], &mut rows);
    assert_eq!(row_paths(&rows), vec![(0, "a".to_string()), (1, "keep".to_string()), (2, "one.props".to_string())]);
}

#[test]
fn a_filter_that_matches_nothing_leaves_no_rows() {
    let files = [entry("/a/keep/one.props")];
    let tree = build_tree(&files);
    let mut rows = Vec::new();
    assert!(!emit(&tree[0], 0, "nothing", &[], &mut rows));
    assert!(rows.is_empty());
}

#[test]
fn utf16_offsets_become_byte_offsets() {
    // "é" is one UTF-16 unit and two bytes; an emoji is two units.
    assert_eq!(utf16_to_byte("héllo", 2), Some(3));
    assert_eq!(utf16_to_byte("🙂x", 2), Some(4));
    assert_eq!(utf16_to_byte("abc", 3), Some(3));
    assert_eq!(utf16_to_byte("abc", 9), None);
}

#[test]
fn an_offset_inside_a_surrogate_pair_has_no_byte() {
    assert_eq!(utf16_to_byte("🙂x", 1), None);
    assert_eq!(utf16_to_byte("🙂x", 3), Some(5));
    assert_eq!(utf16_to_byte("", 0), Some(0));
    assert_eq!(utf16_to_byte("", 1), None);
}

#[test]
fn windows_paths_join_folded_folders_with_backslashes() {
    let files = [entry("C:\\src\\app\\main.cs"), entry("C:\\src\\app\\util.cs")];
    assert_eq!(separator(&files), '\\');
    let tree = build_tree(&files);
    assert_eq!(tree.len(), 1);
    assert_eq!(tree[0].name, "C:\\src\\app");
    assert_eq!(tree[0].path, "C:\\src\\app");
    assert!(!tree[0].file);
    let names: Vec<_> = tree[0].children.iter().map(|c| c.name.as_str()).collect();
    assert_eq!(names, vec!["main.cs", "util.cs"]);
    assert_eq!(tree[0].children[0].path, "C:\\src\\app\\main.cs");
}

#[test]
fn rooted_posix_paths_use_slashes_and_no_files_no_separator_question() {
    assert_eq!(separator(&[entry("/x/y")]), '/');
    assert_eq!(separator(&[entry("x/y")]), '\\');
    assert_eq!(separator(&[]), '/');
    assert!(build_tree(&[]).is_empty());
    assert!(build_tree(&[entry("//")]).is_empty());
}

#[test]
fn names_sort_case_blind_with_folders_first() {
    let files = [entry("/r/b.txt"), entry("/r/A.txt"), entry("/r/z/q.txt"), entry("/r/C/q.txt")];
    let tree = build_tree(&files);
    let names: Vec<_> = tree[0].children.iter().map(|c| (c.name.as_str(), c.file)).collect();
    assert_eq!(names, vec![("C", false), ("z", false), ("A.txt", true), ("b.txt", true)]);
}

#[test]
fn a_file_that_is_also_a_folder_keeps_both() {
    let files = [entry("/a/b"), entry("/a/b/c")];
    let tree = build_tree(&files);
    assert_eq!(tree[0].name, "a");
    let b = &tree[0].children[0];
    assert_eq!(b.name, "b");
    assert!(b.file);
    assert_eq!(b.path, "/a/b");
    assert_eq!(b.children[0].name, "c");
    assert_eq!(b.children[0].path, "/a/b/c");
}

#[test]
fn folder_paths_join_segments_and_the_filter_ignores_case() {
    let files = [entry("/Src/One.cs"), entry("/Src/two.cs")];
    let tree = build_tree(&files);
    assert_eq!(tree[0].path, "Src");
    let mut rows = Vec::new();
    assert!(emit(&tree[0], 3, "one", &[], &mut rows));
    assert_eq!(row_paths(&rows), vec![(3, "Src".to_string()), (4, "One.cs".to_string())]);
    assert!(rows[0].expanded);
    assert_eq!(rows[1].path, "/Src/One.cs");
    assert_eq!(rows[1].lines, 1);
}

use structured_log_viewer::files::{byte_spans, find_rows, initially_expanded, visible_rows, FindRow};
use structured_log_viewer::model::{FileMatch, FileMatches, FileSearchResponse, MatchSpan};

fn response() -> FileSearchResponse {
    FileSearchResponse {
        query: "imp".to_string(),
        total_matches: 3,
        overflow: false,
        files: vec![
            FileMatches {
                path: "/a.props".to_string(),
                matches: vec![
                    FileMatch {
                        line: 3,
                        text: "<Import é=\"x\" />".to_string(),
                        spans: vec![MatchSpan { start: 1, length: 3 }, MatchSpan { start: 40, length: 1 }],
                    },
                    FileMatch { line: 9, text: "imp".to_string(), spans: vec![MatchSpan { start: 0, length: 3 }] },
                ],
            },
            FileMatches {
                path: "/b.targets".to_string(),
                matches: vec![FileMatch { line: 1, text: "🙂imp".to_string(), spans: vec![MatchSpan { start: 2, length: 3 }] }],
            },
        ],
    }
}

#[test]
fn find_rows_group_hits_under_their_files() {
    let rows = find_rows(&response(), &[]);
    assert_eq!(rows.len(), 5);
    assert_eq!(rows[0], FindRow::File { path: "/a.props".to_string(), matches: 2, collapsed: false });
    assert_eq!(
        rows[1],
        FindRow::Line { path: "/a.props".to_string(), line: 3, text: "<Import é=\"x\" />".to_string(), spans: vec![(1, 4)] }
    );
    assert_eq!(
        rows[4],
        FindRow::Line { path: "/b.targets".to_string(), line: 1, text: "🙂imp".to_string(), spans: vec![(4, 7)] }
    );
}

#[test]
fn a_collapsed_file_shows_only_its_header() {
    let rows = find_rows(&response(), &["/a.props".to_string()]);
    assert_eq!(rows.len(), 3);
    assert_eq!(rows[0], FindRow::File { path: "/a.props".to_string(), matches: 2, collapsed: true });
    assert_eq!(rows[1], FindRow::File { path: "/b.targets".to_string(), matches: 1, collapsed: false });
}

#[test]
fn spans_inside_a_surrogate_pair_are_dropped() {
    assert_eq!(byte_spans("🙂ab", &[MatchSpan { start: 1, length: 2 }, MatchSpan { start: 2, length: 1 }]), vec![(4, 5)]);
}

#[test]
fn the_files_pane_trims_and_lowercases_the_filter() {
    let files = [entry("/src/Main.CS"), entry("/src/util.cs"), entry("/docs/readme.md")];
    let tree = build_tree(&files);
    let rows = visible_rows(&tree, "  MAIN ", &[]);
    assert_eq!(row_paths(&rows), vec![(0, "src".to_string()), (1, "Main.CS".to_string())]);
    let open = initially_expanded(&tree);
    // Top-level folders keep the order the archive lists them in.
    assert_eq!(open, vec!["src".to_string(), "docs".to_string()]);
    let rows = visible_rows(&tree, "", &open);
    assert_eq!(rows.len(), 5);
}

#[test]
fn sorting_ignores_case() {
    let files = [entry("/r/B.txt"), entry("/r/a.txt"), entry("/r/C.txt")];
    let tree = build_tree(&files);
    let names: Vec<_> = tree[0].children.iter().map(|c| c.name.as_str()).collect();
    assert_eq!(names, vec!["a.txt", "B.txt", "C.txt"]);
}

#[test]
fn a_filter_matches_paths_ignoring_case() {
    let files = [entry("/Src/MAIN.cs")];
    let tree = build_tree(&files);
    let mut rows = Vec::new();
    assert!(emit(&tree[0], 0, "main", &[], &mut rows));
    assert_eq!(rows.len(), 2);
}

use structured_log_viewer::files::{activate_file_row, activate_find_row};
use structured_log_viewer::text::toggle_text;

#[test]
fn activating_rows_opens_files_and_toggles_folders() {
    let files = [entry("/a/b/one.props")];
    let tree = build_tree(&files);
    let mut expanded: Vec<String> = Vec::new();
    let mut rows = Vec::new();
    emit(&tree[0], 0, "", &expanded, &mut rows);
    assert_eq!(activate_file_row(&rows[0], &mut expanded), None);
    assert_eq!(expanded, vec!["a/b".to_string()]);
    let mut rows = Vec::new();
    emit(&tree[0], 0, "", &expanded, &mut rows);
    assert_eq!(activate_file_row(&rows[1], &mut expanded), Some("/a/b/one.props".to_string()));
    assert_eq!(activate_file_row(&rows[0], &mut expanded), None);
    assert!(expanded.is_empty());
}

#[test]
fn activating_find_rows_folds_files_and_opens_hits() {
    let mut collapsed: Vec<String> = Vec::new();
    let rows = find_rows(&response(), &collapsed);
    assert_eq!(activate_find_row(&rows[1], &mut collapsed), Some(("/a.props".to_string(), 3)));
    assert_eq!(activate_find_row(&rows[0], &mut collapsed), None);
    assert_eq!(collapsed, vec!["/a.props".to_string()]);
    assert_eq!(activate_find_row(&rows[0], &mut collapsed), None);
    assert!(collapsed.is_empty());
}

#[test]
fn toggling_a_text_adds_then_removes_it() {
    let mut set = vec!["x".to_string(), "y".to_string()];
    assert!(toggle_text(&mut set, &"z".to_string()));
    assert_eq!(set, vec!["x", "y", "z"]);
    assert!(!toggle_text(&mut set, &"x".to_string()));
    assert_eq!(set, vec!["y", "z"]);
}

#[test]
fn find_in_files_waits_for_three_characters() {
    assert_eq!(search_term("  ab "), None);
    assert_eq!(search_term(" abc "), Some("abc".to_string()));
    assert_eq!(search_term("héé"), Some("héé".to_string()));
    assert_eq!(search_term(""), None);
}

#[test]
fn find_lines_lose_their_indent_and_spans_follow() {
    let (text, spans) = find_preview("    <Import Project=\"a\" />", &[(5, 11), (2, 4)]);
    assert_eq!(text, "<Import Project=\"a\" />");
    assert_eq!(spans, vec![(1, 7)]);
    let (text, spans) = find_preview("\t\u{a0}x", &[(3, 4)]);
    assert_eq!(text, "x");
    assert_eq!(spans, vec![(0, 1)]);
    let (text, spans) = find_preview("   ", &[]);
    assert_eq!(text, "");
    assert!(spans.is_empty());
}

#[test]
fn files_tree_starts_fully_expanded() {
    let files = [entry("/src/a/deep/one.props"), entry("/src/a/two.props"), entry("/src/b/three.cs"), entry("/top.txt")];
    let tree = build_tree(&files);
    let open = initially_expanded(&tree);
    let rows = visible_rows(&tree, "", &open);
    assert!(rows.iter().any(|r| r.depth > 1), "nested rows are visible: {:?}", row_paths(&rows));
    assert!(rows.iter().filter(|r| !r.file).all(|r| r.expanded), "every folder starts open");
    assert_eq!(rows.iter().filter(|r| !r.file).count(), open.len());
    assert_eq!(rows.len(), 8);
}

use structured_log_viewer::files::{files_caption, FilesPane};
use structured_log_viewer::model::FileList;

#[test]
fn the_files_pane_loads_a_listing() {
    let mut pane = FilesPane::new();
    assert!(pane.loading);
    assert_eq!(pane.notice(0), Some("Reading the source archive…".to_string()));
    let files = vec![entry("/src/a/deep/one.props"), entry("/src/a/two.props"), entry("/top.txt")];
    pane.loaded(Ok(FileList { total: 2, files: files.clone() }));
    assert!(!pane.loading);
    assert_eq!(pane.total, 3, "the larger of the reported total and the files listed");
    assert_eq!(pane.tree, build_tree(&files));
    assert_eq!(pane.expanded, initially_expanded(&pane.tree));
    assert!(pane.error.is_none());
    assert_eq!(pane.notice(4), None);
    assert_eq!(pane.notice(0), Some("No files match.".to_string()));
    assert_eq!(files_caption(pane.total), "3 files");
}

#[test]
fn the_files_pane_keeps_a_reported_total_above_the_listing() {
    let mut pane = FilesPane::new();
    pane.loaded(Ok(FileList { total: 500, files: vec![entry("/a.cs")] }));
    assert_eq!(pane.total, 500);
    assert_eq!(files_caption(pane.total), "500 files");
}

#[test]
fn a_failed_listing_is_shown_in_place_of_the_rows() {
    let mut pane = FilesPane::new();
    pane.loaded(Err("the archive is unreadable".to_string()));
    assert!(!pane.loading);
    assert_eq!(pane.total, 0);
    assert!(pane.tree.is_empty());
    assert_eq!(pane.notice(0), Some("the archive is unreadable".to_string()));
    assert_eq!(pane.notice(3), Some("the archive is unreadable".to_string()));
}

#[test]
fn the_file_count_caption_is_singular_for_one() {
    assert_eq!(files_caption(1), "1 file");
    assert_eq!(files_caption(0), "0 files");
    assert_eq!(files_caption(12), "12 files");
}
