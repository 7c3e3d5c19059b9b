use structured_log_viewer::automation::{touch_phase, unknown_phase_error, TouchPhase};
use structured_log_viewer::engine::{bridge_error, bridge_result, choose_library, worker_error};
use structured_log_viewer::demo::{detail_of, row_text, select_next, select_previous, selected_stat, Kind};
use structured_log_viewer::engine::{next_page, url_display_name, PAGE_SIZE};
use structured_log_viewer::interop::{spike_add, spike_spin, spike_sum_bytes};
use structured_log_viewer::model::SemanticLocation;
use structured_log_viewer::source::{destination, Destination};

#[test]
fn paging_continues_until_every_child_is_read() {
    assert_eq!(PAGE_SIZE, 5000);
    assert_eq!(next_page(0, 5000, 12000), Some(5000));
    assert_eq!(next_page(10000, 2000, 12000), None);
    assert_eq!(next_page(0, 0, 12000), None);
    assert_eq!(next_page(0, 3, 3), None);
}

#[test]
fn a_url_is_called_by_its_last_segment() {
    assert_eq!(url_display_name("https://host/logs/build.binlog"), "build.binlog");
    assert_eq!(url_display_name("build.binlog"), "build.binlog");
    assert_eq!(url_display_name("https://host/dir/"), "");
}

#[test]
fn interop_helpers_compute_what_they_claim() {
    assert_eq!(spike_add(40, 2), 42);
    assert_eq!(spike_add(i32::MAX, 1), i32::MIN);
    assert_eq!(spike_sum_bytes(&[1, 2, 250]), 253);
    assert_eq!(spike_sum_bytes(&[]), 0);
    assert_eq!(spike_spin(0), 0x9E3779B97F4A7C15);
    let mut x: u64 = 0x9E3779B97F4A7C15;
    for i in 0..1000u64 {
        x ^= x << 13;
        x ^= x >> 7;
        x ^= x << 17;
        x = x.wrapping_add(i);
    }
    assert_eq!(spike_spin(1000), x);
}

#[test]
fn demo_rows_cycle_through_kinds_and_messages() {
    assert_eq!(Kind::for_index(0), Kind::Project);
    assert_eq!(Kind::for_index(37 + 9), Kind::Target);
    assert_eq!(Kind::for_index(33), Kind::Error);
    assert_eq!(Kind::for_index(3), Kind::Message);
    assert_eq!(Kind::Task.depth(), 2);
    assert_eq!(Kind::Warning.color(), 0xf9e2af);
    assert_eq!(row_text(0), "Project #0: Build started for Foo.csproj (net10.0)");
    assert_eq!(row_text(17), "Warning #17: CoreCompile → csc.dll /noconfig /nowarn:1701");
}

fn location(path: Option<&str>, line: Option<usize>, node_id: Option<&str>, available: bool) -> SemanticLocation {
    SemanticLocation {
        path: path.map(|p| p.to_string()),
        line,
        label: None,
        detail: None,
        node_id: node_id.map(|n| n.to_string()),
        available,
    }
}

#[test]
fn following_a_location_opens_reveals_or_explains() {
    assert_eq!(
        destination(&location(Some("/a.props"), Some(7), None, true)),
        Destination::Open { path: "/a.props".to_string(), line: 7 }
    );
    assert_eq!(
        destination(&location(Some("/a.props"), None, Some("9"), true)),
        Destination::Open { path: "/a.props".to_string(), line: 1 }
    );
    assert_eq!(destination(&location(Some("/a.props"), None, Some("9"), false)), Destination::Reveal("9".to_string()));
    assert_eq!(
        destination(&location(Some("/a.props"), None, None, false)),
        Destination::Message("'/a.props' is not embedded in this binlog.".to_string())
    );
    assert_eq!(
        destination(&location(None, None, None, true)),
        Destination::Message("This destination is not available.".to_string())
    );
}

#[test]
fn bridge_failures_are_worded_by_status() {
    assert_eq!(bridge_error(2, None), "cancelled");
    assert_eq!(bridge_error(3, Some(("x".to_string(), "y".to_string()))), "the build is no longer open");
    assert_eq!(bridge_error(1, Some(("No such node".to_string(), "NotFound".to_string()))), "No such node (NotFound)");
    assert_eq!(bridge_error(7, None), "bridge error (status 7)");
    assert_eq!(bridge_error(-12, None), "bridge error (status -12)");
    assert_eq!(bridge_error(i32::MIN, None), "bridge error (status -2147483648)");
}

#[test]
fn bridge_results_need_a_payload() {
    assert_eq!(bridge_result(0, Some("{}".to_string()), None), Ok("{}".to_string()));
    assert_eq!(bridge_result(0, None, None), Err("the bridge returned no payload".to_string()));
    assert_eq!(bridge_result(2, Some("{}".to_string()), None), Err("cancelled".to_string()));
}

#[test]
fn worker_failures_fill_in_what_is_missing() {
    assert_eq!(worker_error(None, None), "engine error (Unknown)");
    assert_eq!(worker_error(Some("bad".to_string()), Some("E1".to_string())), "bad (E1)");
}

#[test]
fn demo_selection_moves_within_the_rows() {
    assert_eq!(select_next(None, 3), Some(0));
    assert_eq!(select_next(Some(1), 3), Some(2));
    assert_eq!(select_next(Some(2), 3), Some(2));
    assert_eq!(select_next(None, 0), None);
    assert_eq!(select_previous(Some(2), 3), Some(1));
    assert_eq!(select_previous(Some(0), 3), Some(0));
    assert_eq!(select_previous(None, 3), Some(0));
    assert_eq!(select_previous(None, 0), None);
    assert_eq!(selected_stat(None), "none");
    assert_eq!(selected_stat(Some(42)), "#42");
}

#[test]
fn demo_detail_pane_shows_the_row_source() {
    let (title, body) = detail_of(Some(1));
    assert_eq!(title, "Target #1: CoreCompile → csc.dll /noconfig /nowarn:1701");
    assert_eq!(
        body,
        "<Target Id=\"1\"\n         Depth=\"1\"\n         Kind=\"Target\">\n  <Message>Target #1: CoreCompile → csc.dll /noconfig /nowarn:1701</Message>\n</Target>"
    );
    let (title, body) = detail_of(None);
    assert_eq!(title, "Nothing selected");
    assert_eq!(body, "// select a row on the left\n// to see its source here");
}

#[test]
fn the_library_comes_from_the_environment_then_the_first_existing_candidate() {
    let c = |p: &str, e: bool| (p.to_string(), e);
    assert_eq!(choose_library(Some("/x/lib.dylib".to_string()), &[c("/a", true)]), Ok("/x/lib.dylib".to_string()));
    assert_eq!(choose_library(None, &[c("/a", false), c("/b", true), c("/c", true)]), Ok("/b".to_string()));
    assert_eq!(
        choose_library(None, &[c("/a", false)]),
        Err("libmslog.dylib not found. Build it with src/StructuredLogViewer.NativeBridge/build-dylib.sh or set MSLOG_DYLIB.".to_string())
    );
}

#[test]
fn scroll_commands_name_their_gesture_phase() {
    assert_eq!(touch_phase(None), Ok(TouchPhase::Moved));
    assert_eq!(touch_phase(Some("moved")), Ok(TouchPhase::Moved));
    assert_eq!(touch_phase(Some("started")), Ok(TouchPhase::Started));
    assert_eq!(touch_phase(Some("ended")), Ok(TouchPhase::Ended));
    assert_eq!(touch_phase(Some("lifted")), Err("unknown touch phase \"lifted\"".to_string()));
    assert_eq!(touch_phase(Some("a\"b\\")), Err("unknown touch phase \"a\\\"b\\\\\"".to_string()));
    assert_eq!(unknown_phase_error("\"x\""), "unknown touch phase \"x\"");
}
