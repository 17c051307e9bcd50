//! Tests of the window registry, the backends' reply parsing, the wire
//! framing and the environment detection.

use blazedock::registry::{DesktopEnvironment, WindowInfo, WindowTracker};
use blazedock::backends::{GnomeWindowEntry, PollCommand, PollError};
use blazedock::detect::detect_environment;
use blazedock::json::JsonValue;

#[test]
fn test_window_count_operations() {
    let mut tracker = WindowTracker::new();

    // Initially zero
    assert_eq!(tracker.get_window_count("firefox"), 0);

    // Set count
    tracker.set_window_count("firefox", 3);
    assert_eq!(tracker.get_window_count("firefox"), 3);

    // Clear count
    tracker.set_window_count("firefox", 0);
    assert_eq!(tracker.get_window_count("firefox"), 0);
}

#[test]
fn test_case_insensitive_matching() {
    let mut tracker = WindowTracker::new();

    tracker.set_window_count("Firefox", 2);
    assert_eq!(tracker.get_window_count("firefox"), 2);
    assert_eq!(tracker.get_window_count("FIREFOX"), 2);
}

#[test]
fn test_substring_matching_both_directions() {
    let mut tracker = WindowTracker::new();
    tracker.set_window_count("Firefox-esr", 4);
    // query contained in key
    assert_eq!(tracker.get_window_count("firefox"), 4);
    // key contained in query
    assert_eq!(tracker.get_window_count("org.firefox-esr.main"), 4);
    // no relation
    assert_eq!(tracker.get_window_count("chromium"), 0);
}

#[test]
fn test_exact_match_wins_over_fuzzy() {
    let mut tracker = WindowTracker::new();
    tracker.set_window_count("fire", 1);
    tracker.set_window_count("firefox", 7);
    assert_eq!(tracker.get_window_count("firefox"), 7);
}

#[test]
fn test_start_stop_flags() {
    let mut tracker = WindowTracker::new_with_environment(DesktopEnvironment::Sway);
    assert!(!tracker.is_running());
    tracker.start();
    assert!(tracker.is_running());
    tracker.start();
    assert!(tracker.is_running());
    tracker.stop();
    assert!(!tracker.is_running());
    assert_eq!(tracker.get_desktop_environment(), DesktopEnvironment::Sway);
}

#[test]
fn test_unknown_environment_never_polls() {
    assert_eq!(detect_environment(false, false, "", ""), DesktopEnvironment::Unknown);

    let mut tracker = WindowTracker::new();
    assert_eq!(tracker.get_desktop_environment(), DesktopEnvironment::Unknown);
    tracker.start();
    // One scheduler tick: for an unknown session there is nothing to do,
    // and every count stays zero.
    assert_eq!(tracker.tick_command(), None);
    assert_eq!(tracker.get_window_count("anything"), 0);
    assert_eq!(tracker.get_all_windows().len(), 0);
}

#[test]
fn test_detection_order() {
    // The compositor-specific markers win, in order.
    assert_eq!(detect_environment(true, true, "KDE", "gnome"), DesktopEnvironment::Hyprland);
    assert_eq!(detect_environment(false, true, "KDE", ""), DesktopEnvironment::Sway);
    assert_eq!(detect_environment(false, false, "KDE", ""), DesktopEnvironment::KDE);
    assert_eq!(detect_environment(false, false, "", "plasma-x11"), DesktopEnvironment::KDE);
    assert_eq!(detect_environment(false, false, "ubuntu:GNOME", ""), DesktopEnvironment::GNOME);
    assert_eq!(detect_environment(false, false, "x-cinnamon", ""), DesktopEnvironment::Unknown);
}

#[test]
fn test_tick_commands_per_backend() {
    let mut t = WindowTracker::new_with_environment(DesktopEnvironment::KDE);
    t.start();
    assert_eq!(t.tick_command(), Some(PollCommand::QueryKde));
    let mut t = WindowTracker::new_with_environment(DesktopEnvironment::GNOME);
    assert_eq!(t.tick_command(), None);
    t.start();
    assert_eq!(t.tick_command(), Some(PollCommand::QueryGnome));
    let mut t = WindowTracker::new_with_environment(DesktopEnvironment::Hyprland);
    t.start();
    assert_eq!(t.tick_command(), Some(PollCommand::QueryHyprland));
    let mut t = WindowTracker::new_with_environment(DesktopEnvironment::Sway);
    t.start();
    assert_eq!(t.tick_command(), Some(PollCommand::QuerySway));
}

#[test]
fn test_hyprland_parsing_counts() {
    let mut tracker = WindowTracker::new_with_environment(DesktopEnvironment::Hyprland);
    let reply = r#"[
        {"address": "0x1", "title": "one", "class": "X", "workspace": 1},
        {"address": "0x2", "title": "two", "class": "X"},
        {"address": "0x3", "title": "three", "class": "Y"}
    ]"#;
    assert_eq!(tracker.handle_hyprland_reply(reply), Ok(()));
    assert_eq!(tracker.get_window_count("X"), 2);
    assert_eq!(tracker.get_window_count("Y"), 1);
    let all = tracker.get_all_windows();
    assert_eq!(all.len(), 3);
    assert_eq!(all[0].id, "0x1");
    assert_eq!(all[0].title, "one");
    assert_eq!(all[0].app_id, "X");
    assert!(!all[0].is_active);
}

#[test]
fn test_hyprland_malformed_replies() {
    let mut tracker = WindowTracker::new_with_environment(DesktopEnvironment::Hyprland);
    // invalid JSON
    assert_eq!(tracker.handle_hyprland_reply("nonsense"), Err(PollError::ProtocolFailure));
    // valid JSON that is not a client array
    assert_eq!(tracker.handle_hyprland_reply("{}"), Err(PollError::ProtocolFailure));
    // a client without a class string
    let reply = r#"[{"address": "0x1", "title": "one"}]"#;
    assert_eq!(tracker.handle_hyprland_reply(reply), Err(PollError::ProtocolFailure));
    assert_eq!(tracker.get_all_windows().len(), 0);
}

#[test]
fn test_snapshot_atomicity_after_failure() {
    let mut tracker = WindowTracker::new_with_environment(DesktopEnvironment::Hyprland);
    let good = r#"[{"address": "0xa", "title": "t", "class": "editor"}]"#;
    assert_eq!(tracker.handle_hyprland_reply(good), Ok(()));
    assert_eq!(tracker.get_window_count("editor"), 1);

    // A failed poll right after: the previous snapshot stays, whole and
    // unmixed.
    assert_eq!(tracker.handle_hyprland_reply("broken"), Err(PollError::ProtocolFailure));
    let all = tracker.get_all_windows();
    assert_eq!(all.len(), 1);
    assert_eq!(all[0].id, "0xa");
    assert_eq!(all[0].app_id, "editor");
    assert_eq!(tracker.get_window_count("editor"), 1);
}

#[test]
fn test_sway_tree_parsing() {
    // Three levels deep, across both child lists, exactly two leaf windows.
    let tree = r#"{
        "type": "root", "id": 1,
        "nodes": [
            {"type": "output", "id": 2,
             "nodes": [
                 {"type": "con", "id": 3, "name": "left", "app_id": "A", "focused": true}
             ],
             "floating_nodes": [
                 {"type": "con", "id": 4,
                  "floating_nodes": [
                      {"type": "con", "id": 5, "name": "float", "app_id": "B"}
                  ]}
             ]}
        ]
    }"#;
    let mut tracker = WindowTracker::new_with_environment(DesktopEnvironment::Sway);
    assert_eq!(tracker.handle_sway_payload(tree), Ok(()));
    let all = tracker.get_all_windows();
    assert_eq!(all.len(), 2);
    assert_eq!(tracker.get_window_count("A"), 1);
    assert_eq!(tracker.get_window_count("B"), 1);
    assert_eq!(all[0].app_id, "A");
    assert_eq!(all[0].id, "3");
    assert_eq!(all[0].title, "left");
    assert!(all[0].is_active);
    assert_eq!(all[1].app_id, "B");
    assert_eq!(all[1].id, "5");
}

#[test]
fn test_sway_node_needs_type_and_app_id() {
    // A "con" node without an app_id, and one with an empty app_id, are not
    // windows; neither is an app_id on a non-"con" node's inner field.
    let tree = r#"{
        "type": "root",
        "nodes": [
            {"type": "con", "id": 7},
            {"type": "con", "id": 8, "app_id": ""},
            {"type": "workspace", "id": 9, "app_id": "ghost"},
            {"type": "con", "id": 10, "app_id": "real"}
        ]
    }"#;
    let mut tracker = WindowTracker::new_with_environment(DesktopEnvironment::Sway);
    assert_eq!(tracker.handle_sway_payload(tree), Ok(()));
    let all = tracker.get_all_windows();
    assert_eq!(all.len(), 1);
    assert_eq!(all[0].app_id, "real");
    assert_eq!(tracker.get_window_count("ghost"), 0);
}

#[test]
fn test_sway_request_frame_bytes() {
    let frame = blazedock::backends::sway_get_tree_request();
    let expected: Vec<u8> = vec![
        0x69, 0x33, 0x2d, 0x69, 0x70, 0x63, // "i3-ipc"
        0, 0, 0, 0, // payload length 0, little endian
        4, 0, 0, 0, // message type 4: get_tree
    ];
    assert_eq!(frame, expected);
}

#[test]
fn test_sway_header_decoding() {
    let mut header: Vec<u8> = vec![0x69, 0x33, 0x2d, 0x69, 0x70, 0x63];
    header.extend_from_slice(&[0x01, 0x02, 0x00, 0x00]); // length 513
    header.extend_from_slice(&[4, 0, 0, 0]); // type 4
    assert_eq!(blazedock::backends::parse_sway_header(&header), Some((513, 4)));

    // wrong magic
    let mut bad = header.clone();
    bad[0] = 0x58;
    assert_eq!(blazedock::backends::parse_sway_header(&bad), None);

    // wrong length
    let short: Vec<u8> = vec![0x69, 0x33];
    assert_eq!(blazedock::backends::parse_sway_header(&short), None);
}

#[test]
fn test_hyprland_socket_path_and_command() {
    let p = blazedock::backends::hyprland_socket_path("abc123");
    assert_eq!(p, "/tmp/hypr/abc123/.socket.sock");
    assert_eq!(blazedock::backends::hyprland_clients_command(), "j/clients");
}

#[test]
fn test_gnome_entries_drop_missing_app_id() {
    let mut tracker = WindowTracker::new_with_environment(DesktopEnvironment::GNOME);
    let entries = vec![
        GnomeWindowEntry {
            id: 42,
            app_id: Some("term".to_string()),
            title: Some("shell".to_string()),
            focused: true,
        },
        GnomeWindowEntry { id: 43, app_id: None, title: Some("lost".to_string()), focused: false },
        GnomeWindowEntry { id: 44, app_id: Some("term".to_string()), title: None, focused: false },
    ];
    assert_eq!(tracker.handle_gnome_windows(entries), Ok(()));
    let all = tracker.get_all_windows();
    assert_eq!(all.len(), 2);
    assert_eq!(all[0].id, "42");
    assert_eq!(all[0].title, "shell");
    assert!(all[0].is_active);
    assert_eq!(all[1].id, "44");
    assert_eq!(all[1].title, "");
    assert_eq!(tracker.get_window_count("term"), 2);
}

#[test]
fn test_kde_count_reply() {
    let mut tracker = WindowTracker::new_with_environment(DesktopEnvironment::KDE);
    assert_eq!(tracker.handle_kde_reply(r#"{"konsole": 2, "dolphin": 1}"#), Ok(()));
    assert_eq!(tracker.get_window_count("konsole"), 2);
    assert_eq!(tracker.get_window_count("dolphin"), 1);
    assert_eq!(tracker.get_window_count("kate"), 0);

    // a non-integer count is a protocol failure, and the table is kept
    assert_eq!(
        tracker.handle_kde_reply(r#"{"konsole": "two"}"#),
        Err(PollError::ProtocolFailure)
    );
    assert_eq!(tracker.get_window_count("konsole"), 2);

    // a fresh object replaces the counts wholesale; a zero entry means gone
    assert_eq!(tracker.handle_kde_reply(r#"{"kate": 1, "dolphin": 0}"#), Ok(()));
    assert_eq!(tracker.get_window_count("kate"), 1);
    assert_eq!(tracker.get_window_count("konsole"), 0);
    assert_eq!(tracker.get_window_count("dolphin"), 0);
}

#[test]
fn test_get_windows_for_app_filters_fuzzily() {
    let mut tracker = WindowTracker::new_with_environment(DesktopEnvironment::Hyprland);
    let reply = r#"[
        {"address": "1", "title": "a", "class": "Firefox-esr"},
        {"address": "2", "title": "b", "class": "kitty"},
        {"address": "3", "title": "c", "class": "firefox-esr"}
    ]"#;
    assert_eq!(tracker.handle_hyprland_reply(reply), Ok(()));
    let ff = tracker.get_windows_for_app("firefox");
    assert_eq!(ff.len(), 2);
    assert_eq!(ff[0].id, "1");
    assert_eq!(ff[1].id, "3");
    let none = tracker.get_windows_for_app("gimp");
    assert_eq!(none.len(), 0);
}

#[test]
fn test_poll_replaces_previous_snapshot_wholesale() {
    let mut tracker = WindowTracker::new_with_environment(DesktopEnvironment::Hyprland);
    assert_eq!(
        tracker.handle_hyprland_reply(r#"[{"address": "1", "title": "a", "class": "X"}]"#),
        Ok(())
    );
    assert_eq!(
        tracker.handle_hyprland_reply(r#"[{"address": "2", "title": "b", "class": "Y"}]"#),
        Ok(())
    );
    assert_eq!(tracker.get_window_count("X"), 0);
    assert_eq!(tracker.get_window_count("Y"), 1);
    assert_eq!(tracker.get_all_windows().len(), 1);
}

#[test]
fn test_empty_query_matches_first_stored_key() {
    // The empty string is contained in every key, so an empty query falls
    // back to the first stored entry.
    let mut tracker = WindowTracker::new();
    tracker.set_window_count("alpha", 2);
    tracker.set_window_count("beta", 5);
    assert_eq!(tracker.get_window_count(""), 2);
}

#[test]
fn test_kde_count_bounds() {
    let mut tracker = WindowTracker::new_with_environment(DesktopEnvironment::KDE);
    // the largest count that fits is accepted; a negative one is refused
    assert_eq!(tracker.handle_kde_reply(r#"{"big": 4294967295}"#), Ok(()));
    assert_eq!(tracker.get_window_count("big"), 4294967295);
    assert_eq!(tracker.handle_kde_reply(r#"{"bad": -1}"#), Err(PollError::ProtocolFailure));
    assert_eq!(tracker.get_window_count("big"), 4294967295);
}

#[test]
fn test_window_info_clone_keeps_fields() {
    let w = WindowInfo {
        id: "7".to_string(),
        title: "t".to_string(),
        app_id: "app".to_string(),
        is_active: true,
    };
    let c = w.clone();
    assert_eq!(c.id, "7");
    assert_eq!(c.title, "t");
    assert_eq!(c.app_id, "app");
    assert!(c.is_active);
}

#[test]
fn test_sway_tree_windows_on_built_value() {
    // The verified walk, driven by a value built by hand rather than by the
    // JSON parser.
    let leaf = JsonValue::Obj(vec![
        ("type".to_string(), JsonValue::Str("con".to_string())),
        ("id".to_string(), JsonValue::Int(-3)),
        ("app_id".to_string(), JsonValue::Str("neg".to_string())),
    ]);
    let root = JsonValue::Obj(vec![
        ("type".to_string(), JsonValue::Str("root".to_string())),
        ("nodes".to_string(), JsonValue::Arr(vec![leaf])),
    ]);
    let ws = blazedock::backends::sway_tree_windows(&root);
    assert_eq!(ws.len(), 1);
    assert_eq!(ws[0].app_id, "neg");
    assert_eq!(ws[0].id, "-3");
}
