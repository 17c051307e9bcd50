//! Tests of desktop-entry parsing, the launch-command cleanup, the process
//! tracker and the small services.

use blazedock::desktop_entry::DesktopEntry;
use blazedock::process_tracker::{ProcessTracker, command_to_process_name};
use blazedock::running_apps::RunningAppsService;
use blazedock::drive_monitor::DriveMonitor;
use blazedock::recent_files::RecentFilesService;
use blazedock::config::{chrono_lite_now, DockPosition};
use blazedock::text::{u64_to_string, i64_to_string, fuzzy_match, trim_str};

#[test]
fn test_parse_desktop_content() {
    let content = r#"
[Desktop Entry]
Type=Application
Name=Firefox
GenericName=Web Browser
Icon=firefox
Exec=firefox %u
Categories=Network;WebBrowser;
"#;

    let entry = DesktopEntry::parse_content("test.desktop".to_string(), content);

    assert_eq!(entry.name, Some("Firefox".to_string()));
    assert_eq!(entry.icon, Some("firefox".to_string()));
    assert_eq!(entry.exec_command(), Some("firefox".to_string()));
    assert!(entry.categories.contains(&"Network".to_string()));
}

#[test]
fn test_strip_field_codes() {
    let content = r#"
[Desktop Entry]
Type=Application
Name=Test
Exec=myapp --url %u --files %F
"#;

    let entry = DesktopEntry::parse_content("test.desktop".to_string(), content);
    assert_eq!(entry.exec_command(), Some("myapp --url --files".to_string()));
}

#[test]
fn test_command_parsing() {
    // Basic parsing test (doesn't actually launch)
    let parts: Vec<&str> = "firefox --new-window".split_whitespace().collect();
    assert_eq!(parts[0], "firefox");
    assert_eq!(parts[1], "--new-window");
}

#[test]
fn test_parse_ignores_other_sections() {
    let content = "[Desktop Entry]\nType=Application\nName=App\nExec=app\n\
                   [Desktop Action New]\nName=Shadow\nIcon=shadow\n";
    let entry = DesktopEntry::parse_content("a.desktop".to_string(), content);
    assert_eq!(entry.name, Some("App".to_string()));
    assert_eq!(entry.icon, None);
    assert!(entry.is_visible_app());
}

#[test]
fn test_parse_comments_blanks_and_flags() {
    let content = "# a comment\n\n[Desktop Entry]\nType=Application\nName = Spaced \n\
                   Exec=run\nTerminal=true\nNoDisplay=true\nComment=hi\n";
    let entry = DesktopEntry::parse_content("b.desktop".to_string(), content);
    assert_eq!(entry.name, Some("Spaced".to_string()));
    assert_eq!(entry.comment, Some("hi".to_string()));
    assert!(entry.terminal);
    assert!(entry.no_display);
    // hidden entries are not visible apps
    assert!(!entry.is_visible_app());
}

#[test]
fn test_exec_command_collapses_percent_pairs() {
    // A doubled percent collapses to one; a field code is stripped even when
    // a percent stands right before it.
    let content = "[Desktop Entry]\nType=Application\nName=T\nExec=show 100%% %%f %i now\n";
    let entry = DesktopEntry::parse_content("c.desktop".to_string(), content);
    assert_eq!(entry.exec_command(), Some("show 100% % now".to_string()));
}

#[test]
fn test_visible_app_requires_type() {
    let content = "[Desktop Entry]\nName=NoType\nExec=x\n";
    let entry = DesktopEntry::parse_content("d.desktop".to_string(), content);
    assert!(!entry.is_visible_app());
}

#[test]
fn test_process_tracker_register_and_snapshot() {
    let mut tracker = ProcessTracker::new();
    assert!(!tracker.is_running("firefox"));

    tracker.register_app("firefox --new-window");
    tracker.register_app("/usr/bin/kitty");
    // registered but no snapshot yet
    assert!(!tracker.is_running("firefox"));

    let snapshot = vec!["firefox".to_string(), "bash".to_string()];
    tracker.apply_process_snapshot(&snapshot);
    assert!(tracker.is_running("firefox extra-args"));
    assert!(!tracker.is_running("/usr/bin/kitty"));

    // a later snapshot without it flips the flag back
    tracker.apply_process_snapshot(&vec!["bash".to_string()]);
    assert!(!tracker.is_running("firefox"));
}

#[test]
fn test_command_to_process_name() {
    assert_eq!(command_to_process_name("firefox --new-window"), "firefox");
    assert_eq!(command_to_process_name("kitty"), "kitty");
    // a command with no words maps to itself
    assert_eq!(command_to_process_name("  "), "  ");
}

#[test]
fn test_process_tracker_flags() {
    let mut tracker = ProcessTracker::new();
    tracker.start();
    tracker.stop();
    assert!(!tracker.is_running("anything"));
}

#[test]
fn test_running_apps_selection() {
    let mut service = RunningAppsService::new();
    let term = DesktopEntry::parse_content(
        "/usr/share/applications/term.desktop".to_string(),
        "[Desktop Entry]\nType=Application\nName=Terminal\nIcon=term-icon\nExec=/usr/bin/MyTerm %u\n",
    );
    let hidden = DesktopEntry::parse_content(
        "/usr/share/applications/hidden.desktop".to_string(),
        "[Desktop Entry]\nType=Application\nName=Hidden\nExec=hid\nNoDisplay=true\n",
    );
    service.add_desktop_entry(term);
    service.add_desktop_entry(hidden);

    // the terminal's process is alive (names arrive untrimmed, any case)
    let procs = vec![" myterm \n".to_string(), "bash".to_string()];
    let apps = service.running_apps_from(&procs, &vec![]);
    assert_eq!(apps.len(), 1);
    assert_eq!(apps[0].name, "Terminal");
    assert_eq!(apps[0].icon, "term-icon");
    assert_eq!(apps[0].command, "/usr/bin/MyTerm");
    assert_eq!(apps[0].process_name, "myterm");
    assert_eq!(
        apps[0].desktop_file,
        Some("/usr/share/applications/term.desktop".to_string())
    );

    // pinned apps are left out
    let pinned = vec!["/usr/bin/MyTerm --flag".to_string()];
    let apps = service.running_apps_from(&procs, &pinned);
    assert_eq!(apps.len(), 0);

    // dead processes are left out
    let apps = service.running_apps_from(&vec!["bash".to_string()], &vec![]);
    assert_eq!(apps.len(), 0);
}

#[test]
fn test_running_apps_sorted_by_name() {
    let mut service = RunningAppsService::new();
    let banana = DesktopEntry::parse_content(
        "/usr/share/applications/banana.desktop".to_string(),
        "[Desktop Entry]\nType=Application\nName=Banana\nExec=banana\n",
    );
    let apricot = DesktopEntry::parse_content(
        "/usr/share/applications/apricot.desktop".to_string(),
        "[Desktop Entry]\nType=Application\nName=Apricot\nExec=apricot\n",
    );
    let cherry = DesktopEntry::parse_content(
        "/usr/share/applications/cherry.desktop".to_string(),
        "[Desktop Entry]\nType=Application\nName=Cherry\nExec=cherry\n",
    );
    // cached in the order B, A, C — the result comes back A, B, C
    service.add_desktop_entry(banana);
    service.add_desktop_entry(apricot);
    service.add_desktop_entry(cherry);

    let procs = vec!["banana".to_string(), "apricot".to_string(), "cherry".to_string()];
    let apps = service.running_apps_from(&procs, &vec![]);
    assert_eq!(apps.len(), 3);
    assert_eq!(apps[0].name, "Apricot");
    assert_eq!(apps[1].name, "Banana");
    assert_eq!(apps[2].name, "Cherry");
}

#[test]
fn test_process_snapshot_names_are_trimmed() {
    // `ps -o comm=` pads its output; a padded name still counts as alive.
    let mut tracker = ProcessTracker::new();
    tracker.register_app("firefox");
    tracker.apply_process_snapshot(&vec!["  firefox  \n".to_string()]);
    assert!(tracker.is_running("firefox"));
}

#[test]
fn test_drive_monitor_flags() {
    let mut monitor = DriveMonitor::new();
    assert!(!monitor.is_running());
    assert_eq!(monitor.get_drives().len(), 0);
    monitor.start();
    assert!(monitor.is_running());
    monitor.stop();
    assert!(!monitor.is_running());
}

#[test]
fn test_recent_files_limit() {
    let service = RecentFilesService::new();
    service.refresh();
    assert_eq!(service.get_recent_files(10).len(), 0);
}

#[test]
fn test_decimal_strings() {
    assert_eq!(u64_to_string(0), "0");
    assert_eq!(u64_to_string(42), "42");
    assert_eq!(u64_to_string(9007199254740993), "9007199254740993");
    assert_eq!(i64_to_string(-17), "-17");
    assert_eq!(i64_to_string(5), "5");
    assert_eq!(i64_to_string(0), "0");
}

#[test]
fn test_timestamp_is_decimal_seconds() {
    let now = chrono_lite_now();
    assert!(!now.is_empty());
    assert!(now.parse::<u64>().is_ok());
}

#[test]
fn test_fuzzy_match_and_trim() {
    assert!(fuzzy_match("Firefox-esr", "FIREFOX"));
    assert!(fuzzy_match("fox", "Firefox"));
    assert!(!fuzzy_match("kitty", "firefox"));
    assert_eq!(trim_str("  hello\tworld \r\n"), "hello\tworld");
    assert_eq!(trim_str("   "), "");
}

#[test]
fn test_dock_position_default() {
    assert_eq!(DockPosition::default(), DockPosition::Left);
}

#[test]
fn test_decimal_extremes() {
    assert_eq!(u64_to_string(u64::MAX), "18446744073709551615");
    assert_eq!(i64_to_string(i64::MIN), "-9223372036854775808");
    assert_eq!(i64_to_string(i64::MAX), "9223372036854775807");
}
