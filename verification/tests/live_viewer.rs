use ufwview::entry::LogEntry;
use ufwview::filter::FilterField;
use ufwview::services::ServiceRegistry;
use ufwview::viewer::{selected_position_for_raw, Fingerprint, Viewer};

fn lines(raws: &[&str]) -> Vec<String> {
    raws.iter().map(|r| r.to_string()).collect()
}

fn line_for(tag: &str, src: &str, iface: &str) -> String {
    format!(
        "Feb 11 20:21:00 host kernel: [UFW BLOCK] IN={} OUT= SRC={} DST=10.0.0.1 DPT=443 TAG={}",
        iface, src, tag
    )
}

#[test]
fn selected_position_for_raw_finds_matching_row_in_filtered_view() {
    let entries = vec![
        LogEntry {
            raw: "newest".to_string(),
            ..Default::default()
        },
        LogEntry {
            raw: "kept".to_string(),
            ..Default::default()
        },
        LogEntry {
            raw: "older".to_string(),
            ..Default::default()
        },
    ];
    let filtered = vec![0, 1, 2];
    assert_eq!(
        selected_position_for_raw(&entries, &filtered, "kept"),
        Some(1)
    );
    assert_eq!(
        selected_position_for_raw(&entries, &filtered, "missing"),
        None
    );
}

#[test]
fn reload_reverses_file_order_to_newest_first() {
    let mut v = Viewer::new();
    let reg = ServiceRegistry::new();
    let file = lines(&[
        "host kernel: [UFW A] IN=eth0 SRC=1.1.1.1 MARK=oldest",
        "not a firewall line",
        "host kernel: [UFW B] IN=eth0 SRC=2.2.2.2 MARK=newest",
    ]);
    assert!(v.apply_reload(Some(&file), None, &reg));
    assert_eq!(v.entries.len(), 2);
    assert_eq!(v.entries[0].action, "B");
    assert_eq!(v.entries[1].action, "A");
    assert!(!v.read_failed);
}

#[test]
fn failed_read_clears_entries_and_surfaces_failure() {
    let mut v = Viewer::new();
    let reg = ServiceRegistry::new();
    let file = lines(&["host kernel: [UFW A] IN=eth0 SRC=8.8.8.8"]);
    assert!(v.apply_reload(Some(&file), None, &reg));
    assert_eq!(v.entries.len(), 1);
    assert!(!v.apply_reload(None, None, &reg));
    assert_eq!(v.entries.len(), 0);
    assert_eq!(v.selected, 0);
    assert!(v.read_failed);
    assert_eq!(v.last_fingerprint, None);
    // the next successful reload recovers
    assert!(v.apply_reload(Some(&file), None, &reg));
    assert!(!v.read_failed);
}

#[test]
fn reload_keeps_selection_by_raw_text() {
    let mut v = Viewer::new();
    let reg = ServiceRegistry::new();
    let one = line_for("one", "8.8.8.8", "eth0");
    let two = line_for("two", "9.9.9.9", "eth0");
    let three = line_for("three", "7.7.7.7", "eth0");
    let file1 = lines(&[one.as_str(), two.as_str()]);
    assert!(v.apply_reload(Some(&file1), None, &reg));
    // newest first: entries are [two, one]; select the older row
    v.move_selection(true);
    let picked = v.current_selected_raw().expect("a row is selected");
    assert_eq!(picked, one);

    // the file grows; the selected line keeps its raw text but moves
    let file2 = lines(&[one.as_str(), two.as_str(), three.as_str()]);
    assert!(v.apply_reload(Some(&file2), None, &reg));
    assert_eq!(v.current_selected_raw().as_deref(), Some(one.as_str()));
    assert_eq!(v.selected, 2);
}

#[test]
fn reload_clamps_selection_when_line_disappears() {
    let mut v = Viewer::new();
    let reg = ServiceRegistry::new();
    let one = line_for("one", "8.8.8.8", "eth0");
    let two = line_for("two", "9.9.9.9", "eth0");
    let file1 = lines(&[one.as_str(), two.as_str()]);
    assert!(v.apply_reload(Some(&file1), None, &reg));
    v.move_selection(true);
    assert_eq!(v.selected, 1);

    let file2 = lines(&[two.as_str()]);
    assert!(v.apply_reload(Some(&file2), None, &reg));
    assert_eq!(v.selected, 0);
    assert_eq!(v.current_selected_raw().as_deref(), Some(two.as_str()));
}

#[test]
fn interface_catalogue_orders_by_count_then_name() {
    let mut v = Viewer::new();
    let reg = ServiceRegistry::new();
    let file = lines(&[
        "h kernel: [UFW A] IN=wlan0 OUT= SRC=8.8.8.8",
        "h kernel: [UFW A] IN=wlan0 OUT= SRC=8.8.8.8",
        "h kernel: [UFW A] IN=eth0 OUT=eth1 SRC=8.8.8.8",
        "h kernel: [UFW A] IN=eth0 OUT= SRC=8.8.8.8",
        "h kernel: [UFW A] IN=ab1 OUT= SRC=8.8.8.8",
        "h kernel: [UFW A] IN=ab1 OUT= SRC=8.8.8.8",
    ]);
    assert!(v.apply_reload(Some(&file), None, &reg));
    // counts: wlan0 2, eth0 2, ab1 2, eth1 1; ties break by name
    assert_eq!(
        v.interface_options,
        vec![
            "ab1".to_string(),
            "eth0".to_string(),
            "wlan0".to_string(),
            "eth1".to_string(),
        ]
    );
    // the default interface prefers the first wide-area candidate
    assert_eq!(v.filter.selected_interface.as_deref(), Some("eth0"));
}

#[test]
fn surviving_selected_interface_is_kept_across_reload() {
    let mut v = Viewer::new();
    let reg = ServiceRegistry::new();
    let file = lines(&[
        "h kernel: [UFW A] IN=eth0 OUT= SRC=8.8.8.8",
        "h kernel: [UFW A] IN=wlan0 OUT= SRC=8.8.8.8",
    ]);
    assert!(v.apply_reload(Some(&file), None, &reg));
    v.set_selected_interface(Some("wlan0".to_string()));
    assert!(v.apply_reload(Some(&file), None, &reg));
    assert_eq!(v.filter.selected_interface.as_deref(), Some("wlan0"));

    let smaller = lines(&["h kernel: [UFW A] IN=eth0 OUT= SRC=8.8.8.8"]);
    assert!(v.apply_reload(Some(&smaller), None, &reg));
    assert_eq!(v.filter.selected_interface.as_deref(), Some("eth0"));
}

#[test]
fn filter_changes_reset_selection() {
    let mut v = Viewer::new();
    let reg = ServiceRegistry::new();
    let file = lines(&[
        "h kernel: [UFW A] IN=eth0 SRC=8.8.8.8 X=a",
        "h kernel: [UFW A] IN=eth0 SRC=9.9.9.9 X=b",
    ]);
    assert!(v.apply_reload(Some(&file), None, &reg));
    v.move_selection(true);
    assert_eq!(v.selected, 1);
    v.set_filter_value(FilterField::Text, "  ufw  ".to_string());
    assert_eq!(v.selected, 0);
    assert_eq!(v.get_filter_value(FilterField::Text), "ufw");
    let count = v.clear_filter(FilterField::Text);
    assert_eq!(v.get_filter_value(FilterField::Text), "");
    assert_eq!(count, 2);
}

#[test]
fn clear_filters_restores_initial_view() {
    let mut v = Viewer::new();
    let reg = ServiceRegistry::new();
    let file = lines(&["h kernel: [UFW A] IN=eth0 SRC=8.8.8.8"]);
    assert!(v.apply_reload(Some(&file), None, &reg));
    v.set_filter_value(FilterField::Action, "allow".to_string());
    let shown = v.toggle_show_local_src();
    assert!(v.filter.show_local_src);
    assert_eq!(shown, 0);
    v.cycle_flow_filter();
    let count = v.clear_filters();
    assert!(!v.filter.show_local_src);
    assert!(v.filter.show_wan_src);
    assert_eq!(v.get_filter_value(FilterField::Action), "");
    assert_eq!(v.filter.selected_interface.as_deref(), Some("eth0"));
    assert_eq!(count, 1);
}

#[test]
fn poll_decisions_follow_pause_and_fingerprint() {
    let mut v = Viewer::new();
    let fp1 = Fingerprint {
        has_modified: true,
        modified_secs: 100,
        modified_nanos: 0,
        len: 10,
    };
    let fp2 = Fingerprint {
        has_modified: true,
        modified_secs: 100,
        modified_nanos: 0,
        len: 12,
    };
    // no fingerprint on record: any reading calls for a reload
    assert!(v.needs_reload(Some(&fp1)));
    // an unreadable file never triggers anything
    assert!(!v.needs_reload(None));
    v.last_fingerprint = Some(fp1);
    assert!(!v.needs_reload(Some(&fp1)));
    assert!(v.needs_reload(Some(&fp2)));
    // pausing suspends polling entirely; resuming asks for one reload
    let resumed = v.toggle_pause_updates();
    assert!(!resumed);
    assert!(v.updates_paused);
    assert!(!v.needs_reload(Some(&fp2)));
    let resumed = v.toggle_pause_updates();
    assert!(resumed);
    assert!(v.needs_reload(Some(&fp2)));
}

#[test]
fn scroll_is_bounded_by_selected_row_length() {
    let mut v = Viewer::new();
    let reg = ServiceRegistry::new();
    let file = lines(&["h kernel: [UFW A] IN=eth0 SRC=8.8.8.8"]);
    assert!(v.apply_reload(Some(&file), None, &reg));
    let max = v.current_log_entry_max_scroll();
    assert_eq!(max as usize, "h kernel: [UFW A] IN=eth0 SRC=8.8.8.8".len() - 1);
    v.scroll_log_entry_right();
    assert_eq!(v.log_entry_scroll, 8);
    v.scroll_log_entry_left();
    assert_eq!(v.log_entry_scroll, 0);
    v.scroll_log_entry_left();
    assert_eq!(v.log_entry_scroll, 0);
}
