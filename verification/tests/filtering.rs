use ufwview::entry::LogEntry;
use ufwview::filter::{visible_indices, DirectionFilter, Filters, FlowFilter, ViewFilter};

fn entry(src: &str, dst: &str, in_if: &str, raw: &str) -> LogEntry {
    LogEntry {
        src_ip: Some(src.to_string()),
        dst_ip: Some(dst.to_string()),
        in_iface: Some(in_if.to_string()),
        raw: raw.to_string(),
        ..Default::default()
    }
}

fn permissive() -> ViewFilter {
    ViewFilter {
        filters: Filters::default(),
        show_local_src: true,
        show_wan_src: true,
        flow_filter: FlowFilter::All,
        direction_filter: DirectionFilter::Both,
        selected_interface: None,
    }
}

#[test]
fn filters_match_expected_fields() {
    let entry = LogEntry {
        timestamp: "Feb 11 20:21:00".to_string(),
        action: "ALLOW".to_string(),
        in_iface: Some("eth0".to_string()),
        out_iface: Some("".to_string()),
        src_ip: Some("1.2.3.4".to_string()),
        dst_ip: Some("10.0.0.1".to_string()),
        src_port: Some(51234),
        dst_port: Some(22),
        proto: Some("TCP".to_string()),
        service: Some("ssh".to_string()),
        raw: "raw log line".to_string(),
    };

    let mut filters = Filters {
        service: "ssh".to_string(),
        port: "22".to_string(),
        ip: "1.2.3".to_string(),
        action: "allow".to_string(),
        proto: "tcp".to_string(),
        ..Default::default()
    };
    assert!(filters.matches(&entry));

    filters.port = "443".to_string();
    assert!(!filters.matches(&entry));
}

#[test]
fn port_criterion_is_exact_for_numbers_and_substring_otherwise() {
    let e = LogEntry {
        src_port: Some(51234),
        dst_port: Some(22),
        ..Default::default()
    };
    let mut f = Filters {
        port: "22".to_string(),
        ..Default::default()
    };
    assert!(f.matches(&e));
    // an exact numeric criterion does not match by substring
    f.port = "2".to_string();
    assert!(!f.matches(&e));
    // non-numeric text falls back to containment in the decimal forms
    f.port = "123".to_string();
    assert!(f.matches(&e) == false);
    f.port = "123x".to_string();
    assert!(!f.matches(&e));
    f.port = " 22 ".to_string();
    assert!(f.matches(&e));
}

#[test]
fn text_criteria_match_case_insensitively() {
    let e = LogEntry {
        action: "BLOCK".to_string(),
        raw: "Feb 11 Host kernel: [UFW BLOCK] IN=eth0".to_string(),
        proto: Some("TCP".to_string()),
        ..Default::default()
    };
    let f = Filters {
        action: "block".to_string(),
        text: "host KERNEL".to_string(),
        proto: "tc".to_string(),
        ..Default::default()
    };
    assert!(f.matches(&e));
    let g = Filters {
        text: "missing".to_string(),
        ..Default::default()
    };
    assert!(!g.matches(&e));
}

#[test]
fn active_count_counts_nonempty_criteria() {
    let f = Filters {
        service: "a".to_string(),
        ip: "b".to_string(),
        ..Default::default()
    };
    assert_eq!(f.active_count(), 2);
    assert_eq!(Filters::default().active_count(), 0);
}

#[test]
fn visible_indices_preserve_entry_order() {
    let entries = vec![
        entry("8.8.8.8", "10.0.0.1", "eth0", "a"),
        entry("192.168.0.2", "10.0.0.1", "wlan0", "b"),
        entry("1.1.1.1", "10.0.0.1", "eth0", "c"),
    ];
    let vf = permissive();
    assert_eq!(visible_indices(&entries, &vf), vec![0, 1, 2]);

    let mut only_eth = permissive();
    only_eth.selected_interface = Some("eth0".to_string());
    assert_eq!(visible_indices(&entries, &only_eth), vec![0, 2]);

    let mut no_local = permissive();
    no_local.show_local_src = false;
    assert_eq!(visible_indices(&entries, &no_local), vec![0, 2]);

    let mut no_wan = permissive();
    no_wan.show_wan_src = false;
    assert_eq!(visible_indices(&entries, &no_wan), vec![1]);
}

#[test]
fn adding_a_criterion_never_shows_more_rows() {
    let entries = vec![
        entry("8.8.8.8", "10.0.0.1", "eth0", "ssh scan"),
        entry("192.168.0.2", "8.8.4.4", "wlan0", "dns lookup"),
        entry("1.1.1.1", "10.0.0.1", "eth0", "https probe"),
        entry("10.0.0.9", "10.0.0.1", "eth1", "lan chatter"),
    ];
    let base = permissive();
    let base_count = visible_indices(&entries, &base).len();

    let mut narrowed = permissive();
    narrowed.filters.text = "s".to_string();
    let narrowed_count = visible_indices(&entries, &narrowed).len();
    assert!(narrowed_count <= base_count);

    let mut narrower = permissive();
    narrower.filters.text = "s".to_string();
    narrower.flow_filter = FlowFilter::LocalToExternal;
    let narrower_count = visible_indices(&entries, &narrower).len();
    assert!(narrower_count <= narrowed_count);

    let mut iface = permissive();
    iface.selected_interface = Some("eth0".to_string());
    assert!(visible_indices(&entries, &iface).len() <= base_count);
}

#[test]
fn flow_and_direction_cycle_through_all_settings() {
    assert_eq!(FlowFilter::All.next(), FlowFilter::LocalToLocal);
    assert_eq!(FlowFilter::LocalToLocal.next(), FlowFilter::LocalToExternal);
    assert_eq!(FlowFilter::LocalToExternal.next(), FlowFilter::All);
    assert_eq!(DirectionFilter::Both.next(), DirectionFilter::In);
    assert_eq!(DirectionFilter::In.next(), DirectionFilter::Out);
    assert_eq!(DirectionFilter::Out.next(), DirectionFilter::Forwarded);
    assert_eq!(DirectionFilter::Forwarded.next(), DirectionFilter::Both);
    assert_eq!(FlowFilter::LocalToExternal.label(), "local->external");
    assert_eq!(DirectionFilter::Forwarded.label(), "forwarded");
}
