use ufwview::display::{
    display_filter_value, field_from_fkey, format_timestamp_for_width, interface_prefix,
    max_horizontal_scroll, max_visible_ifaces, pad_to_width, pause_chip_label,
    selected_iface_label, service_display_for_entry, text_cells, truncate_with_ellipsis,
};
use ufwview::encode::{base64_encode, clipboard_payload};
use ufwview::entry::LogEntry;
use ufwview::filter::FilterField;
use ufwview::services::ServiceRegistry;

#[test]
fn chips_and_labels() {
    assert_eq!(display_filter_value(""), "*");
    assert_eq!(display_filter_value("ssh"), "ssh");
    assert_eq!(selected_iface_label(None), "all");
    assert_eq!(selected_iface_label(Some("eth0")), "eth0");
    assert_eq!(pause_chip_label(true), "[paused]");
    assert_eq!(pause_chip_label(false), "[live]");
    assert_eq!(interface_prefix(119), "iface ");
    assert_eq!(interface_prefix(120), "interface: ");
    assert_eq!(max_visible_ifaces(100), 4);
    assert_eq!(max_visible_ifaces(120), 6);
    assert_eq!(max_visible_ifaces(200), 8);
}

#[test]
fn fkeys_map_to_fields_in_order() {
    assert_eq!(field_from_fkey(1), Some(FilterField::Service));
    assert_eq!(field_from_fkey(2), Some(FilterField::Port));
    assert_eq!(field_from_fkey(3), Some(FilterField::Ip));
    assert_eq!(field_from_fkey(4), Some(FilterField::Action));
    assert_eq!(field_from_fkey(5), Some(FilterField::Proto));
    assert_eq!(field_from_fkey(6), Some(FilterField::Text));
    assert_eq!(field_from_fkey(0), None);
    assert_eq!(field_from_fkey(7), None);
    assert_eq!(FilterField::Proto.label(), "protocol");
}

#[test]
fn widths_and_padding() {
    assert_eq!(text_cells("abc"), 3);
    assert_eq!(text_cells(""), 0);
    assert_eq!(pad_to_width("ab", 5), "ab   ");
    assert_eq!(pad_to_width("abcdef", 3), "abcdef");
    assert_eq!(truncate_with_ellipsis("abcdef", 0), "");
    assert_eq!(truncate_with_ellipsis("abcdef", 6), "abcdef");
    assert_eq!(truncate_with_ellipsis("abcdef", 2), "..");
    assert_eq!(truncate_with_ellipsis("abcdefgh", 6), "abc...");
}

#[test]
fn horizontal_scroll_follows_longest_line() {
    assert_eq!(max_horizontal_scroll("short\na much longer line", 5), 13);
    assert_eq!(max_horizontal_scroll("tiny", 80), 0);
    assert_eq!(max_horizontal_scroll("anything", 0), 0);
    assert_eq!(max_horizontal_scroll("with return\r\nnext", 5), 6);
}

#[test]
fn timestamps_render_for_both_shapes() {
    assert_eq!(
        format_timestamp_for_width("2026-02-11T23:00:39.987820+02:00 host", true),
        "2026-02-11 23:00:39"
    );
    assert_eq!(
        format_timestamp_for_width("2026-02-11T23:00:39.987820+02:00 host", false),
        "23:00:39"
    );
    assert_eq!(
        format_timestamp_for_width("Feb 11 20:21:00 host", true),
        "Feb 11 20:21:00"
    );
    assert_eq!(
        format_timestamp_for_width("Feb 11 20:21:00 host", false),
        "20:21:00"
    );
    assert_eq!(format_timestamp_for_width("odd stamp", true), "odd stamp");
}

#[test]
fn service_display_appends_description_when_asked() {
    let lines: Vec<String> = vec![
        "Service Name,Port Number,Transport Protocol,Description".to_string(),
        "ssh,22,tcp,The Secure Shell (SSH) Protocol".to_string(),
        "echo,7,tcp,Echo".to_string(),
    ];
    let reg = ServiceRegistry::from_csv_lines(&lines);
    let entry = LogEntry {
        service: Some("ssh".to_string()),
        dst_port: Some(22),
        ..Default::default()
    };
    assert_eq!(service_display_for_entry(&entry, false, &reg), "ssh");
    assert_eq!(
        service_display_for_entry(&entry, true, &reg),
        "ssh: The Secure Shell (SSH) Protocol"
    );
    let nameless = LogEntry::default();
    assert_eq!(service_display_for_entry(&nameless, true, &reg), "-");
    // a description that only repeats the name is not appended
    let echo = LogEntry {
        service: Some("Echo".to_string()),
        src_port: Some(7),
        ..Default::default()
    };
    assert_eq!(service_display_for_entry(&echo, true, &reg), "Echo");
}

#[test]
fn base64_matches_reference_vectors() {
    assert_eq!(base64_encode(b""), "");
    assert_eq!(base64_encode(b"f"), "Zg==");
    assert_eq!(base64_encode(b"fo"), "Zm8=");
    assert_eq!(base64_encode(b"foo"), "Zm9v");
    assert_eq!(base64_encode(b"foob"), "Zm9vYg==");
    assert_eq!(base64_encode(b"fooba"), "Zm9vYmE=");
    assert_eq!(base64_encode(b"foobar"), "Zm9vYmFy");
    assert_eq!(base64_encode(&[0xff, 0xfe, 0xfd]), "//79");
}

#[test]
fn clipboard_payload_encodes_the_text() {
    assert_eq!(clipboard_payload("hello"), "aGVsbG8=");
    assert_eq!(clipboard_payload(""), "");
}
