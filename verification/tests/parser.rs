use ufwview::parse::{parse_action, parse_field, parse_ufw_line};
use ufwview::services::ServiceRegistry;

fn registry() -> ServiceRegistry {
    let lines: Vec<String> = vec![
        "Service Name,Port Number,Transport Protocol,Description".to_string(),
        "tcpmux,1,tcp,TCP Port Service Multiplexer".to_string(),
        "ssh,22,tcp,The Secure Shell (SSH) Protocol".to_string(),
        "https,443,tcp,http protocol over TLS/SSL".to_string(),
        "nimcontroller,48000,tcp,Nimbus Controller".to_string(),
    ];
    ServiceRegistry::from_csv_lines(&lines)
}

#[test]
fn parse_ufw_line_extracts_core_fields() {
    let line = "Feb 11 20:21:00 host kernel: [UFW BLOCK] IN=wlan0 OUT= MAC= SRC=10.0.0.5 DST=10.0.0.1 LEN=60 TOS=0x00 PREC=0x00 TTL=64 ID=12345 DF PROTO=TCP SPT=443 DPT=52910 WINDOW=64240 RES=0x00 ACK URGP=0";
    let entry = parse_ufw_line(line, &registry()).expect("line should parse");
    assert_eq!(entry.action, "BLOCK");
    assert_eq!(entry.src_ip.as_deref(), Some("10.0.0.5"));
    assert_eq!(entry.dst_ip.as_deref(), Some("10.0.0.1"));
    assert_eq!(entry.proto.as_deref(), Some("TCP"));
    assert_eq!(entry.src_port, Some(443));
    assert_eq!(entry.dst_port, Some(52910));
    assert_eq!(entry.service.as_deref(), Some("https"));
}

#[test]
fn lines_without_marker_are_dropped() {
    let reg = registry();
    assert!(parse_ufw_line("Feb 11 20:21:00 host kernel: audit: whatever", &reg).is_none());
    assert!(parse_ufw_line("", &reg).is_none());
    assert!(parse_ufw_line("random text SRC=1.2.3.4", &reg).is_none());
    // an opening marker without a closing bracket is incomplete
    assert!(parse_ufw_line("host kernel: [UFW BLOCK IN=eth0", &reg).is_none());
}

#[test]
fn raw_field_preserves_line_verbatim() {
    let reg = registry();
    let line = "Feb 11 20:21:00 host kernel: [UFW ALLOW] IN=eth0 SRC=1.2.3.4  ";
    let entry = parse_ufw_line(line, &reg).expect("line should parse");
    assert_eq!(entry.raw, line);
}

#[test]
fn parsing_twice_yields_equal_results() {
    let reg = registry();
    let line = "Feb 11 20:21:00 host kernel: [UFW BLOCK] IN=wlan0 OUT= SRC=10.0.0.5 DPT=443";
    let a = parse_ufw_line(line, &reg).expect("line should parse");
    let b = parse_ufw_line(line, &reg).expect("line should parse");
    assert_eq!(a.timestamp, b.timestamp);
    assert_eq!(a.action, b.action);
    assert_eq!(a.in_iface, b.in_iface);
    assert_eq!(a.out_iface, b.out_iface);
    assert_eq!(a.src_ip, b.src_ip);
    assert_eq!(a.dst_ip, b.dst_ip);
    assert_eq!(a.src_port, b.src_port);
    assert_eq!(a.dst_port, b.dst_port);
    assert_eq!(a.proto, b.proto);
    assert_eq!(a.service, b.service);
    assert_eq!(a.raw, b.raw);
}

#[test]
fn empty_value_is_present_but_empty() {
    let reg = registry();
    let line = "host kernel: [UFW BLOCK] IN=wlan0 OUT= SRC=10.0.0.5";
    let entry = parse_ufw_line(line, &reg).expect("line should parse");
    assert_eq!(entry.in_iface.as_deref(), Some("wlan0"));
    assert_eq!(entry.out_iface.as_deref(), Some(""));
    assert_eq!(entry.direction(), "IN");
}

#[test]
fn bad_ports_become_absent_fields() {
    let reg = registry();
    let line = "host kernel: [UFW BLOCK] SPT=abc DPT=70000";
    let entry = parse_ufw_line(line, &reg).expect("line should parse");
    assert_eq!(entry.src_port, None);
    assert_eq!(entry.dst_port, None);
}

#[test]
fn first_occurrence_of_a_key_wins() {
    let reg = registry();
    let line = "host kernel: [UFW BLOCK] SRC=1.1.1.1 SRC=2.2.2.2 DPT=22 DPT=443";
    let entry = parse_ufw_line(line, &reg).expect("line should parse");
    assert_eq!(entry.src_ip.as_deref(), Some("1.1.1.1"));
    assert_eq!(entry.dst_port, Some(22));
    assert_eq!(entry.service.as_deref(), Some("ssh"));
}

#[test]
fn timestamp_is_text_before_kernel_marker() {
    let reg = registry();
    let entry = parse_ufw_line("Feb 11 20:21:00 host kernel: [UFW X] IN=e0", &reg).unwrap();
    assert_eq!(entry.timestamp, "Feb 11 20:21:00 host");
    let entry = parse_ufw_line("[UFW X] IN=e0", &reg).unwrap();
    assert_eq!(entry.timestamp, "");
}

#[test]
fn action_is_trimmed_marker_body() {
    assert_eq!(parse_action("x kernel: [UFW  AUDIT INVALID ] IN=").as_deref(), Some("AUDIT INVALID"));
    assert_eq!(parse_action("no marker"), None);
    assert_eq!(parse_action("[UFW NOCLOSE"), None);
}

#[test]
fn field_values_lose_trailing_separators() {
    assert_eq!(parse_field("a B=val,] c", "B").as_deref(), Some("val"));
    assert_eq!(parse_field("a B=v c", "X"), None);
    assert_eq!(parse_field("PROTO=tcp", "PROTO").as_deref(), Some("tcp"));
}

#[test]
fn proto_is_upper_cased() {
    let reg = registry();
    let entry = parse_ufw_line("h kernel: [UFW A] PROTO=udp", &reg).unwrap();
    assert_eq!(entry.proto.as_deref(), Some("UDP"));
}

#[test]
fn service_falls_back_to_source_port() {
    let reg = registry();
    let entry = parse_ufw_line("h kernel: [UFW A] SPT=22 DPT=59999", &reg).unwrap();
    assert_eq!(entry.service.as_deref(), Some("ssh"));
    let entry = parse_ufw_line("h kernel: [UFW A] SPT=22 DPT=443", &reg).unwrap();
    assert_eq!(entry.service.as_deref(), Some("https"));
}
