use ufwview::classify::{
    default_wan_interface, is_local_src_ip, is_wan_candidate_interface, is_wan_src_ip,
    matches_direction_filter, matches_flow_filter,
};
use ufwview::entry::LogEntry;
use ufwview::filter::{DirectionFilter, FlowFilter};

#[test]
fn local_src_ip_detection_works_for_common_ranges() {
    assert!(is_local_src_ip(Some("192.168.1.10")));
    assert!(is_local_src_ip(Some("10.1.2.3")));
    assert!(is_local_src_ip(Some("172.16.0.1")));
    assert!(is_local_src_ip(Some("172.31.255.254")));
    assert!(is_local_src_ip(Some("127.0.0.1")));
    assert!(is_local_src_ip(Some("169.254.20.1")));
    assert!(is_local_src_ip(Some("::1")));
    assert!(is_local_src_ip(Some("fe80::1234")));
    assert!(is_local_src_ip(Some("fd12::abcd")));

    assert!(!is_local_src_ip(Some("8.8.8.8")));
    assert!(!is_local_src_ip(Some("1.1.1.1")));
    assert!(!is_local_src_ip(Some("2001:4860:4860::8888")));
    assert!(!is_local_src_ip(None));
    assert!(!is_local_src_ip(Some("")));
}

#[test]
fn wan_src_ip_detection_works() {
    assert!(is_wan_src_ip(Some("8.8.8.8")));
    assert!(is_wan_src_ip(Some("1.1.1.1")));
    assert!(is_wan_src_ip(Some("2001:4860:4860::8888")));

    assert!(!is_wan_src_ip(Some("192.168.1.10")));
    assert!(!is_wan_src_ip(Some("10.1.2.3")));
    assert!(!is_wan_src_ip(Some("172.16.0.1")));
    assert!(!is_wan_src_ip(Some("127.0.0.1")));
    assert!(!is_wan_src_ip(Some("::1")));
    assert!(!is_wan_src_ip(Some("fe80::1")));
    assert!(!is_wan_src_ip(None));
    assert!(!is_wan_src_ip(Some("")));
    assert!(!is_wan_src_ip(Some("not-an-ip")));
}

#[test]
fn special_addresses_are_not_wan() {
    // unspecified addresses of both families
    assert!(!is_wan_src_ip(Some("0.0.0.0")));
    assert!(!is_wan_src_ip(Some("::")));
    // multicast ranges of both families
    assert!(!is_wan_src_ip(Some("224.0.0.1")));
    assert!(!is_wan_src_ip(Some("239.255.255.250")));
    assert!(!is_wan_src_ip(Some("ff02::1")));
    // the boundaries stay routable
    assert!(is_wan_src_ip(Some("223.255.255.255")));
    assert!(is_wan_src_ip(Some("240.0.0.1")));
}

#[test]
fn lenient_local_quads_are_not_valid_wan_addresses() {
    // leading zeros pass the lenient local parser but are no valid
    // address, so both classifiers reject them as WAN
    assert!(is_local_src_ip(Some("010.0.0.1")));
    assert!(!is_wan_src_ip(Some("010.0.0.1")));
    assert!(is_local_src_ip(Some(" 192.168.0.7 ")));
    assert!(!is_wan_src_ip(Some(" 192.168.0.7 ")));
}

#[test]
fn complementarity_on_valid_addresses() {
    // over syntactically valid, non-unspecified, non-multicast
    // addresses, exactly one of local and WAN holds
    let samples = [
        "8.8.8.8",
        "10.0.0.1",
        "127.0.0.1",
        "192.168.1.1",
        "172.16.0.1",
        "169.254.0.1",
        "1.2.3.4",
        "fe80::1",
        "fd00::1",
        "2001:db8::1",
        "::1",
    ];
    for ip in samples {
        assert_ne!(
            is_local_src_ip(Some(ip)),
            is_wan_src_ip(Some(ip)),
            "exactly one class must hold for {}",
            ip
        );
    }
}

#[test]
fn address_grammar_corner_cases() {
    // a gap may close a full run of seven groups
    assert!(is_wan_src_ip(Some("1:2:3:4:5:6:7::")));
    // seven groups may follow a leading gap
    assert!(is_wan_src_ip(Some("::2:3:4:5:6:7:8")));
    // an embedded IPv4 tail works in full and gapped forms
    assert!(is_wan_src_ip(Some("1:2:3:4:5:6:77.77.77.77")));
    assert!(is_wan_src_ip(Some("::77.77.77.77")));
    // eight explicit groups leave no room for a gap
    assert!(!is_wan_src_ip(Some("::1:2:3:4:5:6:7:8")));
    assert!(!is_wan_src_ip(Some("1:2:3:4:5:6:7:8::")));
    // only one gap, no stray colons, at most four digits per group
    assert!(!is_wan_src_ip(Some("1::2::3")));
    assert!(!is_wan_src_ip(Some("1:::2")));
    assert!(!is_wan_src_ip(Some("12345::")));
    assert!(!is_wan_src_ip(Some("1:2:3:4:5:6:7:8:9")));
    // strict IPv4 rejects leading zeros, short quads and big octets
    assert!(!is_wan_src_ip(Some("1.2.3.04")));
    assert!(!is_wan_src_ip(Some("1.2.3")));
    assert!(!is_wan_src_ip(Some("256.1.1.1")));
    // the lenient local parser accepts what u8 parsing accepts
    assert!(is_local_src_ip(Some("+10.0.0.1")));
    assert!(!is_local_src_ip(Some("10.0.0")));
}

#[test]
fn flow_filter_matches_local_to_local_and_local_to_external() {
    let mut entry = LogEntry {
        src_ip: Some("192.168.1.10".to_string()),
        dst_ip: Some("192.168.1.20".to_string()),
        ..Default::default()
    };
    assert!(matches_flow_filter(FlowFilter::All, &entry));
    assert!(matches_flow_filter(FlowFilter::LocalToLocal, &entry));
    assert!(!matches_flow_filter(FlowFilter::LocalToExternal, &entry));

    entry.dst_ip = Some("8.8.8.8".to_string());
    assert!(matches_flow_filter(FlowFilter::LocalToExternal, &entry));
    assert!(!matches_flow_filter(FlowFilter::LocalToLocal, &entry));
}

#[test]
fn direction_filter_follows_interface_presence() {
    let entry = LogEntry {
        in_iface: Some("eth0".to_string()),
        out_iface: Some("".to_string()),
        ..Default::default()
    };
    assert!(matches_direction_filter(DirectionFilter::Both, &entry));
    assert!(matches_direction_filter(DirectionFilter::In, &entry));
    assert!(!matches_direction_filter(DirectionFilter::Out, &entry));
    assert!(!matches_direction_filter(DirectionFilter::Forwarded, &entry));

    let fwd = LogEntry {
        in_iface: Some("eth0".to_string()),
        out_iface: Some("eth1".to_string()),
        ..Default::default()
    };
    assert_eq!(fwd.direction(), "FWD");
    assert!(matches_direction_filter(DirectionFilter::Forwarded, &fwd));

    let unknown = LogEntry::default();
    assert_eq!(unknown.direction(), "?");
    assert!(matches_direction_filter(DirectionFilter::Both, &unknown));
    assert!(!matches_direction_filter(DirectionFilter::In, &unknown));
}

#[test]
fn wan_candidate_interface_heuristic() {
    assert!(!is_wan_candidate_interface("lo"));
    assert!(!is_wan_candidate_interface("LO"));
    assert!(!is_wan_candidate_interface("docker0"));
    assert!(!is_wan_candidate_interface("veth12ab"));
    assert!(!is_wan_candidate_interface("virbr0"));
    assert!(!is_wan_candidate_interface("br-123"));
    assert!(!is_wan_candidate_interface("tailscale0"));
    assert!(!is_wan_candidate_interface("tun0"));
    assert!(!is_wan_candidate_interface("tap1"));
    assert!(!is_wan_candidate_interface("wg0"));
    // exclusions win over inclusions: a tunnel named like wan stays out
    assert!(!is_wan_candidate_interface("wgwan"));

    assert!(is_wan_candidate_interface("eth0"));
    assert!(is_wan_candidate_interface("enp3s0"));
    assert!(is_wan_candidate_interface("wlan0"));
    assert!(is_wan_candidate_interface("wwan0"));
    assert!(is_wan_candidate_interface("ppp0"));
    assert!(is_wan_candidate_interface("foowan"));
    assert!(!is_wan_candidate_interface("loop1"));
}

#[test]
fn default_wan_interface_prefers_wan_like_names() {
    let options = vec![
        "docker0".to_string(),
        "lo".to_string(),
        "wlan0".to_string(),
        "br-123".to_string(),
    ];
    assert_eq!(default_wan_interface(&options).as_deref(), Some("wlan0"));

    let options = vec!["docker0".to_string(), "lo".to_string()];
    assert_eq!(default_wan_interface(&options).as_deref(), Some("docker0"));
}

#[test]
fn default_wan_interface_of_empty_catalogue_is_absent() {
    let options: Vec<String> = vec![];
    assert_eq!(default_wan_interface(&options), None);
}
