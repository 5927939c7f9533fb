use ufwview::services::{service_description_from_port, service_from_port, ServiceRegistry};

fn table(rows: &[&str]) -> ServiceRegistry {
    let mut lines = vec!["Service Name,Port Number,Transport Protocol,Description".to_string()];
    for r in rows {
        lines.push(r.to_string());
    }
    ServiceRegistry::from_csv_lines(&lines)
}

#[test]
fn service_lookup_returns_registered_names() {
    let reg = table(&[
        "tcpmux,1,tcp,TCP Port Service Multiplexer",
        "ssh,22,tcp,The Secure Shell (SSH) Protocol",
        "nimcontroller,48000,tcp,Nimbus Controller",
    ]);
    assert_eq!(service_from_port(&reg, 1).as_deref(), Some("tcpmux"));
    assert_eq!(service_from_port(&reg, 22).as_deref(), Some("ssh"));
    assert_eq!(
        service_from_port(&reg, 48000).as_deref(),
        Some("nimcontroller")
    );
    assert_eq!(service_from_port(&reg, 5), None);
    assert_eq!(
        service_description_from_port(&reg, 22).as_deref(),
        Some("The Secure Shell (SSH) Protocol")
    );
}

#[test]
fn first_row_per_port_wins() {
    let reg = table(&[
        "alpha,100,tcp,first reading",
        "beta,100,udp,second reading",
    ]);
    assert_eq!(service_from_port(&reg, 100).as_deref(), Some("alpha"));
    assert_eq!(
        service_description_from_port(&reg, 100).as_deref(),
        Some("first reading")
    );
}

#[test]
fn empty_description_counts_as_absent() {
    let reg = table(&["quiet,200,tcp,"]);
    assert_eq!(service_from_port(&reg, 200).as_deref(), Some("quiet"));
    assert_eq!(service_description_from_port(&reg, 200), None);
}

#[test]
fn rows_of_other_transports_are_skipped() {
    let reg = table(&[
        "sctponly,300,sctp,stream transport",
        "fine,300,udp,datagram transport",
        "loud,301,TCP,case folded transport",
    ]);
    assert_eq!(service_from_port(&reg, 300).as_deref(), Some("fine"));
    assert_eq!(service_from_port(&reg, 301).as_deref(), Some("loud"));
}

#[test]
fn malformed_rows_are_skipped() {
    let reg = table(&[
        ",400,tcp,nameless",
        "overflow,70000,tcp,port too large",
        "short,401",
        "ok,402,tcp,kept",
    ]);
    assert_eq!(service_from_port(&reg, 400), None);
    assert_eq!(service_from_port(&reg, 401), None);
    assert_eq!(service_from_port(&reg, 402).as_deref(), Some("ok"));
}

#[test]
fn quoted_fields_keep_inner_commas() {
    let reg = table(&[
        "\"quoted\",500,tcp,\"a, quoted, description\"",
        "plain,501,udp,\"say \"\"hi\"\", twice\"",
    ]);
    assert_eq!(service_from_port(&reg, 500).as_deref(), Some("quoted"));
    assert_eq!(
        service_description_from_port(&reg, 500).as_deref(),
        Some("a, quoted, description")
    );
    assert_eq!(service_from_port(&reg, 501).as_deref(), Some("plain"));
}

#[test]
fn header_line_is_not_a_row() {
    let lines = vec!["Service Name,Port Number,Transport Protocol,Description".to_string()];
    let reg = ServiceRegistry::from_csv_lines(&lines);
    assert_eq!(reg.rows.len(), 0);
    let empty = ServiceRegistry::new();
    assert_eq!(service_from_port(&empty, 22), None);
}
