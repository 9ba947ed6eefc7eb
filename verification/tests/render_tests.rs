use wireguard_exporter::dump::parse_dump;
use wireguard_exporter::error::WgError;
use wireguard_exporter::metadata::{FriendlyMetadata, MetadataTable, PeerMeta, resolve_metadata};
use wireguard_exporter::render::{RenderOptions, render_at};
use wireguard_exporter::scrape;

const PEER_DUMP: &str = "wg0\tPRIVATE\tDEVPUB\t51820\toff\nwg0\tpeerA\t(none)\t10.1.2.3:40000\t10.0.0.1/32,10.0.0.2/32\t1600000000\t500\t1000\toff\n";

fn defaults() -> RenderOptions {
    RenderOptions {
        separate_allowed_ips: false,
        export_remote_ip_and_port: false,
        export_latest_handshake_delay: false,
    }
}

#[test]
fn renders_exact_document_under_default_options() {
    let snap = parse_dump(PEER_DUMP).unwrap();
    let table = MetadataTable { entries: Vec::new() };
    let out = render_at(&snap, &table, &defaults(), 1600000042);
    let expected = "wireguard_peer_info{interface=\"wg0\",public_key=\"peerA\",allowed_ips=\"10.0.0.1/32,10.0.0.2/32\"} 1\nwireguard_sent_bytes_total{interface=\"wg0\",public_key=\"peerA\"} 1000\nwireguard_received_bytes_total{interface=\"wg0\",public_key=\"peerA\"} 500\nwireguard_latest_handshake_seconds{interface=\"wg0\",public_key=\"peerA\"} 1600000000\n";
    assert_eq!(out, expected);
}

#[test]
fn separate_allowed_ips_yields_one_line_per_cidr() {
    let snap = parse_dump(PEER_DUMP).unwrap();
    let table = MetadataTable { entries: Vec::new() };
    let mut o = defaults();
    o.separate_allowed_ips = true;
    let out = render_at(&snap, &table, &o, 0);
    assert!(!out.contains("allowed_ips="));
    assert!(out.contains(
        "wireguard_peer_allowed_ip{interface=\"wg0\",public_key=\"peerA\",allowed_ip=\"10.0.0.1/32\"} 0\n"
    ));
    assert!(out.contains(
        "wireguard_peer_allowed_ip{interface=\"wg0\",public_key=\"peerA\",allowed_ip=\"10.0.0.2/32\"} 0\n"
    ));
}

#[test]
fn allowed_ips_recoverable_from_either_rendering() {
    let snap = parse_dump(PEER_DUMP).unwrap();
    let table = MetadataTable { entries: Vec::new() };
    // Joined: one comma-separated label value.
    let joined = render_at(&snap, &table, &defaults(), 0);
    let start = joined.find("allowed_ips=\"").unwrap() + "allowed_ips=\"".len();
    let end = joined[start..].find('"').unwrap() + start;
    let mut from_joined: Vec<&str> = joined[start..end].split(',').collect();
    // Separate: one zero-value line per CIDR.
    let mut o = defaults();
    o.separate_allowed_ips = true;
    let separate = render_at(&snap, &table, &o, 0);
    let mut from_separate: Vec<&str> = separate
        .lines()
        .filter(|l| l.starts_with("wireguard_peer_allowed_ip{"))
        .map(|l| {
            let s = l.find("allowed_ip=\"").unwrap() + "allowed_ip=\"".len();
            let e = l[s..].find('"').unwrap() + s;
            &l[s..e]
        })
        .collect();
    from_joined.sort();
    from_separate.sort();
    assert_eq!(from_joined, vec!["10.0.0.1/32", "10.0.0.2/32"]);
    assert_eq!(from_joined, from_separate);
}

#[test]
fn remote_ip_and_port_only_when_endpoint_present() {
    let text = "wg0\tPRIVATE\tDEVPUB\t51820\toff\nwg0\tpeerA\t(none)\t10.1.2.3:40000\t(none)\t0\t0\t0\toff\nwg0\tpeerB\t(none)\t(none)\t(none)\t0\t0\t0\toff\n";
    let snap = parse_dump(text).unwrap();
    let table = MetadataTable { entries: Vec::new() };
    let mut o = defaults();
    o.export_remote_ip_and_port = true;
    let out = render_at(&snap, &table, &o, 0);
    assert!(out.contains("public_key=\"peerA\",allowed_ips=\"\",remote_ip=\"10.1.2.3\",remote_port=\"40000\"} 1"));
    // The endpoint-less peer carries no remote labels at all, not empty ones.
    assert!(out.contains("public_key=\"peerB\",allowed_ips=\"\"} 1"));
    // Without the option no remote labels appear.
    let out2 = render_at(&snap, &table, &defaults(), 0);
    assert!(!out2.contains("remote_ip"));
}

#[test]
fn handshake_delay_only_for_present_handshakes() {
    let text = "wg0\tPRIVATE\tDEVPUB\t51820\toff\nwg0\tpeerA\t(none)\t(none)\t(none)\t1600000000\t0\t0\toff\nwg0\tpeerB\t(none)\t(none)\t(none)\t0\t0\t0\toff\n";
    let snap = parse_dump(text).unwrap();
    let table = MetadataTable { entries: Vec::new() };
    let mut o = defaults();
    o.export_latest_handshake_delay = true;
    let out = render_at(&snap, &table, &o, 1600000030);
    assert!(out.contains(
        "wireguard_latest_handshake_delay_seconds{interface=\"wg0\",public_key=\"peerA\"} 30\n"
    ));
    // A never-connected peer gets no delay line, not a zero.
    assert!(!out.contains("delay_seconds{interface=\"wg0\",public_key=\"peerB\""));
    // The raw timestamp lines are still present, zero preserved as-is.
    assert!(out.contains(
        "wireguard_latest_handshake_seconds{interface=\"wg0\",public_key=\"peerB\"} 0\n"
    ));
}

#[test]
fn friendly_names_and_labels_join_by_public_key() {
    let snap = parse_dump(PEER_DUMP).unwrap();
    let cfg = "[Peer]\n# Alice\nPublicKey = peerA\nAllowedIPs = 10.0.0.0/24\n";
    let table = resolve_metadata(Some(cfg), None).unwrap();
    let out = render_at(&snap, &table, &defaults(), 0);
    assert!(out.contains("public_key=\"peerA\",friendly_name=\"Alice\",allowed_ips="));
}

#[test]
fn structured_labels_render_verbatim() {
    let snap = parse_dump(PEER_DUMP).unwrap();
    let table = MetadataTable {
        entries: vec![(
            "peerA".to_string(),
            PeerMeta {
                friendly: Some(FriendlyMetadata::Labels(vec![
                    ("site".to_string(), "lab".to_string()),
                    ("team".to_string(), "core".to_string()),
                ])),
                allowed_ips: None,
            },
        )],
    };
    let out = render_at(&snap, &table, &defaults(), 0);
    assert!(out.contains("public_key=\"peerA\",site=\"lab\",team=\"core\",allowed_ips="));
}

#[test]
fn label_values_are_escaped() {
    let snap = parse_dump(PEER_DUMP).unwrap();
    let table = MetadataTable {
        entries: vec![(
            "peerA".to_string(),
            PeerMeta {
                friendly: Some(FriendlyMetadata::Name("A\"B\\C\nD".to_string())),
                allowed_ips: None,
            },
        )],
    };
    let out = render_at(&snap, &table, &defaults(), 0);
    assert!(out.contains(",friendly_name=\"A\\\"B\\\\C\\nD\""));
}

#[test]
fn unknown_peers_render_with_builtin_labels_only() {
    let snap = parse_dump(PEER_DUMP).unwrap();
    let table = resolve_metadata(None, Some("{\"someoneElse\": \"X\"}")).unwrap();
    let out = render_at(&snap, &table, &defaults(), 0);
    assert!(!out.contains("friendly_name"));
}

#[test]
fn rendering_reproduces_every_peer_and_counter() {
    let text = "wg0\tPRIVATE\tDEVPUB\t51820\toff\nwg0\tpeerA\t(none)\t(none)\t(none)\t0\t11\t22\toff\nwg0\tpeerB\t(none)\t(none)\t(none)\t0\t33\t44\toff\nwg1\tPRIVATE\tDEVPUB\t51821\toff\nwg1\tpeerC\t(none)\t(none)\t(none)\t0\t55\t66\toff\n";
    let snap = parse_dump(text).unwrap();
    let table = MetadataTable { entries: Vec::new() };
    let out = render_at(&snap, &table, &defaults(), 0);
    let sent: Vec<&str> =
        out.lines().filter(|l| l.starts_with("wireguard_sent_bytes_total{")).collect();
    assert_eq!(
        sent,
        vec![
            "wireguard_sent_bytes_total{interface=\"wg0\",public_key=\"peerA\"} 22",
            "wireguard_sent_bytes_total{interface=\"wg0\",public_key=\"peerB\"} 44",
            "wireguard_sent_bytes_total{interface=\"wg1\",public_key=\"peerC\"} 66",
        ]
    );
    let recv: Vec<&str> =
        out.lines().filter(|l| l.starts_with("wireguard_received_bytes_total{")).collect();
    assert_eq!(
        recv,
        vec![
            "wireguard_received_bytes_total{interface=\"wg0\",public_key=\"peerA\"} 11",
            "wireguard_received_bytes_total{interface=\"wg0\",public_key=\"peerB\"} 33",
            "wireguard_received_bytes_total{interface=\"wg1\",public_key=\"peerC\"} 55",
        ]
    );
}

#[test]
fn scrape_combines_dumps_and_sources() {
    let dumps = vec![
        "wg0\tPRIVATE\tDEVPUB\t51820\toff\n\
         wg0\tpeerA\t(none)\t(none)\t(none)\t0\t1\t2\toff\n"
            .to_string(),
        "wg1\tPRIVATE\tDEVPUB\t51821\toff\nwg1\tpeerZ\t(none)\t(none)\t(none)\t0\t3\t4\toff\n"
            .to_string(),
    ];
    let out = scrape(&dumps, None, Some("{\"peerA\": \"Router\"}"), &defaults()).unwrap();
    assert!(out.contains("interface=\"wg0\""));
    assert!(out.contains("interface=\"wg1\""));
    assert!(out.contains("friendly_name=\"Router\""));
}

#[test]
fn scrape_fails_whole_on_duplicate_interface() {
    let dumps = vec![
        "wg0\tPRIVATE\tDEVPUB\t51820\toff\n".to_string(),
        "wg0\tPRIVATE\tDEVPUB\t51820\toff\n".to_string(),
    ];
    assert_eq!(scrape(&dumps, None, None, &defaults()), Err(WgError::DuplicateInterface));
}

#[test]
fn scrape_fails_whole_on_malformed_dump() {
    // One good interface, then a malformed line: the scrape yields an error
    // and no document at all, never a partial one.
    let dumps = vec![
        "wg0\tPRIVATE\tDEVPUB\t51820\toff\n".to_string(),
        "wg1\tbroken\n".to_string(),
    ];
    assert_eq!(scrape(&dumps, None, None, &defaults()), Err(WgError::MalformedRecord(0)));
}

#[test]
fn render_with_clock_matches_render_at_without_delay() {
    // Without the delay option the render pass does not depend on the
    // time sample at all.
    let snap = parse_dump(PEER_DUMP).unwrap();
    let table = MetadataTable { entries: Vec::new() };
    let with_clock = wireguard_exporter::render::render(&snap, &table, &defaults());
    assert_eq!(with_clock, render_at(&snap, &table, &defaults(), 0));
}
