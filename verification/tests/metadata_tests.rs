use wireguard_exporter::dump::parse_dump;
use wireguard_exporter::error::WgError;
use wireguard_exporter::metadata::{FriendlyMetadata, resolve_metadata};
use wireguard_exporter::snapshot::Snapshot;

#[test]
fn merge_keeps_all_distinct_interfaces() {
    let a = parse_dump("wg0\tP\tD\t1\toff\n").unwrap();
    let b = parse_dump("wg1\tP\tD\t2\toff\n").unwrap();
    let m = Snapshot::merge(a, b).unwrap();
    assert_eq!(m.interfaces.len(), 2);
    assert_eq!(m.interfaces[0].device.interface, "wg0");
    assert_eq!(m.interfaces[1].device.interface, "wg1");
}

#[test]
fn merge_shared_name_is_duplicate_interface() {
    let a = parse_dump("wg0\tP\tD\t1\toff\n").unwrap();
    let b = parse_dump("wg0\tP\tD\t1\toff\n").unwrap();
    assert!(matches!(Snapshot::merge(a, b), Err(WgError::DuplicateInterface)));
    // Content equality does not matter: different ports, same name.
    let c = parse_dump("wg0\tP\tD\t1\toff\n").unwrap();
    let d = parse_dump("wg0\tP\tD\t999\t5\n").unwrap();
    assert!(matches!(Snapshot::merge(c, d), Err(WgError::DuplicateInterface)));
}

#[test]
fn config_source_yields_names_and_allowed_ips() {
    let cfg = "[Interface]\nPrivateKey = X\n\n[Peer]\n# Alice\nPublicKey = k1\nAllowedIPs = 10.0.0.0/24\n";
    let t = resolve_metadata(Some(cfg), None).unwrap();
    let m = t.lookup("k1").unwrap();
    match &m.friendly {
        Some(FriendlyMetadata::Name(n)) => assert_eq!(n, " Alice".trim_start()),
        other => panic!("expected a plain name, got {:?}", other.is_some()),
    }
    assert_eq!(m.allowed_ips.as_deref(), Some("10.0.0.0/24"));
    assert!(t.lookup("absent").is_none());
}

#[test]
fn config_block_without_public_key_is_skipped() {
    let cfg = "[Peer]\n# Nameless\nAllowedIPs = 10.0.0.0/24\n";
    let t = resolve_metadata(Some(cfg), None).unwrap();
    assert_eq!(t.entries.len(), 0);
}

#[test]
fn json_comment_yields_label_set() {
    let cfg = "[Peer]\n# {\"team\":\"core\",\"site\":\"lab\"}\nPublicKey = k1\nAllowedIPs = 10.0.0.1/32\n";
    let t = resolve_metadata(Some(cfg), None).unwrap();
    let m = t.lookup("k1").unwrap();
    match &m.friendly {
        Some(FriendlyMetadata::Labels(ps)) => {
            // BTreeMap order: ascending by key.
            assert_eq!(ps.len(), 2);
            assert_eq!(ps[0], ("site".to_string(), "lab".to_string()));
            assert_eq!(ps[1], ("team".to_string(), "core".to_string()));
        },
        _ => panic!("expected a label set"),
    }
}

#[test]
fn json_shaped_bad_comment_is_invalid_peer_comment() {
    let cfg = "[Peer]\n# {not json at all\nPublicKey = k1\nAllowedIPs = 10.0.0.1/32\n";
    assert_eq!(resolve_metadata(Some(cfg), None).unwrap_err(), WgError::InvalidPeerComment);
    let cfg2 = "[Peer]\n# {\"n\": 5}\nPublicKey = k1\nAllowedIPs = 10.0.0.1/32\n";
    assert_eq!(resolve_metadata(Some(cfg2), None).unwrap_err(), WgError::InvalidPeerComment);
}

#[test]
fn builtin_label_collision_is_rejected_at_resolve_time() {
    let cfg = "[Peer]\n# {\"interface\":\"x\"}\nPublicKey = k1\nAllowedIPs = 10.0.0.1/32\n";
    assert_eq!(resolve_metadata(Some(cfg), None).unwrap_err(), WgError::InvalidPeerComment);
    let cfg2 = "[Peer]\n# {\"public_key\":\"x\"}\nPublicKey = k1\nAllowedIPs = 10.0.0.1/32\n";
    assert_eq!(resolve_metadata(Some(cfg2), None).unwrap_err(), WgError::InvalidPeerComment);
}

#[test]
fn text_before_any_section_is_invalid_config() {
    let cfg = "PublicKey = k1\n[Peer]\nPublicKey = k1\nAllowedIPs = x\n";
    assert_eq!(resolve_metadata(Some(cfg), None).unwrap_err(), WgError::InvalidConfig);
}

#[test]
fn duplicate_public_key_is_invalid_config() {
    let cfg = "[Peer]\nPublicKey = k1\nAllowedIPs = a\n[Peer]\nPublicKey = k1\nAllowedIPs = b\n";
    assert_eq!(resolve_metadata(Some(cfg), None).unwrap_err(), WgError::InvalidConfig);
}

#[test]
fn name_mapping_alone_resolves_plain_names() {
    let t = resolve_metadata(None, Some("{\"abc123\": \"Router\"}")).unwrap();
    let m = t.lookup("abc123").unwrap();
    match &m.friendly {
        Some(FriendlyMetadata::Name(n)) => assert_eq!(n, "Router"),
        _ => panic!("expected a plain name"),
    }
    assert!(m.allowed_ips.is_none());
}

#[test]
fn bad_name_mapping_is_invalid_name_mapping() {
    assert_eq!(
        resolve_metadata(None, Some("not json")).unwrap_err(),
        WgError::InvalidNameMapping
    );
    assert_eq!(
        resolve_metadata(None, Some("[1,2,3]")).unwrap_err(),
        WgError::InvalidNameMapping
    );
    assert_eq!(
        resolve_metadata(None, Some("{\"k\": 5}")).unwrap_err(),
        WgError::InvalidNameMapping
    );
}

#[test]
fn name_mapping_overrides_config_name_but_keeps_allowed_ips() {
    let cfg = "[Peer]\n# Alice\nPublicKey = K\nAllowedIPs = 10.0.0.0/24\n";
    let nm = "{\"K\": \"Bob\"}";
    let t = resolve_metadata(Some(cfg), Some(nm)).unwrap();
    let m = t.lookup("K").unwrap();
    match &m.friendly {
        Some(FriendlyMetadata::Name(n)) => assert_eq!(n, "Bob"),
        _ => panic!("expected a plain name"),
    }
    assert_eq!(m.allowed_ips.as_deref(), Some("10.0.0.0/24"));
}

#[test]
fn no_sources_resolve_to_empty_table() {
    let t = resolve_metadata(None, None).unwrap();
    assert_eq!(t.entries.len(), 0);
    assert!(t.lookup("anything").is_none());
}

#[test]
fn later_comment_wins_inside_a_section() {
    let cfg = "[Peer]\n# First\n# Second\nPublicKey = k1\nAllowedIPs = x\n";
    let t = resolve_metadata(Some(cfg), None).unwrap();
    match &t.lookup("k1").unwrap().friendly {
        Some(FriendlyMetadata::Name(n)) => assert_eq!(n, "Second"),
        _ => panic!("expected a plain name"),
    }
}
