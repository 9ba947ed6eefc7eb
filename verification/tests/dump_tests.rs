use wireguard_exporter::dump::parse_dump;
use wireguard_exporter::error::WgError;
use wireguard_exporter::prefix_interface;
use wireguard_exporter::text::parse_u64_str;

const DUMP: &str = "wg0\tPRIVATE\tDEVPUB\t51820\toff\nwg0\tpeerA\t(none)\t10.1.2.3:40000\t10.0.0.1/32,10.0.0.2/32\t1600000000\t500\t1000\toff\nwg0\tpeerB\tpskpsk\t(none)\t(none)\t0\t7\t9\t25\nwg1\tPRIVATE\tDEVPUB\t0\t51\nwg1\tpeerC\t(none)\t[fd00::1]:51821\t(none)\t0\t0\t0\toff\n";

#[test]
fn parses_devices_and_peers() {
    let snap = parse_dump(DUMP).unwrap();
    assert_eq!(snap.interfaces.len(), 2);
    let wg0 = &snap.interfaces[0];
    assert_eq!(wg0.device.interface, "wg0");
    assert_eq!(wg0.device.listen_port, Some(51820));
    assert_eq!(wg0.device.fwmark, None);
    assert_eq!(wg0.peers.len(), 2);
    let a = &wg0.peers[0];
    assert_eq!(a.public_key, "peerA");
    assert!(!a.preshared_key_present);
    let ep = a.endpoint.as_ref().unwrap();
    assert_eq!(ep.host, "10.1.2.3");
    assert_eq!(ep.port, "40000");
    assert_eq!(a.allowed_ips, vec!["10.0.0.1/32".to_string(), "10.0.0.2/32".to_string()]);
    assert_eq!(a.latest_handshake, Some(1600000000));
    assert_eq!(a.rx_bytes, 500);
    assert_eq!(a.tx_bytes, 1000);
    assert_eq!(a.keepalive, None);
    let b = &wg0.peers[1];
    assert!(b.preshared_key_present);
    assert!(b.endpoint.is_none());
    assert!(b.allowed_ips.is_empty());
    assert_eq!(b.latest_handshake, None);
    assert_eq!(b.keepalive, Some(25));
    let wg1 = &snap.interfaces[1];
    assert_eq!(wg1.device.listen_port, None);
    assert_eq!(wg1.device.fwmark, Some(51));
}

#[test]
fn unbrackets_ipv6_endpoints() {
    let snap = parse_dump(DUMP).unwrap();
    let c = &snap.interfaces[1].peers[0];
    let ep = c.endpoint.as_ref().unwrap();
    assert_eq!(ep.host, "fd00::1");
    assert_eq!(ep.port, "51821");
}

#[test]
fn wrong_field_count_is_malformed() {
    // Six fields: neither a device nor a peer line.
    let text = "wg0\ta\tb\tc\td\te\n";
    assert_eq!(parse_dump(text), Err(WgError::MalformedRecord(0)));
}

#[test]
fn bad_number_is_malformed() {
    let text = "wg0\tPRIV\tPUB\t51820\toff\n\
                wg0\tpeerA\t(none)\t(none)\t(none)\tnotanumber\t0\t0\toff\n";
    assert_eq!(parse_dump(text), Err(WgError::MalformedRecord(1)));
}

#[test]
fn bad_keepalive_is_malformed() {
    let text = "wg0\tPRIV\tPUB\t51820\toff\n\
                wg0\tpeerA\t(none)\t(none)\t(none)\t0\t0\t0\tsometimes\n";
    assert_eq!(parse_dump(text), Err(WgError::MalformedRecord(1)));
}

#[test]
fn endpoint_without_colon_is_malformed() {
    let text = "wg0\tPRIV\tPUB\t51820\toff\n\
                wg0\tpeerA\t(none)\tnocolonhere\t(none)\t0\t0\t0\toff\n";
    assert_eq!(parse_dump(text), Err(WgError::MalformedRecord(1)));
}

#[test]
fn peer_before_device_is_malformed() {
    let text = "wg0\tpeerA\t(none)\t(none)\t(none)\t0\t0\t0\toff\n";
    assert_eq!(parse_dump(text), Err(WgError::MalformedRecord(0)));
}

#[test]
fn peer_under_wrong_interface_is_malformed() {
    let text = "wg0\tPRIV\tPUB\t51820\toff\n\
                wg1\tpeerA\t(none)\t(none)\t(none)\t0\t0\t0\toff\n";
    assert_eq!(parse_dump(text), Err(WgError::MalformedRecord(1)));
}

#[test]
fn repeated_interface_is_malformed() {
    let text = "wg0\tPRIV\tPUB\t51820\toff\nwg0\tPRIV\tPUB\t51820\toff\n";
    assert_eq!(parse_dump(text), Err(WgError::MalformedRecord(1)));
}

#[test]
fn repeated_peer_key_is_malformed() {
    let text = "wg0\tPRIV\tPUB\t51820\toff\n\
                wg0\tpeerA\t(none)\t(none)\t(none)\t0\t0\t0\toff\n\
                wg0\tpeerA\t(none)\t(none)\t(none)\t0\t0\t0\toff\n";
    assert_eq!(parse_dump(text), Err(WgError::MalformedRecord(2)));
}

#[test]
fn empty_dump_is_empty_snapshot() {
    let snap = parse_dump("").unwrap();
    assert_eq!(snap.interfaces.len(), 0);
}

#[test]
fn prefix_interface_prepends_every_line() {
    let out = prefix_interface("wg0", "a\tb\nc\td\n");
    assert_eq!(out, "wg0\ta\tb\nwg0\tc\td\n");
    let out2 = prefix_interface("wg0", "");
    assert_eq!(out2, "");
}

#[test]
fn decimal_parsing_is_exact() {
    assert_eq!(parse_u64_str("0"), Some(0));
    assert_eq!(parse_u64_str("1600000000"), Some(1600000000));
    assert_eq!(parse_u64_str("18446744073709551615"), Some(u64::MAX));
    assert_eq!(parse_u64_str("18446744073709551616"), None);
    assert_eq!(parse_u64_str(""), None);
    assert_eq!(parse_u64_str("12a"), None);
    assert_eq!(parse_u64_str("-1"), None);
}
