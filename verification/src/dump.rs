//! Parser for the tabular dump produced by the external tool.
//!
//! Input is one text blob, one record per line, fields tab-separated, with
//! the interface name as the leading field of every line (for a
//! single-interface query the caller prepends it; see
//! [`crate::prefix_interface`]). A line with five fields is a device
//! record: interface, private key (discarded), public key (discarded),
//! listen port, fwmark. A line with nine fields is a peer record:
//! interface, public key, preshared key or `(none)`, endpoint or `(none)`,
//! comma-joined allowed IPs or `(none)`, latest-handshake epoch (`0` for
//! never), received bytes, sent bytes, keepalive seconds or `off`. Any
//! other shape, an invalid numeric field, a peer line not following its
//! own interface's device line, or a repeated interface or peer key fails
//! the whole parse with `MalformedRecord`.

use vstd::prelude::*;

use crate::error::WgError;
use crate::snapshot::{
    DeviceRecord, DeviceRecordV, Endpoint, EndpointV, InterfaceEntry, InterfaceEntryV,
    PeerRecord, PeerRecordV, Snapshot, has_name, interface_wf, snapshot_wf,
};
use crate::text::{
    dec_val, is_dec_string, lines_of, rfind_at, split_chars, split_str, split_lines, str_eq,
    parse_u64_str, rfind_char,
};

verus! {

// ---------------------------------------------------------------------------
// Field grammars
// ---------------------------------------------------------------------------

/// A decimal `u64` field; `None` when the text is not a numeral in range.
pub open spec fn spec_num(s: Seq<char>) -> Option<u64> {
    if is_dec_string(s) && dec_val(s) <= u64::MAX {
        Some(dec_val(s) as u64)
    } else {
        None
    }
}

/// A device port or fwmark field: `off` or `0` mean absent; any other
/// decimal numeral is the value; anything else is malformed.
pub open spec fn spec_opt_num(s: Seq<char>) -> Option<Option<u64>> {
    if s == "off"@ {
        Some(None)
    } else {
        match spec_num(s) {
            None => None,
            Some(v) => if v == 0 {
                Some(None)
            } else {
                Some(Some(v))
            },
        }
    }
}

/// A keepalive field: `off` means absent; any decimal numeral (including
/// `0`) is the interval; anything else is malformed.
pub open spec fn spec_keepalive(s: Seq<char>) -> Option<Option<u64>> {
    if s == "off"@ {
        Some(None)
    } else {
        match spec_num(s) {
            None => None,
            Some(v) => Some(Some(v)),
        }
    }
}

/// A latest-handshake field: `0` means the peer never connected.
pub open spec fn spec_handshake(s: Seq<char>) -> Option<Option<u64>> {
    match spec_num(s) {
        None => None,
        Some(v) => if v == 0 {
            Some(None)
        } else {
            Some(Some(v))
        },
    }
}

/// An endpoint field: `(none)` means absent; otherwise the text splits at
/// its last colon into host and port, and a bracketed IPv6 host is
/// unbracketed. Text without a colon is malformed.
pub open spec fn spec_endpoint(s: Seq<char>) -> Option<Option<EndpointV>> {
    if s == "(none)"@ {
        Some(None)
    } else {
        let k = rfind_at(s, ':', s.len() - 1);
        if k < 0 {
            None
        } else {
            let host0 = s.subrange(0, k);
            let port = s.subrange(k + 1, s.len() as int);
            let host = if host0.len() >= 2 && host0[0] == '[' && host0.last() == ']' {
                host0.subrange(1, host0.len() - 1)
            } else {
                host0
            };
            Some(Some(EndpointV { host, port }))
        }
    }
}

/// An allowed-IPs field: `(none)` means the empty list; otherwise the text
/// splits on commas, with no further trimming.
pub open spec fn spec_allowed_ips(s: Seq<char>) -> Seq<Seq<char>> {
    if s == "(none)"@ {
        Seq::empty()
    } else {
        split_chars(s, ',')
    }
}

/// A device line's record, from its five fields; `None` when malformed.
/// Device keys (fields one and two) are discarded here.
pub open spec fn spec_device_fields(fields: Seq<Seq<char>>) -> Option<DeviceRecordV> {
    if fields[0].len() == 0 {
        None
    } else {
        match (spec_opt_num(fields[3]), spec_opt_num(fields[4])) {
            (Some(port), Some(fw)) => Some(
                DeviceRecordV { interface: fields[0], listen_port: port, fwmark: fw },
            ),
            _ => None,
        }
    }
}

/// A peer line's record, from its nine fields; `None` when malformed.
/// The preshared key (field two) is reduced to a presence flag.
pub open spec fn spec_peer_fields(fields: Seq<Seq<char>>) -> Option<PeerRecordV> {
    if fields[1].len() == 0 {
        None
    } else {
        match (spec_endpoint(fields[3]), spec_handshake(fields[5]), spec_num(fields[6]),
            spec_num(fields[7]), spec_keepalive(fields[8])) {
            (Some(ep), Some(hs), Some(rx), Some(tx), Some(ka)) => Some(
                PeerRecordV {
                    public_key: fields[1],
                    preshared_key_present: fields[2] != "(none)"@,
                    endpoint: ep,
                    allowed_ips: spec_allowed_ips(fields[4]),
                    latest_handshake: hs,
                    rx_bytes: rx,
                    tx_bytes: tx,
                    keepalive: ka,
                },
            ),
            _ => None,
        }
    }
}

/// Whether some peer of `ps` has public key `key` (byte-for-byte).
pub open spec fn peer_key_in(ps: Seq<PeerRecordV>, key: Seq<char>) -> bool {
    exists|m: int| 0 <= m < ps.len() && #[trigger] ps[m].public_key == key
}

// ---------------------------------------------------------------------------
// The dump grammar, line by line
// ---------------------------------------------------------------------------

/// Folds the lines from index `i` on into the accumulated snapshot. A
/// device line opens a new interface entry; a peer line joins the entry
/// opened last, which must name the same interface.
pub open spec fn spec_parse_from(
    ls: Seq<Seq<char>>,
    i: int,
    acc: Seq<InterfaceEntryV>,
) -> Result<Seq<InterfaceEntryV>, WgError>
    decreases ls.len() - i,
{
    if i < 0 || i >= ls.len() {
        Ok(acc)
    } else {
        let fields = split_chars(ls[i], '\t');
        if fields.len() == 5 {
            match spec_device_fields(fields) {
                None => Err(WgError::MalformedRecord(i as usize)),
                Some(d) => if has_name(acc, d.interface) {
                    Err(WgError::MalformedRecord(i as usize))
                } else {
                    spec_parse_from(
                        ls,
                        i + 1,
                        acc.push(InterfaceEntryV { device: d, peers: Seq::empty() }),
                    )
                },
            }
        } else if fields.len() == 9 {
            if acc.len() == 0 || acc.last().device.interface != fields[0] {
                Err(WgError::MalformedRecord(i as usize))
            } else {
                match spec_peer_fields(fields) {
                    None => Err(WgError::MalformedRecord(i as usize)),
                    Some(p) => if peer_key_in(acc.last().peers, p.public_key) {
                        Err(WgError::MalformedRecord(i as usize))
                    } else {
                        spec_parse_from(
                            ls,
                            i + 1,
                            acc.drop_last().push(
                                InterfaceEntryV {
                                    device: acc.last().device,
                                    peers: acc.last().peers.push(p),
                                },
                            ),
                        )
                    },
                }
            }
        } else {
            Err(WgError::MalformedRecord(i as usize))
        }
    }
}

/// The meaning of a whole dump text.
pub open spec fn spec_parse_dump(text: Seq<char>) -> Result<Seq<InterfaceEntryV>, WgError> {
    spec_parse_from(lines_of(text), 0, Seq::empty())
}

// ---------------------------------------------------------------------------
// Executable field parsers
// ---------------------------------------------------------------------------

fn num_field(tok: &str) -> (r: Option<u64>)
    ensures
        r == spec_num(tok@),
{
    parse_u64_str(tok)
}

fn opt_num_field(tok: &str) -> (r: Option<Option<u64>>)
    ensures
        r == spec_opt_num(tok@),
{
    if str_eq(tok, "off") {
        Some(None)
    } else {
        match parse_u64_str(tok) {
            None => None,
            Some(v) => if v == 0 {
                Some(None)
            } else {
                Some(Some(v))
            },
        }
    }
}

fn keepalive_field(tok: &str) -> (r: Option<Option<u64>>)
    ensures
        r == spec_keepalive(tok@),
{
    if str_eq(tok, "off") {
        Some(None)
    } else {
        match parse_u64_str(tok) {
            None => None,
            Some(v) => Some(Some(v)),
        }
    }
}

fn handshake_field(tok: &str) -> (r: Option<Option<u64>>)
    ensures
        r == spec_handshake(tok@),
{
    match parse_u64_str(tok) {
        None => None,
        Some(v) => if v == 0 {
            Some(None)
        } else {
            Some(Some(v))
        },
    }
}

fn endpoint_field(tok: &str) -> (r: Option<Option<Endpoint>>)
    ensures
        match r {
            None => spec_endpoint(tok@) is None,
            Some(None) => spec_endpoint(tok@) == Some(None::<EndpointV>),
            Some(Some(e)) => spec_endpoint(tok@) == Some(Some(e@)),
        },
{
    if str_eq(tok, "(none)") {
        return Some(None);
    }
    let len = tok.unicode_len();
    match rfind_char(tok, ':') {
        None => None,
        Some(k) => {
            let host0 = tok.substring_char(0, k);
            let port = tok.substring_char(k + 1, len).to_owned();
            let hlen = host0.unicode_len();
            let host = if hlen >= 2 && host0.get_char(0) == '[' && host0.get_char(hlen - 1) == ']' {
                host0.substring_char(1, hlen - 1).to_owned()
            } else {
                host0.to_owned()
            };
            Some(Some(Endpoint { host, port }))
        },
    }
}

fn allowed_ips_field(tok: &str) -> (r: Vec<String>)
    ensures
        r.deep_view() == spec_allowed_ips(tok@),
{
    if str_eq(tok, "(none)") {
        let r: Vec<String> = Vec::new();
        proof {
            assert(r.deep_view() =~~= spec_allowed_ips(tok@));
        }
        r
    } else {
        split_str(tok, ',')
    }
}

fn parse_device(fields: &Vec<String>) -> (r: Option<DeviceRecord>)
    requires
        fields@.len() == 5,
    ensures
        match r {
            None => spec_device_fields(fields.deep_view()) is None,
            Some(d) => spec_device_fields(fields.deep_view()) == Some(d@),
        },
{
    if fields[0].as_str().is_empty() {
        return None;
    }
    let port = match opt_num_field(fields[3].as_str()) {
        None => {
            return None;
        },
        Some(p) => p,
    };
    let fw = match opt_num_field(fields[4].as_str()) {
        None => {
            return None;
        },
        Some(f) => f,
    };
    Some(DeviceRecord { interface: fields[0].clone(), listen_port: port, fwmark: fw })
}

fn parse_peer(fields: &Vec<String>) -> (r: Option<PeerRecord>)
    requires
        fields@.len() == 9,
    ensures
        match r {
            None => spec_peer_fields(fields.deep_view()) is None,
            Some(p) => spec_peer_fields(fields.deep_view()) == Some(p@),
        },
{
    if fields[1].as_str().is_empty() {
        return None;
    }
    let ep = match endpoint_field(fields[3].as_str()) {
        None => {
            return None;
        },
        Some(e) => e,
    };
    let hs = match handshake_field(fields[5].as_str()) {
        None => {
            return None;
        },
        Some(h) => h,
    };
    let rx = match num_field(fields[6].as_str()) {
        None => {
            return None;
        },
        Some(v) => v,
    };
    let tx = match num_field(fields[7].as_str()) {
        None => {
            return None;
        },
        Some(v) => v,
    };
    let ka = match keepalive_field(fields[8].as_str()) {
        None => {
            return None;
        },
        Some(v) => v,
    };
    let psk_present = !str_eq(fields[2].as_str(), "(none)");
    let aips = allowed_ips_field(fields[4].as_str());
    let p = PeerRecord {
        public_key: fields[1].clone(),
        preshared_key_present: psk_present,
        endpoint: ep,
        allowed_ips: aips,
        latest_handshake: hs,
        rx_bytes: rx,
        tx_bytes: tx,
        keepalive: ka,
    };
    proof {
        assert(p@.allowed_ips =~~= spec_allowed_ips(fields.deep_view()[4]));
        assert(spec_peer_fields(fields.deep_view()) == Some(p@));
    }
    Some(p)
}

fn has_peer_key(peers: &Vec<PeerRecord>, key: &str) -> (r: bool)
    ensures
        r == peer_key_in(peers@.map_values(|p: PeerRecord| p@), key@),
{
    let ghost ps = peers@.map_values(|p: PeerRecord| p@);
    let n = peers.len();
    let mut m: usize = 0;
    while m < n
        invariant
            ps == peers@.map_values(|p: PeerRecord| p@),
            n == peers@.len(),
            m <= n,
            forall|q: int| 0 <= q < m ==> ps[q].public_key != key@,
        decreases n - m,
    {
        proof {
            assert(ps[m as int] == peers@[m as int]@);
        }
        if str_eq(peers[m].public_key.as_str(), key) {
            proof {
                assert(ps[m as int].public_key == key@);
            }
            return true;
        }
        m += 1;
    }
    false
}

// ---------------------------------------------------------------------------
// The parser
// ---------------------------------------------------------------------------

/// Parses one dump text into a snapshot, or fails with `MalformedRecord`
/// carrying the index of the first offending line.
#[verifier::loop_isolation(false)]
pub fn parse_dump(text: &str) -> (r: Result<Snapshot, WgError>)
    ensures
        match r {
            Ok(s) => spec_parse_dump(text@) == Ok::<_, WgError>(s@) && snapshot_wf(s@),
            Err(e) => spec_parse_dump(text@) == Err::<Seq<InterfaceEntryV>, _>(e),
        },
{
    let lines = split_lines(text);
    let ghost ls = lines.deep_view();
    proof {
        assert(ls == lines_of(text@));
    }
    let n = lines.len();
    let mut acc = Snapshot::empty();
    let mut i: usize = 0;
    while i < n
        invariant
            n == lines@.len(),
            i <= n,
            snapshot_wf(acc@),
            spec_parse_from(ls, 0, Seq::empty()) == spec_parse_from(ls, i as int, acc@),
        decreases n - i,
    {
        let fields = split_str(lines[i].as_str(), '\t');
        proof {
            assert(lines@[i as int]@ == ls[i as int]);
            assert(fields.deep_view() == split_chars(ls[i as int], '\t'));
        }
        if fields.len() == 5 {
            let d = match parse_device(&fields) {
                None => {
                    return Err(WgError::MalformedRecord(i));
                },
                Some(d) => d,
            };
            if acc.contains_interface(d.interface.as_str()) {
                return Err(WgError::MalformedRecord(i));
            }
            let ghost acc0 = acc@;
            acc.interfaces.push(InterfaceEntry { device: d, peers: Vec::new() });
            proof {
                assert(acc@ =~~= acc0.push(
                    InterfaceEntryV {
                        device: spec_device_fields(fields.deep_view())->Some_0,
                        peers: Seq::empty(),
                    },
                ));
                assert(snapshot_wf(acc@));
            }
        } else if fields.len() == 9 {
            if acc.interfaces.len() == 0 {
                return Err(WgError::MalformedRecord(i));
            }
            let last_idx = acc.interfaces.len() - 1;
            proof {
                assert(acc@[last_idx as int] == acc.interfaces@[last_idx as int]@);
                assert(acc@.last() == acc@[last_idx as int]);
            }
            if !str_eq(acc.interfaces[last_idx].device.interface.as_str(), fields[0].as_str()) {
                return Err(WgError::MalformedRecord(i));
            }
            let p = match parse_peer(&fields) {
                None => {
                    return Err(WgError::MalformedRecord(i));
                },
                Some(p) => p,
            };
            if has_peer_key(&acc.interfaces[last_idx].peers, p.public_key.as_str()) {
                return Err(WgError::MalformedRecord(i));
            }
            let ghost acc0 = acc@;
            let mut entry = match acc.interfaces.pop() {
                Some(e) => e,
                None => {
                    proof {
                        assert(false);
                    }
                    return Err(WgError::MalformedRecord(i));
                },
            };
            let ghost p_v = p@;
            entry.peers.push(p);
            acc.interfaces.push(entry);
            proof {
                assert(acc@ =~~= acc0.drop_last().push(
                    InterfaceEntryV {
                        device: acc0.last().device,
                        peers: acc0.last().peers.push(p_v),
                    },
                ));
                assert(interface_wf(acc@.last()));
                assert(snapshot_wf(acc@));
            }
        } else {
            return Err(WgError::MalformedRecord(i));
        }
        i += 1;
    }
    Ok(acc)
}

} // verus!
