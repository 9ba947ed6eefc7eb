//! The typed interface/peer model and the snapshot merger.
//!
//! A snapshot maps interface names to one device record and its ordered
//! peers. Interface names are unique within a snapshot; merging two
//! snapshots that share a name fails, whatever else they hold.

use vstd::prelude::*;

use crate::error::WgError;

verus! {

/// One WireGuard interface as reported by a dump device line. Device keys
/// are discarded during parsing and never retained here.
#[derive(Debug, Clone, PartialEq, Eq)]
pub struct DeviceRecord {
    /// Interface name; never empty.
    pub interface: String,
    /// Listen port; absent when the dump reports it as `off` or `0`.
    pub listen_port: Option<u64>,
    /// Firewall mark; absent when the dump reports it as `off` or `0`.
    pub fwmark: Option<u64>,
}

#[verifier::ext_equal]
pub ghost struct DeviceRecordV {
    pub interface: Seq<char>,
    pub listen_port: Option<u64>,
    pub fwmark: Option<u64>,
}

impl View for DeviceRecord {
    type V = DeviceRecordV;

    open spec fn view(&self) -> DeviceRecordV {
        DeviceRecordV {
            interface: self.interface@,
            listen_port: self.listen_port,
            fwmark: self.fwmark,
        }
    }
}

/// A peer's remote endpoint: host (IPv6 already unbracketed) and the port
/// text after the last colon.
#[derive(Debug, Clone, PartialEq, Eq)]
pub struct Endpoint {
    pub host: String,
    pub port: String,
}

#[verifier::ext_equal]
pub ghost struct EndpointV {
    pub host: Seq<char>,
    pub port: Seq<char>,
}

impl View for Endpoint {
    type V = EndpointV;

    open spec fn view(&self) -> EndpointV {
        EndpointV { host: self.host@, port: self.port@ }
    }
}

/// One peer of an interface. The preshared key is reduced to a presence
/// flag and never retained as a value.
#[derive(Debug, Clone, PartialEq, Eq)]
pub struct PeerRecord {
    /// The peer identity; unique within its interface.
    pub public_key: String,
    pub preshared_key_present: bool,
    /// Absent when the peer has never connected.
    pub endpoint: Option<Endpoint>,
    /// Ordered CIDR strings; may be empty.
    pub allowed_ips: Vec<String>,
    /// Unix timestamp of the latest handshake; absent when the dump reports
    /// `0` (never connected).
    pub latest_handshake: Option<u64>,
    pub rx_bytes: u64,
    pub tx_bytes: u64,
    /// Keepalive interval in seconds; absent when the dump reports `off`.
    pub keepalive: Option<u64>,
}

#[verifier::ext_equal]
pub ghost struct PeerRecordV {
    pub public_key: Seq<char>,
    pub preshared_key_present: bool,
    pub endpoint: Option<EndpointV>,
    pub allowed_ips: Seq<Seq<char>>,
    pub latest_handshake: Option<u64>,
    pub rx_bytes: u64,
    pub tx_bytes: u64,
    pub keepalive: Option<u64>,
}

impl View for PeerRecord {
    type V = PeerRecordV;

    open spec fn view(&self) -> PeerRecordV {
        PeerRecordV {
            public_key: self.public_key@,
            preshared_key_present: self.preshared_key_present,
            endpoint: match self.endpoint {
                Some(e) => Some(e@),
                None => None,
            },
            allowed_ips: self.allowed_ips@.map_values(|s: String| s@),
            latest_handshake: self.latest_handshake,
            rx_bytes: self.rx_bytes,
            tx_bytes: self.tx_bytes,
            keepalive: self.keepalive,
        }
    }
}

/// One interface entry of a snapshot: the device and its peers, in the
/// order the dump listed them.
#[derive(Debug, Clone, PartialEq, Eq)]
pub struct InterfaceEntry {
    pub device: DeviceRecord,
    pub peers: Vec<PeerRecord>,
}

#[verifier::ext_equal]
pub ghost struct InterfaceEntryV {
    pub device: DeviceRecordV,
    pub peers: Seq<PeerRecordV>,
}

impl View for InterfaceEntry {
    type V = InterfaceEntryV;

    open spec fn view(&self) -> InterfaceEntryV {
        InterfaceEntryV {
            device: self.device@,
            peers: self.peers@.map_values(|p: PeerRecord| p@),
        }
    }
}

/// A multi-interface snapshot; rebuilt from scratch on every scrape.
#[derive(Debug, Clone, PartialEq, Eq)]
pub struct Snapshot {
    pub interfaces: Vec<InterfaceEntry>,
}

impl View for Snapshot {
    type V = Seq<InterfaceEntryV>;

    open spec fn view(&self) -> Seq<InterfaceEntryV> {
        self.interfaces@.map_values(|e: InterfaceEntry| e@)
    }
}

/// Well-formedness of one interface entry: a non-empty name and pairwise
/// distinct peer public keys.
pub open spec fn interface_wf(e: InterfaceEntryV) -> bool {
    &&& e.device.interface.len() > 0
    &&& forall|i: int, j: int|
        0 <= i < j < e.peers.len() ==> e.peers[i].public_key != e.peers[j].public_key
}

/// Well-formedness of a snapshot: pairwise distinct interface names and
/// well-formed entries.
pub open spec fn snapshot_wf(s: Seq<InterfaceEntryV>) -> bool {
    &&& forall|i: int, j: int|
        0 <= i < j < s.len() ==> s[i].device.interface != s[j].device.interface
    &&& forall|i: int| 0 <= i < s.len() ==> interface_wf(#[trigger] s[i])
}

/// Whether some entry of `s` is named `name`.
pub open spec fn has_name(s: Seq<InterfaceEntryV>, name: Seq<char>) -> bool {
    exists|k: int| 0 <= k < s.len() && #[trigger] s[k].device.interface == name
}

/// Whether `a` and `b` hold entries for a common interface name.
pub open spec fn shares_name(a: Seq<InterfaceEntryV>, b: Seq<InterfaceEntryV>) -> bool {
    exists|k: int| 0 <= k < b.len() && has_name(a, #[trigger] b[k].device.interface)
}

impl Snapshot {
    /// A snapshot with no interfaces.
    pub fn empty() -> (r: Snapshot)
        ensures
            r@ =~= Seq::<InterfaceEntryV>::empty(),
            snapshot_wf(r@),
    {
        Snapshot { interfaces: Vec::new() }
    }

    /// Whether this snapshot holds an entry named `name`.
    pub fn contains_interface(&self, name: &str) -> (r: bool)
        ensures
            r == has_name(self@, name@),
    {
        let n = self.interfaces.len();
        let mut k: usize = 0;
        while k < n
            invariant
                n == self.interfaces.len(),
                k <= n,
                forall|m: int| 0 <= m < k ==> self@[m].device.interface != name@,
            decreases n - k,
        {
            proof {
                assert(self@[k as int] == self.interfaces@[k as int]@);
            }
            if crate::text::str_eq(self.interfaces[k].device.interface.as_str(), name) {
                proof {
                    assert(self@[k as int].device.interface == name@);
                    assert(has_name(self@, name@));
                }
                return true;
            }
            k += 1;
        }
        false
    }

    /// Inserts every interface of `incoming` into `base`. Fails with
    /// `DuplicateInterface` exactly when the two snapshots share an
    /// interface name, whatever else they hold; on success the result is
    /// `base`'s entries followed by `incoming`'s.
    #[verifier::loop_isolation(false)]
    pub fn merge(base: Snapshot, incoming: Snapshot) -> (r: Result<Snapshot, WgError>)
        requires
            snapshot_wf(base@),
            snapshot_wf(incoming@),
        ensures
            match r {
                Ok(m) => !shares_name(base@, incoming@) && m@ == base@ + incoming@
                    && snapshot_wf(m@),
                Err(e) => shares_name(base@, incoming@) && e == WgError::DuplicateInterface,
            },
    {
        let ghost b0 = base@;
        let ghost i0 = incoming@;
        let mut base = base;
        let mut incoming = incoming;
        let n = incoming.interfaces.len();
        let mut j: usize = 0;
        while j < n
            invariant
                base@ == b0,
                incoming@ == i0,
                n == incoming.interfaces.len(),
                j <= n,
                forall|m: int| 0 <= m < j ==> !has_name(base@, #[trigger] incoming@[m].device.interface),
            decreases n - j,
        {
            proof {
                assert(incoming@[j as int] == incoming.interfaces@[j as int]@);
            }
            if base.contains_interface(incoming.interfaces[j].device.interface.as_str()) {
                proof {
                    assert(base@ == b0 && incoming@ == i0);
                    assert(has_name(b0, i0[j as int].device.interface));
                    assert(shares_name(b0, i0));
                }
                return Err(WgError::DuplicateInterface);
            }
            j += 1;
        }
        let ghost b0 = base@;
        let ghost i0 = incoming@;
        base.interfaces.append(&mut incoming.interfaces);
        proof {
            assert(base@ =~= b0 + i0);
            assert forall|i: int, j2: int| 0 <= i < j2 < base@.len() implies
                base@[i].device.interface != base@[j2].device.interface by {
                if i < b0.len() && j2 >= b0.len() {
                    assert(!has_name(b0, i0[j2 - b0.len()].device.interface));
                    assert(b0[i].device.interface != i0[j2 - b0.len()].device.interface);
                }
            }
        }
        Ok(base)
    }
}

} // verus!
