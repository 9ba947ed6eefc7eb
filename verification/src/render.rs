//! Renders a merged snapshot joined with the metadata table as Prometheus
//! exposition text.
//!
//! Every peer always yields a peer-info line with constant value `1`, a
//! sent-bytes and a received-bytes counter line, and a handshake
//! timestamp line (raw epoch seconds, `0` preserved for "never"). Under
//! `separate_allowed_ips` the allowed-IP list becomes one zero-value line
//! per CIDR instead of a comma-joined label; under
//! `export_remote_ip_and_port` a present endpoint adds remote labels
//! (absent endpoints add nothing); under `export_latest_handshake_delay`
//! a present handshake also yields a delay line (`now - handshake`,
//! saturating at zero), and an absent handshake yields none. Label values
//! are escaped (backslash, double quote, newline); structured label names
//! are emitted verbatim, having been vetted at resolve time.

use vstd::prelude::*;

use crate::metadata::{
    FriendlyMetadata, FriendlyMetadataV, MetadataTable, PeerMeta, PeerMetaV, lookup_meta,
};
use crate::snapshot::{InterfaceEntryV, PeerRecord, PeerRecordV, Snapshot};
use crate::text::{dec_str, push_char, push_u64};

verus! {

/// The rendering options, threaded in explicitly; never read from ambient
/// process state.
#[derive(Clone, Copy, Debug, PartialEq, Eq, Structural)]
pub struct RenderOptions {
    pub separate_allowed_ips: bool,
    pub export_remote_ip_and_port: bool,
    pub export_latest_handshake_delay: bool,
}

impl RenderOptions {
    /// All switches off.
    pub fn defaults() -> (r: RenderOptions)
        ensures
            r == (RenderOptions {
                separate_allowed_ips: false,
                export_remote_ip_and_port: false,
                export_latest_handshake_delay: false,
            }),
    {
        RenderOptions {
            separate_allowed_ips: false,
            export_remote_ip_and_port: false,
            export_latest_handshake_delay: false,
        }
    }
}

// ---------------------------------------------------------------------------
// Escaping
// ---------------------------------------------------------------------------

/// Prometheus label-value escaping of one character.
pub open spec fn esc_char(c: char) -> Seq<char> {
    if c == '\\' {
        seq!['\\', '\\']
    } else if c == '"' {
        seq!['\\', '"']
    } else if c == '\n' {
        seq!['\\', 'n']
    } else {
        seq![c]
    }
}

/// Prometheus label-value escaping of a whole value.
pub open spec fn esc(s: Seq<char>) -> Seq<char>
    decreases s.len(),
{
    if s.len() == 0 {
        Seq::empty()
    } else {
        esc_char(s[0]) + esc(s.drop_first())
    }
}

pub proof fn lemma_esc_concat(a: Seq<char>, b: Seq<char>)
    ensures
        esc(a + b) == esc(a) + esc(b),
    decreases a.len(),
{
    if a.len() == 0 {
        assert(a + b =~= b);
        assert(esc(a) + esc(b) =~= esc(b));
    } else {
        lemma_esc_concat(a.drop_first(), b);
        assert((a + b).drop_first() =~= a.drop_first() + b);
        assert((a + b)[0] == a[0]);
        assert(esc_char(a[0]) + (esc(a.drop_first()) + esc(b)) =~= (esc_char(a[0]) + esc(
            a.drop_first(),
        )) + esc(b));
        assert(esc(a + b) =~= esc(a) + esc(b));
    }
}

/// A value whose characters need no escaping is unchanged by `esc`.
pub proof fn lemma_esc_plain(s: Seq<char>)
    requires
        forall|i: int| 0 <= i < s.len() ==> s[i] != '\\' && s[i] != '"' && s[i] != '\n',
    ensures
        esc(s) == s,
    decreases s.len(),
{
    if s.len() != 0 {
        lemma_esc_plain(s.drop_first());
        assert(esc(s) =~= s);
    }
}

fn push_escaped(out: &mut String, s: &str)
    ensures
        final(out)@ == old(out)@ + esc(s@),
{
    let len = s.unicode_len();
    let mut i: usize = 0;
    proof {
        assert(s@.subrange(0, 0) =~= Seq::<char>::empty());
        assert(old(out)@ + esc(s@.subrange(0, 0)) =~= old(out)@);
    }
    while i < len
        invariant
            len == s@.len(),
            i <= len,
            out@ == old(out)@ + esc(s@.subrange(0, i as int)),
        decreases len - i,
    {
        let c = s.get_char(i);
        proof {
            reveal_with_fuel(esc, 2);
            assert(s@.subrange(0, (i + 1) as int) =~= s@.subrange(0, i as int) + seq![s@[i as int]]);
            lemma_esc_concat(s@.subrange(0, i as int), seq![s@[i as int]]);
            assert(seq![s@[i as int]].drop_first() =~= Seq::<char>::empty());
            assert(esc(seq![s@[i as int]]) =~= esc_char(s@[i as int]));
        }
        if c == '\\' {
            push_char(out, '\\');
            push_char(out, '\\');
        } else if c == '"' {
            push_char(out, '\\');
            push_char(out, '"');
        } else if c == '\n' {
            push_char(out, '\\');
            push_char(out, 'n');
        } else {
            push_char(out, c);
        }
        proof {
            assert(out@ =~= old(out)@ + esc(s@.subrange(0, (i + 1) as int)));
        }
        i += 1;
    }
    proof {
        assert(s@.subrange(0, len as int) =~= s@);
    }
}

// ---------------------------------------------------------------------------
// Joining allowed IPs
// ---------------------------------------------------------------------------

/// The comma-joined form of a list of values.
pub open spec fn join_comma(items: Seq<Seq<char>>) -> Seq<char>
    decreases items.len(),
{
    if items.len() == 0 {
        Seq::empty()
    } else if items.len() == 1 {
        items[0]
    } else {
        join_comma(items.drop_last()) + seq![','] + items.last()
    }
}

fn join_strings(items: &Vec<String>) -> (r: String)
    ensures
        r@ == join_comma(items.deep_view()),
{
    let ghost iv = items.deep_view();
    let mut out = String::new();
    let n = items.len();
    let mut k: usize = 0;
    proof {
        assert(iv.subrange(0, 0) =~~= Seq::<Seq<char>>::empty());
    }
    while k < n
        invariant
            iv == items.deep_view(),
            n == items@.len(),
            n == iv.len(),
            k <= n,
            out@ == join_comma(iv.subrange(0, k as int)),
        decreases n - k,
    {
        proof {
            assert(iv[k as int] == items@[k as int]@);
            assert(iv.subrange(0, (k + 1) as int).drop_last() =~~= iv.subrange(0, k as int));
            assert(iv.subrange(0, (k + 1) as int).last() == iv[k as int]);
        }
        if k > 0 {
            push_char(&mut out, ',');
        }
        out.append(items[k].as_str());
        proof {
            if k == 0 {
                assert(out@ =~= join_comma(iv.subrange(0, 1)));
            } else {
                assert(out@ =~= join_comma(iv.subrange(0, (k + 1) as int)));
            }
        }
        k += 1;
    }
    proof {
        assert(iv.subrange(0, n as int) =~~= iv);
    }
    out
}

// ---------------------------------------------------------------------------
// The exposition grammar
// ---------------------------------------------------------------------------

/// The built-in labels opening every metric line.
pub open spec fn label_start(iface: Seq<char>, pk: Seq<char>) -> Seq<char> {
    "{interface=\""@ + esc(iface) + "\",public_key=\""@ + esc(pk) + "\""@
}

/// One structured label per pair, each `,name="value"`, names verbatim.
pub open spec fn labels_cat(ps: Seq<(Seq<char>, Seq<char>)>) -> Seq<char>
    decreases ps.len(),
{
    if ps.len() == 0 {
        Seq::empty()
    } else {
        labels_cat(ps.drop_last()) + ","@ + ps.last().0 + "=\""@ + esc(ps.last().1) + "\""@
    }
}

/// The friendly-metadata contribution to the peer-info line.
pub open spec fn friendly_labels(meta: Option<PeerMetaV>) -> Seq<char> {
    match meta {
        None => Seq::empty(),
        Some(m) => match m.friendly {
            None => Seq::empty(),
            Some(FriendlyMetadataV::Name(n)) => ",friendly_name=\""@ + esc(n) + "\""@,
            Some(FriendlyMetadataV::Labels(ps)) => labels_cat(ps),
        },
    }
}

/// The comma-joined allowed-IPs label, absent under `separate_allowed_ips`.
pub open spec fn allowed_label(p: PeerRecordV, o: RenderOptions) -> Seq<char> {
    if o.separate_allowed_ips {
        Seq::empty()
    } else {
        ",allowed_ips=\""@ + esc(join_comma(p.allowed_ips)) + "\""@
    }
}

/// Remote-endpoint labels; nothing at all when the endpoint is absent.
pub open spec fn endpoint_labels(p: PeerRecordV, o: RenderOptions) -> Seq<char> {
    if o.export_remote_ip_and_port {
        match p.endpoint {
            Some(e) => ",remote_ip=\""@ + esc(e.host) + "\",remote_port=\""@ + esc(e.port) + "\""@,
            None => Seq::empty(),
        }
    } else {
        Seq::empty()
    }
}

pub open spec fn info_line(
    iface: Seq<char>,
    p: PeerRecordV,
    meta: Option<PeerMetaV>,
    o: RenderOptions,
) -> Seq<char> {
    "wireguard_peer_info"@ + label_start(iface, p.public_key) + friendly_labels(meta)
        + allowed_label(p, o) + endpoint_labels(p, o) + "} 1"@
}

pub open spec fn allowed_ip_line(iface: Seq<char>, pk: Seq<char>, cidr: Seq<char>) -> Seq<char> {
    "wireguard_peer_allowed_ip"@ + label_start(iface, pk) + ",allowed_ip=\""@ + esc(cidr)
        + "\"} 0"@
}

/// One zero-value line per CIDR, in list order; only under
/// `separate_allowed_ips`.
pub open spec fn allowed_ip_lines(
    iface: Seq<char>,
    pk: Seq<char>,
    cidrs: Seq<Seq<char>>,
) -> Seq<Seq<char>>
    decreases cidrs.len(),
{
    if cidrs.len() == 0 {
        Seq::empty()
    } else {
        allowed_ip_lines(iface, pk, cidrs.drop_last()).push(
            allowed_ip_line(iface, pk, cidrs.last()),
        )
    }
}

pub open spec fn sent_line(iface: Seq<char>, p: PeerRecordV) -> Seq<char> {
    "wireguard_sent_bytes_total"@ + label_start(iface, p.public_key) + "} "@ + dec_str(
        p.tx_bytes as nat,
    )
}

pub open spec fn recv_line(iface: Seq<char>, p: PeerRecordV) -> Seq<char> {
    "wireguard_received_bytes_total"@ + label_start(iface, p.public_key) + "} "@ + dec_str(
        p.rx_bytes as nat,
    )
}

pub open spec fn handshake_line(iface: Seq<char>, p: PeerRecordV) -> Seq<char> {
    "wireguard_latest_handshake_seconds"@ + label_start(iface, p.public_key) + "} "@ + dec_str(
        match p.latest_handshake {
            Some(ts) => ts as nat,
            None => 0,
        },
    )
}

/// The delay a present handshake shows at render time, saturating at zero.
pub open spec fn delay_of(ts: u64, now: u64) -> u64 {
    if now >= ts {
        (now - ts) as u64
    } else {
        0
    }
}

pub open spec fn delay_line(iface: Seq<char>, pk: Seq<char>, d: u64) -> Seq<char> {
    "wireguard_latest_handshake_delay_seconds"@ + label_start(iface, pk) + "} "@ + dec_str(
        d as nat,
    )
}

/// The delay lines of one peer: exactly one when the option is on and a
/// handshake is present, none otherwise — never a zero for "never".
pub open spec fn delay_lines(
    iface: Seq<char>,
    p: PeerRecordV,
    o: RenderOptions,
    now: u64,
) -> Seq<Seq<char>> {
    if o.export_latest_handshake_delay {
        match p.latest_handshake {
            Some(ts) => seq![delay_line(iface, p.public_key, delay_of(ts, now))],
            None => Seq::empty(),
        }
    } else {
        Seq::empty()
    }
}

/// Every line one peer contributes, in order.
pub open spec fn peer_lines(
    iface: Seq<char>,
    p: PeerRecordV,
    meta: Option<PeerMetaV>,
    o: RenderOptions,
    now: u64,
) -> Seq<Seq<char>> {
    seq![info_line(iface, p, meta, o)] + (if o.separate_allowed_ips {
        allowed_ip_lines(iface, p.public_key, p.allowed_ips)
    } else {
        Seq::empty()
    }) + seq![sent_line(iface, p), recv_line(iface, p), handshake_line(iface, p)] + delay_lines(
        iface,
        p,
        o,
        now,
    )
}

/// The lines of one interface's peers, peers in dump order.
pub open spec fn peers_lines(
    iface: Seq<char>,
    peers: Seq<PeerRecordV>,
    table: Seq<(Seq<char>, PeerMetaV)>,
    o: RenderOptions,
    now: u64,
) -> Seq<Seq<char>>
    decreases peers.len(),
{
    if peers.len() == 0 {
        Seq::empty()
    } else {
        peers_lines(iface, peers.drop_last(), table, o, now) + peer_lines(
            iface,
            peers.last(),
            lookup_meta(table, peers.last().public_key),
            o,
            now,
        )
    }
}

/// The lines of a whole snapshot, interfaces in snapshot order.
pub open spec fn render_lines(
    snap: Seq<InterfaceEntryV>,
    table: Seq<(Seq<char>, PeerMetaV)>,
    o: RenderOptions,
    now: u64,
) -> Seq<Seq<char>>
    decreases snap.len(),
{
    if snap.len() == 0 {
        Seq::empty()
    } else {
        render_lines(snap.drop_last(), table, o, now) + peers_lines(
            snap.last().device.interface,
            snap.last().peers,
            table,
            o,
            now,
        )
    }
}

/// Each line followed by a newline.
pub open spec fn join_nl(lines: Seq<Seq<char>>) -> Seq<char>
    decreases lines.len(),
{
    if lines.len() == 0 {
        Seq::empty()
    } else {
        join_nl(lines.drop_last()) + lines.last() + seq!['\n']
    }
}

proof fn lemma_join_nl_one(a: Seq<char>)
    ensures
        join_nl(seq![a]) == a + seq!['\n'],
{
    reveal_with_fuel(join_nl, 2);
    assert(seq![a].drop_last() =~~= Seq::<Seq<char>>::empty());
    assert(join_nl(seq![a]) =~= a + seq!['\n']);
}

proof fn lemma_join_nl_three(a: Seq<char>, b: Seq<char>, c: Seq<char>)
    ensures
        join_nl(seq![a, b, c]) == a + seq!['\n'] + b + seq!['\n'] + c + seq!['\n'],
{
    reveal_with_fuel(join_nl, 4);
    assert(seq![a, b, c].drop_last() =~~= seq![a, b]);
    assert(seq![a, b].drop_last() =~~= seq![a]);
    assert(seq![a].drop_last() =~~= Seq::<Seq<char>>::empty());
    assert(join_nl(seq![a, b, c]) =~= a + seq!['\n'] + b + seq!['\n'] + c + seq!['\n']);
}

proof fn lemma_join_nl_concat(a: Seq<Seq<char>>, b: Seq<Seq<char>>)
    ensures
        join_nl(a + b) == join_nl(a) + join_nl(b),
    decreases b.len(),
{
    if b.len() == 0 {
        assert(a + b =~~= a);
        assert(join_nl(a) + join_nl(b) =~= join_nl(a));
    } else {
        lemma_join_nl_concat(a, b.drop_last());
        assert((a + b).drop_last() =~~= a + b.drop_last());
        assert((a + b).last() == b.last());
        assert(join_nl(a) + (join_nl(b.drop_last()) + b.last() + seq!['\n']) =~= (join_nl(a)
            + join_nl(b.drop_last())) + b.last() + seq!['\n']);
        assert(join_nl(a + b) =~= join_nl(a) + join_nl(b));
    }
}

/// The whole document: every line of the snapshot, newline-terminated.
pub open spec fn spec_render(
    snap: Seq<InterfaceEntryV>,
    table: Seq<(Seq<char>, PeerMetaV)>,
    o: RenderOptions,
    now: u64,
) -> Seq<char> {
    join_nl(render_lines(snap, table, o, now))
}

// ---------------------------------------------------------------------------
// The executable renderer
// ---------------------------------------------------------------------------

fn push_label_start(out: &mut String, iface: &str, pk: &str)
    ensures
        final(out)@ == old(out)@ + label_start(iface@, pk@),
{
    let ghost a1 = "{interface=\""@;
    let ghost a2 = esc(iface@);
    let ghost a3 = "\",public_key=\""@;
    let ghost a4 = esc(pk@);
    let ghost a5 = "\""@;
    out.append("{interface=\"");
    push_escaped(out, iface);
    out.append("\",public_key=\"");
    push_escaped(out, pk);
    out.append("\"");
    proof {
        lemma_cat_assoc(old(out)@, a1, a2);
        lemma_cat_assoc(old(out)@, a1 + a2, a3);
        lemma_cat_assoc(old(out)@, a1 + a2 + a3, a4);
        lemma_cat_assoc(old(out)@, a1 + a2 + a3 + a4, a5);
        assert(out@ == old(out)@ + label_start(iface@, pk@));
    }
}

pub proof fn lemma_cat_assoc(x: Seq<char>, a: Seq<char>, b: Seq<char>)
    ensures
        (x + a) + b == x + (a + b),
{
    assert((x + a) + b =~= x + (a + b));
}

proof fn lemma_cat_empty(x: Seq<char>)
    ensures
        x + Seq::<char>::empty() == x,
{
    assert(x + Seq::<char>::empty() =~= x);
}

#[verifier::loop_isolation(false)]
#[verifier::rlimit(100)]
fn push_peer(
    out: &mut String,
    iface: &str,
    p: &PeerRecord,
    meta: Option<&PeerMeta>,
    o: &RenderOptions,
    now: u64,
)
    ensures
        final(out)@ == old(out)@ + join_nl(
            peer_lines(
                iface@,
                p@,
                match meta {
                    Some(m) => Some(m@),
                    None => None,
                },
                *o,
                now,
            ),
        ),
{
    let ghost meta_v: Option<PeerMetaV> = match meta {
        Some(m) => Some(m@),
        None => None,
    };
    let ghost nl = seq!['\n'];
    let ghost j_info = info_line(iface@, p@, meta_v, *o) + nl;
    let ghost l_aip: Seq<Seq<char>> = if o.separate_allowed_ips {
        allowed_ip_lines(iface@, p@.public_key, p@.allowed_ips)
    } else {
        Seq::empty()
    };
    let ghost j_aip = join_nl(l_aip);
    push_info_line(out, iface, p, meta, o);
    proof {
        lemma_cat_assoc(old(out)@, info_line(iface@, p@, meta_v, *o), nl);
        assert(out@ == old(out)@ + j_info);
    }
    // Separate allowed-IP lines.
    if o.separate_allowed_ips {
        push_aip_lines(out, iface, p);
    } else {
        proof {
            assert(join_nl(l_aip) =~= Seq::<char>::empty());
            lemma_cat_empty(out@);
        }
    }
    proof {
        lemma_cat_assoc(old(out)@, j_info, j_aip);
        assert(out@ == old(out)@ + (j_info + j_aip));
    }
    let ghost base2 = old(out)@ + (j_info + j_aip);
    // Counters and handshake.
    let ghost s_sent = sent_line(iface@, p@) + nl;
    push_counter_line(out, iface, p, true);
    let ghost s_recv = recv_line(iface@, p@) + nl;
    push_counter_line(out, iface, p, false);
    let ghost s_hs = handshake_line(iface@, p@) + nl;
    push_handshake_line(out, iface, p);
    proof {
        lemma_cat_assoc(base2, s_sent, s_recv);
        lemma_cat_assoc(base2, s_sent + s_recv, s_hs);
        assert(out@ == base2 + ((s_sent + s_recv) + s_hs));
    }
    let ghost j_mid = (s_sent + s_recv) + s_hs;
    // The optional delay line.
    let ghost l_delay = delay_lines(iface@, p@, *o, now);
    if o.export_latest_handshake_delay {
        match p.latest_handshake {
            Some(ts) => {
                let d = if now >= ts {
                    now - ts
                } else {
                    0
                };
                let ghost base3 = out@;
                out.append("wireguard_latest_handshake_delay_seconds");
                push_label_start(out, iface, p.public_key.as_str());
                out.append("} ");
                push_u64(out, d);
                push_char(out, '\n');
                proof {
                    assert(d == delay_of(ts, now));
                    let b1 = "wireguard_latest_handshake_delay_seconds"@;
                    let b2 = label_start(iface@, p@.public_key);
                    let b3 = "} "@;
                    let b4 = dec_str(d as nat);
                    lemma_cat_assoc(base3, b1, b2);
                    lemma_cat_assoc(base3, b1 + b2, b3);
                    lemma_cat_assoc(base3, b1 + b2 + b3, b4);
                    lemma_cat_assoc(base3, b1 + b2 + b3 + b4, nl);
                    assert(out@ == base3 + (delay_line(iface@, p@.public_key, d) + nl));
                    lemma_join_nl_one(delay_line(iface@, p@.public_key, d));
                }
            },
            None => {
                proof {
                    lemma_cat_empty(out@);
                }
            },
        }
    } else {
        proof {
            lemma_cat_empty(out@);
        }
    }
    proof {
        let j_delay = join_nl(l_delay);
        assert(out@ == (base2 + j_mid) + j_delay);
        lemma_cat_assoc(base2, j_mid, j_delay);
        lemma_cat_assoc(old(out)@, j_info + j_aip, j_mid + j_delay);
        // out == old + ((j_info + j_aip) + (j_mid + j_delay))
        let l_info = seq![info_line(iface@, p@, meta_v, *o)];
        let l_mid = seq![sent_line(iface@, p@), recv_line(iface@, p@), handshake_line(iface@, p@)];
        lemma_join_nl_one(info_line(iface@, p@, meta_v, *o));
        lemma_join_nl_three(sent_line(iface@, p@), recv_line(iface@, p@), handshake_line(iface@, p@));
        lemma_join_nl_concat(l_info, l_aip);
        lemma_join_nl_concat(l_info + l_aip, l_mid);
        lemma_join_nl_concat(l_info + l_aip + l_mid, l_delay);
        assert(peer_lines(iface@, p@, meta_v, *o, now) =~~= l_info + l_aip + l_mid + l_delay);
        assert(join_nl(l_info + l_aip) == j_info + j_aip);
        assert(join_nl(l_info + l_aip + l_mid) == (j_info + j_aip) + j_mid);
        lemma_cat_assoc_rhs(j_info + j_aip, j_mid, join_nl(l_delay));
        assert(out@ == old(out)@ + join_nl(peer_lines(iface@, p@, meta_v, *o, now)));
    }
}

proof fn lemma_cat_assoc_rhs(a: Seq<char>, b: Seq<char>, c: Seq<char>)
    ensures
        a + (b + c) == (a + b) + c,
{
    assert(a + (b + c) =~= (a + b) + c);
}

/// Appends one counter line (sent when `sent` is set, else received) and
/// its newline.
fn push_counter_line(out: &mut String, iface: &str, p: &PeerRecord, sent: bool)
    ensures
        final(out)@ == old(out)@ + (if sent {
            sent_line(iface@, p@)
        } else {
            recv_line(iface@, p@)
        }) + seq!['\n'],
{
    let ghost b2 = label_start(iface@, p@.public_key);
    let ghost b3 = "} "@;
    if sent {
        out.append("wireguard_sent_bytes_total");
    } else {
        out.append("wireguard_received_bytes_total");
    }
    push_label_start(out, iface, p.public_key.as_str());
    out.append("} ");
    if sent {
        push_u64(out, p.tx_bytes);
    } else {
        push_u64(out, p.rx_bytes);
    }
    push_char(out, '\n');
    proof {
        let b1 = if sent {
            "wireguard_sent_bytes_total"@
        } else {
            "wireguard_received_bytes_total"@
        };
        let b4 = if sent {
            dec_str(p@.tx_bytes as nat)
        } else {
            dec_str(p@.rx_bytes as nat)
        };
        lemma_cat_assoc(old(out)@, b1, b2);
        lemma_cat_assoc(old(out)@, b1 + b2, b3);
        lemma_cat_assoc(old(out)@, b1 + b2 + b3, b4);
        assert(out@ == old(out)@ + (b1 + b2 + b3 + b4) + seq!['\n']);
    }
}

/// Appends the handshake timestamp line and its newline; an absent
/// handshake is rendered as `0`.
fn push_handshake_line(out: &mut String, iface: &str, p: &PeerRecord)
    ensures
        final(out)@ == old(out)@ + handshake_line(iface@, p@) + seq!['\n'],
{
    let ghost b1 = "wireguard_latest_handshake_seconds"@;
    let ghost b2 = label_start(iface@, p@.public_key);
    let ghost b3 = "} "@;
    out.append("wireguard_latest_handshake_seconds");
    push_label_start(out, iface, p.public_key.as_str());
    out.append("} ");
    let hs = match p.latest_handshake {
        Some(ts) => ts,
        None => 0,
    };
    push_u64(out, hs);
    push_char(out, '\n');
    proof {
        let b4 = dec_str(hs as nat);
        lemma_cat_assoc(old(out)@, b1, b2);
        lemma_cat_assoc(old(out)@, b1 + b2, b3);
        lemma_cat_assoc(old(out)@, b1 + b2 + b3, b4);
        assert(out@ == old(out)@ + (b1 + b2 + b3 + b4) + seq!['\n']);
    }
}

/// Appends the peer-info line and its newline.
#[verifier::loop_isolation(false)]
#[verifier::rlimit(100)]
fn push_info_line(out: &mut String, iface: &str, p: &PeerRecord, meta: Option<&PeerMeta>, o: &RenderOptions)
    ensures
        final(out)@ == old(out)@ + info_line(
            iface@,
            p@,
            match meta {
                Some(m) => Some(m@),
                None => None,
            },
            *o,
        ) + seq!['\n'],
{
    let ghost meta_v: Option<PeerMetaV> = match meta {
        Some(m) => Some(m@),
        None => None,
    };
    let ghost a1 = "wireguard_peer_info"@;
    let ghost a2 = label_start(iface@, p@.public_key);
    out.append("wireguard_peer_info");
    push_label_start(out, iface, p.public_key.as_str());
    proof {
        lemma_cat_assoc(old(out)@, a1, a2);
    }
    let ghost x1 = a1 + a2;
    // out == old + x1
    let ghost fl = friendly_labels(meta_v);
    match meta {
        None => {
            proof {
                lemma_cat_empty(out@);
            }
        },
        Some(m) => match &m.friendly {
            None => {
                proof {
                    lemma_cat_empty(out@);
                }
            },
            Some(FriendlyMetadata::Name(n)) => {
                let ghost base = out@;
                let ghost f1 = ",friendly_name=\""@;
                let ghost f2 = esc(n@);
                let ghost f3 = "\""@;
                out.append(",friendly_name=\"");
                push_escaped(out, n.as_str());
                out.append("\"");
                proof {
                    lemma_cat_assoc(base, f1, f2);
                    lemma_cat_assoc(base, f1 + f2, f3);
                    assert(out@ == base + fl);
                }
            },
            Some(FriendlyMetadata::Labels(ps)) => {
                let ghost pv = ps@.map_values(|q: (String, String)| (q.0@, q.1@));
                let ghost base = out@;
                let nlab = ps.len();
                let mut k: usize = 0;
                proof {
                    assert(pv.subrange(0, 0) =~~= Seq::<(Seq<char>, Seq<char>)>::empty());
                    lemma_cat_empty(base);
                    assert(out@ == base + labels_cat(pv.subrange(0, 0)));
                }
                while k < nlab
                    invariant
                        nlab == ps@.len(),
                        k <= nlab,
                        out@ == base + labels_cat(pv.subrange(0, k as int)),
                    decreases nlab - k,
                {
                    proof {
                        assert(pv[k as int] == (ps@[k as int].0@, ps@[k as int].1@));
                        assert(pv.subrange(0, (k + 1) as int).drop_last() =~~= pv.subrange(
                            0,
                            k as int,
                        ));
                        assert(pv.subrange(0, (k + 1) as int).last() == pv[k as int]);
                    }
                    let ghost cat0 = labels_cat(pv.subrange(0, k as int));
                    let ghost g1 = ","@;
                    let ghost g2 = pv[k as int].0;
                    let ghost g3 = "=\""@;
                    let ghost g4 = esc(pv[k as int].1);
                    let ghost g5 = "\""@;
                    out.append(",");
                    out.append(ps[k].0.as_str());
                    out.append("=\"");
                    push_escaped(out, ps[k].1.as_str());
                    out.append("\"");
                    proof {
                        lemma_cat_assoc(base, cat0, g1);
                        lemma_cat_assoc(base, cat0 + g1, g2);
                        lemma_cat_assoc(base, cat0 + g1 + g2, g3);
                        lemma_cat_assoc(base, cat0 + g1 + g2 + g3, g4);
                        lemma_cat_assoc(base, cat0 + g1 + g2 + g3 + g4, g5);
                        assert(out@ == base + labels_cat(pv.subrange(0, (k + 1) as int)));
                    }
                    k += 1;
                }
                proof {
                    assert(pv.subrange(0, nlab as int) =~~= pv);
                    assert(friendly_labels(meta_v) == labels_cat(pv));
                }
            },
        },
    }
    proof {
        lemma_cat_assoc(old(out)@, x1, fl);
        assert(out@ == old(out)@ + (x1 + fl));
    }
    let ghost x2 = x1 + fl;
    let ghost al = allowed_label(p@, *o);
    if !o.separate_allowed_ips {
        let ghost base = out@;
        let ghost h1 = ",allowed_ips=\""@;
        let ghost h2 = esc(join_comma(p@.allowed_ips));
        let ghost h3 = "\""@;
        out.append(",allowed_ips=\"");
        let joined = join_strings(&p.allowed_ips);
        proof {
            assert(p.allowed_ips.deep_view() =~~= p@.allowed_ips);
            assert(joined@ == join_comma(p@.allowed_ips));
        }
        push_escaped(out, joined.as_str());
        out.append("\"");
        proof {
            lemma_cat_assoc(base, h1, h2);
            lemma_cat_assoc(base, h1 + h2, h3);
            assert(out@ == base + al);
        }
    } else {
        proof {
            lemma_cat_empty(out@);
        }
    }
    proof {
        lemma_cat_assoc(old(out)@, x2, al);
        assert(out@ == old(out)@ + (x2 + al));
    }
    let ghost x3 = x2 + al;
    let ghost el = endpoint_labels(p@, *o);
    if o.export_remote_ip_and_port {
        match &p.endpoint {
            Some(e) => {
                let ghost base = out@;
                let ghost r1 = ",remote_ip=\""@;
                let ghost r2 = esc(e@.host);
                let ghost r3 = "\",remote_port=\""@;
                let ghost r4 = esc(e@.port);
                let ghost r5 = "\""@;
                out.append(",remote_ip=\"");
                push_escaped(out, e.host.as_str());
                out.append("\",remote_port=\"");
                push_escaped(out, e.port.as_str());
                out.append("\"");
                proof {
                    lemma_cat_assoc(base, r1, r2);
                    lemma_cat_assoc(base, r1 + r2, r3);
                    lemma_cat_assoc(base, r1 + r2 + r3, r4);
                    lemma_cat_assoc(base, r1 + r2 + r3 + r4, r5);
                    assert(out@ == base + el);
                }
            },
            None => {
                proof {
                    lemma_cat_empty(out@);
                }
            },
        }
    } else {
        proof {
            lemma_cat_empty(out@);
        }
    }
    proof {
        lemma_cat_assoc(old(out)@, x3, el);
    }
    let ghost x4 = x3 + el;
    let ghost t1 = "} 1"@;
    out.append("} 1");
    push_char(out, '\n');
    proof {
        lemma_cat_assoc(old(out)@, x4, t1);
        lemma_cat_assoc(old(out)@, x4 + t1, seq!['\n']);
        assert(x4 + t1 == info_line(iface@, p@, meta_v, *o));
        lemma_cat_assoc_rhs(old(out)@, info_line(iface@, p@, meta_v, *o), seq!['\n']);
        assert(out@ == old(out)@ + info_line(iface@, p@, meta_v, *o) + seq!['\n']);
    }
}

/// Appends one zero-value allowed-IP line per CIDR, each with its newline.
#[verifier::loop_isolation(false)]
#[verifier::rlimit(100)]
fn push_aip_lines(out: &mut String, iface: &str, p: &PeerRecord)
    ensures
        final(out)@ == old(out)@ + join_nl(
            allowed_ip_lines(iface@, p@.public_key, p@.allowed_ips),
        ),
{
    let ghost cv = p@.allowed_ips;
    let ncidr = p.allowed_ips.len();
    let mut k: usize = 0;
    proof {
        assert(cv.subrange(0, 0) =~~= Seq::<Seq<char>>::empty());
        lemma_cat_empty(old(out)@);
        assert(out@ == old(out)@ + join_nl(
            allowed_ip_lines(iface@, p@.public_key, cv.subrange(0, 0)),
        ));
    }
    while k < ncidr
        invariant
            ncidr == p.allowed_ips@.len(),
            k <= ncidr,
            out@ == old(out)@ + join_nl(
                allowed_ip_lines(iface@, p@.public_key, cv.subrange(0, k as int)),
            ),
        decreases ncidr - k,
    {
        proof {
            assert(cv[k as int] == p.allowed_ips@[k as int]@);
            assert(cv.subrange(0, (k + 1) as int).drop_last() =~~= cv.subrange(0, k as int));
            assert(cv.subrange(0, (k + 1) as int).last() == cv[k as int]);
        }
        let ghost prev_lines = allowed_ip_lines(iface@, p@.public_key, cv.subrange(0, k as int));
        let ghost new_line = allowed_ip_line(iface@, p@.public_key, cv[k as int]);
        let ghost base = out@;
        let ghost c1 = "wireguard_peer_allowed_ip"@;
        let ghost c2 = label_start(iface@, p@.public_key);
        let ghost c3 = ",allowed_ip=\""@;
        let ghost c4 = esc(cv[k as int]);
        let ghost c5 = "\"} 0"@;
        out.append("wireguard_peer_allowed_ip");
        push_label_start(out, iface, p.public_key.as_str());
        out.append(",allowed_ip=\"");
        push_escaped(out, p.allowed_ips[k].as_str());
        out.append("\"} 0");
        push_char(out, '\n');
        proof {
            lemma_cat_assoc(base, c1, c2);
            lemma_cat_assoc(base, c1 + c2, c3);
            lemma_cat_assoc(base, c1 + c2 + c3, c4);
            lemma_cat_assoc(base, c1 + c2 + c3 + c4, c5);
            lemma_cat_assoc(base, c1 + c2 + c3 + c4 + c5, seq!['\n']);
            assert(c1 + c2 + c3 + c4 + c5 == new_line);
            assert(out@ == base + (new_line + seq!['\n']));
            assert(allowed_ip_lines(iface@, p@.public_key, cv.subrange(0, (k + 1) as int))
                =~~= prev_lines.push(new_line));
            assert(prev_lines.push(new_line).drop_last() =~~= prev_lines);
            assert(prev_lines.push(new_line).last() == new_line);
            assert(join_nl(prev_lines.push(new_line)) == join_nl(prev_lines) + new_line
                + seq!['\n']);
            lemma_cat_assoc(old(out)@, join_nl(prev_lines), new_line + seq!['\n']);
            lemma_cat_assoc_rhs(join_nl(prev_lines), new_line, seq!['\n']);
            assert(out@ == old(out)@ + join_nl(
                allowed_ip_lines(iface@, p@.public_key, cv.subrange(0, (k + 1) as int)),
            ));
        }
        k += 1;
    }
    proof {
        assert(cv.subrange(0, ncidr as int) =~~= cv);
    }
}

#[verifier::loop_isolation(false)]
pub fn render_at(
    snap: &Snapshot,
    table: &MetadataTable,
    o: &RenderOptions,
    now: u64,
) -> (r: String)
    ensures
        r@ == spec_render(snap@, table@, *o, now),
{
    let mut out = String::new();
    let nif = snap.interfaces.len();
    let mut i: usize = 0;
    proof {
        assert(snap@.subrange(0, 0) =~~= Seq::<InterfaceEntryV>::empty());
        assert(out@ =~= join_nl(render_lines(snap@.subrange(0, 0), table@, *o, now)));
    }
    while i < nif
        invariant
            nif == snap.interfaces@.len(),
            i <= nif,
            out@ == join_nl(render_lines(snap@.subrange(0, i as int), table@, *o, now)),
        decreases nif - i,
    {
        proof {
            assert(snap@[i as int] == snap.interfaces@[i as int]@);
            assert(snap@.subrange(0, (i + 1) as int).drop_last() =~~= snap@.subrange(0, i as int));
            assert(snap@.subrange(0, (i + 1) as int).last() == snap@[i as int]);
        }
        let entry = &snap.interfaces[i];
        let ghost iface_v = entry.device.interface@;
        let ghost peers_v = entry@.peers;
        let npeer = entry.peers.len();
        let mut j: usize = 0;
        let ghost before_entry = out@;
        proof {
            assert(peers_v.subrange(0, 0) =~~= Seq::<PeerRecordV>::empty());
            assert(out@ =~= before_entry + join_nl(
                peers_lines(iface_v, peers_v.subrange(0, 0), table@, *o, now),
            ));
        }
        while j < npeer
            invariant
                npeer == entry.peers@.len(),
                j <= npeer,
                out@ == before_entry + join_nl(
                    peers_lines(iface_v, peers_v.subrange(0, j as int), table@, *o, now),
                ),
            decreases npeer - j,
        {
            proof {
                assert(peers_v[j as int] == entry.peers@[j as int]@);
                assert(peers_v.subrange(0, (j + 1) as int).drop_last() =~~= peers_v.subrange(
                    0,
                    j as int,
                ));
                assert(peers_v.subrange(0, (j + 1) as int).last() == peers_v[j as int]);
            }
            let p = &entry.peers[j];
            let meta = table.lookup(p.public_key.as_str());
            push_peer(&mut out, entry.device.interface.as_str(), p, meta, o, now);
            proof {
                lemma_join_nl_concat(
                    peers_lines(iface_v, peers_v.subrange(0, j as int), table@, *o, now),
                    peer_lines(
                        iface_v,
                        peers_v[j as int],
                        lookup_meta(table@, peers_v[j as int].public_key),
                        *o,
                        now,
                    ),
                );
                assert(out@ =~= before_entry + join_nl(
                    peers_lines(iface_v, peers_v.subrange(0, (j + 1) as int), table@, *o, now),
                ));
            }
            j += 1;
        }
        proof {
            assert(peers_v.subrange(0, npeer as int) =~~= peers_v);
            lemma_join_nl_concat(
                render_lines(snap@.subrange(0, i as int), table@, *o, now),
                peers_lines(iface_v, peers_v, table@, *o, now),
            );
            assert(out@ =~= join_nl(
                render_lines(snap@.subrange(0, (i + 1) as int), table@, *o, now),
            ));
        }
        i += 1;
    }
    proof {
        assert(snap@.subrange(0, nif as int) =~~= snap@);
    }
    out
}

/// Relies on `std::time::SystemTime::now` and `duration_since`: the
/// seconds of the Unix epoch at the moment of the call; zero when the
/// clock reads before the epoch.
#[verifier::external_body]
pub(crate) fn unix_now() -> u64 {
    match std::time::SystemTime::now().duration_since(std::time::UNIX_EPOCH) {
        Ok(d) => d.as_secs(),
        Err(_) => 0,
    }
}

/// Renders with the current time as the single time sample.
pub fn render(snap: &Snapshot, table: &MetadataTable, o: &RenderOptions) -> (r: String)
    ensures
        exists|now: u64| r@ == spec_render(snap@, table@, *o, now),
{
    let now = unix_now();
    let r = render_at(snap, table, o, now);
    proof {
        assert(r@ == spec_render(snap@, table@, *o, now));
    }
    r
}

} // verus!
