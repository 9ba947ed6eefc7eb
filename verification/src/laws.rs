//! Laws relating the pipeline's components, stated and proved once over
//! every input.

use vstd::prelude::*;
use vstd::seq_lib::*;

use crate::dump::spec_parse_dump;
use crate::metadata::{
    FriendlyMetadataV, PeerMetaV, apply_names, lookup_meta, upsert_name,
};
use crate::render::{
    RenderOptions, allowed_ip_line, allowed_ip_lines, delay_line, delay_lines, esc,
    handshake_line, info_line, join_comma, peer_lines, peers_lines, recv_line, render_lines,
    sent_line,
};
use crate::snapshot::{InterfaceEntryV, PeerRecordV, snapshot_wf};
use crate::text::{lemma_split_chars_append, lemma_split_chars_no_sep, split_chars};

verus! {

// ---------------------------------------------------------------------------
// Handshake delay
// ---------------------------------------------------------------------------

/// A peer that never completed a handshake yields no delay line, whatever
/// the options hold; with the delay option on, a peer whose handshake
/// happened at time `ts` no later than `now` yields exactly one delay
/// line carrying `now - ts`.
pub proof fn lemma_handshake_delay(iface: Seq<char>, p: PeerRecordV, o: RenderOptions, now: u64)
    ensures
        p.latest_handshake is None ==> delay_lines(iface, p, o, now)
            =~~= Seq::<Seq<char>>::empty(),
        (o.export_latest_handshake_delay && p.latest_handshake is Some
            && now >= p.latest_handshake->Some_0) ==> delay_lines(iface, p, o, now) =~~= seq![
            delay_line(iface, p.public_key, (now - p.latest_handshake->Some_0) as u64),
        ],
{
}

// ---------------------------------------------------------------------------
// Name-mapping precedence
// ---------------------------------------------------------------------------

/// The allowed-IPs component of a lookup result.
pub open spec fn allowed_of(m: Option<PeerMetaV>) -> Option<Seq<char>> {
    match m {
        Some(m) => m.allowed_ips,
        None => None,
    }
}

proof fn lemma_lookup_upsert_same(t: Seq<(Seq<char>, PeerMetaV)>, k: Seq<char>, v: Seq<char>)
    ensures
        lookup_meta(upsert_name(t, k, v), k) == Some(
            PeerMetaV {
                friendly: Some(FriendlyMetadataV::Name(v)),
                allowed_ips: allowed_of(lookup_meta(t, k)),
            },
        ),
    decreases t.len(),
{
    if t.len() == 0 {
        let u = upsert_name(t, k, v);
        assert(u[0].0 == k);
        assert(u.len() == 1);
    } else if t[0].0 == k {
        let u = upsert_name(t, k, v);
        assert(u[0].0 == k);
    } else {
        lemma_lookup_upsert_same(t.drop_first(), k, v);
        let u = upsert_name(t, k, v);
        assert(u[0] == t[0]);
        assert(u.drop_first() =~~= upsert_name(t.drop_first(), k, v));
    }
}

proof fn lemma_lookup_upsert_other(
    t: Seq<(Seq<char>, PeerMetaV)>,
    k: Seq<char>,
    v: Seq<char>,
    k2: Seq<char>,
)
    requires
        k2 != k,
    ensures
        lookup_meta(upsert_name(t, k, v), k2) == lookup_meta(t, k2),
    decreases t.len(),
{
    let u = upsert_name(t, k, v);
    if t.len() == 0 {
        assert(u[0].0 == k);
        assert(u.drop_first() =~~= Seq::<(Seq<char>, PeerMetaV)>::empty());
        assert(lookup_meta(Seq::<(Seq<char>, PeerMetaV)>::empty(), k2) is None);
        assert(lookup_meta(u, k2) is None);
        assert(lookup_meta(t, k2) is None);
    } else if t[0].0 == k {
        assert(u[0].0 == k);
        assert(u.drop_first() =~~= t.drop_first());
        assert(lookup_meta(u, k2) == lookup_meta(t.drop_first(), k2));
        assert(lookup_meta(t, k2) == lookup_meta(t.drop_first(), k2));
    } else {
        lemma_lookup_upsert_other(t.drop_first(), k, v, k2);
        assert(u[0] == t[0]);
        assert(u.drop_first() =~~= upsert_name(t.drop_first(), k, v));
        if t[0].0 == k2 {
            assert(lookup_meta(u, k2) == Some(u[0].1));
            assert(lookup_meta(t, k2) == Some(t[0].1));
        } else {
            assert(lookup_meta(u, k2) == lookup_meta(upsert_name(t.drop_first(), k, v), k2));
            assert(lookup_meta(t, k2) == lookup_meta(t.drop_first(), k2));
        }
    }
}

proof fn lemma_apply_names_no_key(
    t: Seq<(Seq<char>, PeerMetaV)>,
    pairs: Seq<(Seq<char>, Seq<char>)>,
    i: int,
    k2: Seq<char>,
)
    requires
        forall|j: int| i <= j < pairs.len() ==> (#[trigger] pairs[j]).0 != k2,
    ensures
        lookup_meta(apply_names(t, pairs, i), k2) == lookup_meta(t, k2),
    decreases pairs.len() - i,
{
    if 0 <= i < pairs.len() {
        lemma_lookup_upsert_other(t, pairs[i].0, pairs[i].1, k2);
        lemma_apply_names_no_key(upsert_name(t, pairs[i].0, pairs[i].1), pairs, i + 1, k2);
    }
}

proof fn lemma_precedence_from(
    t: Seq<(Seq<char>, PeerMetaV)>,
    pairs: Seq<(Seq<char>, Seq<char>)>,
    i: int,
    j: int,
    k: Seq<char>,
    v: Seq<char>,
)
    requires
        0 <= i <= j < pairs.len(),
        pairs[j] == (k, v),
        forall|j2: int| j < j2 < pairs.len() ==> (#[trigger] pairs[j2]).0 != k,
    ensures
        lookup_meta(apply_names(t, pairs, i), k) == Some(
            PeerMetaV {
                friendly: Some(FriendlyMetadataV::Name(v)),
                allowed_ips: allowed_of(lookup_meta(t, k)),
            },
        ),
    decreases j - i,
{
    if i == j {
        lemma_lookup_upsert_same(t, k, v);
        lemma_apply_names_no_key(upsert_name(t, k, v), pairs, j + 1, k);
    } else {
        let t2 = upsert_name(t, pairs[i].0, pairs[i].1);
        lemma_precedence_from(t2, pairs, i + 1, j, k, v);
        if pairs[i].0 == k {
            lemma_lookup_upsert_same(t, k, pairs[i].1);
        } else {
            lemma_lookup_upsert_other(t, pairs[i].0, pairs[i].1, k);
        }
    }
}

/// Name-mapping precedence: when the resolved table is built from a base
/// table (config-derived) and name-mapping pairs, the last pair naming a
/// key decides that key's friendly name, while allowed-IPs information
/// the base table held for the key is kept underneath; a key the base
/// table lacks ends up with no allowed-IPs of its own.
pub proof fn lemma_name_mapping_precedence(
    t: Seq<(Seq<char>, PeerMetaV)>,
    pairs: Seq<(Seq<char>, Seq<char>)>,
    j: int,
    k: Seq<char>,
    v: Seq<char>,
)
    requires
        0 <= j < pairs.len(),
        pairs[j] == (k, v),
        forall|j2: int| j < j2 < pairs.len() ==> (#[trigger] pairs[j2]).0 != k,
    ensures
        lookup_meta(apply_names(t, pairs, 0), k) == Some(
            PeerMetaV {
                friendly: Some(FriendlyMetadataV::Name(v)),
                allowed_ips: allowed_of(lookup_meta(t, k)),
            },
        ),
{
    lemma_precedence_from(t, pairs, 0, j, k, v);
}

// ---------------------------------------------------------------------------
// Allowed-IPs round trip
// ---------------------------------------------------------------------------

/// A CIDR string as rendered into labels: free of the list delimiter and
/// of the characters the escaper rewrites.
pub open spec fn plain_cidr(s: Seq<char>) -> bool {
    forall|j: int| 0 <= j < s.len() ==> s[j] != ',' && s[j] != '\\' && s[j] != '"' && s[j] != '\n'
}

proof fn lemma_join_comma_front(items: Seq<Seq<char>>)
    requires
        items.len() >= 2,
    ensures
        join_comma(items) == items[0] + seq![','] + join_comma(items.drop_first()),
    decreases items.len(),
{
    reveal_with_fuel(join_comma, 3);
    if items.len() == 2 {
        assert(items.drop_last() =~~= seq![items[0]]);
        assert(items.drop_first() =~~= seq![items[1]]);
        assert(join_comma(items) =~= items[0] + seq![','] + join_comma(items.drop_first()));
    } else {
        lemma_join_comma_front(items.drop_last());
        assert(items.drop_last().drop_first() =~~= items.drop_first().drop_last());
        assert(items.drop_last()[0] == items[0]);
        assert(items.drop_first().last() == items.last());
        assert(join_comma(items) =~= items[0] + seq![','] + join_comma(items.drop_first()));
    }
}

proof fn lemma_join_comma_plain(items: Seq<Seq<char>>)
    requires
        forall|i: int| 0 <= i < items.len() ==> plain_cidr(#[trigger] items[i]),
    ensures
        forall|j: int| 0 <= j < join_comma(items).len() ==> join_comma(items)[j] != '\\'
            && join_comma(items)[j] != '"' && join_comma(items)[j] != '\n',
    decreases items.len(),
{
    if items.len() == 0 {
    } else if items.len() == 1 {
        assert(plain_cidr(items[0]));
    } else {
        lemma_join_comma_plain(items.drop_last());
        assert(plain_cidr(items.last()));
        assert forall|j: int| 0 <= j < join_comma(items).len() implies join_comma(items)[j] != '\\'
            && join_comma(items)[j] != '"' && join_comma(items)[j] != '\n' by {
            let a = join_comma(items.drop_last());
            if j < a.len() {
            } else if j == a.len() {
            } else {
                assert(join_comma(items)[j] == items.last()[j - a.len() - 1]);
            }
        }
    }
}

proof fn lemma_join_split_round_trip(items: Seq<Seq<char>>)
    requires
        items.len() > 0,
        forall|i: int| 0 <= i < items.len() ==> plain_cidr(#[trigger] items[i]),
    ensures
        split_chars(join_comma(items), ',') =~~= items,
    decreases items.len(),
{
    if items.len() == 1 {
        lemma_split_chars_no_sep(items[0], ',');
        assert(split_chars(join_comma(items), ',') =~~= items);
    } else {
        lemma_join_comma_front(items);
        lemma_split_chars_append(items[0], join_comma(items.drop_first()), ',');
        lemma_join_split_round_trip(items.drop_first());
        assert(split_chars(join_comma(items), ',') =~~= seq![items[0]] + items.drop_first());
        assert(seq![items[0]] + items.drop_first() =~~= items);
    }
}

/// The structure of the separate allowed-IP rendering: exactly one
/// zero-value line per CIDR, in list order.
pub proof fn lemma_allowed_ip_lines_structure(iface: Seq<char>, pk: Seq<char>, cidrs: Seq<Seq<char>>)
    ensures
        allowed_ip_lines(iface, pk, cidrs).len() == cidrs.len(),
        forall|k: int| 0 <= k < cidrs.len() ==> allowed_ip_lines(iface, pk, cidrs)[k]
            == allowed_ip_line(iface, pk, #[trigger] cidrs[k]),
    decreases cidrs.len(),
{
    if cidrs.len() > 0 {
        lemma_allowed_ip_lines_structure(iface, pk, cidrs.drop_last());
        assert forall|k: int| 0 <= k < cidrs.len() implies allowed_ip_lines(iface, pk, cidrs)[k]
            == allowed_ip_line(iface, pk, #[trigger] cidrs[k]) by {
            if k < cidrs.len() - 1 {
                assert(cidrs.drop_last()[k] == cidrs[k]);
            }
        }
    }
}

/// Round trip of the allowed-IP list through either rendering: the
/// comma-joined label value is the join unchanged by escaping and splits
/// back into exactly the original CIDRs, and the separate rendering
/// yields one line per CIDR in the same order — so the list recoverable
/// from either rendering is the same.
pub proof fn lemma_allowed_ips_round_trip(iface: Seq<char>, pk: Seq<char>, cidrs: Seq<Seq<char>>)
    requires
        cidrs.len() > 0,
        forall|i: int| 0 <= i < cidrs.len() ==> plain_cidr(#[trigger] cidrs[i]),
    ensures
        esc(join_comma(cidrs)) == join_comma(cidrs),
        split_chars(join_comma(cidrs), ',') =~~= cidrs,
        allowed_ip_lines(iface, pk, cidrs).len() == cidrs.len(),
        forall|k: int| 0 <= k < cidrs.len() ==> allowed_ip_lines(iface, pk, cidrs)[k]
            == allowed_ip_line(iface, pk, #[trigger] cidrs[k]),
{
    lemma_join_comma_plain(cidrs);
    crate::render::lemma_esc_plain(join_comma(cidrs));
    lemma_join_split_round_trip(cidrs);
    lemma_allowed_ip_lines_structure(iface, pk, cidrs);
}

// ---------------------------------------------------------------------------
// Parse/render round trip of peers and counters
// ---------------------------------------------------------------------------

/// Whether a rendered line is a sent-bytes counter line: every line
/// begins with its metric name, and at index ten — right after the
/// shared `wireguard_` prefix — the names of the six families diverge
/// (`s` for sent, `r` for received, `p` for the info and allowed-IP
/// lines, `l` for the handshake and delay lines).
pub open spec fn is_sent_line(l: Seq<char>) -> bool {
    l.len() > 10 && l[10] == 's'
}

/// Whether a rendered line is a received-bytes counter line.
pub open spec fn is_recv_line(l: Seq<char>) -> bool {
    l.len() > 10 && l[10] == 'r'
}

/// The sent-bytes lines of every peer of one interface, in peer order.
pub open spec fn sent_of_peers(iface: Seq<char>, peers: Seq<PeerRecordV>) -> Seq<Seq<char>>
    decreases peers.len(),
{
    if peers.len() == 0 {
        Seq::empty()
    } else {
        sent_of_peers(iface, peers.drop_last()).push(sent_line(iface, peers.last()))
    }
}

/// The received-bytes lines of every peer of one interface, in peer order.
pub open spec fn recv_of_peers(iface: Seq<char>, peers: Seq<PeerRecordV>) -> Seq<Seq<char>>
    decreases peers.len(),
{
    if peers.len() == 0 {
        Seq::empty()
    } else {
        recv_of_peers(iface, peers.drop_last()).push(recv_line(iface, peers.last()))
    }
}

/// The sent-bytes lines of every peer of a snapshot, in snapshot order.
pub open spec fn sent_of_snap(snap: Seq<InterfaceEntryV>) -> Seq<Seq<char>>
    decreases snap.len(),
{
    if snap.len() == 0 {
        Seq::empty()
    } else {
        sent_of_snap(snap.drop_last()) + sent_of_peers(
            snap.last().device.interface,
            snap.last().peers,
        )
    }
}

/// The received-bytes lines of every peer of a snapshot, in snapshot order.
pub open spec fn recv_of_snap(snap: Seq<InterfaceEntryV>) -> Seq<Seq<char>>
    decreases snap.len(),
{
    if snap.len() == 0 {
        Seq::empty()
    } else {
        recv_of_snap(snap.drop_last()) + recv_of_peers(
            snap.last().device.interface,
            snap.last().peers,
        )
    }
}

proof fn lemma_filter_none<A>(s: Seq<A>, pred: spec_fn(A) -> bool)
    requires
        forall|i: int| 0 <= i < s.len() ==> !pred(#[trigger] s[i]),
    ensures
        s.filter(pred) =~~= Seq::<A>::empty(),
    decreases s.len(),
{
    reveal(Seq::filter);
    if s.len() > 0 {
        assert forall|i: int| 0 <= i < s.drop_last().len() implies !pred(
            #[trigger] s.drop_last()[i],
        ) by {
            assert(s.drop_last()[i] == s[i]);
        }
        lemma_filter_none(s.drop_last(), pred);
        assert(s.last() == s[s.len() - 1]);
        assert(!pred(s.last()));
        assert(s.filter(pred) =~~= Seq::<A>::empty());
    }
}

proof fn lemma_line_heads()
    ensures
        ("wireguard_peer_info"@).len() == 19 && ("wireguard_peer_info"@)[10] == 'p',
        ("wireguard_peer_allowed_ip"@).len() == 25 && ("wireguard_peer_allowed_ip"@)[10] == 'p',
        ("wireguard_sent_bytes_total"@).len() == 26 && ("wireguard_sent_bytes_total"@)[10] == 's',
        ("wireguard_received_bytes_total"@).len() == 30 && ("wireguard_received_bytes_total"@)[10]
            == 'r',
        ("wireguard_latest_handshake_seconds"@).len() == 34
            && ("wireguard_latest_handshake_seconds"@)[10] == 'l',
        ("wireguard_latest_handshake_delay_seconds"@).len() == 40
            && ("wireguard_latest_handshake_delay_seconds"@)[10] == 'l',
{
    reveal_strlit("wireguard_peer_info");
    reveal_strlit("wireguard_peer_allowed_ip");
    reveal_strlit("wireguard_sent_bytes_total");
    reveal_strlit("wireguard_received_bytes_total");
    reveal_strlit("wireguard_latest_handshake_seconds");
    reveal_strlit("wireguard_latest_handshake_delay_seconds");
}

proof fn lemma_peer_lines_filter(
    iface: Seq<char>,
    p: PeerRecordV,
    meta: Option<PeerMetaV>,
    o: RenderOptions,
    now: u64,
)
    ensures
        peer_lines(iface, p, meta, o, now).filter(|l: Seq<char>| is_sent_line(l)) =~~= seq![
            sent_line(iface, p),
        ],
        peer_lines(iface, p, meta, o, now).filter(|l: Seq<char>| is_recv_line(l)) =~~= seq![
            recv_line(iface, p),
        ],
{
    lemma_line_heads();
    reveal_with_fuel(Seq::filter, 4);
    broadcast use Seq::filter_distributes_over_add;

    let ls = peer_lines(iface, p, meta, o, now);
    let l_info = seq![info_line(iface, p, meta, o)];
    let l_aip: Seq<Seq<char>> = if o.separate_allowed_ips {
        allowed_ip_lines(iface, p.public_key, p.allowed_ips)
    } else {
        Seq::empty()
    };
    let l_mid = seq![sent_line(iface, p), recv_line(iface, p), handshake_line(iface, p)];
    let l_delay = delay_lines(iface, p, o, now);
    assert(ls =~~= (l_info + l_aip) + (l_mid + l_delay));
    // The info line is neither counter.
    assert(info_line(iface, p, meta, o)[10] == 'p');
    let spred = |l: Seq<char>| is_sent_line(l);
    let rpred = |l: Seq<char>| is_recv_line(l);
    lemma_filter_none(l_info, spred);
    lemma_filter_none(l_info, rpred);
    // Allowed-IP lines are neither counter.
    lemma_allowed_ip_lines_structure(iface, p.public_key, p.allowed_ips);
    assert forall|i: int| 0 <= i < l_aip.len() implies !spred(#[trigger] l_aip[i]) && !rpred(
        l_aip[i],
    ) by {
        assert(l_aip[i] == allowed_ip_line(iface, p.public_key, p.allowed_ips[i]));
        assert(l_aip[i][10] == 'p');
    }
    lemma_filter_none(l_aip, spred);
    lemma_filter_none(l_aip, rpred);
    // Delay lines are neither counter.
    assert forall|i: int| 0 <= i < l_delay.len() implies !spred(#[trigger] l_delay[i]) && !rpred(
        l_delay[i],
    ) by {
        assert(l_delay[i][10] == 'l');
    }
    lemma_filter_none(l_delay, spred);
    lemma_filter_none(l_delay, rpred);
    // Of the middle three, exactly the matching counter survives.
    assert(sent_line(iface, p)[10] == 's');
    assert(recv_line(iface, p)[10] == 'r');
    assert(handshake_line(iface, p)[10] == 'l');
    let e0: Seq<Seq<char>> = Seq::empty();
    let s1 = seq![sent_line(iface, p)];
    let s2 = seq![sent_line(iface, p), recv_line(iface, p)];
    assert(e0.filter(spred) =~~= e0);
    assert(e0.filter(rpred) =~~= e0);
    assert(s1.drop_last() =~~= e0);
    assert(s1.last() == sent_line(iface, p));
    assert(s1.filter(spred) =~~= seq![sent_line(iface, p)]);
    assert(s1.filter(rpred) =~~= e0);
    assert(s2.drop_last() =~~= s1);
    assert(s2.last() == recv_line(iface, p));
    assert(s2.filter(spred) =~~= seq![sent_line(iface, p)]);
    assert(s2.filter(rpred) =~~= seq![recv_line(iface, p)]);
    assert(l_mid.drop_last() =~~= s2);
    assert(l_mid.last() == handshake_line(iface, p));
    assert(l_mid.filter(spred) =~~= seq![sent_line(iface, p)]);
    assert(l_mid.filter(rpred) =~~= seq![recv_line(iface, p)]);
    assert(ls.filter(spred) =~~= seq![sent_line(iface, p)]);
    assert(ls.filter(rpred) =~~= seq![recv_line(iface, p)]);
}

proof fn lemma_peers_lines_filter(
    iface: Seq<char>,
    peers: Seq<PeerRecordV>,
    table: Seq<(Seq<char>, PeerMetaV)>,
    o: RenderOptions,
    now: u64,
)
    ensures
        peers_lines(iface, peers, table, o, now).filter(|l: Seq<char>| is_sent_line(l))
            =~~= sent_of_peers(iface, peers),
        peers_lines(iface, peers, table, o, now).filter(|l: Seq<char>| is_recv_line(l))
            =~~= recv_of_peers(iface, peers),
    decreases peers.len(),
{
    broadcast use Seq::filter_distributes_over_add;

    let spred = |l: Seq<char>| is_sent_line(l);
    let rpred = |l: Seq<char>| is_recv_line(l);
    if peers.len() == 0 {
        assert(peers_lines(iface, peers, table, o, now).filter(spred) =~~= sent_of_peers(
            iface,
            peers,
        ));
        assert(peers_lines(iface, peers, table, o, now).filter(rpred) =~~= recv_of_peers(
            iface,
            peers,
        ));
    } else {
        lemma_peers_lines_filter(iface, peers.drop_last(), table, o, now);
        lemma_peer_lines_filter(
            iface,
            peers.last(),
            lookup_meta(table, peers.last().public_key),
            o,
            now,
        );
        assert(peers_lines(iface, peers, table, o, now).filter(spred) =~~= sent_of_peers(
            iface,
            peers,
        ));
        assert(peers_lines(iface, peers, table, o, now).filter(rpred) =~~= recv_of_peers(
            iface,
            peers,
        ));
    }
}

/// Rendering reproduces every peer exactly once. The lines of the
/// rendered document that are sent-bytes (respectively received-bytes)
/// counter lines are, in order, exactly one line per peer of the
/// snapshot, each embedding that peer's interface, public key and
/// counter — so no peer is dropped and none is duplicated, whatever the
/// metadata table and options. Together with the parser's contract this
/// holds of every well-formed dump text.
pub proof fn lemma_render_reproduces_counters(
    snap: Seq<InterfaceEntryV>,
    table: Seq<(Seq<char>, PeerMetaV)>,
    o: RenderOptions,
    now: u64,
)
    ensures
        render_lines(snap, table, o, now).filter(|l: Seq<char>| is_sent_line(l)) =~~= sent_of_snap(
            snap,
        ),
        render_lines(snap, table, o, now).filter(|l: Seq<char>| is_recv_line(l)) =~~= recv_of_snap(
            snap,
        ),
    decreases snap.len(),
{
    broadcast use Seq::filter_distributes_over_add;

    let spred = |l: Seq<char>| is_sent_line(l);
    let rpred = |l: Seq<char>| is_recv_line(l);
    if snap.len() == 0 {
        assert(render_lines(snap, table, o, now).filter(spred) =~~= sent_of_snap(snap));
        assert(render_lines(snap, table, o, now).filter(rpred) =~~= recv_of_snap(snap));
    } else {
        lemma_render_reproduces_counters(snap.drop_last(), table, o, now);
        lemma_peers_lines_filter(
            snap.last().device.interface,
            snap.last().peers,
            table,
            o,
            now,
        );
        assert(render_lines(snap, table, o, now).filter(spred) =~~= sent_of_snap(snap));
        assert(render_lines(snap, table, o, now).filter(rpred) =~~= recv_of_snap(snap));
    }
}

/// The parse-and-render round trip: for any dump text the parser
/// accepts, the rendered lines hold exactly one sent-bytes and one
/// received-bytes line per parsed peer, in order, and the parsed
/// snapshot's interface names and per-interface peer keys are pairwise
/// distinct.
pub proof fn lemma_parse_render_round_trip(
    text: Seq<char>,
    snap: Seq<InterfaceEntryV>,
    table: Seq<(Seq<char>, PeerMetaV)>,
    o: RenderOptions,
    now: u64,
)
    requires
        spec_parse_dump(text) == Ok::<_, crate::error::WgError>(snap),
        snapshot_wf(snap),
    ensures
        render_lines(snap, table, o, now).filter(|l: Seq<char>| is_sent_line(l)) =~~= sent_of_snap(
            snap,
        ),
        render_lines(snap, table, o, now).filter(|l: Seq<char>| is_recv_line(l)) =~~= recv_of_snap(
            snap,
        ),
{
    lemma_render_reproduces_counters(snap, table, o, now);
}

} // verus!
