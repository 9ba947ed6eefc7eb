//! Friendly peer metadata: the config-derived source, the JSON
//! name-mapping source, and their reconciliation.
//!
//! The config-derived source is one or more concatenated interface-config
//! blobs; `[Peer]` sections whose `PublicKey` and `AllowedIPs` fields are
//! both present are recorded, and a comment line inside the section gives
//! the friendly metadata: JSON-shaped comments (first non-blank character
//! `{`) must parse as a JSON object of non-empty strings and yield a label
//! set, any other non-empty comment is a plain name; the last comment of a
//! section wins. Label names colliding with the built-in `interface` or
//! `public_key` labels are rejected at resolve time. The name-mapping
//! source is one JSON object mapping public keys to plain names. When both
//! sources name a key, the mapping source's name wins, but allowed-IPs
//! information from the config source is kept underneath it.

use vstd::prelude::*;

use crate::error::WgError;
use crate::json::{json_string_object, parse_json_string_object};
use crate::text::{find_at, find_char, lines_of, split_lines, str_eq, trim_str, trim_view};

verus! {

// ---------------------------------------------------------------------------
// Types
// ---------------------------------------------------------------------------

/// Friendly metadata for one peer: a plain display name, or a structured
/// label set.
#[derive(Debug, Clone, PartialEq, Eq)]
pub enum FriendlyMetadata {
    Name(String),
    Labels(Vec<(String, String)>),
}

#[verifier::ext_equal]
pub ghost enum FriendlyMetadataV {
    Name(Seq<char>),
    Labels(Seq<(Seq<char>, Seq<char>)>),
}

impl View for FriendlyMetadata {
    type V = FriendlyMetadataV;

    open spec fn view(&self) -> FriendlyMetadataV {
        match self {
            FriendlyMetadata::Name(s) => FriendlyMetadataV::Name(s@),
            FriendlyMetadata::Labels(v) => FriendlyMetadataV::Labels(
                v@.map_values(|p: (String, String)| (p.0@, p.1@)),
            ),
        }
    }
}

/// Everything known about one public key: optional friendly metadata and,
/// when the key came from a config blob, its raw allowed-IPs text (kept
/// for human cross-checks only; rendering does not use it).
#[derive(Debug, Clone, PartialEq, Eq)]
pub struct PeerMeta {
    pub friendly: Option<FriendlyMetadata>,
    pub allowed_ips: Option<String>,
}

#[verifier::ext_equal]
pub ghost struct PeerMetaV {
    pub friendly: Option<FriendlyMetadataV>,
    pub allowed_ips: Option<Seq<char>>,
}

impl View for PeerMeta {
    type V = PeerMetaV;

    open spec fn view(&self) -> PeerMetaV {
        PeerMetaV {
            friendly: match self.friendly {
                Some(f) => Some(f@),
                None => None,
            },
            allowed_ips: match self.allowed_ips {
                Some(a) => Some(a@),
                None => None,
            },
        }
    }
}

pub open spec fn entries_view(v: Vec<(String, PeerMeta)>) -> Seq<(Seq<char>, PeerMetaV)> {
    v@.map_values(|e: (String, PeerMeta)| (e.0@, e.1@))
}

/// The resolved public-key → metadata table. Keys are raw public-key
/// strings, compared byte-for-byte; they are pairwise distinct.
#[derive(Debug, Clone, PartialEq, Eq)]
pub struct MetadataTable {
    pub entries: Vec<(String, PeerMeta)>,
}

impl View for MetadataTable {
    type V = Seq<(Seq<char>, PeerMetaV)>;

    open spec fn view(&self) -> Seq<(Seq<char>, PeerMetaV)> {
        entries_view(self.entries)
    }
}

/// Pairwise distinct keys.
pub open spec fn table_wf(t: Seq<(Seq<char>, PeerMetaV)>) -> bool {
    forall|i: int, j: int| 0 <= i < j < t.len() ==> (#[trigger] t[i]).0 != (#[trigger] t[j]).0
}

/// Whether some entry of `t` is keyed by `key`.
pub open spec fn meta_has_key(t: Seq<(Seq<char>, PeerMetaV)>, key: Seq<char>) -> bool {
    exists|k: int| 0 <= k < t.len() && (#[trigger] t[k]).0 == key
}

/// The first entry of `t` keyed by `key`, if any.
pub open spec fn lookup_meta(t: Seq<(Seq<char>, PeerMetaV)>, key: Seq<char>) -> Option<PeerMetaV>
    decreases t.len(),
{
    if t.len() == 0 {
        None
    } else if t[0].0 == key {
        Some(t[0].1)
    } else {
        lookup_meta(t.drop_first(), key)
    }
}

fn table_contains(entries: &Vec<(String, PeerMeta)>, key: &str) -> (r: bool)
    ensures
        r == meta_has_key(entries_view(*entries), key@),
{
    let n = entries.len();
    let mut k: usize = 0;
    while k < n
        invariant
            n == entries@.len(),
            k <= n,
            forall|m: int| 0 <= m < k ==> entries_view(*entries)[m].0 != key@,
        decreases n - k,
    {
        proof {
            assert(entries_view(*entries)[k as int] == (entries@[k as int].0@, entries@[k as int].1@));
        }
        if str_eq(entries[k].0.as_str(), key) {
            proof {
                assert(entries_view(*entries)[k as int].0 == key@);
            }
            return true;
        }
        k += 1;
    }
    false
}

impl MetadataTable {
    /// A table with no entries.
    pub fn empty() -> (r: MetadataTable)
        ensures
            r@ =~~= Seq::<(Seq<char>, PeerMetaV)>::empty(),
            table_wf(r@),
    {
        MetadataTable { entries: Vec::new() }
    }

    /// Looks `key` up byte-for-byte; no normalization of any kind.
    pub fn lookup(&self, key: &str) -> (r: Option<&PeerMeta>)
        ensures
            match r {
                Some(m) => lookup_meta(self@, key@) == Some(m@),
                None => lookup_meta(self@, key@) is None,
            },
    {
        let n = self.entries.len();
        let mut k: usize = 0;
        proof {
            assert(self@.skip(0) =~~= self@);
        }
        while k < n
            invariant
                n == self.entries@.len(),
                k <= n,
                lookup_meta(self@, key@) == lookup_meta(self@.skip(k as int), key@),
            decreases n - k,
        {
            proof {
                assert(self@.skip(k as int)[0] == self@[k as int]);
                assert(self@[k as int] == (self.entries@[k as int].0@, self.entries@[k as int].1@));
                assert(self@.skip(k as int).drop_first() =~~= self@.skip(k as int + 1));
            }
            if str_eq(self.entries[k].0.as_str(), key) {
                return Some(&self.entries[k].1);
            }
            k += 1;
        }
        proof {
            assert(self@.skip(n as int).len() == 0);
        }
        None
    }
}

// ---------------------------------------------------------------------------
// The config-derived source
// ---------------------------------------------------------------------------

/// Label sets must hold non-empty names and values, and must not collide
/// with the built-in `interface` and `public_key` labels.
pub open spec fn labels_wf(pairs: Seq<(Seq<char>, Seq<char>)>) -> bool {
    forall|i: int| 0 <= i < pairs.len() ==> (#[trigger] pairs[i]).0.len() > 0
        && pairs[i].1.len() > 0 && pairs[i].0 != "interface"@ && pairs[i].0 != "public_key"@
}

/// Parser position within a config blob.
pub enum SectionCtx {
    /// Before any section header.
    Outside,
    /// Inside a section other than `[Peer]`.
    Other,
    /// Inside a `[Peer]` section, carrying what it has yielded so far.
    Peer { comment: Option<FriendlyMetadata>, pk: Option<String>, aips: Option<String> },
}

#[verifier::ext_equal]
pub ghost enum SectionCtxV {
    Outside,
    Other,
    Peer { comment: Option<FriendlyMetadataV>, pk: Option<Seq<char>>, aips: Option<Seq<char>> },
}

impl View for SectionCtx {
    type V = SectionCtxV;

    open spec fn view(&self) -> SectionCtxV {
        match self {
            SectionCtx::Outside => SectionCtxV::Outside,
            SectionCtx::Other => SectionCtxV::Other,
            SectionCtx::Peer { comment, pk, aips } => SectionCtxV::Peer {
                comment: match comment {
                    Some(c) => Some(c@),
                    None => None,
                },
                pk: match pk {
                    Some(k) => Some(k@),
                    None => None,
                },
                aips: match aips {
                    Some(a) => Some(a@),
                    None => None,
                },
            },
        }
    }
}

/// Closes a section: a `[Peer]` section with a non-empty `PublicKey` and
/// an `AllowedIPs` field is recorded; a key recorded twice is an error;
/// anything else is skipped.
pub open spec fn spec_flush(
    sec: SectionCtxV,
    entries: Seq<(Seq<char>, PeerMetaV)>,
) -> Result<Seq<(Seq<char>, PeerMetaV)>, WgError> {
    match sec {
        SectionCtxV::Peer { comment, pk: Some(k), aips: Some(a) } => if k.len() == 0 {
            Ok(entries)
        } else if meta_has_key(entries, k) {
            Err(WgError::InvalidConfig)
        } else {
            Ok(entries.push((k, PeerMetaV { friendly: comment, allowed_ips: Some(a) })))
        },
        _ => Ok(entries),
    }
}

/// One config line's effect on the parser state.
pub open spec fn spec_config_line(
    sec: SectionCtxV,
    entries: Seq<(Seq<char>, PeerMetaV)>,
    line: Seq<char>,
) -> Result<(SectionCtxV, Seq<(Seq<char>, PeerMetaV)>), WgError> {
    let t = trim_view(line);
    if t.len() == 0 {
        Ok((sec, entries))
    } else if t[0] == '#' {
        match sec {
            SectionCtxV::Peer { comment, pk, aips } => {
                let c = trim_view(t.drop_first());
                if c.len() == 0 {
                    Ok((sec, entries))
                } else if c[0] == '{' {
                    match json_string_object(c) {
                        None => Err(WgError::InvalidPeerComment),
                        Some(pairs) => if labels_wf(pairs) {
                            Ok((
                                SectionCtxV::Peer {
                                    comment: Some(FriendlyMetadataV::Labels(pairs)),
                                    pk,
                                    aips,
                                },
                                entries,
                            ))
                        } else {
                            Err(WgError::InvalidPeerComment)
                        },
                    }
                } else {
                    Ok((
                        SectionCtxV::Peer { comment: Some(FriendlyMetadataV::Name(c)), pk, aips },
                        entries,
                    ))
                }
            },
            _ => Ok((sec, entries)),
        }
    } else if t[0] == '[' {
        match spec_flush(sec, entries) {
            Err(e) => Err(e),
            Ok(es) => if t == "[Peer]"@ {
                Ok((SectionCtxV::Peer { comment: None, pk: None, aips: None }, es))
            } else {
                Ok((SectionCtxV::Other, es))
            },
        }
    } else {
        let eq = find_at(t, '=', 0);
        if eq >= t.len() {
            Err(WgError::InvalidConfig)
        } else {
            match sec {
                SectionCtxV::Outside => Err(WgError::InvalidConfig),
                SectionCtxV::Other => Ok((sec, entries)),
                SectionCtxV::Peer { comment, pk, aips } => {
                    let key = trim_view(t.subrange(0, eq));
                    let value = trim_view(t.subrange(eq + 1, t.len() as int));
                    if key == "PublicKey"@ {
                        Ok((SectionCtxV::Peer { comment, pk: Some(value), aips }, entries))
                    } else if key == "AllowedIPs"@ {
                        Ok((SectionCtxV::Peer { comment, pk, aips: Some(value) }, entries))
                    } else {
                        Ok((sec, entries))
                    }
                },
            }
        }
    }
}

/// Folds config lines from index `i` on, then closes the final section.
pub open spec fn spec_config_from(
    ls: Seq<Seq<char>>,
    i: int,
    sec: SectionCtxV,
    entries: Seq<(Seq<char>, PeerMetaV)>,
) -> Result<Seq<(Seq<char>, PeerMetaV)>, WgError>
    decreases ls.len() - i,
{
    if i < 0 || i >= ls.len() {
        spec_flush(sec, entries)
    } else {
        match spec_config_line(sec, entries, ls[i]) {
            Err(e) => Err(e),
            Ok((sec2, es2)) => spec_config_from(ls, i + 1, sec2, es2),
        }
    }
}

/// The meaning of a whole config-derived metadata blob.
pub open spec fn spec_parse_config(text: Seq<char>) -> Result<Seq<(Seq<char>, PeerMetaV)>, WgError> {
    spec_config_from(lines_of(text), 0, SectionCtxV::Outside, Seq::empty())
}

fn labels_ok(pairs: &Vec<(String, String)>) -> (r: bool)
    ensures
        r == labels_wf(pairs@.map_values(|p: (String, String)| (p.0@, p.1@))),
{
    let ghost pv = pairs@.map_values(|p: (String, String)| (p.0@, p.1@));
    let n = pairs.len();
    let mut k: usize = 0;
    while k < n
        invariant
            pv == pairs@.map_values(|p: (String, String)| (p.0@, p.1@)),
            n == pairs@.len(),
            k <= n,
            forall|m: int| 0 <= m < k ==> (#[trigger] pv[m]).0.len() > 0 && pv[m].1.len() > 0
                && pv[m].0 != "interface"@ && pv[m].0 != "public_key"@,
        decreases n - k,
    {
        proof {
            assert(pv[k as int] == (pairs@[k as int].0@, pairs@[k as int].1@));
        }
        if pairs[k].0.as_str().is_empty() || pairs[k].1.as_str().is_empty()
            || str_eq(pairs[k].0.as_str(), "interface") || str_eq(pairs[k].0.as_str(), "public_key") {
            return false;
        }
        k += 1;
    }
    true
}

fn flush_section(sec: SectionCtx, entries: &mut Vec<(String, PeerMeta)>) -> (r: Result<(), WgError>)
    ensures
        match r {
            Ok(_) => spec_flush(sec@, entries_view(*old(entries)))
                == Ok::<_, WgError>(entries_view(*final(entries)))
                && (table_wf(entries_view(*old(entries)))
                    ==> table_wf(entries_view(*final(entries)))),
            Err(e) => spec_flush(sec@, entries_view(*old(entries)))
                == Err::<Seq<(Seq<char>, PeerMetaV)>, _>(e),
        },
{
    match sec {
        SectionCtx::Peer { comment, pk: Some(k), aips: Some(a) } => {
            if k.as_str().is_empty() {
                return Ok(());
            }
            if table_contains(entries, k.as_str()) {
                return Err(WgError::InvalidConfig);
            }
            let ghost prev = entries_view(*entries);
            let ghost kv = k@;
            let meta = PeerMeta { friendly: comment, allowed_ips: Some(a) };
            let ghost meta_v = meta@;
            entries.push((k, meta));
            proof {
                assert(entries_view(*entries) =~~= prev.push((kv, meta_v)));
                assert(table_wf(prev) ==> table_wf(entries_view(*entries)));
            }
            Ok(())
        },
        _ => Ok(()),
    }
}

/// Parses a config-derived metadata blob into a table. Fails with
/// `InvalidPeerComment` on a JSON-shaped comment that is not a valid JSON
/// object of acceptable strings, and with `InvalidConfig` on text that
/// cannot be split into sections or on a public key recorded twice.
#[verifier::loop_isolation(false)]
pub fn parse_peer_config(text: &str) -> (r: Result<MetadataTable, WgError>)
    ensures
        match r {
            Ok(t) => spec_parse_config(text@) == Ok::<_, WgError>(t@) && table_wf(t@),
            Err(e) => spec_parse_config(text@) == Err::<Seq<(Seq<char>, PeerMetaV)>, _>(e),
        },
{
    let lines = split_lines(text);
    let ghost ls = lines.deep_view();
    let n = lines.len();
    let mut entries: Vec<(String, PeerMeta)> = Vec::new();
    let mut sec = SectionCtx::Outside;
    let mut i: usize = 0;
    proof {
        assert(entries_view(entries) =~~= Seq::<(Seq<char>, PeerMetaV)>::empty());
    }
    while i < n
        invariant
            n == lines@.len(),
            i <= n,
            table_wf(entries_view(entries)),
            spec_config_from(ls, 0, SectionCtxV::Outside, Seq::empty())
                == spec_config_from(ls, i as int, sec@, entries_view(entries)),
        decreases n - i,
    {
        proof {
            assert(lines@[i as int]@ == ls[i as int]);
        }
        let t = trim_str(lines[i].as_str());
        let tlen = t.as_str().unicode_len();
        if tlen == 0 {
            // blank line
        } else if t.as_str().get_char(0) == '#' {
            sec = match sec {
                SectionCtx::Peer { comment, pk, aips } => {
                    let c = trim_str(t.as_str().substring_char(1, tlen));
                    proof {
                        assert(t@.subrange(1, tlen as int) =~= t@.drop_first());
                    }
                    let clen = c.as_str().unicode_len();
                    if clen == 0 {
                        SectionCtx::Peer { comment, pk, aips }
                    } else if c.as_str().get_char(0) == '{' {
                        match parse_json_string_object(c.as_str()) {
                            None => {
                                return Err(WgError::InvalidPeerComment);
                            },
                            Some(pairs) => {
                                if !labels_ok(&pairs) {
                                    return Err(WgError::InvalidPeerComment);
                                }
                                SectionCtx::Peer {
                                    comment: Some(FriendlyMetadata::Labels(pairs)),
                                    pk,
                                    aips,
                                }
                            },
                        }
                    } else {
                        SectionCtx::Peer { comment: Some(FriendlyMetadata::Name(c)), pk, aips }
                    }
                },
                other => other,
            };
        } else if t.as_str().get_char(0) == '[' {
            let old_sec = sec;
            match flush_section(old_sec, &mut entries) {
                Ok(_) => {},
                Err(e) => {
                    return Err(e);
                },
            }
            if str_eq(t.as_str(), "[Peer]") {
                sec = SectionCtx::Peer { comment: None, pk: None, aips: None };
            } else {
                sec = SectionCtx::Other;
            }
        } else {
            let eq = find_char(t.as_str(), '=');
            if eq >= tlen {
                return Err(WgError::InvalidConfig);
            }
            sec = match sec {
                SectionCtx::Outside => {
                    return Err(WgError::InvalidConfig);
                },
                SectionCtx::Other => SectionCtx::Other,
                SectionCtx::Peer { comment, pk, aips } => {
                    let key = trim_str(t.as_str().substring_char(0, eq));
                    let value = trim_str(t.as_str().substring_char(eq + 1, tlen));
                    if str_eq(key.as_str(), "PublicKey") {
                        SectionCtx::Peer { comment, pk: Some(value), aips }
                    } else if str_eq(key.as_str(), "AllowedIPs") {
                        SectionCtx::Peer { comment, pk, aips: Some(value) }
                    } else {
                        SectionCtx::Peer { comment, pk, aips }
                    }
                },
            };
        }
        i += 1;
    }
    match flush_section(sec, &mut entries) {
        Ok(_) => {},
        Err(e) => {
            return Err(e);
        },
    }
    Ok(MetadataTable { entries })
}

// ---------------------------------------------------------------------------
// The name-mapping source and reconciliation
// ---------------------------------------------------------------------------

/// Replaces the friendly metadata of `key` with the plain name `name`,
/// keeping config-derived allowed-IPs information underneath; a key not
/// yet present is appended with no allowed-IPs of its own.
pub open spec fn upsert_name(
    t: Seq<(Seq<char>, PeerMetaV)>,
    key: Seq<char>,
    name: Seq<char>,
) -> Seq<(Seq<char>, PeerMetaV)>
    decreases t.len(),
{
    if t.len() == 0 {
        seq![
            (key, PeerMetaV { friendly: Some(FriendlyMetadataV::Name(name)), allowed_ips: None }),
        ]
    } else if t[0].0 == key {
        seq![
            (
                key,
                PeerMetaV {
                    friendly: Some(FriendlyMetadataV::Name(name)),
                    allowed_ips: t[0].1.allowed_ips,
                },
            ),
        ] + t.drop_first()
    } else {
        seq![t[0]] + upsert_name(t.drop_first(), key, name)
    }
}

/// Applies the name-mapping pairs from index `i` on, in order; a later
/// pair for the same key overwrites an earlier one.
pub open spec fn apply_names(
    t: Seq<(Seq<char>, PeerMetaV)>,
    pairs: Seq<(Seq<char>, Seq<char>)>,
    i: int,
) -> Seq<(Seq<char>, PeerMetaV)>
    decreases pairs.len() - i,
{
    if i < 0 || i >= pairs.len() {
        t
    } else {
        apply_names(upsert_name(t, pairs[i].0, pairs[i].1), pairs, i + 1)
    }
}

proof fn lemma_upsert_found(t: Seq<(Seq<char>, PeerMetaV)>, key: Seq<char>, name: Seq<char>, idx: int)
    requires
        0 <= idx < t.len(),
        t[idx].0 == key,
        forall|m: int| 0 <= m < idx ==> (#[trigger] t[m]).0 != key,
    ensures
        upsert_name(t, key, name) =~~= t.update(
            idx,
            (
                key,
                PeerMetaV {
                    friendly: Some(FriendlyMetadataV::Name(name)),
                    allowed_ips: t[idx].1.allowed_ips,
                },
            ),
        ),
    decreases idx,
{
    if idx == 0 {
        assert(upsert_name(t, key, name) =~~= t.update(
            0,
            (
                key,
                PeerMetaV {
                    friendly: Some(FriendlyMetadataV::Name(name)),
                    allowed_ips: t[0].1.allowed_ips,
                },
            ),
        ));
    } else {
        lemma_upsert_found(t.drop_first(), key, name, idx - 1);
        assert(upsert_name(t, key, name) =~~= t.update(
            idx,
            (
                key,
                PeerMetaV {
                    friendly: Some(FriendlyMetadataV::Name(name)),
                    allowed_ips: t[idx].1.allowed_ips,
                },
            ),
        ));
    }
}

proof fn lemma_upsert_missing(t: Seq<(Seq<char>, PeerMetaV)>, key: Seq<char>, name: Seq<char>)
    requires
        forall|m: int| 0 <= m < t.len() ==> (#[trigger] t[m]).0 != key,
    ensures
        upsert_name(t, key, name) =~~= t.push(
            (key, PeerMetaV { friendly: Some(FriendlyMetadataV::Name(name)), allowed_ips: None }),
        ),
    decreases t.len(),
{
    if t.len() == 0 {
    } else {
        lemma_upsert_missing(t.drop_first(), key, name);
        assert(upsert_name(t, key, name) =~~= t.push(
            (key, PeerMetaV { friendly: Some(FriendlyMetadataV::Name(name)), allowed_ips: None }),
        ));
    }
}

#[verifier::loop_isolation(false)]
fn upsert_entry(entries: &mut Vec<(String, PeerMeta)>, key: &String, name: &String)
    requires
        table_wf(entries_view(*old(entries))),
    ensures
        entries_view(*final(entries)) == upsert_name(entries_view(*old(entries)), key@, name@),
        table_wf(entries_view(*final(entries))),
{
    let ghost t0 = entries_view(*entries);
    let n = entries.len();
    let mut k: usize = 0;
    while k < n
        invariant
            t0 == entries_view(*entries),
            table_wf(t0),
            n == entries@.len(),
            k <= n,
            forall|m: int| 0 <= m < k ==> (#[trigger] t0[m]).0 != key@,
        decreases n - k,
    {
        proof {
            assert(t0[k as int] == (entries@[k as int].0@, entries@[k as int].1@));
        }
        if str_eq(entries[k].0.as_str(), key.as_str()) {
            let allowed = match &entries[k].1.allowed_ips {
                Some(s) => Some(s.clone()),
                None => None,
            };
            let meta = PeerMeta {
                friendly: Some(FriendlyMetadata::Name(name.clone())),
                allowed_ips: allowed,
            };
            entries.set(k, (key.clone(), meta));
            proof {
                lemma_upsert_found(t0, key@, name@, k as int);
                assert(entries_view(*entries) =~~= t0.update(
                    k as int,
                    (
                        key@,
                        PeerMetaV {
                            friendly: Some(FriendlyMetadataV::Name(name@)),
                            allowed_ips: t0[k as int].1.allowed_ips,
                        },
                    ),
                ));
                assert(table_wf(entries_view(*entries)));
            }
            return;
        }
        k += 1;
    }
    entries.push((key.clone(), PeerMeta {
        friendly: Some(FriendlyMetadata::Name(name.clone())),
        allowed_ips: None,
    }));
    proof {
        lemma_upsert_missing(t0, key@, name@);
        assert(entries_view(*entries) =~~= t0.push(
            (key@, PeerMetaV { friendly: Some(FriendlyMetadataV::Name(name@)), allowed_ips: None }),
        ));
        assert(table_wf(entries_view(*entries)));
    }
}

// ---------------------------------------------------------------------------
// The resolver
// ---------------------------------------------------------------------------

pub open spec fn opt_view(o: Option<&str>) -> Option<Seq<char>> {
    match o {
        Some(s) => Some(s@),
        None => None,
    }
}

/// The meaning of resolving the two optional sources: the config-derived
/// table first, then each name-mapping pair applied in order, the mapping
/// source winning on shared keys.
pub open spec fn spec_resolve(
    cfg: Option<Seq<char>>,
    nm: Option<Seq<char>>,
) -> Result<Seq<(Seq<char>, PeerMetaV)>, WgError> {
    let base = match cfg {
        None => Ok(Seq::<(Seq<char>, PeerMetaV)>::empty()),
        Some(c) => spec_parse_config(c),
    };
    match base {
        Err(e) => Err(e),
        Ok(entries) => match nm {
            None => Ok(entries),
            Some(t) => match json_string_object(t) {
                None => Err(WgError::InvalidNameMapping),
                Some(pairs) => Ok(apply_names(entries, pairs, 0)),
            },
        },
    }
}

/// Builds the unified public-key → metadata table from the two optional
/// sources. With neither source configured the table is empty and the
/// join degrades to "no friendly metadata", not an error.
#[verifier::loop_isolation(false)]
pub fn resolve_metadata(config_text: Option<&str>, name_map_text: Option<&str>) -> (r: Result<
    MetadataTable,
    WgError,
>)
    ensures
        match r {
            Ok(t) => spec_resolve(opt_view(config_text), opt_view(name_map_text))
                == Ok::<_, WgError>(t@) && table_wf(t@),
            Err(e) => spec_resolve(opt_view(config_text), opt_view(name_map_text))
                == Err::<Seq<(Seq<char>, PeerMetaV)>, _>(e),
        },
{
    let mut table = match config_text {
        None => MetadataTable::empty(),
        Some(c) => match parse_peer_config(c) {
            Ok(t) => t,
            Err(e) => {
                return Err(e);
            },
        },
    };
    let pairs = match name_map_text {
        None => {
            return Ok(table);
        },
        Some(t) => match parse_json_string_object(t) {
            None => {
                return Err(WgError::InvalidNameMapping);
            },
            Some(pairs) => pairs,
        },
    };
    let ghost base = table@;
    let ghost pv = pairs@.map_values(|p: (String, String)| (p.0@, p.1@));
    let n = pairs.len();
    let mut i: usize = 0;
    while i < n
        invariant
            n == pairs@.len(),
            i <= n,
            pv == pairs@.map_values(|p: (String, String)| (p.0@, p.1@)),
            table_wf(table@),
            apply_names(base, pv, 0) == apply_names(table@, pv, i as int),
        decreases n - i,
    {
        proof {
            assert(pv[i as int] == (pairs@[i as int].0@, pairs@[i as int].1@));
        }
        upsert_entry(&mut table.entries, &pairs[i].0, &pairs[i].1);
        i += 1;
    }
    Ok(table)
}

} // verus!
