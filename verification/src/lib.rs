//! Exposes live WireGuard interface and peer state as Prometheus metrics.
//!
//! The crate holds the scrape pipeline: parsing the tabular dump emitted
//! by the `wg` tool into a typed snapshot, merging per-interface
//! snapshots, resolving friendly peer metadata from config blobs and JSON
//! name maps, and rendering the result as Prometheus exposition text.
//! Every scrape is stateless: snapshot and metadata are rebuilt from
//! scratch and a failure anywhere yields a typed error and no output at
//! all, never a partial document.

use vstd::prelude::*;

pub mod dump;
pub mod error;
pub mod json;
pub mod laws;
pub mod metadata;
pub mod render;
pub mod snapshot;
pub mod text;

use crate::dump::{parse_dump, spec_parse_dump};
use crate::error::WgError;
use crate::metadata::{opt_view, resolve_metadata, spec_resolve};
use crate::render::{RenderOptions, lemma_cat_assoc, render_at, spec_render};
use crate::snapshot::{InterfaceEntryV, Snapshot, shares_name, snapshot_wf};
use crate::text::{lines_of, split_lines};

verus! {

// ---------------------------------------------------------------------------
// Normalizing per-interface dumps
// ---------------------------------------------------------------------------

/// Every line of `ls`, prefixed with `name` and a tab and terminated by a
/// newline.
pub open spec fn prefixed_lines(name: Seq<char>, ls: Seq<Seq<char>>) -> Seq<char>
    decreases ls.len(),
{
    if ls.len() == 0 {
        Seq::empty()
    } else {
        prefixed_lines(name, ls.drop_last()) + (name + seq!['\t'] + ls.last() + seq!['\n'])
    }
}

/// Prepends `name` and a tab to every line of `raw`, so that a dump
/// queried for a single interface (whose lines omit the leading
/// interface column) takes the same uniform shape as an all-interface
/// dump before it reaches the parser.
#[verifier::loop_isolation(false)]
pub fn prefix_interface(name: &str, raw: &str) -> (r: String)
    ensures
        r@ == prefixed_lines(name@, lines_of(raw@)),
{
    let lines = split_lines(raw);
    let ghost ls = lines.deep_view();
    let n = lines.len();
    let mut out = String::new();
    let mut i: usize = 0;
    proof {
        assert(ls.subrange(0, 0) =~~= Seq::<Seq<char>>::empty());
    }
    while i < n
        invariant
            n == lines@.len(),
            i <= n,
            out@ == prefixed_lines(name@, ls.subrange(0, i as int)),
        decreases n - i,
    {
        proof {
            assert(ls[i as int] == lines@[i as int]@);
            assert(ls.subrange(0, (i + 1) as int).drop_last() =~~= ls.subrange(0, i as int));
            assert(ls.subrange(0, (i + 1) as int).last() == ls[i as int]);
        }
        let ghost base = out@;
        out.append(name);
        crate::text::push_char(&mut out, '\t');
        out.append(lines[i].as_str());
        crate::text::push_char(&mut out, '\n');
        proof {
            lemma_cat_assoc(base, name@, seq!['\t']);
            lemma_cat_assoc(base, name@ + seq!['\t'], ls[i as int]);
            lemma_cat_assoc(base, name@ + seq!['\t'] + ls[i as int], seq!['\n']);
            assert(out@ == base + (name@ + seq!['\t'] + ls[i as int] + seq!['\n']));
            assert(out@ == prefixed_lines(name@, ls.subrange(0, (i + 1) as int)));
        }
        i += 1;
    }
    proof {
        assert(ls.subrange(0, n as int) =~~= ls);
    }
    out
}

// ---------------------------------------------------------------------------
// The whole pipeline
// ---------------------------------------------------------------------------

/// The snapshot that a sequence of dump texts (one per query, already in
/// uniform shape) yields: each parsed and accumulated, a shared
/// interface name failing with `DuplicateInterface`.
pub open spec fn spec_combined(
    dumps: Seq<Seq<char>>,
    i: int,
    acc: Seq<InterfaceEntryV>,
) -> Result<Seq<InterfaceEntryV>, WgError>
    decreases dumps.len() - i,
{
    if i < 0 || i >= dumps.len() {
        Ok(acc)
    } else {
        match spec_parse_dump(dumps[i]) {
            Err(e) => Err(e),
            Ok(s) => if shares_name(acc, s) {
                Err(WgError::DuplicateInterface)
            } else {
                spec_combined(dumps, i + 1, acc + s)
            },
        }
    }
}

/// The meaning of one whole scrape: parse and merge every dump, resolve
/// the metadata sources, render at time `now`. An error anywhere is the
/// scrape's only outcome: no text is produced.
pub open spec fn spec_scrape(
    dumps: Seq<Seq<char>>,
    cfg: Option<Seq<char>>,
    nm: Option<Seq<char>>,
    o: RenderOptions,
    now: u64,
) -> Result<Seq<char>, WgError> {
    match spec_combined(dumps, 0, Seq::empty()) {
        Err(e) => Err(e),
        Ok(snap) => match spec_resolve(cfg, nm) {
            Err(e) => Err(e),
            Ok(table) => Ok(spec_render(snap, table, o, now)),
        },
    }
}

/// Runs one scrape over the given dump texts and metadata sources, with
/// the current time as the single time sample of the render pass.
#[verifier::loop_isolation(false)]
pub fn scrape(
    dumps: &Vec<String>,
    config_text: Option<&str>,
    name_map_text: Option<&str>,
    options: &RenderOptions,
) -> (r: Result<String, WgError>)
    ensures
        match r {
            Ok(s) => exists|now: u64|
                spec_scrape(
                    dumps.deep_view(),
                    opt_view(config_text),
                    opt_view(name_map_text),
                    *options,
                    now,
                ) == Ok::<_, WgError>(s@),
            Err(e) => forall|now: u64|
                spec_scrape(
                    dumps.deep_view(),
                    opt_view(config_text),
                    opt_view(name_map_text),
                    *options,
                    now,
                ) == Err::<Seq<char>, _>(e),
        },
{
    let ghost dv = dumps.deep_view();
    let n = dumps.len();
    let mut acc = Snapshot::empty();
    let mut i: usize = 0;
    while i < n
        invariant
            n == dumps@.len(),
            i <= n,
            snapshot_wf(acc@),
            spec_combined(dv, 0, Seq::empty()) == spec_combined(dv, i as int, acc@),
        decreases n - i,
    {
        proof {
            assert(dv[i as int] == dumps@[i as int]@);
        }
        let parsed = match parse_dump(dumps[i].as_str()) {
            Ok(s) => s,
            Err(e) => {
                return Err(e);
            },
        };
        acc = match Snapshot::merge(acc, parsed) {
            Ok(m) => m,
            Err(e) => {
                return Err(e);
            },
        };
        i += 1;
    }
    let table = match resolve_metadata(config_text, name_map_text) {
        Ok(t) => t,
        Err(e) => {
            return Err(e);
        },
    };
    let now = crate::render::unix_now();
    let text = render_at(&acc, &table, options, now);
    proof {
        assert(spec_scrape(
            dv,
            opt_view(config_text),
            opt_view(name_map_text),
            *options,
            now,
        ) == Ok::<_, WgError>(text@));
    }
    Ok(text)
}

} // verus!
