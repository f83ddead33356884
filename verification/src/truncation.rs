//! What becomes of a session cache whose bytes stop early, or go on behind it.
use vstd::prelude::*;

use crate::codec::{
    DecodeErrorModel, Field, CACHE_VERSION, CACHE_VERSION_V2, MAX_GROUPS_PER_SAMPLE,
    MAX_SNAPSHOT_ROWS, MAX_STRING_BYTES, MAX_TIER_SAMPLES,
};
use crate::decoder::Parsed;
use crate::persistence::{
    SessionCacheModel, MAX_LIVE_POWER_POINTS, MAX_LIVE_SNAPSHOTS,
};

verus! {

/// Whether a read of more bytes comes to the same as one of fewer: it gives the same, with the
/// further bytes left over, and fails as that one did unless it only lacked bytes.
pub open spec fn goes_on<V>(short: Parsed<V>, long: Parsed<V>, more: Seq<u8>) -> bool {
    match short {
        Ok((value, rest)) => long == Ok::<(V, Seq<u8>), DecodeErrorModel>((value, rest + more)),
        Err(e) => e != DecodeErrorModel::UnexpectedEnd ==> long == Err::<(V, Seq<u8>), _>(e),
    }
}

proof fn lemma_bytes_go_on(s: Seq<u8>, n: nat, more: Seq<u8>)
    ensures
        goes_on(
            crate::decoder::parse_bytes(s, n),
            crate::decoder::parse_bytes(s + more, n),
            more,
        ),
{
    if s.len() >= n {
        assert((s + more).take(n as int) =~= s.take(n as int));
        assert((s + more).skip(n as int) =~= s.skip(n as int) + more);
    }
}

proof fn lemma_number_goes_on(s: Seq<u8>, n: nat, more: Seq<u8>)
    ensures
        goes_on(
            crate::decoder::parse_number(s, n),
            crate::decoder::parse_number(s + more, n),
            more,
        ),
{
    lemma_bytes_go_on(s, n, more);
}

proof fn lemma_text_goes_on(s: Seq<u8>, max: usize, more: Seq<u8>)
    ensures
        goes_on(
            crate::decoder::parse_text(s, max),
            crate::decoder::parse_text(s + more, max),
            more,
        ),
{
    lemma_number_goes_on(s, 4, more);
    if let Ok((len, rest)) = crate::decoder::parse_len(s, max, Field::Text) {
        lemma_bytes_go_on(rest, len, more);
    }
}

proof fn lemma_list_goes_on<V>(
    s: Seq<u8>,
    n: nat,
    one: spec_fn(Seq<u8>) -> Parsed<V>,
    more: Seq<u8>,
)
    requires
        forall|r: Seq<u8>| goes_on(one(r), #[trigger] one(r + more), more),
    ensures
        goes_on(
            crate::decoder::parse_list(s, n, one),
            crate::decoder::parse_list(s + more, n, one),
            more,
        ),
    decreases n,
{
    if n > 0 {
        lemma_list_goes_on(s, (n - 1) as nat, one, more);
        if let Ok((items, rest)) = crate::decoder::parse_list(s, (n - 1) as nat, one) {
            assert(goes_on(one(rest), one(rest + more), more));
        }
    }
}

proof fn lemma_counted_goes_on<V>(
    s: Seq<u8>,
    max: usize,
    field: Field,
    one: spec_fn(Seq<u8>) -> Parsed<V>,
    more: Seq<u8>,
)
    requires
        forall|r: Seq<u8>| goes_on(one(r), #[trigger] one(r + more), more),
    ensures
        goes_on(
            crate::decoder::parse_counted(s, max, field, one),
            crate::decoder::parse_counted(s + more, max, field, one),
            more,
        ),
{
    lemma_number_goes_on(s, 4, more);
    if let Ok((len, rest)) = crate::decoder::parse_len(s, max, field) {
        lemma_list_goes_on(rest, len, one, more);
    }
}

proof fn lemma_sample_goes_on(s: Seq<u8>, more: Seq<u8>)
    ensures
        goes_on(
            crate::decoder::sample_parser()(s),
            crate::decoder::sample_parser()(s + more),
            more,
        ),
{
    lemma_number_goes_on(s, 4, more);
    if let Ok((_, rest)) = crate::decoder::parse_number(s, 4) {
        lemma_text_goes_on(rest, MAX_STRING_BYTES, more);
        if let Ok((_, rest)) = crate::decoder::parse_text(rest, MAX_STRING_BYTES) {
            lemma_number_goes_on(rest, 8, more);
        }
    }
}

proof fn lemma_snapshot_goes_on(s: Seq<u8>, more: Seq<u8>)
    ensures
        goes_on(
            crate::decoder::snapshot_parser()(s),
            crate::decoder::snapshot_parser()(s + more),
            more,
        ),
{
    let one = crate::decoder::sample_parser();
    lemma_number_goes_on(s, 8, more);
    if let Ok((_, rest)) = crate::decoder::parse_number(s, 8) {
        assert forall|r: Seq<u8>| goes_on(one(r), #[trigger] one(r + more), more) by {
            lemma_sample_goes_on(r, more);
        }
        lemma_counted_goes_on(rest, MAX_SNAPSHOT_ROWS, Field::SnapshotRows, one, more);
    }
}

proof fn lemma_group_goes_on(s: Seq<u8>, more: Seq<u8>)
    ensures
        goes_on(
            crate::decoder::group_parser()(s),
            crate::decoder::group_parser()(s + more),
            more,
        ),
{
    lemma_text_goes_on(s, MAX_STRING_BYTES, more);
    if let Ok((_, rest)) = crate::decoder::parse_text(s, MAX_STRING_BYTES) {
        lemma_number_goes_on(rest, 8, more);
    }
}

proof fn lemma_bucket_goes_on(s: Seq<u8>, version: u16, more: Seq<u8>)
    ensures
        goes_on(
            crate::decoder::bucket_parser(version)(s),
            crate::decoder::bucket_parser(version)(s + more),
            more,
        ),
{
    let one = crate::decoder::group_parser();
    assert forall|r: Seq<u8>| goes_on(one(r), #[trigger] one(r + more), more) by {
        lemma_group_goes_on(r, more);
    }
    lemma_number_goes_on(s, 8, more);
    if let Ok((_, rest)) = crate::decoder::parse_number(s, 8) {
        lemma_number_goes_on(rest, 4, more);
        if let Ok((_, rest)) = crate::decoder::parse_number(rest, 4) {
            lemma_number_goes_on(rest, 8, more);
            if let Ok((_, rest)) = crate::decoder::parse_power(rest) {
                lemma_counted_goes_on(
                    rest,
                    MAX_GROUPS_PER_SAMPLE,
                    Field::GroupedSamples,
                    one,
                    more,
                );
                if let Ok((_, rest)) = crate::decoder::parse_counted(
                    rest,
                    MAX_GROUPS_PER_SAMPLE,
                    Field::GroupedSamples,
                    one,
                ) {
                    lemma_number_goes_on(rest, 1, more);
                }
            }
        }
    }
}

proof fn lemma_tier_goes_on(s: Seq<u8>, version: u16, more: Seq<u8>)
    ensures
        goes_on(
            crate::decoder::parse_tier(s, version),
            crate::decoder::parse_tier(s + more, version),
            more,
        ),
{
    let one = crate::decoder::bucket_parser(version);
    assert forall|r: Seq<u8>| goes_on(one(r), #[trigger] one(r + more), more) by {
        lemma_bucket_goes_on(r, version, more);
    }
    lemma_counted_goes_on(s, MAX_TIER_SAMPLES, Field::TierSamples, one, more);
}

proof fn lemma_header_goes_on(s: Seq<u8>, more: Seq<u8>)
    ensures
        goes_on(
            crate::decoder::parse_header(s),
            crate::decoder::parse_header(s + more),
            more,
        ),
{
    lemma_bytes_go_on(s, 8, more);
    if let Ok((_, rest)) = crate::decoder::parse_bytes(s, 8) {
        lemma_number_goes_on(rest, 2, more);
    }
    if let Ok((_, rest)) = crate::decoder::parse_version(s) {
        lemma_number_goes_on(rest, 8, more);
        if let Ok((_, rest)) = crate::decoder::parse_number(rest, 8) {
            lemma_number_goes_on(rest, 8, more);
            if let Ok((_, rest)) = crate::decoder::parse_number(rest, 8) {
                lemma_number_goes_on(rest, 8, more);
            }
        }
    }
}

proof fn lemma_archive_goes_on(s: Seq<u8>, version: u16, last: Option<u64>, more: Seq<u8>)
    ensures
        goes_on(
            crate::decoder::parse_archive(s, version, last),
            crate::decoder::parse_archive(s + more, version, last),
            more,
        ),
{
    lemma_tier_goes_on(s, version, more);
    if let Ok((_, rest)) = crate::decoder::parse_tier(s, version) {
        lemma_tier_goes_on(rest, version, more);
        if let Ok((_, rest)) = crate::decoder::parse_tier(rest, version) {
            lemma_tier_goes_on(rest, version, more);
        }
    }
}

/// Bytes behind those of a cache change nothing of what is read, and are left over. Nor do they
/// change why bytes are refused, unless those only stopped too early.
pub proof fn law_further_bytes_change_nothing(s: Seq<u8>, more: Seq<u8>)
    ensures
        goes_on(
            crate::decoder::parse_session(s),
            crate::decoder::parse_session(s + more),
            more,
        ),
{
    let power = crate::decoder::power_parser();
    let snapshot = crate::decoder::snapshot_parser();
    assert forall|r: Seq<u8>| goes_on(power(r), #[trigger] power(r + more), more) by {
        lemma_number_goes_on(r, 8, more);
    }
    assert forall|r: Seq<u8>| goes_on(snapshot(r), #[trigger] snapshot(r + more), more) by {
        lemma_snapshot_goes_on(r, more);
    }
    lemma_header_goes_on(s, more);
    if let Ok((header, rest)) = crate::decoder::parse_header(s) {
        lemma_counted_goes_on(rest, MAX_LIVE_POWER_POINTS, Field::LivePowerHistory, power, more);
        if let Ok((_, rest)) = crate::decoder::parse_counted(
            rest,
            MAX_LIVE_POWER_POINTS,
            Field::LivePowerHistory,
            power,
        ) {
            lemma_counted_goes_on(rest, MAX_LIVE_SNAPSHOTS, Field::LiveSnapshots, snapshot, more);
            if let Ok((_, rest)) = crate::decoder::parse_counted(
                rest,
                MAX_LIVE_SNAPSHOTS,
                Field::LiveSnapshots,
                snapshot,
            ) {
                lemma_archive_goes_on(rest, header.version, header.last_sample_unix_secs, more);
            }
        }
    }
}

proof fn lemma_cut<V>(short: Parsed<V>, long: Parsed<V>, more: Seq<u8>)
    requires
        goes_on(short, long, more),
        long is Ok,
        (long->Ok_0).1.len() == 0,
        more.len() > 0,
    ensures
        short == Err::<(V, Seq<u8>), _>(DecodeErrorModel::UnexpectedEnd),
{
    if let Ok((_, rest)) = short {
        assert((rest + more).len() > 0);
    }
}

/// No part of a cache's bytes that stops before their end is read as a cache: it stops too early.
pub proof fn law_cut_caches_are_refused(cache: SessionCacheModel, version: u16, len: int)
    requires
        version == CACHE_VERSION || version == CACHE_VERSION_V2,
        crate::decoder::readable(cache),
        0 <= len < crate::codec::session_bytes(cache, version).len(),
    ensures
        crate::decoder::parse_session(crate::codec::session_bytes(cache, version).take(len))
            == Err::<(SessionCacheModel, Seq<u8>), _>(DecodeErrorModel::UnexpectedEnd),
{
    let bytes = crate::codec::session_bytes(cache, version);
    let cut = bytes.take(len);
    let more = bytes.skip(len);
    crate::decoder::law_cache_reads_back(cache, version, Seq::empty());
    assert(bytes + Seq::<u8>::empty() =~= bytes);
    assert(cut + more =~= bytes);
    law_further_bytes_change_nothing(cut, more);
    lemma_cut(
        crate::decoder::parse_session(cut),
        crate::decoder::parse_session(bytes),
        more,
    );
}

} // verus!
