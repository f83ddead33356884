//! What holds of the bytes of a saved session.
use vstd::arithmetic::power::*;
use vstd::prelude::*;
use vstd::utf8::*;

use crate::codec::{DecodeErrorModel, Field};
use crate::persistence::{
    GroupPowerSumModel, LiveProcessSampleModel, LiveSnapshotModel, SessionCacheModel,
    TierSampleModel,
};

verus! {

/// A number is written in as many bytes as are asked for, the lowest first: each counts two hundred
/// and fifty-six times as much as the one before.
pub proof fn law_numbers_start_with_the_lowest_byte(x: nat, n: nat, i: int)
    requires
        0 <= i < n,
    ensures
        crate::codec::le_bytes(x, n).len() == n,
        crate::codec::le_bytes(x, n)[i] == (x as int / pow(256, i as nat)) % 256,
    decreases n,
{
    let rest = crate::codec::le_bytes(x / 256, (n - 1) as nat);
    let bytes = crate::codec::le_bytes(x, n);
    assert(bytes =~= seq![(x % 256) as u8] + rest);
    if n == 1 {
        assert(rest =~= Seq::empty());
    }
    if i == 0 {
        lemma_pow0(256);
        if n > 1 {
            law_numbers_start_with_the_lowest_byte(x / 256, (n - 1) as nat, 0);
        }
    } else {
        law_numbers_start_with_the_lowest_byte(x / 256, (n - 1) as nat, i - 1);
        lemma_pow_positive(256, (i - 1) as nat);
        reveal(pow);
        assert(pow(256, i as nat) == 256 * pow(256, (i - 1) as nat));
        vstd::arithmetic::div_mod::lemma_div_denominator(
            x as int,
            256,
            pow(256, (i - 1) as nat),
        );
    }
}

proof fn lemma_len(x: nat, n: nat)
    ensures
        crate::codec::le_bytes(x, n).len() == n,
    decreases n,
{
    if n > 0 {
        law_numbers_start_with_the_lowest_byte(x, n, 0);
    }
}

/// A saved session starts with eight letters, the version, the time at which it was saved, its tick and
/// the time of its last sample.
pub proof fn law_saved_sessions_start_with_a_header(cache: SessionCacheModel, version: u16)
    ensures
        ({
            let bytes = crate::codec::session_bytes(cache, version);
            &&& bytes.len() >= 34
            &&& bytes.subrange(0, 8) == seq![
                'E' as u8,
                'T' as u8,
                'O' as u8,
                'P' as u8,
                'C' as u8,
                'A' as u8,
                'C' as u8,
                'H' as u8,
            ]
            &&& bytes.subrange(8, 10) == crate::codec::le_bytes(version as nat, 2)
            &&& bytes.subrange(10, 18) == crate::codec::le_bytes(
                cache.saved_at_unix_millis as nat,
                8,
            )
            &&& bytes.subrange(18, 26) == crate::codec::le_bytes(cache.last_tick as nat, 8)
            &&& bytes.subrange(26, 34) == crate::codec::le_bytes(
                match cache.archive.last_sample_unix_secs {
                    Some(secs) => secs as nat,
                    None => 0,
                },
                8,
            )
        }),
        crate::codec::CACHE_VERSION == 3,
        crate::codec::CACHE_VERSION_V2 == 2,
{
    let bytes = crate::codec::session_bytes(cache, version);
    let last: nat = match cache.archive.last_sample_unix_secs {
        Some(secs) => secs as nat,
        None => 0,
    };
    lemma_len(version as nat, 2);
    lemma_len(cache.saved_at_unix_millis as nat, 8);
    lemma_len(cache.last_tick as nat, 8);
    lemma_len(last, 8);
    assert(bytes.subrange(0, 8) =~= seq![
        'E' as u8,
        'T' as u8,
        'O' as u8,
        'P' as u8,
        'C' as u8,
        'A' as u8,
        'C' as u8,
        'H' as u8,
    ]);
    assert(bytes.subrange(8, 10) =~= crate::codec::le_bytes(version as nat, 2));
    assert(bytes.subrange(10, 18) =~= crate::codec::le_bytes(
        cache.saved_at_unix_millis as nat,
        8,
    ));
    assert(bytes.subrange(18, 26) =~= crate::codec::le_bytes(cache.last_tick as nat, 8));
    assert(bytes.subrange(26, 34) =~= crate::codec::le_bytes(last, 8));
}

/// Behind the header stand the power history, the live snapshots and the three tiers, each behind the
/// number of its items.
pub proof fn law_lists_stand_behind_their_lengths(cache: SessionCacheModel, version: u16)
    ensures
        crate::codec::session_bytes(cache, version).skip(34) == crate::codec::le_bytes(
            cache.live_power_history.len(),
            4,
        ) + crate::codec::list_bytes(cache.live_power_history, crate::codec::power_bytes())
            + crate::codec::le_bytes(cache.live_snapshots.len(), 4) + crate::codec::list_bytes(
            cache.live_snapshots,
            crate::codec::snapshot_bytes(),
        ) + crate::codec::tier_bytes(cache.archive.raw_2s, version) + crate::codec::tier_bytes(
            cache.archive.agg_10s,
            version,
        ) + crate::codec::tier_bytes(cache.archive.agg_60s, version),
        crate::codec::tier_bytes(cache.archive.raw_2s, version) == crate::codec::le_bytes(
            cache.archive.raw_2s.len(),
            4,
        ) + crate::codec::list_bytes(
            cache.archive.raw_2s,
            crate::codec::bucket_bytes(version),
        ),
{
    let bytes = crate::codec::session_bytes(cache, version);
    let last: nat = match cache.archive.last_sample_unix_secs {
        Some(secs) => secs as nat,
        None => 0,
    };
    lemma_len(version as nat, 2);
    lemma_len(cache.saved_at_unix_millis as nat, 8);
    lemma_len(cache.last_tick as nat, 8);
    lemma_len(last, 8);
    assert(crate::codec::header_bytes(cache, version).len() == 34);
    assert(bytes.skip(34) =~= crate::codec::le_bytes(cache.live_power_history.len(), 4)
        + crate::codec::list_bytes(cache.live_power_history, crate::codec::power_bytes())
        + crate::codec::le_bytes(cache.live_snapshots.len(), 4) + crate::codec::list_bytes(
        cache.live_snapshots,
        crate::codec::snapshot_bytes(),
    ) + crate::codec::tier_bytes(cache.archive.raw_2s, version) + crate::codec::tier_bytes(
        cache.archive.agg_10s,
        version,
    ) + crate::codec::tier_bytes(cache.archive.agg_60s, version));
}

/// How each item is written: a power in eight bytes; a process as its number, its name and its power;
/// a snapshot as its tick and its processes; a bucket as its start, its number of samples, its total,
/// its names with their powers and, from the third version on, whether a gap lies before it.
pub proof fn law_items_are_written_field_by_field(
    sample: LiveProcessSampleModel,
    snapshot: LiveSnapshotModel,
    group: GroupPowerSumModel,
    bucket: TierSampleModel,
)
    ensures
        crate::codec::power_bytes()(sample.power) == crate::codec::le_bytes(
            sample.power.bits as nat,
            8,
        ),
        crate::codec::sample_bytes()(sample) == crate::codec::le_bytes(
            if sample.pid < 0 {
                (sample.pid + 0x1_0000_0000) as nat
            } else {
                sample.pid as nat
            },
            4,
        ) + crate::codec::text_bytes(sample.process) + crate::codec::le_bytes(
            sample.power.bits as nat,
            8,
        ),
        crate::codec::text_bytes(sample.process) == crate::codec::le_bytes(
            encode_utf8(sample.process).len(),
            4,
        ) + encode_utf8(sample.process),
        crate::codec::snapshot_bytes()(snapshot) == crate::codec::le_bytes(
            snapshot.tick as nat,
            8,
        ) + crate::codec::le_bytes(snapshot.samples.len(), 4) + crate::codec::list_bytes(
            snapshot.samples,
            crate::codec::sample_bytes(),
        ),
        crate::codec::group_bytes()(group) == crate::codec::text_bytes(group.name)
            + crate::codec::le_bytes(group.power_sum.bits as nat, 8),
        crate::codec::bucket_bytes(2)(bucket) + seq![
            if bucket.gap_before {
                1u8
            } else {
                0u8
            },
        ] == crate::codec::bucket_bytes(3)(bucket),
        crate::codec::bucket_bytes(2)(bucket) == crate::codec::le_bytes(
            bucket.bucket_start_secs as nat,
            8,
        ) + crate::codec::le_bytes(bucket.sample_count as nat, 4) + crate::codec::le_bytes(
            bucket.total_power_sum.bits as nat,
            8,
        ) + crate::codec::le_bytes(bucket.groups.len(), 4) + crate::codec::list_bytes(
            bucket.groups,
            crate::codec::group_bytes(),
        ),
{
    let older = crate::codec::bucket_bytes(2)(bucket);
    let front = crate::codec::le_bytes(bucket.bucket_start_secs as nat, 8)
        + crate::codec::le_bytes(bucket.sample_count as nat, 4) + crate::codec::le_bytes(
        bucket.total_power_sum.bits as nat,
        8,
    ) + crate::codec::le_bytes(bucket.groups.len(), 4) + crate::codec::list_bytes(
        bucket.groups,
        crate::codec::group_bytes(),
    );
    assert(older =~= front);
    let mark = seq![
        if bucket.gap_before {
            1u8
        } else {
            0u8
        },
    ];
    assert(crate::codec::bool_bytes(bucket.gap_before) =~= mark);
    assert(crate::codec::bucket_bytes(3)(bucket) =~= front + mark);
}

/// The items of a list are written one behind the other, all of them.
pub proof fn law_lists_are_written_item_by_item<V>(
    items: Seq<V>,
    next: V,
    one: spec_fn(V) -> Seq<u8>,
)
    ensures
        crate::codec::list_bytes(items.push(next), one) == crate::codec::list_bytes(items, one)
            + one(next),
        crate::codec::list_bytes(Seq::<V>::empty(), one) == Seq::<u8>::empty(),
{
    assert(items.push(next).drop_last() =~= items);
}

/// Bytes that do not start with the eight letters are refused, and so is a version other than the
/// second and the third. Bytes that stop within the header are refused too.
pub proof fn law_other_bytes_are_refused(bytes: Seq<u8>)
    ensures
        bytes.len() < 8 ==> crate::decoder::parse_session(bytes) == Err::<
            (SessionCacheModel, Seq<u8>),
            _,
        >(DecodeErrorModel::UnexpectedEnd),
        bytes.len() >= 8 && bytes.take(8) != seq![
            'E' as u8,
            'T' as u8,
            'O' as u8,
            'P' as u8,
            'C' as u8,
            'A' as u8,
            'C' as u8,
            'H' as u8,
        ] ==> crate::decoder::parse_session(bytes) == Err::<(SessionCacheModel, Seq<u8>), _>(
            DecodeErrorModel::InvalidMagic,
        ),
        bytes.len() >= 10 && bytes.take(8) == seq![
            'E' as u8,
            'T' as u8,
            'O' as u8,
            'P' as u8,
            'C' as u8,
            'A' as u8,
            'C' as u8,
            'H' as u8,
        ] && bytes[8] + 256 * bytes[9] != 2 && bytes[8] + 256 * bytes[9] != 3
            ==> crate::decoder::parse_session(bytes) == Err::<(SessionCacheModel, Seq<u8>), _>(
            DecodeErrorModel::UnsupportedVersion((bytes[8] + 256 * bytes[9]) as u16),
        ),
{
    assert(crate::codec::magic() =~= seq![
        'E' as u8,
        'T' as u8,
        'O' as u8,
        'P' as u8,
        'C' as u8,
        'A' as u8,
        'C' as u8,
        'H' as u8,
    ]);
    if bytes.len() >= 10 {
        let rest = bytes.skip(8);
        let two = rest.take(2);
        assert(two[0] == bytes[8] && two[1] == bytes[9]);
        assert(two.skip(1)[0] == bytes[9]);
        assert(two.skip(1).skip(1) =~= Seq::empty());
        reveal_with_fuel(crate::codec::le_value, 3);
        assert(crate::codec::le_value(two) == bytes[8] + 256 * bytes[9]);
    }
}

/// A session is readable where it has no more than so many live values and snapshots, buckets to a
/// tier, processes to a snapshot, names to a bucket and bytes to a name.
pub proof fn law_readable_sessions_keep_to_limits(cache: SessionCacheModel)
    ensures
        crate::decoder::readable(cache) <==> {
            &&& cache.live_power_history.len() <= 16_384
            &&& cache.live_snapshots.len() <= 16_384
            &&& forall|i: int|
                0 <= i < cache.live_snapshots.len() ==> snapshot_within(
                    #[trigger] cache.live_snapshots[i],
                )
            &&& tier_within(cache.archive.raw_2s)
            &&& tier_within(cache.archive.agg_10s)
            &&& tier_within(cache.archive.agg_60s)
        },
{
    assert forall|snapshot: LiveSnapshotModel|
        snapshot_within(snapshot) <==> #[trigger] crate::decoder::snapshot_readable(snapshot) by {
        lemma_snapshot_within(snapshot);
    }
    lemma_tier_within(cache.archive.raw_2s);
    lemma_tier_within(cache.archive.agg_10s);
    lemma_tier_within(cache.archive.agg_60s);
    if crate::decoder::readable(cache) {
        assert forall|i: int| 0 <= i < cache.live_snapshots.len() implies snapshot_within(
            #[trigger] cache.live_snapshots[i],
        ) by {
            assert(crate::decoder::snapshot_readable(cache.live_snapshots[i]));
        }
    }
}

pub open spec fn snapshot_within(snapshot: LiveSnapshotModel) -> bool {
    snapshot.samples.len() <= 65_536 && forall|i: int|
        0 <= i < snapshot.samples.len() ==> encode_utf8(
            (#[trigger] snapshot.samples[i]).process,
        ).len() <= 4_096
}

pub open spec fn bucket_within(bucket: TierSampleModel) -> bool {
    bucket.groups.len() <= 65_536 && forall|i: int|
        0 <= i < bucket.groups.len() ==> encode_utf8((#[trigger] bucket.groups[i]).name).len()
            <= 4_096
}

pub open spec fn tier_within(tier: Seq<TierSampleModel>) -> bool {
    tier.len() <= 16_384 && forall|i: int|
        0 <= i < tier.len() ==> bucket_within(#[trigger] tier[i])
}

proof fn lemma_snapshot_within(snapshot: LiveSnapshotModel)
    ensures
        snapshot_within(snapshot) <==> crate::decoder::snapshot_readable(snapshot),
{
    if crate::decoder::snapshot_readable(snapshot) {
        assert forall|i: int| 0 <= i < snapshot.samples.len() implies encode_utf8(
            (#[trigger] snapshot.samples[i]).process,
        ).len() <= 4_096 by {
            assert(crate::decoder::text_readable(snapshot.samples[i].process));
        }
    }
}

proof fn lemma_bucket_within(bucket: TierSampleModel)
    ensures
        bucket_within(bucket) <==> crate::decoder::bucket_readable(bucket),
{
    if crate::decoder::bucket_readable(bucket) {
        assert forall|i: int| 0 <= i < bucket.groups.len() implies encode_utf8(
            (#[trigger] bucket.groups[i]).name,
        ).len() <= 4_096 by {
            assert(crate::decoder::text_readable(bucket.groups[i].name));
        }
    }
}

proof fn lemma_tier_within(tier: Seq<TierSampleModel>)
    ensures
        tier_within(tier) <==> crate::decoder::tier_readable(tier),
{
    assert forall|i: int| 0 <= i < tier.len() implies (bucket_within(#[trigger] tier[i])
        <==> crate::decoder::bucket_readable(tier[i])) by {
        lemma_bucket_within(tier[i]);
    }
    if crate::decoder::tier_readable(tier) {
        assert forall|i: int| 0 <= i < tier.len() implies bucket_within(#[trigger] tier[i]) by {
            assert(crate::decoder::bucket_readable(tier[i]));
        }
    }
    if tier_within(tier) {
        assert forall|i: int| 0 <= i < tier.len() implies crate::decoder::bucket_readable(
            #[trigger] tier[i],
        ) by {
            assert(bucket_within(tier[i]));
        }
    }
}

/// What is said of bytes that are refused.
pub proof fn law_refusals_say_why(
    version: u16,
    field: Field,
    value: u32,
    max: usize,
    text: Seq<char>,
    flag: u8,
)
    ensures
        DecodeErrorModel::InvalidMagic.words() == "invalid cache magic"@,
        DecodeErrorModel::UnsupportedVersion(version).words() == "unsupported cache version: "@
            + crate::text::decimal_text(version as nat),
        (DecodeErrorModel::LengthExceedsMax { field, value, max }).words() == field.name()
            + " length "@ + crate::text::decimal_text(value as nat) + " exceeds max "@
            + crate::text::decimal_text(max as nat),
        DecodeErrorModel::Utf8(text).words() == "utf8 error: "@ + text,
        DecodeErrorModel::InvalidBool(flag).words() == "invalid bool value: "@
            + crate::text::decimal_text(flag as nat),
{
}


/// The items of a tier that reading back keeps: all but single processes, and in the older version all
/// but the marks of gaps.
pub open spec fn kept_of(bucket: TierSampleModel, version: u16) -> TierSampleModel {
    TierSampleModel {
        bucket_start_secs: bucket.bucket_start_secs,
        sample_count: bucket.sample_count,
        total_power_sum: bucket.total_power_sum,
        groups: bucket.groups,
        processes: Seq::empty(),
        gap_before: version == 3 && bucket.gap_before,
    }
}

/// What a saved session holds, and reading it gives back: its time, its tick, its power history, its
/// live snapshots and the newest buckets of its tiers.
pub proof fn law_sessions_hold_what_is_read_back(
    cache: SessionCacheModel,
    version: u16,
    back: int,
)
    requires
        version == 2 || version == 3,
        0 <= back,
    ensures
        ({
            let found = crate::decoder::stored(cache, version);
            &&& found.saved_at_unix_millis == cache.saved_at_unix_millis
            &&& found.last_tick == cache.last_tick
            &&& found.live_power_history == cache.live_power_history
            &&& found.live_snapshots == cache.live_snapshots
            &&& cache.archive.last_sample_unix_secs != Some(0u64)
                ==> found.archive.last_sample_unix_secs == cache.archive.last_sample_unix_secs
            &&& held(cache.archive.raw_2s, found.archive.raw_2s, 900, version, back)
            &&& held(cache.archive.agg_10s, found.archive.agg_10s, 1_080, version, back)
            &&& held(cache.archive.agg_60s, found.archive.agg_60s, 720, version, back)
        }),
{
}

/// Whether a tier that is read back has a bucket, counted from the newest, as far as it may hold it.
pub open spec fn held(
    tier: Seq<TierSampleModel>,
    found: Seq<TierSampleModel>,
    capacity: nat,
    version: u16,
    back: int,
) -> bool {
    &&& found.len() == if tier.len() <= capacity {
        tier.len()
    } else {
        capacity
    }
    &&& back < found.len() ==> found[found.len() - 1 - back] == kept_of(
        tier[tier.len() - 1 - back],
        version,
    )
}

} // verus!
