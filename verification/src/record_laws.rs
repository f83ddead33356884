//! What holds of recording samples in the archive, and of what is kept of a session.
use vstd::prelude::*;

use crate::binary64::Binary64;
use crate::history::PidKeyModel;
use crate::history_laws::last_of;
use crate::persistence::{
    ArchiveStateModel, ArchivedProcessPowerModel, GroupPowerSumModel, Interval,
    LiveProcessSampleModel, SessionCacheModel, TierSampleModel,
};

verus! {

/// A sample for the archive: when it was taken, what was drawn together, under each name and by each
/// process.
#[verifier::ext_equal]
pub struct Taken {
    pub secs: u64,
    pub total: Binary64,
    pub groups: Seq<GroupPowerSumModel>,
    pub processes: Seq<ArchivedProcessPowerModel>,
}

/// Whether a tier has taken in a sample. Where its last bucket is of the sample's stretch of time, and
/// no gap lies between, the sample is added to that bucket, and all others stay. Else the sample has a
/// bucket of its own behind the others, of which the oldest are given up where there are too many.
pub open spec fn taken_in(
    before: Seq<TierSampleModel>,
    after: Seq<TierSampleModel>,
    bucket_secs: int,
    capacity: nat,
    taken: Taken,
    gap: bool,
) -> bool {
    let start = taken.secs - taken.secs as int % bucket_secs;
    if !gap && before.len() > 0 && before.last().bucket_start_secs == start {
        &&& after.len() == before.len()
        &&& forall|i: int| 0 <= i < before.len() - 1 ==> #[trigger] after[i] == before[i]
        &&& after.last().bucket_start_secs == start
        &&& before.last().sample_count < u32::MAX ==> after.last().sample_count
            == before.last().sample_count + 1
        &&& after.last().total_power_sum == before.last().total_power_sum.sum(taken.total)
        &&& after.last().gap_before == before.last().gap_before
    } else {
        &&& after.len() > 0
        &&& after == last_of(before.push(after.last()), capacity)
        &&& after.last().bucket_start_secs == start
        &&& after.last().sample_count == 1
        &&& after.last().total_power_sum == taken.total
        &&& after.last().groups == taken.groups
        &&& after.last().processes == taken.processes
        &&& after.last().gap_before == (gap && before.len() > 0)
    }
}

/// Recording takes a sample into all three tiers: in buckets of two seconds, ten seconds and a minute,
/// nine hundred, a thousand and eighty, and seven hundred and twenty of them. A gap lies before it
/// where it comes later than allowed after the last one.
pub proof fn law_recording_takes_samples_in(
    archive: ArchiveStateModel,
    taken: Taken,
    allowed_secs: u64,
)
    ensures
        ({
            let after = archive.recorded(
                taken.secs,
                allowed_secs,
                taken.total,
                taken.groups,
                taken.processes,
            );
            let gap = match archive.last_sample_unix_secs {
                Some(last) => taken.secs > last + allowed_secs,
                None => false,
            };
            &&& after.last_sample_unix_secs == Some(taken.secs)
            &&& taken_in(archive.raw_2s, after.raw_2s, 2, 900, taken, gap)
            &&& taken_in(archive.agg_10s, after.agg_10s, 10, 1_080, taken, gap)
            &&& taken_in(archive.agg_60s, after.agg_60s, 60, 720, taken, gap)
        }),
{
    let gap = archive.gap_at(taken.secs, allowed_secs);
    lemma_taken_in(archive.raw_2s, 2, 900, taken, gap);
    lemma_taken_in(archive.agg_10s, 10, 1_080, taken, gap);
    lemma_taken_in(archive.agg_60s, 60, 720, taken, gap);
}

proof fn lemma_taken_in(
    tier: Seq<TierSampleModel>,
    bucket_secs: u64,
    capacity: nat,
    taken: Taken,
    gap: bool,
)
    requires
        bucket_secs > 0,
        capacity > 0,
    ensures
        taken_in(
            tier,
            crate::persistence::upserted(
                tier,
                bucket_secs,
                capacity,
                taken.secs,
                taken.total,
                taken.groups,
                taken.processes,
                gap,
            ),
            bucket_secs as int,
            capacity,
            taken,
            gap,
        ),
{
    let after = crate::persistence::upserted(
        tier,
        bucket_secs,
        capacity,
        taken.secs,
        taken.total,
        taken.groups,
        taken.processes,
        gap,
    );
    let start = taken.secs - taken.secs as int % bucket_secs as int;
    vstd::arithmetic::div_mod::lemma_mod_bound(taken.secs as int, bucket_secs as int);
    vstd::arithmetic::div_mod::lemma_mod_decreases(taken.secs as nat, bucket_secs as nat);
    if !(!gap && tier.len() > 0 && tier.last().bucket_start_secs == start) {
        assert(after =~= last_of(tier.push(after.last()), capacity));
    }
}

/// What is added to a bucket is added under each name and for each process: what stood there with
/// what the sample has, and what stands under another name or process stays.
pub proof fn law_merged_processes_add_up(
    processes: Seq<ArchivedProcessPowerModel>,
    pid: i32,
    process: Seq<char>,
    power: Binary64,
    other: PidKeyModel,
)
    ensures
        crate::archive_query::process_sum(
            crate::persistence::process_entered(processes, pid, process, power),
            other,
        ) == if other.pid == pid && other.process == process {
            match crate::archive_query::process_sum(processes, other) {
                Some(sum) => Some(sum.sum(power)),
                None => Some((Binary64 { bits: 0 }).sum(power)),
            }
        } else {
            crate::archive_query::process_sum(processes, other)
        },
    decreases processes.len(),
{
    reveal_with_fuel(crate::archive_query::process_sum, 3);
    let after = crate::persistence::process_entered(processes, pid, process, power);
    if processes.len() == 0 {
        assert(after[0].pid == pid && after[0].process == process);
        assert(after.skip(1) =~= Seq::empty());
    } else if processes[0].pid == pid && processes[0].process == process {
        assert(after[0].pid == pid && after[0].process == process);
        assert(after.skip(1) =~= processes.skip(1));
    } else {
        law_merged_processes_add_up(processes.skip(1), pid, process, power, other);
        assert(after[0] == processes[0]);
        assert(after.skip(1) =~= crate::persistence::process_entered(
            processes.skip(1),
            pid,
            process,
            power,
        ));
    }
}

/// The last bucket's names and processes, where a sample is added to it.
pub proof fn law_merging_a_sample_merges_its_parts(
    tier: Seq<TierSampleModel>,
    bucket_secs: u64,
    capacity: nat,
    taken: Taken,
)
    requires
        bucket_secs > 0,
        tier.len() > 0,
        tier.last().bucket_start_secs == taken.secs - taken.secs as int % bucket_secs as int,
    ensures
        ({
            let after = crate::persistence::upserted(
                tier,
                bucket_secs,
                capacity,
                taken.secs,
                taken.total,
                taken.groups,
                taken.processes,
                false,
            ).last();
            &&& after.groups == crate::persistence::merged_sums(tier.last().groups, taken.groups)
            &&& after.processes == crate::persistence::processes_entered(
                tier.last().processes,
                taken.processes,
            )
        }),
{
}

/// Where nothing was known of a bucket's processes, adding some gives each its own sum.
pub proof fn law_processes_enter_one_by_one(
    processes: Seq<ArchivedProcessPowerModel>,
    more: Seq<ArchivedProcessPowerModel>,
    next: ArchivedProcessPowerModel,
)
    ensures
        crate::persistence::processes_entered(processes, Seq::empty()) == processes,
        crate::persistence::processes_entered(processes, more.push(next))
            == crate::persistence::process_entered(
            crate::persistence::processes_entered(processes, more),
            next.pid,
            next.process,
            next.power_sum,
        ),
{
    assert(more.push(next).drop_last() =~= more);
}

/// Bounding an archive keeps the newest buckets of each tier: half an hour of two seconds, three hours
/// of ten and twelve of a minute.
pub proof fn law_bounds_keep_the_newest_buckets(archive: ArchiveStateModel)
    ensures
        archive.within_bounds().raw_2s == last_of(archive.raw_2s, 900),
        archive.within_bounds().agg_10s == last_of(archive.agg_10s, 1_080),
        archive.within_bounds().agg_60s == last_of(archive.agg_60s, 720),
        archive.within_bounds().last_sample_unix_secs == archive.last_sample_unix_secs,
{
    assert(archive.within_bounds().raw_2s =~= last_of(archive.raw_2s, 900));
    assert(archive.within_bounds().agg_10s =~= last_of(archive.agg_10s, 1_080));
    assert(archive.within_bounds().agg_60s =~= last_of(archive.agg_60s, 720));
}

/// Bounding a cache keeps the newest live data, as much as is asked for but at least one of each.
pub proof fn law_bounds_keep_the_newest_live_data(cache: SessionCacheModel, limit: nat)
    ensures
        ({
            let kept = if limit == 0 {
                1
            } else {
                limit
            };
            let after = cache.within_bounds(limit);
            &&& after.live_power_history == last_of(cache.live_power_history, kept)
            &&& after.live_snapshots == last_of(cache.live_snapshots, kept)
            &&& after.archive == cache.archive.within_bounds()
            &&& after.saved_at_unix_millis == cache.saved_at_unix_millis
            &&& after.last_tick == cache.last_tick
        }),
{
    let kept = if limit == 0 {
        1
    } else {
        limit
    };
    let after = cache.within_bounds(limit);
    assert(after.live_power_history =~= last_of(cache.live_power_history, kept));
    assert(after.live_snapshots =~= last_of(cache.live_snapshots, kept));
}

/// A power is reasonable from nothing to the limit.
pub proof fn law_reasonable_powers_are_within_the_limit(value: Binary64, max: Binary64)
    requires
        max.finite(),
    ensures
        crate::persistence::reasonable(value, max) <==> value.finite() && 0 <= value.value()
            <= max.value(),
{
    let zero = Binary64 { bits: 0 };
    assert(zero.magnitude() == 0);
    assert(crate::binary64::units(0) == 0);
    if value.finite() {
        crate::binary64::law_order_is_by_value(zero, value);
        crate::binary64::law_order_is_by_value(value, max);
    }
}

/// Cleaning a tier keeps a bucket exactly where it has samples and a reasonable average, in its place
/// among those that are kept, with its time, its number of samples and its mark.
pub proof fn law_cleaning_keeps_reasonable_buckets(
    tier: Seq<TierSampleModel>,
    bucket: TierSampleModel,
    max: Binary64,
)
    ensures
        ({
            let before = crate::persistence::sanitized_tier(tier, max);
            let after = crate::persistence::sanitized_tier(tier.push(bucket), max);
            let average = bucket.total_power_sum.quotient(
                Binary64::whole(bucket.sample_count as nat),
            );
            if bucket.sample_count > 0 && crate::persistence::reasonable(average, max) {
                &&& after.len() == before.len() + 1
                &&& after.drop_last() == before
                &&& after.last().bucket_start_secs == bucket.bucket_start_secs
                &&& after.last().sample_count == bucket.sample_count
                &&& after.last().gap_before == bucket.gap_before
                &&& after.last().total_power_sum == average.product(
                    Binary64::whole(bucket.sample_count as nat),
                )
                &&& forall|group: GroupPowerSumModel| #[trigger]
                    after.last().groups.contains(group) <==> bucket.groups.contains(group)
                        && crate::persistence::reasonable(
                        group.power_sum.quotient(Binary64::whole(bucket.sample_count as nat)),
                        max,
                    )
                &&& forall|process: ArchivedProcessPowerModel| #[trigger]
                    after.last().processes.contains(process) <==> bucket.processes.contains(process)
                        && crate::persistence::reasonable(
                        process.power_sum.quotient(Binary64::whole(bucket.sample_count as nat)),
                        max,
                    )
            } else {
                after == before
            }
        }),
        crate::persistence::sanitized_tier(Seq::empty(), max) == Seq::<TierSampleModel>::empty(),
{
    assert(tier.push(bucket).drop_last() =~= tier);
    let before = crate::persistence::sanitized_tier(tier, max);
    let after = crate::persistence::sanitized_tier(tier.push(bucket), max);
    if crate::persistence::bucket_kept(bucket, max) {
        assert(after.drop_last() =~= before);
        assert forall|group: GroupPowerSumModel| #[trigger]
            after.last().groups.contains(group) <==> bucket.groups.contains(group)
                && crate::persistence::reasonable(
                group.power_sum.quotient(Binary64::whole(bucket.sample_count as nat)),
                max,
            ) by {
            crate::lists::lemma_filtered(
                bucket.groups,
                crate::persistence::group_kept(bucket.sample_count, max),
                group,
            );
        }
        assert forall|process: ArchivedProcessPowerModel| #[trigger]
            after.last().processes.contains(process) <==> bucket.processes.contains(process)
                && crate::persistence::reasonable(
                process.power_sum.quotient(Binary64::whole(bucket.sample_count as nat)),
                max,
            ) by {
            crate::lists::lemma_filtered(
                bucket.processes,
                crate::persistence::process_kept(bucket.sample_count, max),
                process,
            );
        }
    }
}

/// Cleaning a cache cleans each snapshot in its place, and makes the power history anew from what is
/// left of them, where there are any.
pub proof fn law_cleaning_recounts_the_power(cache: SessionCacheModel, max: Binary64, i: int)
    requires
        0 <= i < cache.live_snapshots.len(),
    ensures
        ({
            let after = cache.sanitized(max);
            &&& after.live_snapshots.len() == cache.live_snapshots.len()
            &&& after.live_power_history.len() == cache.live_snapshots.len()
            &&& after.live_snapshots[i].tick == cache.live_snapshots[i].tick
            &&& after.live_power_history[i] == crate::binary64::total(
                crate::persistence::powers(after.live_snapshots[i].samples),
            )
            &&& after.saved_at_unix_millis == cache.saved_at_unix_millis
            &&& after.last_tick == cache.last_tick
            &&& after.archive.raw_2s == crate::persistence::sanitized_tier(
                cache.archive.raw_2s,
                max,
            )
            &&& after.archive.agg_10s == crate::persistence::sanitized_tier(
                cache.archive.agg_10s,
                max,
            )
            &&& after.archive.agg_60s == crate::persistence::sanitized_tier(
                cache.archive.agg_60s,
                max,
            )
        }),
{
}

/// What is saved of a session is its newest sixteen thousand snapshots, with every power that a
/// machine may draw and no other: from nothing to ten thousand.
pub proof fn law_saving_keeps_the_newest_snapshots(
    cache: SessionCacheModel,
    back: int,
    sample: LiveProcessSampleModel,
)
    requires
        0 <= back < cache.live_snapshots.len(),
        back < 16_384,
    ensures
        ({
            let saved = cache.prepared();
            let had = cache.live_snapshots[cache.live_snapshots.len() - 1 - back];
            let has = saved.live_snapshots[saved.live_snapshots.len() - 1 - back];
            &&& saved.live_snapshots.len() == if cache.live_snapshots.len() <= 16_384 {
                cache.live_snapshots.len()
            } else {
                16_384
            }
            &&& has.tick == had.tick
            &&& has.samples.contains(sample) <==> had.samples.contains(sample)
                && sample.power.finite() && 0 <= sample.power.value() <= (Binary64 {
                bits: 0x40c3_8800_0000_0000,
            }).value()
            &&& saved.saved_at_unix_millis == cache.saved_at_unix_millis
            &&& saved.last_tick == cache.last_tick
            &&& saved.archive.last_sample_unix_secs == cache.archive.last_sample_unix_secs
        }),
{
    let saved = cache.prepared();
    let max = Binary64 { bits: 0x40c3_8800_0000_0000 };
    assert(max.magnitude() == 0x40c3_8800_0000_0000);
    let had = cache.live_snapshots[cache.live_snapshots.len() - 1 - back];
    crate::lists::lemma_filtered(had.samples, crate::persistence::sample_kept(max), sample);
    law_reasonable_powers_are_within_the_limit(sample.power, max);
}

/// A session carries on over three refreshes: that many milliseconds, or seconds rounded up.
pub proof fn law_sessions_carry_on_over_three_refreshes(refresh: Interval)
    requires
        refresh.secs < 0x10_0000_0000_0000,
        refresh.subsec_nanos < 1_000_000_000,
    ensures
        crate::persistence::threshold_millis(refresh) == 3 * (1_000 * refresh.secs
            + refresh.subsec_nanos as int / 1_000_000),
        1_000 * crate::persistence::threshold_secs(refresh) - 1_000
            < crate::persistence::threshold_millis(refresh) <= 1_000
            * crate::persistence::threshold_secs(refresh),
{
}

/// What is read at the start is cleaned of powers above ten thousand and bounded. Its live part is
/// carried on with where it is no older than three refreshes, and a clock that went back counts as
/// none gone by.
pub proof fn law_loading_cleans_and_bounds(
    cache: SessionCacheModel,
    now_millis: u64,
    refresh: Interval,
    limit: nat,
)
    requires
        refresh.secs < 0x10_0000_0000_0000,
        refresh.subsec_nanos < 1_000_000_000,
    ensures
        ({
            let loaded = crate::decoder::loaded(cache, now_millis, refresh, limit);
            let gone = if now_millis >= cache.saved_at_unix_millis {
                now_millis - cache.saved_at_unix_millis
            } else {
                0
            };
            &&& loaded.gap_millis == gone
            &&& loaded.hydrate_live <==> gone <= 3 * (1_000 * refresh.secs
                + refresh.subsec_nanos as int / 1_000_000)
            &&& loaded.cache == cache.sanitized(
                Binary64 { bits: 0x40c3_8800_0000_0000 },
            ).within_bounds(limit)
        }),
{
}


/// What is saved of the archive are its newest buckets without powers that no machine draws. Without
/// snapshots the newest sixteen thousand values of the power history are saved, but for such powers.
pub proof fn law_saving_keeps_the_archive(cache: SessionCacheModel, power: Binary64)
    ensures
        ({
            let max = Binary64 { bits: 0x40c3_8800_0000_0000 };
            let saved = cache.prepared();
            &&& saved.archive == cache.archive.sanitized(max).within_bounds()
            &&& cache.live_snapshots.len() == 0 ==> (saved.live_power_history.contains(power)
                <==> last_of(cache.live_power_history, 16_384).contains(power)
                && crate::persistence::reasonable(power, max))
        }),
{
    let max = Binary64 { bits: 0x40c3_8800_0000_0000 };
    let kept = crate::lists::newest(cache.live_power_history, 16_384);
    assert(kept =~= last_of(cache.live_power_history, 16_384));
    crate::lists::lemma_filtered(kept, crate::persistence::power_kept(max), power);
}

} // verus!
