//! What a session keeps: the archive of past power in three tiers, the live samples, and the rules
//! by which both are bounded and cleaned.
use std::collections::VecDeque;

use vstd::prelude::*;

use crate::binary64::Binary64;

verus! {

pub const QUICK_HYDRATE_GAP_MULTIPLIER: u64 = 3;

pub const MAX_LIVE_POWER_POINTS: usize = 16_384;

pub const MAX_LIVE_SNAPSHOTS: usize = 16_384;

/// The bits of `10_000.0`.
pub const MAX_REASONABLE_PERSISTED_POWER_BITS: u64 = 0x40c3_8800_0000_0000;

pub const RAW_2S_BUCKET_SECS: u64 = 2;

/// Thirty minutes in steps of two seconds.
pub const RAW_2S_CAPACITY: usize = 900;

pub const AGG_10S_BUCKET_SECS: u64 = 10;

/// Three hours in steps of ten seconds.
pub const AGG_10S_CAPACITY: usize = 1_080;

pub const AGG_60S_BUCKET_SECS: u64 = 60;

/// Twelve hours in steps of a minute.
pub const AGG_60S_CAPACITY: usize = 720;

/// What one process drew when a snapshot was taken.
#[derive(Debug, PartialEq)]
pub struct LiveProcessSample {
    pub pid: i32,
    pub process: String,
    pub power: Binary64,
}

#[verifier::ext_equal]
pub struct LiveProcessSampleModel {
    pub pid: i32,
    pub process: Seq<char>,
    pub power: Binary64,
}

impl View for LiveProcessSample {
    type V = LiveProcessSampleModel;

    open spec fn view(&self) -> LiveProcessSampleModel {
        LiveProcessSampleModel { pid: self.pid, process: self.process@, power: self.power }
    }
}

impl Clone for LiveProcessSample {
    fn clone(&self) -> (copy: Self)
        ensures
            copy@ == self@,
    {
        LiveProcessSample { pid: self.pid, process: self.process.clone(), power: self.power }
    }
}

/// The processes of one refresh.
#[derive(Debug, PartialEq)]
pub struct LiveSnapshot {
    pub tick: u64,
    pub samples: Vec<LiveProcessSample>,
}

#[verifier::ext_equal]
pub struct LiveSnapshotModel {
    pub tick: u64,
    pub samples: Seq<LiveProcessSampleModel>,
}

impl View for LiveSnapshot {
    type V = LiveSnapshotModel;

    open spec fn view(&self) -> LiveSnapshotModel {
        LiveSnapshotModel { tick: self.tick, samples: crate::lists::models(self.samples@) }
    }
}

impl Clone for LiveSnapshot {
    fn clone(&self) -> (copy: Self)
        ensures
            copy@ == self@,
    {
        LiveSnapshot { tick: self.tick, samples: crate::lists::copy_all(&self.samples) }
    }
}

/// The power that all processes of one name drew together, summed over the samples of a bucket.
#[derive(Debug, PartialEq)]
pub struct GroupPowerSum {
    pub name: String,
    pub power_sum: Binary64,
}

#[verifier::ext_equal]
pub struct GroupPowerSumModel {
    pub name: Seq<char>,
    pub power_sum: Binary64,
}

impl View for GroupPowerSum {
    type V = GroupPowerSumModel;

    open spec fn view(&self) -> GroupPowerSumModel {
        GroupPowerSumModel { name: self.name@, power_sum: self.power_sum }
    }
}

impl Clone for GroupPowerSum {
    fn clone(&self) -> (copy: Self)
        ensures
            copy@ == self@,
    {
        GroupPowerSum { name: self.name.clone(), power_sum: self.power_sum }
    }
}

/// The power that one process drew, summed over the samples of a bucket.
#[derive(Debug, PartialEq)]
pub struct ArchivedProcessPower {
    pub pid: i32,
    pub process: String,
    pub power_sum: Binary64,
}

#[verifier::ext_equal]
pub struct ArchivedProcessPowerModel {
    pub pid: i32,
    pub process: Seq<char>,
    pub power_sum: Binary64,
}

impl View for ArchivedProcessPower {
    type V = ArchivedProcessPowerModel;

    open spec fn view(&self) -> ArchivedProcessPowerModel {
        ArchivedProcessPowerModel {
            pid: self.pid,
            process: self.process@,
            power_sum: self.power_sum,
        }
    }
}

impl Clone for ArchivedProcessPower {
    fn clone(&self) -> (copy: Self)
        ensures
            copy@ == self@,
    {
        ArchivedProcessPower {
            pid: self.pid,
            process: self.process.clone(),
            power_sum: self.power_sum,
        }
    }
}

/// The samples that fell into one bucket of a tier, summed up.
#[derive(Debug, PartialEq)]
pub struct TierSample {
    pub bucket_start_secs: u64,
    pub sample_count: u32,
    pub total_power_sum: Binary64,
    pub groups: Vec<GroupPowerSum>,
    pub processes: Vec<ArchivedProcessPower>,
    pub gap_before: bool,
}

#[verifier::ext_equal]
pub struct TierSampleModel {
    pub bucket_start_secs: u64,
    pub sample_count: u32,
    pub total_power_sum: Binary64,
    pub groups: Seq<GroupPowerSumModel>,
    pub processes: Seq<ArchivedProcessPowerModel>,
    pub gap_before: bool,
}

impl View for TierSample {
    type V = TierSampleModel;

    open spec fn view(&self) -> TierSampleModel {
        TierSampleModel {
            bucket_start_secs: self.bucket_start_secs,
            sample_count: self.sample_count,
            total_power_sum: self.total_power_sum,
            groups: crate::lists::models(self.groups@),
            processes: crate::lists::models(self.processes@),
            gap_before: self.gap_before,
        }
    }
}

impl Clone for TierSample {
    fn clone(&self) -> (copy: Self)
        ensures
            copy@ == self@,
    {
        TierSample {
            bucket_start_secs: self.bucket_start_secs,
            sample_count: self.sample_count,
            total_power_sum: self.total_power_sum,
            groups: crate::lists::copy_all(&self.groups),
            processes: crate::lists::copy_all(&self.processes),
            gap_before: self.gap_before,
        }
    }
}

/// Past power at three resolutions, the oldest bucket of each tier first.
#[derive(Debug, PartialEq)]
pub struct ArchiveState {
    pub raw_2s: VecDeque<TierSample>,
    pub agg_10s: VecDeque<TierSample>,
    pub agg_60s: VecDeque<TierSample>,
    pub last_sample_unix_secs: Option<u64>,
}

#[verifier::ext_equal]
pub struct ArchiveStateModel {
    pub raw_2s: Seq<TierSampleModel>,
    pub agg_10s: Seq<TierSampleModel>,
    pub agg_60s: Seq<TierSampleModel>,
    pub last_sample_unix_secs: Option<u64>,
}

impl View for ArchiveState {
    type V = ArchiveStateModel;

    open spec fn view(&self) -> ArchiveStateModel {
        ArchiveStateModel {
            raw_2s: crate::lists::models(self.raw_2s@),
            agg_10s: crate::lists::models(self.agg_10s@),
            agg_60s: crate::lists::models(self.agg_60s@),
            last_sample_unix_secs: self.last_sample_unix_secs,
        }
    }
}

impl Clone for ArchiveState {
    fn clone(&self) -> (copy: Self)
        ensures
            copy@ == self@,
    {
        ArchiveState {
            raw_2s: crate::lists::copy_queue(&self.raw_2s),
            agg_10s: crate::lists::copy_queue(&self.agg_10s),
            agg_60s: crate::lists::copy_queue(&self.agg_60s),
            last_sample_unix_secs: self.last_sample_unix_secs,
        }
    }
}

/// What is written to disk when a session ends.
#[derive(Debug, PartialEq)]
pub struct SessionCache {
    pub saved_at_unix_millis: u64,
    pub last_tick: u64,
    pub live_power_history: Vec<Binary64>,
    pub live_snapshots: Vec<LiveSnapshot>,
    pub archive: ArchiveState,
}

#[verifier::ext_equal]
pub struct SessionCacheModel {
    pub saved_at_unix_millis: u64,
    pub last_tick: u64,
    pub live_power_history: Seq<Binary64>,
    pub live_snapshots: Seq<LiveSnapshotModel>,
    pub archive: ArchiveStateModel,
}

impl View for SessionCache {
    type V = SessionCacheModel;

    open spec fn view(&self) -> SessionCacheModel {
        SessionCacheModel {
            saved_at_unix_millis: self.saved_at_unix_millis,
            last_tick: self.last_tick,
            live_power_history: self.live_power_history@,
            live_snapshots: crate::lists::models(self.live_snapshots@),
            archive: self.archive@,
        }
    }
}

impl Clone for SessionCache {
    fn clone(&self) -> (copy: Self)
        ensures
            copy@ == self@,
    {
        let history: Vec<Binary64> = crate::lists::copy_all(&self.live_power_history);
        proof {
            assert(crate::lists::models(history@) =~= history@);
            assert(crate::lists::models(self.live_power_history@) =~= self.live_power_history@);
        }
        SessionCache {
            saved_at_unix_millis: self.saved_at_unix_millis,
            last_tick: self.last_tick,
            live_power_history: history,
            live_snapshots: crate::lists::copy_all(&self.live_snapshots),
            archive: self.archive.clone(),
        }
    }
}

/// A cache that was read back, with the time since it was written.
#[derive(Debug)]
pub struct LoadedSessionCache {
    pub cache: SessionCache,
    pub gap_millis: u64,
    pub hydrate_live: bool,
}

#[verifier::ext_equal]
pub struct LoadedSessionCacheModel {
    pub cache: SessionCacheModel,
    pub gap_millis: u64,
    pub hydrate_live: bool,
}

impl View for LoadedSessionCache {
    type V = LoadedSessionCacheModel;

    open spec fn view(&self) -> LoadedSessionCacheModel {
        LoadedSessionCacheModel {
            cache: self.cache@,
            gap_millis: self.gap_millis,
            hydrate_live: self.hydrate_live,
        }
    }
}

/// A stretch of time, to the nanosecond.
#[derive(Debug, Clone, Copy, PartialEq, Eq, Structural)]
pub struct Interval {
    pub secs: u64,
    pub subsec_nanos: u32,
}

impl Interval {
    /// The whole milliseconds of the stretch.
    pub open spec fn millis(self) -> nat {
        (self.secs * 1000 + self.subsec_nanos as nat / 1_000_000) as nat
    }

    pub fn from_secs(secs: u64) -> (interval: Interval)
        ensures
            interval == (Interval { secs, subsec_nanos: 0 }),
    {
        Interval { secs, subsec_nanos: 0 }
    }

    pub fn as_millis(self) -> (millis: u128)
        ensures
            millis == self.millis(),
    {
        self.secs as u128 * 1000 + (self.subsec_nanos / 1_000_000) as u128
    }
}

/// The longest pause, in milliseconds, that a session carries on over.
pub open spec fn threshold_millis(refresh_every: Interval) -> nat {
    if refresh_every.millis() * QUICK_HYDRATE_GAP_MULTIPLIER <= u64::MAX {
        refresh_every.millis() * QUICK_HYDRATE_GAP_MULTIPLIER as nat
    } else {
        u64::MAX as nat
    }
}

pub fn continuity_threshold_millis(refresh_every: Interval) -> (millis: u64)
    ensures
        millis == threshold_millis(refresh_every),
{
    let scaled: u128 = refresh_every.as_millis() * QUICK_HYDRATE_GAP_MULTIPLIER as u128;
    if scaled <= u64::MAX as u128 {
        scaled as u64
    } else {
        u64::MAX
    }
}

/// The same in whole seconds, rounded up; the rounding never passes the largest number.
pub open spec fn threshold_secs(refresh_every: Interval) -> nat {
    if threshold_millis(refresh_every) + 999 <= u64::MAX {
        (threshold_millis(refresh_every) + 999) / 1000
    } else {
        u64::MAX as nat / 1000
    }
}

pub fn continuity_threshold_secs(refresh_every: Interval) -> (secs: u64)
    ensures
        secs == threshold_secs(refresh_every),
        secs == if threshold_millis(refresh_every) + 999 <= u64::MAX {
            (threshold_millis(refresh_every) + 999) / 1000
        } else {
            u64::MAX as nat / 1000
        },
{
    let millis: u64 = continuity_threshold_millis(refresh_every);
    millis.saturating_add(999) / 1000
}

pub fn should_hydrate_live(gap_millis: u64, refresh_every: Interval) -> (hydrate: bool)
    ensures
        hydrate == (gap_millis <= threshold_millis(refresh_every)),
{
    gap_millis <= continuity_threshold_millis(refresh_every)
}

/// A reading of the system's clock.
#[verifier::external_type_specification]
#[verifier::external_body]
pub struct ExSystemTime(std::time::SystemTime);

/// That one reading of the clock is before another.
#[verifier::external_type_specification]
#[verifier::external_body]
pub struct ExSystemTimeError(std::time::SystemTimeError);

/// `SystemTime::now` reads the clock. Nothing is claimed of what it says.
pub assume_specification[ std::time::SystemTime::now ]() -> std::time::SystemTime
;

/// `SystemTime::duration_since` gives the time from an earlier reading to this one, or an error where
/// that one is the later. Which it is depends on the clock, and nothing is claimed of it.
pub assume_specification[ std::time::SystemTime::duration_since ](
    later: &std::time::SystemTime,
    earlier: std::time::SystemTime,
) -> Result<std::time::Duration, std::time::SystemTimeError>
;

/// `Duration::as_secs` gives the whole seconds of a span. Nothing is claimed of how many they are.
pub assume_specification[ std::time::Duration::as_secs ](span: &std::time::Duration) -> u64
;

/// `Duration::subsec_millis` gives the whole milliseconds past the whole seconds of a span, which are
/// less than a thousand.
pub assume_specification[ std::time::Duration::subsec_millis ](span: &std::time::Duration) -> (millis:
    u32)
    ensures
        millis < 1000,
;

/// Reads the constant `UNIX_EPOCH`, the reading at the start of 1970.
#[verifier::external_body]
fn unix_epoch() -> std::time::SystemTime {
    std::time::UNIX_EPOCH
}

/// The seconds since the epoch and the milliseconds past them, of a clock that tells them or stands
/// before the epoch, which counts as none.
pub fn epoch_parts(since: Option<(u64, u32)>) -> (parts: (u64, u32))
    ensures
        parts == match since {
            Some(told) => told,
            None => (0u64, 0u32),
        },
{
    match since {
        Some(told) => told,
        None => (0, 0),
    }
}

/// What the clock tells now, in whole seconds and the whole milliseconds past them.
fn since_epoch() -> (now: (u64, u32))
    ensures
        now.1 < 1000,
{
    let since: Option<(u64, u32)> = match std::time::SystemTime::now().duration_since(
        unix_epoch(),
    ) {
        Ok(span) => Some((span.as_secs(), span.subsec_millis())),
        Err(_) => None,
    };
    epoch_parts(since)
}

/// Milliseconds since the epoch, at most the largest number.
pub open spec fn epoch_millis(secs: u64, subsec_millis: u32) -> nat {
    if secs * 1000 > u64::MAX {
        u64::MAX as nat
    } else if secs * 1000 + subsec_millis > u64::MAX {
        u64::MAX as nat
    } else {
        (secs * 1000 + subsec_millis) as nat
    }
}

pub fn to_epoch_millis(secs: u64, subsec_millis: u32) -> (millis: u64)
    ensures
        millis == epoch_millis(secs, subsec_millis),
{
    match secs.checked_mul(1000) {
        Some(whole) => whole.saturating_add(subsec_millis as u64),
        None => u64::MAX,
    }
}

/// The seconds since the epoch. What they are is up to the clock.
pub fn unix_time_secs_now() -> (secs: u64) {
    since_epoch().0
}

/// The milliseconds since the epoch, as the clock's seconds and the part of a second give them.
pub fn unix_time_millis_now() -> (millis: u64)
    ensures
        exists|secs: u64, subsec_millis: u32|
            subsec_millis < 1000 && millis == #[trigger] epoch_millis(secs, subsec_millis),
{
    let (secs, subsec_millis): (u64, u32) = since_epoch();
    to_epoch_millis(secs, subsec_millis)
}

/// Whether a power is a plain number from zero to a limit.
pub open spec fn reasonable(value: Binary64, max: Binary64) -> bool {
    value.finite() && (Binary64 { bits: 0 }).le(value) && value.le(max)
}

pub fn is_reasonable_power(value: Binary64, max_reasonable_power: Binary64) -> (b: bool)
    ensures
        b == reasonable(value, max_reasonable_power),
{
    value.is_finite() && Binary64::zero().is_at_most(value) && value.is_at_most(
        max_reasonable_power,
    )
}

/// A reasonable power as it is, and zero for any other.
pub fn sanitize_power(value: Binary64, max_reasonable_power: Binary64) -> (clean: Binary64)
    ensures
        clean == if reasonable(value, max_reasonable_power) {
            value
        } else {
            Binary64 { bits: 0 }
        },
{
    if is_reasonable_power(value, max_reasonable_power) {
        value
    } else {
        Binary64::zero()
    }
}

/// Groups in the order of their names, with a power entered under one name: added to what stands
/// there, or in its place.
pub open spec fn entered(
    groups: Seq<GroupPowerSumModel>,
    name: Seq<char>,
    power: Binary64,
    adding: bool,
) -> Seq<GroupPowerSumModel>
    decreases groups.len(),
{
    if groups.len() > 0 && crate::text::text_before(name, groups.last().name) {
        entered(groups.drop_last(), name, power, adding).push(groups.last())
    } else if groups.len() > 0 && groups.last().name == name {
        groups.drop_last().push(
            GroupPowerSumModel {
                name,
                power_sum: if adding {
                    groups.last().power_sum.sum(power)
                } else {
                    power
                },
            },
        )
    } else {
        groups.push(
            GroupPowerSumModel {
                name,
                power_sum: if adding {
                    (Binary64 { bits: 0 }).sum(power)
                } else {
                    power
                },
            },
        )
    }
}

/// Groups in the order of their names, with some more entered one by one.
pub open spec fn all_entered(
    groups: Seq<GroupPowerSumModel>,
    more: Seq<GroupPowerSumModel>,
    adding: bool,
) -> Seq<GroupPowerSumModel>
    decreases more.len(),
{
    if more.len() == 0 {
        groups
    } else {
        entered(
            all_entered(groups, more.drop_last(), adding),
            more.last().name,
            more.last().power_sum,
            adding,
        )
    }
}

/// The powers under each name added up, in the order of the names.
pub open spec fn grouped_sums(entries: Seq<GroupPowerSumModel>) -> Seq<GroupPowerSumModel> {
    all_entered(Seq::empty(), entries, true)
}

/// The sums of a bucket with those of one more sample added, in the order of the names. Of a name
/// that stands in the bucket more than once, the last counts.
pub open spec fn merged_sums(
    existing: Seq<GroupPowerSumModel>,
    incoming: Seq<GroupPowerSumModel>,
) -> Seq<GroupPowerSumModel> {
    all_entered(all_entered(Seq::empty(), existing, false), incoming, true)
}

/// The processes of a bucket, with a power added to the process of that identity, which comes last
/// where it is new.
pub open spec fn process_entered(
    processes: Seq<ArchivedProcessPowerModel>,
    pid: i32,
    process: Seq<char>,
    power: Binary64,
) -> Seq<ArchivedProcessPowerModel>
    decreases processes.len(),
{
    if processes.len() == 0 {
        seq![
            ArchivedProcessPowerModel {
                pid,
                process,
                power_sum: (Binary64 { bits: 0 }).sum(power),
            },
        ]
    } else if processes[0].pid == pid && processes[0].process == process {
        seq![
            ArchivedProcessPowerModel {
                pid,
                process,
                power_sum: processes[0].power_sum.sum(power),
            },
        ] + processes.skip(1)
    } else {
        seq![processes[0]] + process_entered(processes.skip(1), pid, process, power)
    }
}

pub open spec fn processes_entered(
    processes: Seq<ArchivedProcessPowerModel>,
    more: Seq<ArchivedProcessPowerModel>,
) -> Seq<ArchivedProcessPowerModel>
    decreases more.len(),
{
    if more.len() == 0 {
        processes
    } else {
        process_entered(
            processes_entered(processes, more.drop_last()),
            more.last().pid,
            more.last().process,
            more.last().power_sum,
        )
    }
}

/// The second at which the bucket of a moment starts.
pub open spec fn bucket_start(timestamp_secs: u64, bucket_secs: u64) -> u64 {
    if bucket_secs == 0 {
        timestamp_secs
    } else {
        (timestamp_secs - timestamp_secs as int % bucket_secs as int) as u64
    }
}

/// A tier with one more sample: in its last bucket where the sample falls into that and no gap
/// lies between, else in a bucket of its own, for which the oldest make room.
pub open spec fn upserted(
    tier: Seq<TierSampleModel>,
    bucket_secs: u64,
    capacity: nat,
    timestamp_secs: u64,
    total_power: Binary64,
    groups: Seq<GroupPowerSumModel>,
    processes: Seq<ArchivedProcessPowerModel>,
    gap: bool,
) -> Seq<TierSampleModel> {
    let start = bucket_start(timestamp_secs, bucket_secs);
    if !gap && tier.len() > 0 && tier.last().bucket_start_secs == start {
        let last = tier.last();
        tier.drop_last().push(
            TierSampleModel {
                bucket_start_secs: start,
                sample_count: if last.sample_count < u32::MAX {
                    (last.sample_count + 1) as u32
                } else {
                    u32::MAX
                },
                total_power_sum: last.total_power_sum.sum(total_power),
                groups: merged_sums(last.groups, groups),
                processes: processes_entered(last.processes, processes),
                gap_before: last.gap_before,
            },
        )
    } else {
        crate::lists::newest(
            tier.push(
                TierSampleModel {
                    bucket_start_secs: start,
                    sample_count: 1,
                    total_power_sum: total_power,
                    groups,
                    processes,
                    gap_before: gap && tier.len() > 0,
                },
            ),
            capacity,
        )
    }
}

impl ArchiveStateModel {
    /// An archive without samples.
    pub open spec fn blank() -> ArchiveStateModel {
        ArchiveStateModel {
            raw_2s: Seq::empty(),
            agg_10s: Seq::empty(),
            agg_60s: Seq::empty(),
            last_sample_unix_secs: None,
        }
    }

    /// Whether more time than allowed has passed since the last sample.
    pub open spec fn gap_at(self, timestamp_secs: u64, max_contiguous_gap_secs: u64) -> bool {
        self.last_sample_unix_secs matches Some(previous) && timestamp_secs - previous
            > max_contiguous_gap_secs
    }

    /// The archive with one more sample in each tier.
    pub open spec fn recorded(
        self,
        timestamp_secs: u64,
        max_contiguous_gap_secs: u64,
        total_power: Binary64,
        groups: Seq<GroupPowerSumModel>,
        processes: Seq<ArchivedProcessPowerModel>,
    ) -> ArchiveStateModel {
        let gap = self.gap_at(timestamp_secs, max_contiguous_gap_secs);
        ArchiveStateModel {
            raw_2s: upserted(
                self.raw_2s,
                RAW_2S_BUCKET_SECS,
                RAW_2S_CAPACITY as nat,
                timestamp_secs,
                total_power,
                groups,
                processes,
                gap,
            ),
            agg_10s: upserted(
                self.agg_10s,
                AGG_10S_BUCKET_SECS,
                AGG_10S_CAPACITY as nat,
                timestamp_secs,
                total_power,
                groups,
                processes,
                gap,
            ),
            agg_60s: upserted(
                self.agg_60s,
                AGG_60S_BUCKET_SECS,
                AGG_60S_CAPACITY as nat,
                timestamp_secs,
                total_power,
                groups,
                processes,
                gap,
            ),
            last_sample_unix_secs: Some(timestamp_secs),
        }
    }

    /// The archive with the newest buckets of each tier, as many as the tier holds.
    pub open spec fn within_bounds(self) -> ArchiveStateModel {
        ArchiveStateModel {
            raw_2s: crate::lists::newest(self.raw_2s, RAW_2S_CAPACITY as nat),
            agg_10s: crate::lists::newest(self.agg_10s, AGG_10S_CAPACITY as nat),
            agg_60s: crate::lists::newest(self.agg_60s, AGG_60S_CAPACITY as nat),
            last_sample_unix_secs: self.last_sample_unix_secs,
        }
    }

    /// The archive without unreasonable powers.
    pub open spec fn sanitized(self, max: Binary64) -> ArchiveStateModel {
        ArchiveStateModel {
            raw_2s: sanitized_tier(self.raw_2s, max),
            agg_10s: sanitized_tier(self.agg_10s, max),
            agg_60s: sanitized_tier(self.agg_60s, max),
            last_sample_unix_secs: self.last_sample_unix_secs,
        }
    }

    /// Whether no tier holds more than it may.
    pub open spec fn bounded(self) -> bool {
        self.raw_2s.len() <= RAW_2S_CAPACITY && self.agg_10s.len() <= AGG_10S_CAPACITY
            && self.agg_60s.len() <= AGG_60S_CAPACITY
    }
}

/// The average of a bucket's total.
pub open spec fn bucket_average(sum: Binary64, count: u32) -> Binary64 {
    sum.quotient(Binary64::whole(count as nat))
}

pub open spec fn group_kept(count: u32, max: Binary64) -> spec_fn(GroupPowerSumModel) -> bool {
    |group: GroupPowerSumModel| reasonable(bucket_average(group.power_sum, count), max)
}

pub open spec fn process_kept(count: u32, max: Binary64) -> spec_fn(
    ArchivedProcessPowerModel,
) -> bool {
    |process: ArchivedProcessPowerModel| reasonable(bucket_average(process.power_sum, count), max)
}

/// Whether a bucket has samples and a reasonable average.
pub open spec fn bucket_kept(sample: TierSampleModel, max: Binary64) -> bool {
    sample.sample_count != 0 && reasonable(
        bucket_average(sample.total_power_sum, sample.sample_count),
        max,
    )
}

/// A bucket with its total made from the average, and without groups and processes of an
/// unreasonable average.
pub open spec fn sanitized_bucket(sample: TierSampleModel, max: Binary64) -> TierSampleModel {
    TierSampleModel {
        total_power_sum: bucket_average(sample.total_power_sum, sample.sample_count).product(
            Binary64::whole(sample.sample_count as nat),
        ),
        groups: sample.groups.filter(group_kept(sample.sample_count, max)),
        processes: sample.processes.filter(process_kept(sample.sample_count, max)),
        ..sample
    }
}

/// A tier without empty buckets and those of an unreasonable average, the others cleaned.
pub open spec fn sanitized_tier(tier: Seq<TierSampleModel>, max: Binary64) -> Seq<TierSampleModel>
    decreases tier.len(),
{
    if tier.len() == 0 {
        tier
    } else if bucket_kept(tier.last(), max) {
        sanitized_tier(tier.drop_last(), max).push(sanitized_bucket(tier.last(), max))
    } else {
        sanitized_tier(tier.drop_last(), max)
    }
}

pub open spec fn sample_kept(max: Binary64) -> spec_fn(LiveProcessSampleModel) -> bool {
    |sample: LiveProcessSampleModel| reasonable(sample.power, max)
}

pub open spec fn power_kept(max: Binary64) -> spec_fn(Binary64) -> bool {
    |power: Binary64| reasonable(power, max)
}

pub open spec fn sanitized_snapshot(snapshot: LiveSnapshotModel, max: Binary64) -> LiveSnapshotModel {
    LiveSnapshotModel { tick: snapshot.tick, samples: snapshot.samples.filter(sample_kept(max)) }
}

pub open spec fn powers(samples: Seq<LiveProcessSampleModel>) -> Seq<Binary64> {
    Seq::new(samples.len(), |i: int| samples[i].power)
}

impl SessionCacheModel {
    /// A cache of a session that has seen nothing.
    pub open spec fn blank() -> SessionCacheModel {
        SessionCacheModel {
            saved_at_unix_millis: 0,
            last_tick: 0,
            live_power_history: Seq::empty(),
            live_snapshots: Seq::empty(),
            archive: ArchiveStateModel::blank(),
        }
    }

    /// The cache without unreasonable powers. The power history is made anew from the snapshots
    /// where there are any.
    pub open spec fn sanitized(self, max: Binary64) -> SessionCacheModel {
        let snapshots = Seq::new(
            self.live_snapshots.len(),
            |i: int| sanitized_snapshot(self.live_snapshots[i], max),
        );
        SessionCacheModel {
            live_power_history: if snapshots.len() > 0 {
                Seq::new(
                    snapshots.len(),
                    |i: int| crate::binary64::total(powers(snapshots[i].samples)),
                )
            } else {
                self.live_power_history.filter(power_kept(max))
            },
            live_snapshots: snapshots,
            archive: self.archive.sanitized(max),
            ..self
        }
    }

    /// The cache with its newest live data, at least one of each, and a bounded archive.
    pub open spec fn within_bounds(self, live_limit: nat) -> SessionCacheModel {
        let limit = if live_limit < 1 {
            1
        } else {
            live_limit
        };
        SessionCacheModel {
            live_power_history: crate::lists::newest(self.live_power_history, limit),
            live_snapshots: crate::lists::newest(self.live_snapshots, limit),
            archive: self.archive.within_bounds(),
            ..self
        }
    }

    /// The cache as it is written: the newest live data, cleaned, and a bounded archive.
    pub open spec fn prepared(self) -> SessionCacheModel {
        let trimmed = SessionCacheModel {
            live_power_history: crate::lists::newest(
                self.live_power_history,
                MAX_LIVE_POWER_POINTS as nat,
            ),
            live_snapshots: crate::lists::newest(self.live_snapshots, MAX_LIVE_SNAPSHOTS as nat),
            ..self
        };
        let clean = trimmed.sanitized(Binary64 { bits: MAX_REASONABLE_PERSISTED_POWER_BITS });
        SessionCacheModel { archive: clean.archive.within_bounds(), ..clean }
    }
}

/// A power under a name, and where it is that of one process, under its number too.
pub trait PowerEntry {
    spec fn entry_name(&self) -> Seq<char>;

    spec fn entry_pid(&self) -> Option<i32>;

    spec fn entry_power(&self) -> Binary64;

    fn name(&self) -> (name: &String)
        ensures
            name@ == self.entry_name(),
    ;

    fn pid(&self) -> (pid: Option<i32>)
        ensures
            pid == self.entry_pid(),
    ;

    fn power(&self) -> (power: Binary64)
        ensures
            power == self.entry_power(),
    ;
}

impl PowerEntry for (String, Binary64) {
    open spec fn entry_name(&self) -> Seq<char> {
        self.0@
    }

    open spec fn entry_pid(&self) -> Option<i32> {
        None
    }

    open spec fn entry_power(&self) -> Binary64 {
        self.1
    }

    fn name(&self) -> (name: &String) {
        &self.0
    }

    fn pid(&self) -> (pid: Option<i32>) {
        None
    }

    fn power(&self) -> (power: Binary64) {
        self.1
    }
}

impl PowerEntry for LiveProcessSample {
    open spec fn entry_name(&self) -> Seq<char> {
        self.process@
    }

    open spec fn entry_pid(&self) -> Option<i32> {
        Some(self.pid)
    }

    open spec fn entry_power(&self) -> Binary64 {
        self.power
    }

    fn name(&self) -> (name: &String) {
        &self.process
    }

    fn pid(&self) -> (pid: Option<i32>) {
        Some(self.pid)
    }

    fn power(&self) -> (power: Binary64) {
        self.power
    }
}

/// The powers of entries under their names.
pub open spec fn named<T: PowerEntry>(entries: Seq<T>) -> Seq<GroupPowerSumModel> {
    Seq::new(
        entries.len(),
        |i: int|
            GroupPowerSumModel {
                name: entries[i].entry_name(),
                power_sum: entries[i].entry_power(),
            },
    )
}

/// The powers of the entries that are of single processes.
pub open spec fn identified<T: PowerEntry>(entries: Seq<T>) -> Seq<ArchivedProcessPowerModel>
    decreases entries.len(),
{
    if entries.len() == 0 {
        Seq::empty()
    } else {
        let before = identified(entries.drop_last());
        let last = entries.last();
        match last.entry_pid() {
            Some(pid) => before.push(
                ArchivedProcessPowerModel {
                    pid,
                    process: last.entry_name(),
                    power_sum: last.entry_power(),
                },
            ),
            None => before,
        }
    }
}

/// Entries of live samples are the samples.
pub proof fn lemma_live_entries(samples: Seq<LiveProcessSample>)
    ensures
        named(samples) == samples_by_name(crate::lists::models(samples)),
        identified(samples) == samples_by_process(crate::lists::models(samples)),
    decreases samples.len(),
{
    let models = crate::lists::models(samples);
    assert(named(samples) =~= samples_by_name(models));
    if samples.len() > 0 {
        let front = samples.drop_last();
        lemma_live_entries(front);
        assert(crate::lists::models(front) =~= models.drop_last());
        assert(identified(samples) =~= samples_by_process(models));
    } else {
        assert(identified(samples) =~= samples_by_process(models));
    }
}

/// The powers of live samples under their processes' names.
pub open spec fn samples_by_name(samples: Seq<LiveProcessSampleModel>) -> Seq<GroupPowerSumModel> {
    Seq::new(
        samples.len(),
        |i: int| GroupPowerSumModel { name: samples[i].process, power_sum: samples[i].power },
    )
}

/// The powers of live samples under their processes' identities.
pub open spec fn samples_by_process(samples: Seq<LiveProcessSampleModel>) -> Seq<
    ArchivedProcessPowerModel,
> {
    Seq::new(
        samples.len(),
        |i: int|
            ArchivedProcessPowerModel {
                pid: samples[i].pid,
                process: samples[i].process,
                power_sum: samples[i].power,
            },
    )
}

/// Enters a power under a name.
fn enter(groups: &mut Vec<GroupPowerSum>, name: &String, power: Binary64, adding: bool)
    ensures
        crate::lists::models(final(groups)@) == entered(
            crate::lists::models(old(groups)@),
            name@,
            power,
            adding,
        ),
{
    let ghost all = crate::lists::models(groups@);
    let mut at: usize = groups.len();
    proof {
        assert(all.take(at as int) =~= all);
        assert(entered(all, name@, power, adding) + all.skip(at as int) =~= entered(
            all,
            name@,
            power,
            adding,
        ));
    }
    while at > 0 && crate::text::is_before(name, &groups[at - 1].name)
        invariant
            at <= groups@.len(),
            all == crate::lists::models(groups@),
            entered(all, name@, power, adding) == entered(
                all.take(at as int),
                name@,
                power,
                adding,
            ) + all.skip(at as int),
        decreases at,
    {
        proof {
            let part = all.take(at as int);
            assert(part.drop_last() =~= all.take(at - 1));
            assert(part.last() == groups@[at - 1]@);
            let front = entered(all.take(at - 1), name@, power, adding);
            assert(front.push(part.last()) + all.skip(at as int) =~= front + all.skip(at - 1));
        }
        at = at - 1;
    }
    let ghost part = all.take(at as int);
    if at > 0 && groups[at - 1].name.eq(name) {
        let sum: Binary64 = if adding {
            groups[at - 1].power_sum.plus(power)
        } else {
            power
        };
        let entry = GroupPowerSum { name: name.clone(), power_sum: sum };
        proof {
            assert(part.last() == groups@[at - 1]@);
            assert(part.drop_last().push(entry@) + all.skip(at as int) =~= all.update(
                at - 1,
                entry@,
            ));
        }
        groups.set(at - 1, entry);
        proof {
            assert(crate::lists::models(groups@) =~= all.update(at - 1, entry@));
        }
    } else {
        let sum: Binary64 = if adding {
            Binary64::zero().plus(power)
        } else {
            power
        };
        let entry = GroupPowerSum { name: name.clone(), power_sum: sum };
        proof {
            if at > 0 {
                assert(part.last() == groups@[at - 1]@);
            }
            assert(part.push(entry@) + all.skip(at as int) =~= all.insert(at as int, entry@));
        }
        groups.insert(at, entry);
        proof {
            assert(crate::lists::models(groups@) =~= all.insert(at as int, entry@));
        }
    }
}

/// Enters groups one by one.
fn enter_all(groups: &mut Vec<GroupPowerSum>, more: &Vec<GroupPowerSum>, adding: bool)
    ensures
        crate::lists::models(final(groups)@) == all_entered(
            crate::lists::models(old(groups)@),
            crate::lists::models(more@),
            adding,
        ),
{
    let ghost all = crate::lists::models(more@);
    let mut i: usize = 0;
    proof {
        assert(all.take(0) =~= Seq::empty());
    }
    while i < more.len()
        invariant
            i <= more@.len(),
            all == crate::lists::models(more@),
            crate::lists::models(groups@) == all_entered(
                crate::lists::models(old(groups)@),
                all.take(i as int),
                adding,
            ),
        decreases more@.len() - i,
    {
        proof {
            assert(all.take(i + 1).drop_last() =~= all.take(i as int));
            assert(all.take(i + 1).last() == more@[i as int]@);
        }
        enter(groups, &more[i].name, more[i].power_sum, adding);
        i = i + 1;
    }
    proof {
        assert(all.take(i as int) =~= all);
    }
}

/// Adds up the powers under each name.
pub fn normalize_group_sums<T: PowerEntry>(grouped: &Vec<T>) -> (groups: Vec<GroupPowerSum>)
    ensures
        crate::lists::models(groups@) == grouped_sums(named(grouped@)),
{
    let mut groups: Vec<GroupPowerSum> = Vec::new();
    let ghost all = named(grouped@);
    let mut i: usize = 0;
    proof {
        assert(all.take(0) =~= Seq::empty());
        assert(crate::lists::models(groups@) =~= Seq::empty());
    }
    while i < grouped.len()
        invariant
            i <= grouped@.len(),
            all == named(grouped@),
            crate::lists::models(groups@) == grouped_sums(all.take(i as int)),
        decreases grouped@.len() - i,
    {
        proof {
            assert(all.take(i + 1).drop_last() =~= all.take(i as int));
            assert(all.take(i + 1).last() == all[i as int]);
        }
        enter(&mut groups, grouped[i].name(), grouped[i].power(), true);
        i = i + 1;
    }
    proof {
        assert(all.take(i as int) =~= all);
    }
    groups
}

/// Adds the sums of one more sample to those of a bucket.
pub fn merge_group_sums(existing: &mut Vec<GroupPowerSum>, incoming: &Vec<GroupPowerSum>)
    ensures
        crate::lists::models(final(existing)@) == merged_sums(
            crate::lists::models(old(existing)@),
            crate::lists::models(incoming@),
        ),
{
    let mut merged: Vec<GroupPowerSum> = Vec::new();
    proof {
        assert(crate::lists::models(merged@) =~= Seq::empty());
    }
    enter_all(&mut merged, existing, false);
    enter_all(&mut merged, incoming, true);
    *existing = merged;
}

/// Adds a power to the process of an identity.
fn enter_process(
    processes: &mut Vec<ArchivedProcessPower>,
    pid: i32,
    process: &String,
    power: Binary64,
)
    ensures
        crate::lists::models(final(processes)@) == process_entered(
            crate::lists::models(old(processes)@),
            pid,
            process@,
            power,
        ),
{
    let ghost all = crate::lists::models(processes@);
    let mut i: usize = 0;
    proof {
        assert(all.skip(0) =~= all);
        assert(all.take(0) + process_entered(all, pid, process@, power) =~= process_entered(
            all,
            pid,
            process@,
            power,
        ));
    }
    while i < processes.len()
        invariant
            i <= processes@.len(),
            *processes == *old(processes),
            all == crate::lists::models(processes@),
            process_entered(all, pid, process@, power) == all.take(i as int) + process_entered(
                all.skip(i as int),
                pid,
                process@,
                power,
            ),
        decreases processes@.len() - i,
    {
        proof {
            assert(all.skip(i as int)[0] == processes@[i as int]@);
            assert(all.skip(i as int).skip(1) =~= all.skip(i + 1));
        }
        if processes[i].pid == pid && processes[i].process.eq(process) {
            let entry = ArchivedProcessPower {
                pid,
                process: process.clone(),
                power_sum: processes[i].power_sum.plus(power),
            };
            proof {
                assert(all.take(i as int) + (seq![entry@] + all.skip(i + 1)) =~= all.update(
                    i as int,
                    entry@,
                ));
            }
            processes.set(i, entry);
            proof {
                assert(crate::lists::models(processes@) =~= all.update(i as int, entry@));
            }
            return;
        }
        proof {
            let rest = process_entered(all.skip(i + 1), pid, process@, power);
            assert(all.take(i as int) + (seq![all[i as int]] + rest) =~= all.take(i + 1) + rest);
        }
        i = i + 1;
    }
    let entry = ArchivedProcessPower {
        pid,
        process: process.clone(),
        power_sum: Binary64::zero().plus(power),
    };
    proof {
        assert(all.take(i as int) + seq![entry@] =~= all.push(entry@));
    }
    processes.push(entry);
    proof {
        assert(crate::lists::models(processes@) =~= all.push(entry@));
    }
}

fn enter_processes(
    processes: &mut Vec<ArchivedProcessPower>,
    more: &Vec<ArchivedProcessPower>,
)
    ensures
        crate::lists::models(final(processes)@) == processes_entered(
            crate::lists::models(old(processes)@),
            crate::lists::models(more@),
        ),
{
    let ghost all = crate::lists::models(more@);
    let mut i: usize = 0;
    proof {
        assert(all.take(0) =~= Seq::empty());
    }
    while i < more.len()
        invariant
            i <= more@.len(),
            all == crate::lists::models(more@),
            crate::lists::models(processes@) == processes_entered(
                crate::lists::models(old(processes)@),
                all.take(i as int),
            ),
        decreases more@.len() - i,
    {
        proof {
            assert(all.take(i + 1).drop_last() =~= all.take(i as int));
            assert(all.take(i + 1).last() == more@[i as int]@);
        }
        enter_process(processes, more[i].pid, &more[i].process, more[i].power_sum);
        i = i + 1;
    }
    proof {
        assert(all.take(i as int) =~= all);
    }
}

/// Adds up the powers of each process.
fn normalize_process_sums<T: PowerEntry>(grouped: &Vec<T>) -> (processes: Vec<ArchivedProcessPower>)
    ensures
        crate::lists::models(processes@) == processes_entered(Seq::empty(), identified(grouped@)),
{
    let mut processes: Vec<ArchivedProcessPower> = Vec::new();
    let mut i: usize = 0;
    proof {
        assert(grouped@.take(0) =~= Seq::empty());
        assert(crate::lists::models(processes@) =~= Seq::empty());
    }
    while i < grouped.len()
        invariant
            i <= grouped@.len(),
            crate::lists::models(processes@) == processes_entered(
                Seq::empty(),
                identified(grouped@.take(i as int)),
            ),
        decreases grouped@.len() - i,
    {
        let ghost before = identified(grouped@.take(i as int));
        proof {
            assert(grouped@.take(i + 1).drop_last() =~= grouped@.take(i as int));
            assert(grouped@.take(i + 1).last() == grouped@[i as int]);
        }
        if let Some(pid) = grouped[i].pid() {
            enter_process(&mut processes, pid, grouped[i].name(), grouped[i].power());
            proof {
                assert(identified(grouped@.take(i + 1)).drop_last() =~= before);
            }
        }
        i = i + 1;
    }
    proof {
        assert(grouped@.take(i as int) =~= grouped@);
    }
    processes
}

/// Puts one more sample into a tier.
fn upsert_aggregate_bucket(
    tier: &mut VecDeque<TierSample>,
    bucket_secs: u64,
    capacity: usize,
    timestamp_secs: u64,
    total_power: Binary64,
    groups: &Vec<GroupPowerSum>,
    processes: &Vec<ArchivedProcessPower>,
    has_gap_from_previous: bool,
)
    ensures
        crate::lists::models(final(tier)@) == upserted(
            crate::lists::models(old(tier)@),
            bucket_secs,
            capacity as nat,
            timestamp_secs,
            total_power,
            crate::lists::models(groups@),
            crate::lists::models(processes@),
            has_gap_from_previous,
        ),
{
    // A sample after a long downtime may fall into the bucket of the last one before it. It gets a
    // second bucket with the same start all the same: merged, the two would hide the gap.
    let ghost all = crate::lists::models(tier@);
    let start: u64 = if bucket_secs == 0 {
        timestamp_secs
    } else {
        proof {
            vstd::arithmetic::div_mod::lemma_mod_decreases(
                timestamp_secs as nat,
                bucket_secs as nat,
            );
        }
        timestamp_secs - timestamp_secs % bucket_secs
    };
    if !has_gap_from_previous && tier.len() > 0 && tier[tier.len() - 1].bucket_start_secs == start {
        proof {
            assert(all.last() == tier@[tier@.len() - 1]@);
        }
        match tier.pop_back() {
            Some(mut last) => {
                last.sample_count = last.sample_count.saturating_add(1);
                last.total_power_sum = last.total_power_sum.plus(total_power);
                merge_group_sums(&mut last.groups, groups);
                enter_processes(&mut last.processes, processes);
                proof {
                    assert(crate::lists::models(tier@) =~= all.drop_last());
                }
                let ghost before = tier@;
                tier.push_back(last);
                proof {
                    assert(crate::lists::models(tier@) =~= crate::lists::models(before).push(last@));
                }
            },
            None => {},
        }
        return;
    }
    let gap_before: bool = has_gap_from_previous && tier.len() > 0;
    let sample = TierSample {
        bucket_start_secs: start,
        sample_count: 1,
        total_power_sum: total_power,
        groups: crate::lists::copy_all(groups),
        processes: crate::lists::copy_all(processes),
        gap_before,
    };
    tier.push_back(sample);
    proof {
        assert(crate::lists::models(tier@) =~= all.push(sample@));
    }
    let ghost longer = tier@;
    crate::lists::trim_to_capacity(tier, capacity);
    proof {
        crate::lists::lemma_models_newest(longer, capacity as nat);
    }
}

impl ArchiveState {
    /// An archive without samples.
    pub fn new() -> (archive: ArchiveState)
        ensures
            archive@ == ArchiveStateModel::blank(),
    {
        ArchiveState {
            raw_2s: VecDeque::new(),
            agg_10s: VecDeque::new(),
            agg_60s: VecDeque::new(),
            last_sample_unix_secs: None,
        }
    }

    fn record(
        &mut self,
        timestamp_secs: u64,
        max_contiguous_gap_secs: u64,
        total_power: Binary64,
        groups: &Vec<GroupPowerSum>,
        processes: &Vec<ArchivedProcessPower>,
    )
        ensures
            final(self)@ == old(self)@.recorded(
                timestamp_secs,
                max_contiguous_gap_secs,
                total_power,
                crate::lists::models(groups@),
                crate::lists::models(processes@),
            ),
    {
        let has_gap_from_previous: bool = match self.last_sample_unix_secs {
            Some(previous) => timestamp_secs.saturating_sub(previous) > max_contiguous_gap_secs,
            None => false,
        };
        upsert_aggregate_bucket(
            &mut self.raw_2s,
            RAW_2S_BUCKET_SECS,
            RAW_2S_CAPACITY,
            timestamp_secs,
            total_power,
            groups,
            processes,
            has_gap_from_previous,
        );
        upsert_aggregate_bucket(
            &mut self.agg_10s,
            AGG_10S_BUCKET_SECS,
            AGG_10S_CAPACITY,
            timestamp_secs,
            total_power,
            groups,
            processes,
            has_gap_from_previous,
        );
        upsert_aggregate_bucket(
            &mut self.agg_60s,
            AGG_60S_BUCKET_SECS,
            AGG_60S_CAPACITY,
            timestamp_secs,
            total_power,
            groups,
            processes,
            has_gap_from_previous,
        );
        self.last_sample_unix_secs = Some(timestamp_secs);
    }

    /// Records the power under each name at a moment, and that of each process where it is known.
    pub fn record_sample<T: PowerEntry>(
        &mut self,
        timestamp_secs: u64,
        max_contiguous_gap_secs: u64,
        total_power: Binary64,
        grouped: &Vec<T>,
    )
        ensures
            final(self)@ == old(self)@.recorded(
                timestamp_secs,
                max_contiguous_gap_secs,
                total_power,
                grouped_sums(named(grouped@)),
                processes_entered(Seq::empty(), identified(grouped@)),
            ),
    {
        let groups: Vec<GroupPowerSum> = normalize_group_sums(grouped);
        let processes: Vec<ArchivedProcessPower> = normalize_process_sums(grouped);
        self.record(timestamp_secs, max_contiguous_gap_secs, total_power, &groups, &processes);
    }

    /// Drops the oldest buckets of each tier that are too many.
    pub fn enforce_bounds(&mut self)
        ensures
            final(self)@ == old(self)@.within_bounds(),
    {
        proof {
            crate::lists::lemma_models_newest(self.raw_2s@, RAW_2S_CAPACITY as nat);
            crate::lists::lemma_models_newest(self.agg_10s@, AGG_10S_CAPACITY as nat);
            crate::lists::lemma_models_newest(self.agg_60s@, AGG_60S_CAPACITY as nat);
        }
        crate::lists::trim_to_capacity(&mut self.raw_2s, RAW_2S_CAPACITY);
        crate::lists::trim_to_capacity(&mut self.agg_10s, AGG_10S_CAPACITY);
        crate::lists::trim_to_capacity(&mut self.agg_60s, AGG_60S_CAPACITY);
    }

    /// Drops what no machine draws.
    pub fn sanitize_power_data(&mut self, max_reasonable_power: Binary64)
        ensures
            final(self)@ == old(self)@.sanitized(max_reasonable_power),
    {
        sanitize_tier_power(&mut self.raw_2s, max_reasonable_power);
        sanitize_tier_power(&mut self.agg_10s, max_reasonable_power);
        sanitize_tier_power(&mut self.agg_60s, max_reasonable_power);
    }

    pub fn is_empty(&self) -> (empty: bool)
        ensures
            empty == (self@.raw_2s.len() == 0 && self@.agg_10s.len() == 0 && self@.agg_60s.len()
                == 0),
    {
        self.raw_2s.len() == 0 && self.agg_10s.len() == 0 && self.agg_60s.len() == 0
    }
}

impl Default for ArchiveState {
    fn default() -> (archive: ArchiveState)
        ensures
            archive@ == ArchiveStateModel::blank(),
    {
        ArchiveState::new()
    }
}

/// Takes the empty and the unreasonable buckets out of a tier, and cleans the others.
fn sanitize_tier_power(tier: &mut VecDeque<TierSample>, max_reasonable_power: Binary64)
    ensures
        crate::lists::models(final(tier)@) == sanitized_tier(
            crate::lists::models(old(tier)@),
            max_reasonable_power,
        ),
{
    let ghost all = crate::lists::models(tier@);
    let mut kept: VecDeque<TierSample> = VecDeque::new();
    let ghost mut seen: int = 0;
    proof {
        assert(all.take(0) =~= Seq::empty());
        assert(all.skip(0) =~= all);
        assert(crate::lists::models(kept@) =~= Seq::empty());
    }
    while tier.len() > 0
        invariant
            0 <= seen <= all.len(),
            crate::lists::models(tier@) == all.skip(seen),
            crate::lists::models(kept@) == sanitized_tier(all.take(seen), max_reasonable_power),
        decreases tier@.len(),
    {
        let ghost before = tier@;
        proof {
            assert(crate::lists::models(before).len() == before.len());
            assert(all.skip(seen).len() == all.len() - seen);
            assert(all.skip(seen)[0] == before[0]@);
            assert(all.take(seen + 1).drop_last() =~= all.take(seen));
            assert(all.take(seen + 1).last() == before[0]@);
        }
        match tier.pop_front() {
            Some(mut sample) => {
                proof {
                    assert(crate::lists::models(tier@) =~= crate::lists::models(before).skip(1));
                    assert(all.skip(seen).skip(1) =~= all.skip(seen + 1));
                    seen = seen + 1;
                }
                let count: u32 = sample.sample_count;
                if count == 0 {
                    continue ;
                }
                let weight: Binary64 = Binary64::from_whole(count as u64);
                let average: Binary64 = sample.total_power_sum.over(weight);
                if !is_reasonable_power(average, max_reasonable_power) {
                    continue ;
                }
                sample.total_power_sum = average.times(weight);
                let keep_group = |group: &GroupPowerSum| -> (keep: bool)
                    ensures
                        keep == reasonable(
                            bucket_average(group@.power_sum, count),
                            max_reasonable_power,
                        ),
                {
                    let weight: Binary64 = Binary64::from_whole(count as u64);
                    is_reasonable_power(group.power_sum.over(weight), max_reasonable_power)
                };
                crate::lists::retain_by(
                    &mut sample.groups,
                    keep_group,
                    Ghost(group_kept(count, max_reasonable_power)),
                );
                let keep_process = |process: &ArchivedProcessPower| -> (keep: bool)
                    ensures
                        keep == reasonable(
                            bucket_average(process@.power_sum, count),
                            max_reasonable_power,
                        ),
                {
                    let weight: Binary64 = Binary64::from_whole(count as u64);
                    is_reasonable_power(process.power_sum.over(weight), max_reasonable_power)
                };
                crate::lists::retain_by(
                    &mut sample.processes,
                    keep_process,
                    Ghost(process_kept(count, max_reasonable_power)),
                );
                let ghost earlier = kept@;
                kept.push_back(sample);
                proof {
                    assert(crate::lists::models(kept@) =~= crate::lists::models(earlier).push(
                        sample@,
                    ));
                }
            },
            None => {},
        }
    }
    proof {
        assert(crate::lists::models(tier@).len() == 0);
        assert(all.skip(seen).len() == all.len() - seen);
        assert(all.take(seen) =~= all);
    }
    *tier = kept;
}

impl SessionCache {
    /// A cache of a session that has seen nothing.
    pub fn new() -> (cache: SessionCache)
        ensures
            cache@ == SessionCacheModel::blank(),
    {
        SessionCache {
            saved_at_unix_millis: 0,
            last_tick: 0,
            live_power_history: Vec::new(),
            live_snapshots: Vec::new(),
            archive: ArchiveState::new(),
        }
    }

    /// Keeps the newest live data, and bounds the archive.
    pub fn enforce_bounds(&mut self, live_limit: usize)
        ensures
            final(self)@ == old(self)@.within_bounds(live_limit as nat),
    {
        let limit: usize = if live_limit < 1 {
            1
        } else {
            live_limit
        };
        proof {
            crate::lists::lemma_models_newest(self.live_snapshots@, limit as nat);
        }
        crate::lists::trim_vec_front(&mut self.live_power_history, limit);
        crate::lists::trim_vec_front(&mut self.live_snapshots, limit);
        self.archive.enforce_bounds();
    }

    /// Drops what no machine draws.
    pub fn sanitize_power_data(&mut self, max_reasonable_power: Binary64)
        ensures
            final(self)@ == old(self)@.sanitized(max_reasonable_power),
    {
        let ghost all = crate::lists::models(self.live_snapshots@);
        let ghost archive = self.archive@;
        let mut history: Vec<Binary64> = Vec::new();
        let mut i: usize = 0;
        while i < self.live_snapshots.len()
            invariant
                i <= self.live_snapshots@.len(),
                self.live_snapshots@.len() == all.len(),
                history@.len() == i,
                self.archive@ == archive,
                self.live_power_history@ == old(self).live_power_history@,
                self.saved_at_unix_millis == old(self).saved_at_unix_millis,
                self.last_tick == old(self).last_tick,
                forall|j: int|
                    0 <= j < i ==> (#[trigger] self.live_snapshots@[j])@ == sanitized_snapshot(
                        all[j],
                        max_reasonable_power,
                    ),
                forall|j: int|
                    0 <= j < i ==> #[trigger] history@[j] == crate::binary64::total(
                        powers(sanitized_snapshot(all[j], max_reasonable_power).samples),
                    ),
                forall|j: int|
                    i <= j < all.len() ==> (#[trigger] self.live_snapshots@[j])@ == all[j],
            decreases self.live_snapshots@.len() - i,
        {
            let ghost before = self.live_snapshots@;
            let mut snapshot: LiveSnapshot = self.live_snapshots.remove(i);
            let keep_sample = |sample: &LiveProcessSample| -> (keep: bool)
                ensures
                    keep == reasonable(sample@.power, max_reasonable_power),
            {
                is_reasonable_power(sample.power, max_reasonable_power)
            };
            proof {
                assert(before[i as int]@ == all[i as int]);
            }
            crate::lists::retain_by(
                &mut snapshot.samples,
                keep_sample,
                Ghost(sample_kept(max_reasonable_power)),
            );
            history.push(total_of_samples(&snapshot.samples));
            self.live_snapshots.insert(i, snapshot);
            proof {
                assert forall|j: int| 0 <= j < all.len() && j != i implies (
                #[trigger] self.live_snapshots@[j]) == before[j] by {}
            }
            i = i + 1;
        }
        proof {
            assert(crate::lists::models(self.live_snapshots@) =~= Seq::new(
                all.len(),
                |j: int| sanitized_snapshot(all[j], max_reasonable_power),
            ));
        }
        if self.live_snapshots.len() > 0 {
            self.live_power_history = history;
        } else {
            let keep_power = |power: &Binary64| -> (keep: bool)
                ensures
                    keep == reasonable(*power, max_reasonable_power),
            {
                is_reasonable_power(*power, max_reasonable_power)
            };
            proof {
                assert(crate::lists::models(self.live_power_history@)
                    =~= self.live_power_history@);
            }
            crate::lists::retain_by(
                &mut self.live_power_history,
                keep_power,
                Ghost(power_kept(max_reasonable_power)),
            );
            proof {
                assert(crate::lists::models(self.live_power_history@)
                    =~= self.live_power_history@);
            }
        }
        self.archive.sanitize_power_data(max_reasonable_power);
        proof {
            assert(self@.live_power_history =~= old(self)@.sanitized(
                max_reasonable_power,
            ).live_power_history);
        }
    }

    /// The cache as it is to be written.
    pub fn prepare_for_saving(&mut self)
        ensures
            final(self)@ == old(self)@.prepared(),
    {
        proof {
            crate::lists::lemma_models_newest(self.live_snapshots@, MAX_LIVE_SNAPSHOTS as nat);
        }
        crate::lists::trim_vec_front(&mut self.live_power_history, MAX_LIVE_POWER_POINTS);
        crate::lists::trim_vec_front(&mut self.live_snapshots, MAX_LIVE_SNAPSHOTS);
        self.sanitize_power_data(Binary64::from_bits(MAX_REASONABLE_PERSISTED_POWER_BITS));
        self.archive.enforce_bounds();
    }
}

impl Default for SessionCache {
    fn default() -> (cache: SessionCache)
        ensures
            cache@ == SessionCacheModel::blank(),
    {
        SessionCache::new()
    }
}

/// The sum of the samples' powers.
pub fn total_of_samples(samples: &Vec<LiveProcessSample>) -> (sum: Binary64)
    ensures
        sum == crate::binary64::total(powers(crate::lists::models(samples@))),
{
    let ghost all = powers(crate::lists::models(samples@));
    let mut sum: Binary64 = Binary64::negative_zero();
    let mut i: usize = 0;
    proof {
        assert(all.take(0) =~= Seq::empty());
    }
    while i < samples.len()
        invariant
            i <= samples@.len(),
            all == powers(crate::lists::models(samples@)),
            sum == crate::binary64::total(all.take(i as int)),
        decreases samples@.len() - i,
    {
        proof {
            assert(all.take(i + 1).drop_last() =~= all.take(i as int));
            assert(all.take(i + 1).last() == samples@[i as int].power);
        }
        sum = sum.plus(samples[i].power);
        i = i + 1;
    }
    proof {
        assert(all.take(i as int) =~= all);
    }
    sum
}

/// Recording keeps every tier within its capacity.
pub proof fn law_recording_keeps_bounds(
    archive: ArchiveStateModel,
    timestamp_secs: u64,
    max_contiguous_gap_secs: u64,
    total_power: Binary64,
    groups: Seq<GroupPowerSumModel>,
    processes: Seq<ArchivedProcessPowerModel>,
)
    requires
        archive.bounded(),
    ensures
        archive.recorded(
            timestamp_secs,
            max_contiguous_gap_secs,
            total_power,
            groups,
            processes,
        ).bounded(),
{
}

/// A tier that holds fewer buckets than it may loses none to a new sample, and all but the last
/// stay as they were.
pub proof fn law_recording_keeps_buckets(
    tier: Seq<TierSampleModel>,
    bucket_secs: u64,
    capacity: nat,
    timestamp_secs: u64,
    total_power: Binary64,
    groups: Seq<GroupPowerSumModel>,
    processes: Seq<ArchivedProcessPowerModel>,
    gap: bool,
    i: int,
)
    requires
        tier.len() < capacity,
        0 <= i < tier.len(),
    ensures
        ({
            let after = upserted(
                tier,
                bucket_secs,
                capacity,
                timestamp_secs,
                total_power,
                groups,
                processes,
                gap,
            );
            i < after.len() && (i < tier.len() - 1 ==> after[i] == tier[i])
        }),
{
}

/// After a gap a sample never joins the bucket before it, even where both start at the same
/// second: it gets a bucket of its own, which is marked.
pub proof fn law_gap_is_never_merged(
    archive: ArchiveStateModel,
    timestamp_secs: u64,
    max_contiguous_gap_secs: u64,
    total_power: Binary64,
    groups: Seq<GroupPowerSumModel>,
    processes: Seq<ArchivedProcessPowerModel>,
)
    requires
        archive.gap_at(timestamp_secs, max_contiguous_gap_secs),
    ensures
        ({
            let after = archive.recorded(
                timestamp_secs,
                max_contiguous_gap_secs,
                total_power,
                groups,
                processes,
            );
            &&& starts_anew(archive.raw_2s, after.raw_2s, RAW_2S_CAPACITY as nat)
            &&& starts_anew(archive.agg_10s, after.agg_10s, AGG_10S_CAPACITY as nat)
            &&& starts_anew(archive.agg_60s, after.agg_60s, AGG_60S_CAPACITY as nat)
        }),
{
}

/// Whether a tier has a marked bucket with one sample behind what it held before, as far as that
/// still fits.
pub open spec fn starts_anew(
    before: Seq<TierSampleModel>,
    after: Seq<TierSampleModel>,
    capacity: nat,
) -> bool {
    &&& after.len() > 0
    &&& after.last().sample_count == 1
    &&& after.last().gap_before == (before.len() > 0)
    &&& after == crate::lists::newest(before.push(after.last()), capacity)
}

/// Whether groups stand in the order of their names, each name once.
pub open spec fn names_ascend(groups: Seq<GroupPowerSumModel>) -> bool {
    forall|i: int, j: int|
        0 <= i < j < groups.len() ==> crate::text::text_before(
            #[trigger] groups[i].name,
            #[trigger] groups[j].name,
        )
}

/// The powers entered under one name, in the order in which they came.
pub open spec fn powers_under(entries: Seq<GroupPowerSumModel>, name: Seq<char>) -> Seq<Binary64>
    decreases entries.len(),
{
    if entries.len() == 0 {
        Seq::empty()
    } else if entries.last().name == name {
        powers_under(entries.drop_last(), name).push(entries.last().power_sum)
    } else {
        powers_under(entries.drop_last(), name)
    }
}

/// The sum that stands under a name.
pub open spec fn sum_under(groups: Seq<GroupPowerSumModel>, name: Seq<char>) -> Option<Binary64>
    decreases groups.len(),
{
    if groups.len() == 0 {
        None
    } else if groups.last().name == name {
        Some(groups.last().power_sum)
    } else {
        sum_under(groups.drop_last(), name)
    }
}

proof fn lemma_absent(groups: Seq<GroupPowerSumModel>, name: Seq<char>)
    requires
        names_ascend(groups),
        groups.len() > 0 ==> crate::text::text_before(groups.last().name, name),
    ensures
        sum_under(groups, name) is None,
    decreases groups.len(),
{
    if groups.len() > 0 {
        let front = groups.drop_last();
        crate::text::law_text_order_is_total(name, name, name);
        if front.len() > 0 {
            let last = groups[groups.len() - 1].name;
            assert(crate::text::text_before(groups[groups.len() - 2].name, last));
            crate::text::law_text_order_is_total(front.last().name, last, name);
        }
        lemma_absent(front, name);
    }
}

proof fn lemma_entered_below(
    groups: Seq<GroupPowerSumModel>,
    name: Seq<char>,
    power: Binary64,
    adding: bool,
    bound: Seq<char>,
)
    requires
        crate::text::text_before(name, bound),
        forall|i: int|
            0 <= i < groups.len() ==> crate::text::text_before(#[trigger] groups[i].name, bound),
    ensures
        forall|i: int|
            0 <= i < entered(groups, name, power, adding).len() ==> crate::text::text_before(
                #[trigger] entered(groups, name, power, adding)[i].name,
                bound,
            ),
    decreases groups.len(),
{
    let after = entered(groups, name, power, adding);
    if groups.len() > 0 && crate::text::text_before(name, groups.last().name) {
        let front = groups.drop_last();
        assert forall|i: int| 0 <= i < front.len() implies crate::text::text_before(
            #[trigger] front[i].name,
            bound,
        ) by {
            assert(crate::text::text_before(groups[i].name, bound));
        }
        lemma_entered_below(front, name, power, adding, bound);
        let below = entered(front, name, power, adding);
        assert forall|i: int| 0 <= i < after.len() implies crate::text::text_before(
            #[trigger] after[i].name,
            bound,
        ) by {
            if i < below.len() {
                assert(after[i] == below[i]);
            } else {
                assert(crate::text::text_before(groups[groups.len() - 1].name, bound));
            }
        }
    } else {
        assert forall|i: int| 0 <= i < after.len() implies crate::text::text_before(
            #[trigger] after[i].name,
            bound,
        ) by {
            if after[i].name != name {
                assert(after[i] == groups[i]);
            }
        }
    }
}

proof fn lemma_entered(
    groups: Seq<GroupPowerSumModel>,
    name: Seq<char>,
    power: Binary64,
    adding: bool,
    other: Seq<char>,
)
    requires
        names_ascend(groups),
    ensures
        names_ascend(entered(groups, name, power, adding)),
        sum_under(entered(groups, name, power, adding), other) == if other != name {
            sum_under(groups, other)
        } else if !adding {
            Some(power)
        } else {
            match sum_under(groups, name) {
                Some(sum) => Some(sum.sum(power)),
                None => Some((Binary64 { bits: 0 }).sum(power)),
            }
        },
    decreases groups.len(),
{
    let after = entered(groups, name, power, adding);
    if groups.len() > 0 && crate::text::text_before(name, groups.last().name) {
        let front = groups.drop_last();
        let last = groups[groups.len() - 1];
        lemma_entered(front, name, power, adding, other);
        crate::text::law_text_order_is_total(name, last.name, name);
        let below = entered(front, name, power, adding);
        assert(after.drop_last() =~= below);
        assert forall|i: int| 0 <= i < front.len() implies crate::text::text_before(
            #[trigger] front[i].name,
            last.name,
        ) by {
            assert(crate::text::text_before(groups[i].name, groups[groups.len() - 1].name));
        }
        lemma_entered_below(front, name, power, adding, last.name);
        assert forall|i: int, j: int| 0 <= i < j < after.len() implies crate::text::text_before(
            #[trigger] after[i].name,
            #[trigger] after[j].name,
        ) by {
            assert(after[i] == below[i]);
            if j < below.len() {
                assert(after[j] == below[j]);
            }
        }
    } else if groups.len() > 0 && groups.last().name == name {
        assert(after.drop_last() =~= groups.drop_last());
        assert forall|i: int, j: int| 0 <= i < j < after.len() implies crate::text::text_before(
            #[trigger] after[i].name,
            #[trigger] after[j].name,
        ) by {
            assert(after[i].name == groups[i].name);
            assert(after[j].name == groups[j].name);
        }
    } else {
        assert(after.drop_last() =~= groups);
        if groups.len() > 0 {
            let last = groups[groups.len() - 1].name;
            crate::text::law_text_order_is_total(last, name, name);
        }
        lemma_absent(groups, name);
        assert forall|i: int, j: int| 0 <= i < j < after.len() implies crate::text::text_before(
            #[trigger] after[i].name,
            #[trigger] after[j].name,
        ) by {
            assert(after[i] == groups[i]);
            let last = groups[groups.len() - 1].name;
            if j < groups.len() {
                assert(after[j] == groups[j]);
            } else if i < groups.len() - 1 {
                assert(crate::text::text_before(groups[i].name, groups[groups.len() - 1].name));
                crate::text::law_text_order_is_total(groups[i].name, last, name);
            }
        }
    }
}

/// Grouping gives each name that occurs once, in order, with the powers that came under it added
/// up from zero, the first first.
pub proof fn law_grouping_adds_up_each_name(entries: Seq<GroupPowerSumModel>, name: Seq<char>)
    ensures
        names_ascend(grouped_sums(entries)),
        sum_under(grouped_sums(entries), name) == if powers_under(entries, name).len() == 0 {
            None
        } else {
            Some(
                crate::binary64::added_to(Binary64 { bits: 0 }, powers_under(entries, name)),
            )
        },
{
    lemma_all_added(Seq::empty(), entries, name);
}

/// Merging a sample into a bucket adds to each name what the sample has under it, and puts the names
/// in order, each once. Of a name that stands in the bucket more than once, the last sum counts.
pub proof fn law_merging_adds_to_each_name(
    existing: Seq<GroupPowerSumModel>,
    incoming: Seq<GroupPowerSumModel>,
    name: Seq<char>,
)
    ensures
        names_ascend(merged_sums(existing, incoming)),
        sum_under(merged_sums(existing, incoming), name) == if powers_under(incoming, name).len()
            == 0 {
            sum_under(existing, name)
        } else {
            match sum_under(existing, name) {
                Some(sum) => Some(
                    crate::binary64::added_to(sum, powers_under(incoming, name)),
                ),
                None => Some(
                    crate::binary64::added_to(Binary64 { bits: 0 }, powers_under(incoming, name)),
                ),
            }
        },
{
    lemma_all_placed(existing, name);
    lemma_all_added(all_entered(Seq::empty(), existing, false), incoming, name);
}

proof fn lemma_all_placed(groups: Seq<GroupPowerSumModel>, name: Seq<char>)
    ensures
        names_ascend(all_entered(Seq::empty(), groups, false)),
        sum_under(all_entered(Seq::empty(), groups, false), name) == sum_under(groups, name),
    decreases groups.len(),
{
    if groups.len() > 0 {
        let front = groups.drop_last();
        let last = groups.last();
        lemma_all_placed(front, name);
        lemma_entered(
            all_entered(Seq::empty(), front, false),
            last.name,
            last.power_sum,
            false,
            name,
        );
    }
}

proof fn lemma_all_added(
    groups: Seq<GroupPowerSumModel>,
    more: Seq<GroupPowerSumModel>,
    name: Seq<char>,
)
    requires
        names_ascend(groups),
    ensures
        names_ascend(all_entered(groups, more, true)),
        sum_under(all_entered(groups, more, true), name) == if powers_under(more, name).len() == 0 {
            sum_under(groups, name)
        } else {
            match sum_under(groups, name) {
                Some(sum) => Some(crate::binary64::added_to(sum, powers_under(more, name))),
                None => Some(
                    crate::binary64::added_to(Binary64 { bits: 0 }, powers_under(more, name)),
                ),
            }
        },
    decreases more.len(),
{
    if more.len() > 0 {
        let front = more.drop_last();
        let e = more.last();
        lemma_all_added(groups, front, name);
        lemma_all_added(groups, front, e.name);
        lemma_entered(all_entered(groups, front, true), e.name, e.power_sum, true, name);
        if e.name == name {
            assert(powers_under(more, name).drop_last() =~= powers_under(front, name));
        }
    }
}

/// After cleaning, every live sample draws a reasonable power, and every sample that did is still
/// there.
pub proof fn law_sanitizing_keeps_the_reasonable(
    cache: SessionCacheModel,
    max: Binary64,
    snapshot: int,
    sample: LiveProcessSampleModel,
)
    requires
        0 <= snapshot < cache.live_snapshots.len(),
    ensures
        cache.sanitized(max).live_snapshots[snapshot].samples.contains(sample) <==> (
        cache.live_snapshots[snapshot].samples.contains(sample) && reasonable(sample.power, max)),
{
    crate::lists::lemma_filtered(
        cache.live_snapshots[snapshot].samples,
        sample_kept(max),
        sample,
    );
}

/// Whether buckets stand in the order of time.
pub open spec fn in_time_order(tier: Seq<TierSampleModel>) -> bool {
    forall|i: int, j: int|
        0 <= i <= j < tier.len() ==> (#[trigger] tier[i]).bucket_start_secs <= (
        #[trigger] tier[j]).bucket_start_secs
}

/// As long as time does not run backwards, recording keeps the buckets in the order of time.
pub proof fn law_recording_keeps_time_order(
    tier: Seq<TierSampleModel>,
    bucket_secs: u64,
    capacity: nat,
    timestamp_secs: u64,
    total_power: Binary64,
    groups: Seq<GroupPowerSumModel>,
    processes: Seq<ArchivedProcessPowerModel>,
    gap: bool,
)
    requires
        in_time_order(tier),
        forall|i: int|
            0 <= i < tier.len() ==> (#[trigger] tier[i]).bucket_start_secs <= bucket_start(
                timestamp_secs,
                bucket_secs,
            ),
    ensures
        in_time_order(
            upserted(
                tier,
                bucket_secs,
                capacity,
                timestamp_secs,
                total_power,
                groups,
                processes,
                gap,
            ),
        ),
{
    let after = upserted(
        tier,
        bucket_secs,
        capacity,
        timestamp_secs,
        total_power,
        groups,
        processes,
        gap,
    );
    let start = bucket_start(timestamp_secs, bucket_secs);
    let dropped: int = if after.len() > tier.len() || (!gap && tier.len() > 0
        && tier.last().bucket_start_secs == start) {
        0
    } else {
        tier.len() + 1 - after.len()
    };
    assert forall|i: int, j: int| 0 <= i <= j < after.len() implies (
    #[trigger] after[i]).bucket_start_secs <= (#[trigger] after[j]).bucket_start_secs by {
        if i < after.len() - 1 {
            assert(after[i] == tier[i + dropped]);
        }
        if j < after.len() - 1 {
            assert(after[j] == tier[j + dropped]);
        }
        assert(after[after.len() - 1].bucket_start_secs == start);
    }
}

/// A later moment is in the same bucket or a later one, and a bucket is as long as it says.
pub proof fn law_buckets_follow_time(earlier: u64, later: u64, bucket_secs: u64)
    requires
        earlier <= later,
        bucket_secs > 0,
    ensures
        bucket_start(earlier, bucket_secs) <= bucket_start(later, bucket_secs),
        bucket_start(later, bucket_secs) <= later < bucket_start(later, bucket_secs) + bucket_secs,
        bucket_start(later, bucket_secs) as int % bucket_secs as int == 0,
{
    let a: int = earlier as int;
    let b: int = later as int;
    let n: int = bucket_secs as int;
    vstd::arithmetic::div_mod::lemma_fundamental_div_mod(a, n);
    vstd::arithmetic::div_mod::lemma_fundamental_div_mod(b, n);
    vstd::arithmetic::div_mod::lemma_div_is_ordered(a, b, n);
    assert(n * (a / n) <= n * (b / n)) by (nonlinear_arith)
        requires
            a / n <= b / n,
            n > 0,
    ;
    vstd::arithmetic::div_mod::lemma_mod_multiples_basic(b / n, n);
    assert((b / n) * n == n * (b / n)) by (nonlinear_arith);
    vstd::arithmetic::div_mod::lemma_div_pos_is_pos(a, n);
    assert(n * (a / n) >= 0) by (nonlinear_arith)
        requires
            n > 0,
            a / n >= 0,
    ;
}

/// How many samples a tier holds.
pub open spec fn sample_total(tier: Seq<TierSampleModel>) -> nat
    decreases tier.len(),
{
    if tier.len() == 0 {
        0
    } else {
        sample_total(tier.drop_last()) + tier.last().sample_count as nat
    }
}

/// Every sample counts: a tier with room, whose last bucket can still count, holds one more.
pub proof fn law_every_sample_counts(
    tier: Seq<TierSampleModel>,
    bucket_secs: u64,
    capacity: nat,
    timestamp_secs: u64,
    total_power: Binary64,
    groups: Seq<GroupPowerSumModel>,
    processes: Seq<ArchivedProcessPowerModel>,
    gap: bool,
)
    requires
        tier.len() < capacity,
        tier.len() > 0 ==> tier.last().sample_count < u32::MAX,
    ensures
        sample_total(
            upserted(
                tier,
                bucket_secs,
                capacity,
                timestamp_secs,
                total_power,
                groups,
                processes,
                gap,
            ),
        ) == sample_total(tier) + 1,
{
    let after = upserted(
        tier,
        bucket_secs,
        capacity,
        timestamp_secs,
        total_power,
        groups,
        processes,
        gap,
    );
    if after.len() > tier.len() {
        assert(after.drop_last() =~= tier);
    } else {
        assert(after.drop_last() =~= tier.drop_last());
    }
}

} // verus!
