//! The archive as a graph: one column of the graph for each stretch of time.
use std::collections::VecDeque;

use vstd::prelude::*;

use crate::binary64::Binary64;
use crate::history::{PidKey, PidKeyModel};
use crate::persistence::{
    ArchiveState, ArchiveStateModel, ArchivedProcessPowerModel, TierSample, TierSampleModel,
    AGG_10S_BUCKET_SECS, AGG_60S_BUCKET_SECS, RAW_2S_BUCKET_SECS,
};

verus! {

/// How far back a graph reaches.
#[derive(Debug, Clone, Copy, PartialEq, Eq, Structural)]
pub enum ArchiveGraphRange {
    Minutes30,
    Hours3,
    Hours12,
}

impl ArchiveGraphRange {
    pub open spec fn window(self) -> u64 {
        match self {
            ArchiveGraphRange::Minutes30 => 1_800,
            ArchiveGraphRange::Hours3 => 10_800,
            ArchiveGraphRange::Hours12 => 43_200,
        }
    }

    pub open spec fn bucket(self) -> u64 {
        match self {
            ArchiveGraphRange::Minutes30 => RAW_2S_BUCKET_SECS,
            ArchiveGraphRange::Hours3 => AGG_10S_BUCKET_SECS,
            ArchiveGraphRange::Hours12 => AGG_60S_BUCKET_SECS,
        }
    }

    /// The tier with the range's resolution.
    pub open spec fn tier(self, archive: ArchiveStateModel) -> Seq<TierSampleModel> {
        match self {
            ArchiveGraphRange::Minutes30 => archive.raw_2s,
            ArchiveGraphRange::Hours3 => archive.agg_10s,
            ArchiveGraphRange::Hours12 => archive.agg_60s,
        }
    }

    pub fn window_secs(self) -> (secs: u64)
        ensures
            secs == self.window(),
    {
        match self {
            ArchiveGraphRange::Minutes30 => 30 * 60,
            ArchiveGraphRange::Hours3 => 3 * 60 * 60,
            ArchiveGraphRange::Hours12 => 12 * 60 * 60,
        }
    }

    pub fn bucket_secs(self) -> (secs: u64)
        ensures
            secs == self.bucket(),
    {
        match self {
            ArchiveGraphRange::Minutes30 => RAW_2S_BUCKET_SECS,
            ArchiveGraphRange::Hours3 => AGG_10S_BUCKET_SECS,
            ArchiveGraphRange::Hours12 => AGG_60S_BUCKET_SECS,
        }
    }
}

/// The column, counted from the epoch, that holds the middle of a bucket, where `bins` columns
/// stand for a window. What passes the largest number stays at it.
pub open spec fn display_bucket(
    bucket_start_secs: u64,
    bucket_secs: u64,
    window_secs: u64,
    bins: nat,
) -> u64 {
    if bins == 0 || window_secs == 0 {
        0
    } else {
        let exact = (2 * bucket_start_secs + bucket_secs) * bins;
        let numerator = if exact > u128::MAX {
            u128::MAX as int
        } else {
            exact
        };
        let column = numerator / (2 * window_secs as int);
        if column > u64::MAX {
            u64::MAX
        } else {
            column as u64
        }
    }
}

pub fn display_bucket_for_sample(
    bucket_start_secs: u64,
    sample_bucket_secs: u64,
    window_secs: u64,
    bins: usize,
) -> (column: u64)
    ensures
        column == display_bucket(bucket_start_secs, sample_bucket_secs, window_secs, bins as nat),
{
    if bins == 0 || window_secs == 0 {
        return 0;
    }
    let middle: u128 = bucket_start_secs as u128 * 2 + sample_bucket_secs as u128;
    let numerator: u128 = match middle.checked_mul(bins as u128) {
        Some(product) => product,
        None => u128::MAX,
    };
    let column: u128 = numerator / (window_secs as u128 * 2);
    if column > u64::MAX as u128 {
        u64::MAX
    } else {
        column as u64
    }
}

/// What a graph shows: the total, or one process.
#[verifier::ext_equal]
pub enum Subject {
    Total,
    Process(PidKeyModel),
}

/// The sum of a process in a bucket.
pub open spec fn process_sum(
    processes: Seq<ArchivedProcessPowerModel>,
    key: PidKeyModel,
) -> Option<Binary64>
    decreases processes.len(),
{
    if processes.len() == 0 {
        None
    } else if processes[0].pid == key.pid && processes[0].process == key.process {
        Some(processes[0].power_sum)
    } else {
        process_sum(processes.skip(1), key)
    }
}

/// The average of a bucket.
pub open spec fn reading(sample: TierSampleModel, subject: Subject) -> Binary64 {
    if sample.sample_count == 0 {
        Binary64 { bits: 0 }
    } else {
        let sum = match subject {
            Subject::Total => Some(sample.total_power_sum),
            Subject::Process(key) => process_sum(sample.processes, key),
        };
        match sum {
            Some(power) => power.quotient(Binary64::whole(sample.sample_count as nat)),
            None => Binary64 { bits: 0 },
        }
    }
}

/// What has fallen into a column.
#[derive(Debug, Clone, Copy, PartialEq, Eq, Structural)]
pub struct GraphBin {
    pub sum: Binary64,
    pub count: u32,
    pub force_gap: bool,
}

impl GraphBin {
    pub open spec fn unused() -> GraphBin {
        GraphBin { sum: Binary64 { bits: 0 }, count: 0, force_gap: false }
    }

    pub open spec fn with(self, value: Binary64) -> GraphBin {
        GraphBin {
            sum: self.sum.sum(value),
            count: if self.count < u32::MAX {
                (self.count + 1) as u32
            } else {
                u32::MAX
            },
            ..self
        }
    }

    /// The average of a column, where there is one and no gap is to be shown.
    pub open spec fn column(self) -> Option<Binary64> {
        if self.force_gap || self.count == 0 {
            None
        } else {
            Some(self.sum.quotient(Binary64::whole(self.count as nat)))
        }
    }
}

/// A graph in the making: the columns, and where the last sample stands and where it was put.
#[verifier::ext_equal]
pub struct Plot {
    pub bins: Seq<GraphBin>,
    pub last: Option<(u64, int)>,
}

/// A window of columns, counted from the epoch.
#[verifier::ext_equal]
pub struct Frame {
    pub range: ArchiveGraphRange,
    pub points: nat,
    pub start: u64,
    pub end: u64,
}

impl Frame {
    pub open spec fn display(self, sample: TierSampleModel) -> u64 {
        display_bucket(
            sample.bucket_start_secs,
            self.range.bucket(),
            self.range.window(),
            self.points,
        )
    }

    pub open spec fn shows(self, sample: TierSampleModel) -> bool {
        self.start <= self.display(sample) < self.end
    }
}

/// The window of a tier: it ends with the column of the newest bucket.
pub open spec fn frame_of(
    tier: Seq<TierSampleModel>,
    range: ArchiveGraphRange,
    points: nat,
) -> Frame {
    let last = display_bucket(
        tier.last().bucket_start_secs,
        range.bucket(),
        range.window(),
        points,
    );
    let end = if last < u64::MAX {
        (last + 1) as u64
    } else {
        u64::MAX
    };
    Frame {
        range,
        points,
        start: if end >= points {
            (end - points) as u64
        } else {
            0
        },
        end,
    }
}

impl Plot {
    pub open spec fn blank(points: nat) -> Plot {
        Plot { bins: Seq::new(points, |i: int| GraphBin::unused()), last: None }
    }

    /// Whether a gap lies between the last sample and one in column `display`.
    pub open spec fn breaks(self, sample: TierSampleModel, display: u64) -> bool {
        self.last matches Some((before, _)) && (sample.gap_before || display > before + 1)
    }

    /// The column of a sample in the window, before a gap moves it: never left of the last one.
    pub open spec fn aim(self, at: int) -> int {
        match self.last {
            Some((_, index)) => if at < index {
                index
            } else {
                at
            },
            None => at,
        }
    }

    /// The column that is left empty before a gap.
    pub open spec fn gap_column(self, at: int) -> int {
        if self.aim(at) > 0 {
            self.aim(at) - 1
        } else {
            0
        }
    }

    /// The column that a sample goes to: behind a gap not that of the sample before it, while there
    /// is another.
    pub open spec fn target(self, sample: TierSampleModel, display: u64, at: int) -> int {
        let aim = self.aim(at);
        if self.breaks(sample, display) && (self.last->0).1 == aim && aim + 1 < self.bins.len() {
            aim + 1
        } else {
            aim
        }
    }

    /// The graph with one more sample.
    pub open spec fn with(self, sample: TierSampleModel, frame: Frame, subject: Subject) -> Plot {
        let display = frame.display(sample);
        if !frame.shows(sample) {
            self
        } else {
            let at = display - frame.start;
            let bins = if self.breaks(sample, display) {
                let gap = self.gap_column(at);
                self.bins.update(gap, GraphBin { force_gap: true, ..self.bins[gap] })
            } else {
                self.bins
            };
            let target = self.target(sample, display, at);
            Plot {
                bins: bins.update(target, bins[target].with(reading(sample, subject))),
                last: Some((display, target)),
            }
        }
    }
}

/// The graph of some samples.
pub open spec fn plotted(
    samples: Seq<TierSampleModel>,
    frame: Frame,
    subject: Subject,
) -> Plot
    decreases samples.len(),
{
    if samples.len() == 0 {
        Plot::blank(frame.points)
    } else {
        plotted(samples.drop_last(), frame, subject).with(samples.last(), frame, subject)
    }
}

pub open spec fn columns(bins: Seq<GraphBin>) -> Seq<Option<Binary64>> {
    Seq::new(bins.len(), |i: int| bins[i].column())
}

/// Two columns for each cell of a viewport's width.
pub open spec fn points_of(viewport_width: usize) -> nat {
    if 2 * viewport_width > usize::MAX {
        usize::MAX as nat
    } else {
        2 * viewport_width as nat
    }
}

/// The columns of a tier's graph; without samples all are empty.
pub open spec fn graph(
    tier: Seq<TierSampleModel>,
    range: ArchiveGraphRange,
    points: nat,
    subject: Subject,
) -> Seq<Option<Binary64>> {
    if tier.len() == 0 {
        Seq::new(points, |i: int| None)
    } else {
        columns(plotted(tier, frame_of(tier, range, points), subject).bins)
    }
}

pub proof fn lemma_plot(samples: Seq<TierSampleModel>, frame: Frame, subject: Subject)
    requires
        frame.end <= frame.start + frame.points,
    ensures
        plotted(samples, frame, subject).bins.len() == frame.points,
        plotted(samples, frame, subject).last matches Some((display, index)) ==> frame.start
            <= display < frame.end && display - frame.start <= index < frame.points,
    decreases samples.len(),
{
    if samples.len() > 0 {
        lemma_plot(samples.drop_last(), frame, subject);
    }
}

fn process_power(sample: &TierSample, key: &PidKey) -> (sum: Option<Binary64>)
    ensures
        sum == process_sum(sample@.processes, key@),
{
    let ghost all = sample@.processes;
    let mut i: usize = 0;
    proof {
        assert(all.skip(0) =~= all);
    }
    while i < sample.processes.len()
        invariant
            i <= sample.processes@.len(),
            all == sample@.processes,
            process_sum(all, key@) == process_sum(all.skip(i as int), key@),
        decreases sample.processes@.len() - i,
    {
        proof {
            assert(all.skip(i as int)[0] == sample.processes@[i as int]@);
            assert(all.skip(i as int).skip(1) =~= all.skip(i + 1));
        }
        if sample.processes[i].pid == key.pid && sample.processes[i].process.eq(&key.process) {
            return Some(sample.processes[i].power_sum);
        }
        i = i + 1;
    }
    None
}

pub open spec fn subject_of(key: Option<PidKey>) -> Subject {
    match key {
        Some(key) => Subject::Process(key@),
        None => Subject::Total,
    }
}

fn sample_value(sample: &TierSample, key: &Option<PidKey>) -> (value: Binary64)
    ensures
        value == reading(sample@, subject_of(*key)),
{
    if sample.sample_count == 0 {
        return Binary64::zero();
    }
    let sum: Option<Binary64> = match key {
        Some(key) => process_power(sample, key),
        None => Some(sample.total_power_sum),
    };
    match sum {
        Some(power) => power.over(Binary64::from_whole(sample.sample_count as u64)),
        None => Binary64::zero(),
    }
}

fn tier_for_range(archive: &ArchiveState, range: ArchiveGraphRange) -> (tier: &VecDeque<TierSample>)
    ensures
        crate::lists::models(tier@) == range.tier(archive@),
{
    match range {
        ArchiveGraphRange::Minutes30 => &archive.raw_2s,
        ArchiveGraphRange::Hours3 => &archive.agg_10s,
        ArchiveGraphRange::Hours12 => &archive.agg_60s,
    }
}

/// The end of the window: the column behind that of the newest bucket.
fn anchored_window_end_bucket(
    tier: &VecDeque<TierSample>,
    range: ArchiveGraphRange,
    points: usize,
) -> (end: Option<u64>)
    ensures
        match end {
            Some(end) => tier@.len() > 0 && end == frame_of(
                crate::lists::models(tier@),
                range,
                points as nat,
            ).end,
            None => tier@.len() == 0,
        },
{
    if tier.len() == 0 {
        return None;
    }
    proof {
        assert(crate::lists::models(tier@).last() == tier@[tier@.len() - 1]@);
    }
    Some(
        display_bucket_for_sample(
            tier[tier.len() - 1].bucket_start_secs,
            range.bucket_secs(),
            range.window_secs(),
            points,
        ).saturating_add(1),
    )
}

fn graph_samples_for_range_with(
    archive: &ArchiveState,
    range: ArchiveGraphRange,
    viewport_width: usize,
    key: &Option<PidKey>,
) -> (out: Vec<Option<Binary64>>)
    ensures
        out@ == graph(
            range.tier(archive@),
            range,
            points_of(viewport_width),
            subject_of(*key),
        ),
{
    let points: usize = match viewport_width.checked_mul(2) {
        Some(points) => points,
        None => usize::MAX,
    };
    let tier: &VecDeque<TierSample> = tier_for_range(archive, range);
    let ghost all = crate::lists::models(tier@);
    let ghost subject = subject_of(*key);
    let mut out: Vec<Option<Binary64>> = Vec::new();
    let end: u64 = match anchored_window_end_bucket(tier, range, points) {
        Some(end) => end,
        None => {
            let mut i: usize = 0;
            while i < points
                invariant
                    i <= points,
                    out@.len() == i,
                    forall|j: int| 0 <= j < i ==> #[trigger] out@[j] is None,
                decreases points - i,
            {
                out.push(None);
                i = i + 1;
            }
            proof {
                assert(out@ =~= graph(all, range, points as nat, subject));
            }
            return out;
        },
    };
    let ghost frame = frame_of(all, range, points as nat);
    let start: u64 = end.saturating_sub(points as u64);
    if points == 0 {
        proof {
            lemma_plot(all, frame, subject);
            assert(out@ =~= graph(all, range, 0, subject));
        }
        return out;
    }
    let mut bins: Vec<GraphBin> = Vec::new();
    let mut i: usize = 0;
    while i < points
        invariant
            i <= points,
            bins@.len() == i,
            forall|j: int| 0 <= j < i ==> #[trigger] bins@[j] == GraphBin::unused(),
        decreases points - i,
    {
        bins.push(GraphBin { sum: Binary64::zero(), count: 0, force_gap: false });
        i = i + 1;
    }
    proof {
        assert(bins@ =~= Plot::blank(points as nat).bins);
        assert(all.take(0) =~= Seq::empty());
    }
    let mut prev: Option<(u64, usize)> = None;
    let mut k: usize = 0;
    while k < tier.len()
        invariant
            k <= tier@.len(),
            0 < points,
            all == crate::lists::models(tier@),
            subject == subject_of(*key),
            frame == (Frame { range, points: points as nat, start, end }),
            frame.end <= frame.start + frame.points,
            bins@ == plotted(all.take(k as int), frame, subject).bins,
            match prev {
                Some((display, index)) => plotted(all.take(k as int), frame, subject).last == Some(
                    (display, index as int),
                ),
                None => plotted(all.take(k as int), frame, subject).last is None,
            },
        decreases tier@.len() - k,
    {
        proof {
            lemma_plot(all.take(k as int), frame, subject);
            assert(all.take(k + 1).drop_last() =~= all.take(k as int));
            assert(all.take(k + 1).last() == tier@[k as int]@);
        }
        let display: u64 = display_bucket_for_sample(
            tier[k].bucket_start_secs,
            range.bucket_secs(),
            range.window_secs(),
            points,
        );
        if start <= display && display < end {
            let value: Binary64 = sample_value(&tier[k], key);
            let mut target: usize = (display - start) as usize;
            if let Some((before, index)) = prev {
                if target < index {
                    target = index;
                }
                if tier[k].gap_before || display > before.saturating_add(1) {
                    let gap: usize = target.saturating_sub(1);
                    let mut empty: GraphBin = bins[gap];
                    empty.force_gap = true;
                    bins.set(gap, empty);
                    if target == index && target + 1 < points {
                        target = target + 1;
                    }
                }
            }
            let mut bin: GraphBin = bins[target];
            bin.sum = bin.sum.plus(value);
            bin.count = bin.count.saturating_add(1);
            bins.set(target, bin);
            prev = Some((display, target));
        }
        k = k + 1;
    }
    proof {
        assert(all.take(k as int) =~= all);
        lemma_plot(all, frame, subject);
    }
    let mut c: usize = 0;
    while c < points
        invariant
            c <= points == bins@.len(),
            out@.len() == c,
            forall|j: int| 0 <= j < c ==> #[trigger] out@[j] == bins@[j].column(),
        decreases points - c,
    {
        let bin: GraphBin = bins[c];
        if bin.force_gap || bin.count == 0 {
            out.push(None);
        } else {
            out.push(Some(bin.sum.over(Binary64::from_whole(bin.count as u64))));
        }
        c = c + 1;
    }
    proof {
        assert(out@ =~= columns(bins@));
    }
    out
}

/// The graph of the total power.
pub fn graph_samples_for_range(
    archive: &ArchiveState,
    range: ArchiveGraphRange,
    viewport_width: usize,
) -> (out: Vec<Option<Binary64>>)
    ensures
        out@ == graph(range.tier(archive@), range, points_of(viewport_width), Subject::Total),
{
    graph_samples_for_range_with(archive, range, viewport_width, &None)
}

/// The graph of one process.
pub fn pid_graph_samples_for_range(
    archive: &ArchiveState,
    range: ArchiveGraphRange,
    viewport_width: usize,
    key: &PidKey,
) -> (out: Vec<Option<Binary64>>)
    ensures
        out@ == graph(
            range.tier(archive@),
            range,
            points_of(viewport_width),
            Subject::Process(key@),
        ),
{
    graph_samples_for_range_with(archive, range, viewport_width, &Some(key.clone()))
}

/// The readings of the samples in one column, in order.
pub open spec fn readings_in(
    samples: Seq<TierSampleModel>,
    frame: Frame,
    column: int,
    subject: Subject,
) -> Seq<Binary64>
    decreases samples.len(),
{
    if samples.len() == 0 {
        Seq::empty()
    } else {
        let before = readings_in(samples.drop_last(), frame, column, subject);
        if frame.display(samples.last()) == column {
            before.push(reading(samples.last(), subject))
        } else {
            before
        }
    }
}

/// The average of the readings, where there are any.
pub open spec fn mean(readings: Seq<Binary64>) -> Option<Binary64> {
    if readings.len() == 0 {
        None
    } else {
        Some(
            crate::binary64::added_to(Binary64 { bits: 0 }, readings).quotient(
                Binary64::whole(readings.len()),
            ),
        )
    }
}

/// Whether samples come in the order of their columns, and none is marked as behind a gap.
pub open spec fn runs_on(samples: Seq<TierSampleModel>, frame: Frame) -> bool {
    &&& forall|i: int, j: int|
        0 <= i <= j < samples.len() ==> frame.display(#[trigger] samples[i]) <= frame.display(
            #[trigger] samples[j],
        )
    &&& forall|i: int| 0 <= i < samples.len() ==> !(#[trigger] samples[i]).gap_before
    &&& samples.len() <= u32::MAX
}

proof fn lemma_readings_count(
    samples: Seq<TierSampleModel>,
    frame: Frame,
    column: int,
    subject: Subject,
)
    ensures
        readings_in(samples, frame, column, subject).len() <= samples.len(),
        forall|i: int|
            0 <= i < samples.len() && frame.display(#[trigger] samples[i]) == column
                ==> readings_in(samples, frame, column, subject).len() > 0,
        (forall|i: int|
            0 <= i < samples.len() ==> frame.display(#[trigger] samples[i]) != column)
            ==> readings_in(samples, frame, column, subject).len() == 0,
    decreases samples.len(),
{
    if samples.len() > 0 {
        let front = samples.drop_last();
        lemma_readings_count(front, frame, column, subject);
        assert(frame.display(samples[samples.len() - 1]) == frame.display(samples.last()));
        assert forall|i: int|
            0 <= i < samples.len() && frame.display(#[trigger] samples[i])
                == column implies readings_in(samples, frame, column, subject).len() > 0 by {
            if i < front.len() {
                assert(frame.display(front[i]) == column);
            }
        }
        if forall|i: int|
            0 <= i < samples.len() ==> frame.display(#[trigger] samples[i]) != column {
            assert forall|i: int| 0 <= i < front.len() implies frame.display(#[trigger] front[i])
                != column by {
                assert(frame.display(samples[i]) != column);
            }
        }
    }
}

proof fn lemma_means(samples: Seq<TierSampleModel>, frame: Frame, subject: Subject)
    requires
        runs_on(samples, frame),
        frame.end <= frame.start + frame.points,
        forall|i: int|
            0 <= i < samples.len() ==> frame.display(#[trigger] samples[i]) < frame.end,
    ensures
        ({
            let plot = plotted(samples, frame, subject);
            &&& plot.bins.len() == frame.points
            &&& forall|i: int|
                0 <= i < plot.bins.len() ==> {
                    let readings = readings_in(samples, frame, frame.start + i, subject);
                    &&& (#[trigger] plot.bins[i]).sum == crate::binary64::added_to(
                        Binary64 { bits: 0 },
                        readings,
                    )
                    &&& plot.bins[i].count == readings.len()
                    &&& plot.bins[i].force_gap ==> readings.len() == 0 && samples.len() > 0
                        && frame.start + i < frame.display(samples.last())
                }
            &&& plot.last matches Some((display, index)) ==> samples.len() > 0 && display
                == frame.display(samples.last()) && index == display - frame.start && display
                >= frame.start
            &&& plot.last is None ==> forall|i: int|
                0 <= i < samples.len() ==> frame.display(#[trigger] samples[i]) < frame.start
        }),
    decreases samples.len(),
{
    let plot = plotted(samples, frame, subject);
    if samples.len() > 0 {
        let front = samples.drop_last();
        let sample = samples[samples.len() - 1];
        let before = plotted(front, frame, subject);
        assert(runs_on(front, frame)) by {
            assert forall|i: int, j: int| 0 <= i <= j < front.len() implies frame.display(
                #[trigger] front[i],
            ) <= frame.display(#[trigger] front[j]) by {
                assert(frame.display(samples[i]) <= frame.display(samples[j]));
            }
            assert forall|i: int| 0 <= i < front.len() implies !(#[trigger] front[i]).gap_before by {
                assert(!samples[i].gap_before);
            }
        }
        assert forall|i: int| 0 <= i < front.len() implies frame.display(#[trigger] front[i])
            < frame.end by {
            assert(frame.display(samples[i]) < frame.end);
        }
        lemma_means(front, frame, subject);
        let display = frame.display(sample);
        assert(!sample.gap_before);
        if front.len() > 0 {
            assert(frame.display(samples[samples.len() - 2]) <= frame.display(
                samples[samples.len() - 1],
            ));
            assert(front.last() == samples[samples.len() - 2]);
        }
        if !frame.shows(sample) {
            assert(display < frame.start);
            assert forall|i: int| 0 <= i < samples.len() implies frame.display(
                #[trigger] samples[i],
            ) < frame.start by {
                assert(frame.display(samples[i]) <= frame.display(samples[samples.len() - 1]));
            }
        } else {
            let at = display - frame.start;
            assert(before.aim(at) == at);
            assert(before.target(sample, display, at) == at);
            if before.breaks(sample, display) {
                let gap = before.gap_column(at);
                assert(gap == at - 1);
                assert(front.len() > 0);
                assert forall|i: int| 0 <= i < front.len() implies frame.display(
                    #[trigger] front[i],
                ) != frame.start + gap by {
                    assert(frame.display(samples[i]) <= frame.display(samples[samples.len() - 2]));
                }
                lemma_readings_count(front, frame, frame.start + gap, subject);
            }
            lemma_readings_count(front, frame, display as int, subject);
            assert forall|i: int| 0 <= i < plot.bins.len() implies {
                let readings = readings_in(samples, frame, frame.start + i, subject);
                &&& (#[trigger] plot.bins[i]).sum == crate::binary64::added_to(
                    Binary64 { bits: 0 },
                    readings,
                )
                &&& plot.bins[i].count == readings.len()
                &&& plot.bins[i].force_gap ==> readings.len() == 0 && frame.start + i
                    < frame.display(samples.last())
            } by {
                let readings = readings_in(samples, frame, frame.start + i, subject);
                let earlier = readings_in(front, frame, frame.start + i, subject);
                let bin = before.bins[i];
                if i == at {
                    assert(readings.drop_last() =~= earlier);
                    assert(!bin.force_gap);
                    assert(plot.bins[i] == bin.with(reading(sample, subject)));
                } else {
                    assert(readings == earlier);
                }
            }
        }
    }
}

/// In a tier that runs on without a marked gap, each column is the average of the samples that
/// fall into it, and is empty where none does.
pub proof fn law_columns_are_averages(
    tier: Seq<TierSampleModel>,
    range: ArchiveGraphRange,
    points: nat,
    subject: Subject,
    i: int,
)
    requires
        tier.len() > 0,
        points <= u64::MAX,
        runs_on(tier, frame_of(tier, range, points)),
        frame_of(tier, range, points).display(tier.last()) < u64::MAX,
        0 <= i < points,
    ensures
        graph(tier, range, points, subject).len() == points,
        graph(tier, range, points, subject)[i] == mean(
            readings_in(
                tier,
                frame_of(tier, range, points),
                frame_of(tier, range, points).start + i,
                subject,
            ),
        ),
{
    let frame = frame_of(tier, range, points);
    assert forall|j: int| 0 <= j < tier.len() implies frame.display(#[trigger] tier[j])
        < frame.end by {
        assert(frame.display(tier[j]) <= frame.display(tier[tier.len() - 1]));
    }
    lemma_means(tier, frame, subject);
}

/// Frames of the same range and number of columns sort samples alike.
proof fn lemma_readings_frame(
    samples: Seq<TierSampleModel>,
    a: Frame,
    b: Frame,
    column: int,
    subject: Subject,
)
    requires
        a.range == b.range,
        a.points == b.points,
    ensures
        readings_in(samples, a, column, subject) == readings_in(samples, b, column, subject),
    decreases samples.len(),
{
    if samples.len() > 0 {
        lemma_readings_frame(samples.drop_last(), a, b, column, subject);
    }
}

/// A sample that opens the next column shifts the graph by one and leaves all that was closed as
/// it was.
pub proof fn law_next_column_only_shifts(
    tier: Seq<TierSampleModel>,
    sample: TierSampleModel,
    range: ArchiveGraphRange,
    points: nat,
    subject: Subject,
    i: int,
)
    requires
        tier.len() > 0,
        points <= u64::MAX,
        runs_on(tier.push(sample), frame_of(tier, range, points)),
        frame_of(tier, range, points).end >= points,
        frame_of(tier, range, points).end < u64::MAX,
        frame_of(tier, range, points).display(sample) == frame_of(tier, range, points).end,
        0 <= i < points - 1,
    ensures
        graph(tier.push(sample), range, points, subject)[i] == graph(
            tier,
            range,
            points,
            subject,
        )[i + 1],
{
    let more = tier.push(sample);
    let frame = frame_of(tier, range, points);
    let next = frame_of(more, range, points);
    assert(more.last() == sample);
    assert(next.start == frame.start + 1);
    lemma_runs_on_front(more, frame);
    assert(more.drop_last() =~= tier);
    lemma_runs_on_frame(more, frame, next);
    law_columns_are_averages(tier, range, points, subject, i + 1);
    law_columns_are_averages(more, range, points, subject, i);
    let column = next.start + i;
    lemma_readings_frame(tier, frame, next, column, subject);
    assert(readings_in(more, next, column, subject) == readings_in(tier, next, column, subject));
}

proof fn lemma_runs_on_front(samples: Seq<TierSampleModel>, frame: Frame)
    requires
        samples.len() > 0,
        runs_on(samples, frame),
    ensures
        runs_on(samples.drop_last(), frame),
{
    let front = samples.drop_last();
    assert forall|i: int, j: int| 0 <= i <= j < front.len() implies frame.display(
        #[trigger] front[i],
    ) <= frame.display(#[trigger] front[j]) by {
        assert(frame.display(samples[i]) <= frame.display(samples[j]));
    }
    assert forall|i: int| 0 <= i < front.len() implies !(#[trigger] front[i]).gap_before by {
        assert(!samples[i].gap_before);
    }
}

proof fn lemma_runs_on_frame(samples: Seq<TierSampleModel>, a: Frame, b: Frame)
    requires
        runs_on(samples, a),
        a.range == b.range,
        a.points == b.points,
    ensures
        runs_on(samples, b),
{
    assert forall|i: int, j: int| 0 <= i <= j < samples.len() implies b.display(
        #[trigger] samples[i],
    ) <= b.display(#[trigger] samples[j]) by {
        assert(a.display(samples[i]) <= a.display(samples[j]));
    }
}

/// A sample in the newest column changes no other one, whatever gaps lie before it.
pub proof fn law_closed_columns_stay(
    tier: Seq<TierSampleModel>,
    sample: TierSampleModel,
    range: ArchiveGraphRange,
    points: nat,
    subject: Subject,
)
    requires
        tier.len() > 0,
        0 < points <= u64::MAX,
        !sample.gap_before,
        frame_of(tier, range, points).display(sample) == frame_of(tier, range, points).display(
            tier.last(),
        ),
        frame_of(tier, range, points).display(sample) < u64::MAX,
    ensures
        exists|newest: int|
            0 <= newest < points && #[trigger] alike_but(
                graph(tier, range, points, subject),
                graph(tier.push(sample), range, points, subject),
                newest,
            ),
{
    let more = tier.push(sample);
    let frame = frame_of(tier, range, points);
    assert(more.last() == sample);
    assert(frame_of(more, range, points) == frame);
    assert(more.drop_last() =~= tier);
    let before = plotted(tier, frame, subject);
    lemma_plot(tier, frame, subject);
    lemma_plot(more, frame, subject);
    assert(frame.shows(tier.last()));
    let newest = (before.last->0).1;
    assert(before.last == Some((frame.display(tier.last()), newest)));
    let at = frame.display(sample) - frame.start;
    assert(before.aim(at) == newest);
    assert(alike_but(
        graph(tier, range, points, subject),
        graph(more, range, points, subject),
        newest,
    ));
}

/// Whether two graphs have the same columns but for one.
pub open spec fn alike_but(
    a: Seq<Option<Binary64>>,
    b: Seq<Option<Binary64>>,
    column: int,
) -> bool {
    a.len() == b.len() && forall|i: int|
        0 <= i < a.len() && i != column ==> #[trigger] a[i] == b[i]
}

pub proof fn lemma_gaps_last(
    samples: Seq<TierSampleModel>,
    frame: Frame,
    subject: Subject,
    n: int,
    i: int,
)
    requires
        0 <= n <= samples.len(),
        frame.end <= frame.start + frame.points,
        0 <= i < frame.points,
        plotted(samples.take(n), frame, subject).bins[i].force_gap,
    ensures
        plotted(samples, frame, subject).bins[i].force_gap,
    decreases samples.len() - n,
{
    if n == samples.len() {
        assert(samples.take(n) =~= samples);
    } else {
        lemma_plot(samples.take(n), frame, subject);
        assert(samples.take(n + 1).drop_last() =~= samples.take(n));
        lemma_gaps_last(samples, frame, subject, n + 1, i);
    }
}

/// A gap before a sample that is shown behind another one leaves a column empty.
pub proof fn law_gap_shows(
    tier: Seq<TierSampleModel>,
    range: ArchiveGraphRange,
    points: nat,
    subject: Subject,
    n: int,
)
    requires
        0 <= n < tier.len(),
        0 < points <= u64::MAX,
        tier[n].gap_before,
        frame_of(tier, range, points).shows(tier[n]),
        plotted(tier.take(n), frame_of(tier, range, points), subject).last is Some,
    ensures
        exists|i: int|
            0 <= i < points && #[trigger] graph(tier, range, points, subject)[i] is None,
{
    let frame = frame_of(tier, range, points);
    let before = plotted(tier.take(n), frame, subject);
    lemma_plot(tier.take(n), frame, subject);
    lemma_plot(tier, frame, subject);
    let at = frame.display(tier[n]) - frame.start;
    let gap = before.gap_column(at);
    assert(tier.take(n + 1).drop_last() =~= tier.take(n));
    assert(tier.take(n + 1).last() == tier[n]);
    let after = plotted(tier.take(n + 1), frame, subject);
    assert(before.breaks(tier[n], frame.display(tier[n])));
    assert(after.bins[gap].force_gap);
    lemma_gaps_last(tier, frame, subject, n + 1, gap);
    assert(graph(tier, range, points, subject)[gap] is None);
}

/// A later bucket is in the same column or a later one.
pub proof fn law_columns_follow_time(
    earlier: u64,
    later: u64,
    bucket_secs: u64,
    window_secs: u64,
    bins: nat,
)
    requires
        earlier <= later,
    ensures
        display_bucket(earlier, bucket_secs, window_secs, bins) <= display_bucket(
            later,
            bucket_secs,
            window_secs,
            bins,
        ),
{
    if bins > 0 && window_secs > 0 {
        let a: int = (2 * earlier + bucket_secs) * bins;
        let b: int = (2 * later + bucket_secs) * bins;
        assert(a <= b) by (nonlinear_arith)
            requires
                a == (2 * earlier + bucket_secs) * bins,
                b == (2 * later + bucket_secs) * bins,
                earlier <= later,
        ;
        assert(a >= 0) by (nonlinear_arith)
            requires
                a == (2 * earlier + bucket_secs) * bins,
        ;
        let x: int = if a > u128::MAX {
            u128::MAX as int
        } else {
            a
        };
        let y: int = if b > u128::MAX {
            u128::MAX as int
        } else {
            b
        };
        vstd::arithmetic::div_mod::lemma_div_is_ordered(x, y, 2 * window_secs as int);
        vstd::arithmetic::div_mod::lemma_div_pos_is_pos(x, 2 * window_secs as int);
    }
}

/// Buckets in the order of time, none of them marked as behind a gap, run on in every graph.
pub proof fn law_ordered_buckets_run_on(tier: Seq<TierSampleModel>, frame: Frame)
    requires
        crate::persistence::in_time_order(tier),
        tier.len() <= u32::MAX,
        forall|i: int| 0 <= i < tier.len() ==> !(#[trigger] tier[i]).gap_before,
    ensures
        runs_on(tier, frame),
{
    assert forall|i: int, j: int| 0 <= i <= j < tier.len() implies frame.display(
        #[trigger] tier[i],
    ) <= frame.display(#[trigger] tier[j]) by {
        law_columns_follow_time(
            tier[i].bucket_start_secs,
            tier[j].bucket_start_secs,
            frame.range.bucket(),
            frame.range.window(),
            frame.points,
        );
    }
}

} // verus!
