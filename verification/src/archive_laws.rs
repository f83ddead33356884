//! What holds of the archive's graphs as a whole.
use vstd::prelude::*;

use crate::archive_query::{ArchiveGraphRange, Frame, Subject};
use crate::binary64::Binary64;
use crate::history::PidKeyModel;
use crate::persistence::{ArchiveStateModel, ArchivedProcessPowerModel, TierSampleModel};

verus! {

/// The seconds that a graph reaches back: half an hour, three hours or twelve.
pub open spec fn reach_secs(range: ArchiveGraphRange) -> int {
    match range {
        ArchiveGraphRange::Minutes30 => 1_800,
        ArchiveGraphRange::Hours3 => 10_800,
        ArchiveGraphRange::Hours12 => 43_200,
    }
}

/// The seconds that one bucket of a range stands for.
pub open spec fn grain_secs(range: ArchiveGraphRange) -> int {
    match range {
        ArchiveGraphRange::Minutes30 => 2,
        ArchiveGraphRange::Hours3 => 10,
        ArchiveGraphRange::Hours12 => 60,
    }
}

/// Whether the middle of a bucket falls into a column, of which `points` together stand for as long
/// as the graph reaches back.
pub open spec fn falls_into(
    start_secs: u64,
    range: ArchiveGraphRange,
    points: nat,
    column: int,
) -> bool {
    column * (2 * reach_secs(range)) <= (2 * start_secs + grain_secs(range)) * points < (column + 1)
        * (2 * reach_secs(range))
}

/// Whether the columns up to a bucket can be counted.
pub open spec fn countable(start_secs: u64, points: nat) -> bool {
    (start_secs + 60) * points <= u64::MAX
}

proof fn lemma_column(start_secs: u64, range: ArchiveGraphRange, points: nat, column: int)
    requires
        points > 0,
        countable(start_secs, points),
    ensures
        falls_into(start_secs, range, points, column) <==> column
            == crate::archive_query::display_bucket(
            start_secs,
            range.bucket(),
            range.window(),
            points,
        ),
        crate::archive_query::display_bucket(start_secs, range.bucket(), range.window(), points)
            < u64::MAX,
{
    let exact: int = (2 * start_secs + grain_secs(range)) * points;
    let per: int = 2 * reach_secs(range);
    assert(0 <= exact <= 2 * ((start_secs + 60) * points)) by (nonlinear_arith)
        requires
            exact == (2 * start_secs + grain_secs(range)) * points,
            2 <= grain_secs(range) <= 60,
    ;
    let at: int = exact / per;
    vstd::arithmetic::div_mod::lemma_fundamental_div_mod(exact, per);
    assert(at * per == per * at && (at + 1) * per == per * at + per) by (nonlinear_arith);
    assert(at < u64::MAX && at >= 0) by (nonlinear_arith)
        requires
            0 <= exact <= 2 * u64::MAX,
            per * at <= exact,
            exact < (at + 1) * per,
            per >= 3_600,
    ;
    if falls_into(start_secs, range, points, column) {
        assert(column == at) by (nonlinear_arith)
            requires
                column * per <= exact < (column + 1) * per,
                at * per <= exact < (at + 1) * per,
                per > 0,
        ;
    }
}

/// Whether a tier's buckets are in the order of time, none behind a marked gap.
pub open spec fn runs_through(tier: Seq<TierSampleModel>, points: nat) -> bool {
    &&& 0 < tier.len() <= u32::MAX
    &&& 0 < points <= u64::MAX
    &&& countable(tier.last().bucket_start_secs, points)
    &&& forall|i: int| 0 <= i < tier.len() ==> !(#[trigger] tier[i]).gap_before
    &&& forall|i: int, j: int|
        0 <= i <= j < tier.len() ==> (#[trigger] tier[i]).bucket_start_secs <= (
        #[trigger] tier[j]).bucket_start_secs
}

proof fn lemma_countable(tier: Seq<TierSampleModel>, points: nat, i: int)
    requires
        runs_through(tier, points),
        0 <= i < tier.len(),
    ensures
        countable(tier[i].bucket_start_secs, points),
{
    let last: u64 = tier[tier.len() - 1].bucket_start_secs;
    let here: u64 = tier[i].bucket_start_secs;
    assert(here <= last);
    assert((here + 60) * points <= (last + 60) * points) by (nonlinear_arith)
        requires
            here <= last,
            points >= 0,
    ;
}

/// What a process draws in a bucket is what stands first under its number and name, and nothing where
/// nothing stands under both.
pub proof fn law_a_process_is_found_by_number_and_name(
    processes: Seq<ArchivedProcessPowerModel>,
    key: PidKeyModel,
)
    ensures
        match crate::archive_query::process_sum(processes, key) {
            Some(power) => exists|i: int|
                0 <= i < processes.len() && #[trigger] processes[i] == (ArchivedProcessPowerModel {
                    pid: key.pid,
                    process: key.process,
                    power_sum: power,
                }) && forall|j: int|
                    0 <= j < i ==> (#[trigger] processes[j]).pid != key.pid || processes[j].process
                        != key.process,
            None => forall|j: int|
                0 <= j < processes.len() ==> (#[trigger] processes[j]).pid != key.pid
                    || processes[j].process != key.process,
        },
    decreases processes.len(),
{
    if processes.len() > 0 && !(processes[0].pid == key.pid && processes[0].process
        == key.process) {
        let rest = processes.skip(1);
        law_a_process_is_found_by_number_and_name(rest, key);
        match crate::archive_query::process_sum(processes, key) {
            Some(power) => {
                let i = choose|i: int|
                    0 <= i < rest.len() && #[trigger] rest[i] == (ArchivedProcessPowerModel {
                        pid: key.pid,
                        process: key.process,
                        power_sum: power,
                    }) && forall|j: int|
                        0 <= j < i ==> (#[trigger] rest[j]).pid != key.pid || rest[j].process
                            != key.process;
                assert(processes[i + 1] == rest[i]);
                assert forall|j: int| 0 <= j < i + 1 implies (#[trigger] processes[j]).pid
                    != key.pid || processes[j].process != key.process by {
                    if j > 0 {
                        assert(rest[j - 1] == processes[j]);
                    }
                }
            },
            None => {
                assert forall|j: int| 0 <= j < processes.len() implies (
                #[trigger] processes[j]).pid != key.pid || processes[j].process != key.process by {
                    if j > 0 {
                        assert(rest[j - 1] == processes[j]);
                    }
                }
            },
        }
    } else if processes.len() > 0 {
        assert(processes[0] == (ArchivedProcessPowerModel {
            pid: key.pid,
            process: key.process,
            power_sum: processes[0].power_sum,
        }));
    }
}

/// What a bucket shows is the average of its samples: of all power, or of what a process has.
pub proof fn law_buckets_show_their_average(sample: TierSampleModel, key: PidKeyModel)
    ensures
        sample.sample_count > 0 ==> crate::archive_query::reading(sample, Subject::Total)
            == sample.total_power_sum.quotient(Binary64::whole(sample.sample_count as nat)),
        sample.sample_count > 0 ==> crate::archive_query::reading(sample, Subject::Process(key))
            == match crate::archive_query::process_sum(sample.processes, key) {
            Some(power) => power.quotient(Binary64::whole(sample.sample_count as nat)),
            None => Binary64 { bits: 0 },
        },
        sample.sample_count == 0 ==> crate::archive_query::reading(sample, Subject::Total) == (
        Binary64 { bits: 0 }) && crate::archive_query::reading(sample, Subject::Process(key)) == (
        Binary64 { bits: 0 }),
{
}

/// What the buckets in one column show, in their order.
pub open spec fn shown_in(
    tier: Seq<TierSampleModel>,
    range: ArchiveGraphRange,
    points: nat,
    column: int,
    subject: Subject,
) -> Seq<Binary64>
    decreases tier.len(),
{
    if tier.len() == 0 {
        Seq::empty()
    } else {
        let before = shown_in(tier.drop_last(), range, points, column, subject);
        if falls_into(tier.last().bucket_start_secs, range, points, column) {
            before.push(crate::archive_query::reading(tier.last(), subject))
        } else {
            before
        }
    }
}

proof fn lemma_shown_in(
    tier: Seq<TierSampleModel>,
    frame: Frame,
    column: int,
    subject: Subject,
)
    requires
        frame.points > 0,
        forall|i: int|
            0 <= i < tier.len() ==> countable(
                (#[trigger] tier[i]).bucket_start_secs,
                frame.points,
            ),
    ensures
        shown_in(tier, frame.range, frame.points, column, subject)
            == crate::archive_query::readings_in(tier, frame, column, subject),
    decreases tier.len(),
{
    if tier.len() > 0 {
        let front = tier.drop_last();
        assert forall|i: int| 0 <= i < front.len() implies countable(
            (#[trigger] front[i]).bucket_start_secs,
            frame.points,
        ) by {
            assert(front[i] == tier[i]);
        }
        lemma_shown_in(front, frame, column, subject);
        assert(countable(tier[tier.len() - 1].bucket_start_secs, frame.points));
        lemma_column(tier.last().bucket_start_secs, frame.range, frame.points, column);
    }
}

/// The columns of a graph together stand for as long as it reaches back, and end with that of the
/// newest bucket. Each is the average of what the buckets show whose middle falls into it, added up
/// from zero, and is empty where there is none.
pub proof fn law_columns_stand_for_stretches_of_time(
    tier: Seq<TierSampleModel>,
    range: ArchiveGraphRange,
    points: nat,
    subject: Subject,
    newest: int,
    column: int,
)
    requires
        runs_through(tier, points),
        falls_into(tier.last().bucket_start_secs, range, points, newest),
        newest - points < column <= newest,
        column >= 0,
    ensures
        ({
            let graph = crate::archive_query::graph(tier, range, points, subject);
            let first = if newest + 1 >= points {
                newest + 1 - points
            } else {
                0
            };
            let shown = shown_in(tier, range, points, column, subject);
            &&& graph.len() == points
            &&& graph[column - first] == if shown.len() == 0 {
                None
            } else {
                Some(
                    crate::binary64::added_to(Binary64 { bits: 0 }, shown).quotient(
                        Binary64::whole(shown.len()),
                    ),
                )
            }
        }),
{
    let frame = crate::archive_query::frame_of(tier, range, points);
    lemma_column(tier.last().bucket_start_secs, range, points, newest);
    assert(crate::persistence::in_time_order(tier));
    crate::archive_query::law_ordered_buckets_run_on(tier, frame);
    crate::archive_query::law_columns_are_averages(
        tier,
        range,
        points,
        subject,
        column - frame.start,
    );
    assert forall|i: int| 0 <= i < tier.len() implies countable(
        (#[trigger] tier[i]).bucket_start_secs,
        points,
    ) by {
        lemma_countable(tier, points, i);
    }
    lemma_shown_in(tier, frame, column, subject);
}

/// A bucket less old than the graph reaches back, by a column or more, is in one of its columns, and
/// one that is as old or older is in none.
pub proof fn law_graphs_reach_back_as_far_as_they_say(
    tier: Seq<TierSampleModel>,
    range: ArchiveGraphRange,
    points: nat,
    i: int,
)
    requires
        runs_through(tier, points),
        0 <= i < tier.len(),
    ensures
        ({
            let age = tier.last().bucket_start_secs - tier[i].bucket_start_secs;
            let frame = crate::archive_query::frame_of(tier, range, points);
            &&& age * points + reach_secs(range) <= reach_secs(range) * points ==> frame.shows(
                tier[i],
            )
            &&& age >= reach_secs(range) ==> !frame.shows(tier[i])
        }),
{
    let frame = crate::archive_query::frame_of(tier, range, points);
    let last: u64 = tier.last().bucket_start_secs;
    let here: u64 = tier[i].bucket_start_secs;
    assert(here <= tier[tier.len() - 1].bucket_start_secs);
    lemma_countable(tier, points, i);
    let a: int = frame.display(tier[i]) as int;
    let b: int = frame.display(tier.last()) as int;
    lemma_column(here, range, points, a);
    lemma_column(last, range, points, b);
    let per: int = 2 * reach_secs(range);
    let g: int = grain_secs(range);
    let age: int = last - here;
    let x: int = (2 * here + g) * points;
    let y: int = (2 * last + g) * points;
    assert(y - x == 2 * (age * points)) by (nonlinear_arith)
        requires
            age == last - here,
            x == (2 * here + g) * points,
            y == (2 * last + g) * points,
    ;
    assert(a * per == per * a && (a + 1) * per == per * a + per && b * per == per * b && (b + 1)
        * per == per * b + per) by (nonlinear_arith);
    assert(per * points == 2 * (reach_secs(range) * points)) by (nonlinear_arith)
        requires
            per == 2 * reach_secs(range),
    ;
    crate::archive_query::law_columns_follow_time(
        here,
        last,
        range.bucket(),
        range.window(),
        points,
    );
    if age * points + reach_secs(range) <= reach_secs(range) * points {
        assert(per * (b - a) < per * points) by (nonlinear_arith)
            requires
                per * b <= y,
                x < per * a + per,
                y - x + per <= per * points,
        ;
        assert(b - a < points) by (nonlinear_arith)
            requires
                per * (b - a) < per * points,
                per > 0,
        ;
    }
    if age >= reach_secs(range) {
        assert(age * points >= reach_secs(range) * points) by (nonlinear_arith)
            requires
                age >= reach_secs(range),
        ;
        assert(per * (points - 1) < per * (b - a)) by (nonlinear_arith)
            requires
                y < per * b + per,
                per * a <= x,
                y - x >= per * points,
        ;
        assert(points - 1 < b - a) by (nonlinear_arith)
            requires
                per * (points - 1) < per * (b - a),
                per > 0,
        ;
    }
}

/// Buckets as old as the graph reaches back, or older, change nothing of it.
pub proof fn law_what_is_too_old_is_not_drawn(
    tier: Seq<TierSampleModel>,
    range: ArchiveGraphRange,
    points: nat,
    subject: Subject,
    n: int,
)
    requires
        runs_through(tier, points),
        0 <= n < tier.len(),
        forall|i: int|
            0 <= i < n ==> tier.last().bucket_start_secs - (#[trigger] tier[i]).bucket_start_secs
                >= reach_secs(range),
    ensures
        crate::archive_query::graph(tier, range, points, subject) == crate::archive_query::graph(
            tier.skip(n),
            range,
            points,
            subject,
        ),
{
    let frame = crate::archive_query::frame_of(tier, range, points);
    assert(tier.skip(n).last() == tier.last());
    assert forall|i: int| 0 <= i < n implies !frame.shows(#[trigger] tier[i]) by {
        law_graphs_reach_back_as_far_as_they_say(tier, range, points, i);
    }
    lemma_unseen(tier, frame, subject, n);
}

proof fn lemma_unseen(tier: Seq<TierSampleModel>, frame: Frame, subject: Subject, n: int)
    requires
        0 <= n <= tier.len(),
        forall|i: int| 0 <= i < n ==> !frame.shows(#[trigger] tier[i]),
    ensures
        crate::archive_query::plotted(tier, frame, subject) == crate::archive_query::plotted(
            tier.skip(n),
            frame,
            subject,
        ),
    decreases tier.len(),
{
    if n == tier.len() {
        assert(tier.skip(n) =~= Seq::empty());
        if tier.len() > 0 {
            assert(!frame.shows(tier[tier.len() - 1]));
            let front = tier.drop_last();
            assert forall|i: int| 0 <= i < n - 1 implies !frame.shows(#[trigger] front[i]) by {
                assert(front[i] == tier[i]);
            }
            lemma_unseen(front, frame, subject, n - 1);
            assert(front.skip(n - 1) =~= Seq::empty());
        }
    } else {
        let front = tier.drop_last();
        assert forall|i: int| 0 <= i < n implies !frame.shows(#[trigger] front[i]) by {
            assert(front[i] == tier[i]);
        }
        lemma_unseen(front, frame, subject, n);
        assert(tier.skip(n).drop_last() =~= front.skip(n));
        assert(tier.skip(n).last() == tier.last());
    }
}

/// The graph of a range is drawn from the tier whose buckets are as long as the range's: the shorter
/// the range, the finer.
pub proof fn law_ranges_are_drawn_from_their_tiers(archive: ArchiveStateModel)
    ensures
        ArchiveGraphRange::Minutes30.tier(archive) == archive.raw_2s,
        ArchiveGraphRange::Hours3.tier(archive) == archive.agg_10s,
        ArchiveGraphRange::Hours12.tier(archive) == archive.agg_60s,
{
}

/// Where a sample is behind a marked gap, a column is left empty, and the sample is not put into the
/// column of the one before it, unless that is the last.
pub proof fn law_gaps_part_samples(
    tier: Seq<TierSampleModel>,
    range: ArchiveGraphRange,
    points: nat,
    subject: Subject,
    n: int,
)
    requires
        0 <= n < tier.len(),
        0 < points <= u64::MAX,
        tier[n].gap_before,
        crate::archive_query::frame_of(tier, range, points).shows(tier[n]),
        crate::archive_query::plotted(
            tier.take(n),
            crate::archive_query::frame_of(tier, range, points),
            subject,
        ).last is Some,
    ensures
        ({
            let frame = crate::archive_query::frame_of(tier, range, points);
            let before = (crate::archive_query::plotted(tier.take(n), frame, subject).last->0).1;
            let after = (crate::archive_query::plotted(tier.take(n + 1), frame, subject).last->0).1;
            let graph = crate::archive_query::graph(tier, range, points, subject);
            &&& after > before || before == points - 1
            &&& graph.len() == points
            &&& exists|gap: int|
                0 <= gap < points && after - 2 <= gap <= after && #[trigger] graph[gap] is None
        }),
{
    let frame = crate::archive_query::frame_of(tier, range, points);
    crate::archive_query::lemma_plot(tier.take(n), frame, subject);
    crate::archive_query::lemma_plot(tier, frame, subject);
    let plot = crate::archive_query::plotted(tier.take(n), frame, subject);
    let at = frame.display(tier[n]) - frame.start;
    let gap = plot.gap_column(at);
    assert(tier.take(n + 1).drop_last() =~= tier.take(n));
    assert(tier.take(n + 1).last() == tier[n]);
    let later = crate::archive_query::plotted(tier.take(n + 1), frame, subject);
    assert(plot.breaks(tier[n], frame.display(tier[n])));
    assert(later.bins[gap].force_gap);
    crate::archive_query::lemma_gaps_last(tier, frame, subject, n + 1, gap);
    assert(crate::archive_query::graph(tier, range, points, subject)[gap] is None);
}


/// How many samples have fallen into some columns together.
pub open spec fn counted(bins: Seq<crate::archive_query::GraphBin>) -> nat
    decreases bins.len(),
{
    if bins.len() == 0 {
        0
    } else {
        counted(bins.drop_last()) + bins.last().count as nat
    }
}

/// How many buckets of a tier a graph shows.
pub open spec fn shown_count(tier: Seq<TierSampleModel>, frame: Frame) -> nat
    decreases tier.len(),
{
    if tier.len() == 0 {
        0
    } else {
        shown_count(tier.drop_last(), frame) + if frame.shows(tier.last()) {
            1nat
        } else {
            0
        }
    }
}

proof fn lemma_counted_update(
    bins: Seq<crate::archive_query::GraphBin>,
    at: int,
    bin: crate::archive_query::GraphBin,
)
    requires
        0 <= at < bins.len(),
    ensures
        counted(bins.update(at, bin)) == counted(bins) - bins[at].count + bin.count,
    decreases bins.len(),
{
    let after = bins.update(at, bin);
    if at == bins.len() - 1 {
        assert(after.drop_last() =~= bins.drop_last());
    } else {
        lemma_counted_update(bins.drop_last(), at, bin);
        assert(after.drop_last() =~= bins.drop_last().update(at, bin));
    }
}

proof fn lemma_counted_blank(n: nat)
    ensures
        counted(crate::archive_query::Plot::blank(n).bins) == 0,
    decreases n,
{
    let bins = crate::archive_query::Plot::blank(n).bins;
    if n > 0 {
        lemma_counted_blank((n - 1) as nat);
        assert(bins.drop_last() =~= crate::archive_query::Plot::blank((n - 1) as nat).bins);
    }
}

proof fn lemma_one_count(bins: Seq<crate::archive_query::GraphBin>, at: int)
    requires
        0 <= at < bins.len(),
    ensures
        bins[at].count <= counted(bins),
    decreases bins.len(),
{
    if at < bins.len() - 1 {
        lemma_one_count(bins.drop_last(), at);
    }
}

/// Every bucket that a graph shows is counted in one column, whatever gaps lie between them.
pub proof fn law_no_sample_is_lost(
    tier: Seq<TierSampleModel>,
    frame: Frame,
    subject: Subject,
)
    requires
        frame.end <= frame.start + frame.points,
        tier.len() < u32::MAX,
    ensures
        counted(crate::archive_query::plotted(tier, frame, subject).bins) == shown_count(
            tier,
            frame,
        ),
        shown_count(tier, frame) <= tier.len(),
    decreases tier.len(),
{
    if tier.len() == 0 {
        lemma_counted_blank(frame.points);
    } else {
        let front = tier.drop_last();
        law_no_sample_is_lost(front, frame, subject);
        crate::archive_query::lemma_plot(front, frame, subject);
        let plot = crate::archive_query::plotted(front, frame, subject);
        let sample = tier.last();
        if frame.shows(sample) {
            let display = frame.display(sample);
            let at = display - frame.start;
            let gap = plot.gap_column(at);
            let marked = crate::archive_query::GraphBin { force_gap: true, ..plot.bins[gap] };
            let bins = if plot.breaks(sample, display) {
                lemma_counted_update(plot.bins, gap, marked);
                plot.bins.update(gap, marked)
            } else {
                plot.bins
            };
            let target = plot.target(sample, display, at);
            lemma_one_count(bins, target);
            lemma_counted_update(
                bins,
                target,
                bins[target].with(crate::archive_query::reading(sample, subject)),
            );
        }
    }
}

/// A column with samples shows their average, unless it marks a gap.
pub proof fn law_columns_show_their_average(bin: crate::archive_query::GraphBin)
    ensures
        bin.column() == if bin.force_gap || bin.count == 0 {
            None
        } else {
            Some(bin.sum.quotient(Binary64::whole(bin.count as nat)))
        },
{
}

} // verus!
