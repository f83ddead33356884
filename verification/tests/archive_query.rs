use std::collections::VecDeque;

use etop::archive_query::{
    display_bucket_for_sample, graph_samples_for_range, pid_graph_samples_for_range,
    ArchiveGraphRange,
};
use etop::binary64::Binary64;
use etop::history::PidKey;
use etop::persistence::{ArchiveState, ArchivedProcessPower, TierSample};

fn b(x: f64) -> Binary64 {
    Binary64::from_bits(x.to_bits())
}

fn floats(samples: Vec<Option<Binary64>>) -> Vec<Option<f64>> {
    samples
        .into_iter()
        .map(|value| value.map(|value| f64::from_bits(value.bits)))
        .collect()
}

fn bucket(start: u64, count: u32, total: f64, gap_before: bool) -> TierSample {
    TierSample {
        bucket_start_secs: start,
        sample_count: count,
        total_power_sum: b(total),
        groups: Vec::new(),
        processes: Vec::new(),
        gap_before,
    }
}

fn power(pid: i32, process: &str, power_sum: f64) -> ArchivedProcessPower {
    ArchivedProcessPower {
        pid,
        process: process.to_string(),
        power_sum: b(power_sum),
    }
}

#[test]
fn graph_samples_for_range_uses_averages_across_full_window() {
    let archive = ArchiveState {
        raw_2s: VecDeque::from(vec![bucket(10, 2, 20.0, false), bucket(1_700, 1, 30.0, false)]),
        ..ArchiveState::default()
    };

    let samples = floats(graph_samples_for_range(&archive, ArchiveGraphRange::Minutes30, 3));

    assert_eq!(samples.len(), 6);
    assert_eq!(samples[0], Some(10.0));
    assert_eq!(samples[5], Some(30.0));
    assert!(samples[1..5].iter().all(|value| value.is_none()));
}

#[test]
fn graph_samples_for_range_preserves_discontinuity_with_gap_bin() {
    let archive = ArchiveState {
        agg_10s: VecDeque::from(vec![bucket(100, 1, 10.0, false), bucket(100, 1, 12.0, true)]),
        ..ArchiveState::default()
    };

    let samples = floats(graph_samples_for_range(&archive, ArchiveGraphRange::Hours3, 4));

    assert_eq!(samples.len(), 8);
    assert_eq!(samples[0], None);
    assert_eq!(samples[1], Some(12.0));
}

#[test]
fn graph_samples_for_range_stays_anchored_to_latest_bucket_boundary() {
    let archive = ArchiveState {
        agg_10s: VecDeque::from(vec![
            bucket(10_770, 1, 10.0, false),
            bucket(10_790, 2, 30.0, false),
        ]),
        ..ArchiveState::default()
    };

    let samples_a = floats(graph_samples_for_range(&archive, ArchiveGraphRange::Hours3, 4));
    let samples_b = floats(graph_samples_for_range(&archive, ArchiveGraphRange::Hours3, 4));

    assert_eq!(samples_a, samples_b);
    assert_eq!(samples_a[7], Some(12.5));
}

#[test]
fn pid_graph_samples_for_range_uses_exact_pid_identity() {
    let mut first = bucket(10, 2, 20.0, false);
    first.processes = vec![power(10, "Safari", 12.0), power(20, "Mail", 8.0)];
    let mut second = bucket(1_700, 2, 30.0, false);
    second.processes = vec![power(20, "Mail", 4.0)];
    let archive = ArchiveState {
        raw_2s: VecDeque::from(vec![first, second]),
        ..ArchiveState::default()
    };

    let safari_key = PidKey::new(10, "Safari");
    let mail_key = PidKey::new(20, "Mail");
    let samples = floats(pid_graph_samples_for_range(
        &archive,
        ArchiveGraphRange::Minutes30,
        3,
        &safari_key,
    ));
    let mail_samples = floats(pid_graph_samples_for_range(
        &archive,
        ArchiveGraphRange::Minutes30,
        3,
        &mail_key,
    ));

    assert_eq!(samples.len(), 6);
    assert_eq!(samples[0], Some(6.0));
    assert!(samples[1..5].iter().all(|value| value.is_none()));
    assert_eq!(samples[5], Some(0.0));
    assert_eq!(mail_samples[0], Some(4.0));
    assert_eq!(mail_samples[5], Some(2.0));
}

#[test]
fn pid_graph_samples_for_range_preserves_real_discontinuity_gaps() {
    let mut first = bucket(100, 1, 10.0, false);
    first.processes = vec![power(10, "Safari", 7.0)];
    let mut second = bucket(100, 1, 12.0, true);
    second.processes = vec![power(10, "Safari", 9.0)];
    let archive = ArchiveState {
        agg_10s: VecDeque::from(vec![first, second]),
        ..ArchiveState::default()
    };

    let key = PidKey::new(10, "Safari");
    let samples = floats(pid_graph_samples_for_range(
        &archive,
        ArchiveGraphRange::Hours3,
        4,
        &key,
    ));

    assert_eq!(samples.len(), 8);
    assert_eq!(samples[0], None);
    assert_eq!(samples[1], Some(9.0));
}

#[test]
fn graph_samples_for_range_respects_explicit_gap_before_adjacent_bucket() {
    let archive = ArchiveState {
        agg_10s: VecDeque::from(vec![bucket(100, 1, 10.0, false), bucket(110, 1, 12.0, true)]),
        ..ArchiveState::default()
    };

    let samples = floats(graph_samples_for_range(&archive, ArchiveGraphRange::Hours3, 100));

    assert_eq!(samples[1], None);
    assert_eq!(samples[2], Some(12.0));
}

#[test]
fn graph_samples_for_range_keeps_closed_columns_stable_within_display_bucket() {
    let width = 90;
    let base = 1_800_000;

    let before = ArchiveState {
        raw_2s: VecDeque::from(vec![
            bucket(base + 90, 1, 4.0, false),
            bucket(base + 100, 1, 10.0, false),
            bucket(base + 102, 1, 20.0, false),
            bucket(base + 104, 1, 30.0, false),
        ]),
        ..ArchiveState::default()
    };

    let mut after = before.clone();
    after.raw_2s.push_back(bucket(base + 106, 1, 40.0, false));

    let before_samples =
        floats(graph_samples_for_range(&before, ArchiveGraphRange::Minutes30, width));
    let after_samples =
        floats(graph_samples_for_range(&after, ArchiveGraphRange::Minutes30, width));

    let diffs: Vec<usize> = before_samples
        .iter()
        .zip(after_samples.iter())
        .enumerate()
        .filter_map(|(idx, (before, after))| (before != after).then_some(idx))
        .collect();

    let current_idx = before_samples
        .iter()
        .rposition(|value| value.is_some())
        .expect("expected active display bucket");
    assert_eq!(diffs, vec![current_idx]);
}

#[test]
fn graph_samples_for_range_only_shifts_when_crossing_display_bucket_boundary() {
    let width = 90;
    let base = 1_800_000;

    let before = ArchiveState {
        raw_2s: VecDeque::from(vec![
            bucket(base + 90, 1, 4.0, false),
            bucket(base + 100, 1, 10.0, false),
            bucket(base + 102, 1, 20.0, false),
            bucket(base + 104, 1, 30.0, false),
            bucket(base + 106, 1, 40.0, false),
        ]),
        ..ArchiveState::default()
    };

    let mut after = before.clone();
    after.raw_2s.push_back(bucket(base + 110, 1, 50.0, false));

    let before_samples =
        floats(graph_samples_for_range(&before, ArchiveGraphRange::Minutes30, width));
    let after_samples =
        floats(graph_samples_for_range(&after, ArchiveGraphRange::Minutes30, width));

    assert_eq!(&after_samples[..after_samples.len() - 1], &before_samples[1..]);
}

#[test]
fn an_empty_archive_has_only_empty_columns() {
    let archive = ArchiveState::default();
    assert_eq!(
        floats(graph_samples_for_range(&archive, ArchiveGraphRange::Hours12, 2)),
        vec![None, None, None, None]
    );
    assert!(graph_samples_for_range(&archive, ArchiveGraphRange::Hours12, 0).is_empty());
    let one = ArchiveState {
        agg_60s: VecDeque::from(vec![bucket(600, 1, 3.0, false)]),
        ..ArchiveState::default()
    };
    assert!(graph_samples_for_range(&one, ArchiveGraphRange::Hours12, 0).is_empty());
}

#[test]
fn columns_are_averages_of_their_buckets() {
    let archive = ArchiveState {
        raw_2s: VecDeque::from(vec![
            bucket(36_000, 1, 1.0, false),
            bucket(36_002, 2, 8.0, false),
            bucket(36_004, 0, 9.0, false),
        ]),
        ..ArchiveState::default()
    };
    let samples = floats(graph_samples_for_range(&archive, ArchiveGraphRange::Minutes30, 5));
    assert_eq!(samples[9], Some(5.0 / 3.0));
}

#[test]
fn buckets_are_shown_by_their_middle() {
    assert_eq!(display_bucket_for_sample(99, 2, 100, 1), 1);
    assert_eq!(display_bucket_for_sample(98, 2, 100, 1), 0);
    assert_eq!(display_bucket_for_sample(7, 2, 100, 0), 0);
    assert_eq!(display_bucket_for_sample(7, 2, 0, 4), 0);
    assert_eq!(
        display_bucket_for_sample(u64::MAX, 2, 1, usize::MAX),
        u64::MAX
    );
}
