use std::collections::VecDeque;

use etop::binary64::Binary64;
use etop::codec::{
    encode_session_cache, save_session_cache, write_bool, write_f64, write_i32, write_len, write_string, write_u16,
    write_u32, write_u64, DecodeError, Field, CACHE_VERSION_V2,
};
use etop::decoder::{decode_session_cache, load_session_cache_for_startup};
use etop::persistence::{
    continuity_threshold_millis, continuity_threshold_secs, epoch_parts, merge_group_sums,
    normalize_group_sums, should_hydrate_live, to_epoch_millis, unix_time_millis_now,
    unix_time_secs_now, ArchiveState, ArchivedProcessPower, GroupPowerSum, Interval,
    LiveProcessSample, LiveSnapshot, SessionCache, TierSample, AGG_10S_CAPACITY, AGG_60S_CAPACITY,
    MAX_REASONABLE_PERSISTED_POWER_BITS, QUICK_HYDRATE_GAP_MULTIPLIER, RAW_2S_CAPACITY,
};

fn b(x: f64) -> Binary64 {
    Binary64::from_bits(x.to_bits())
}

fn f(x: Binary64) -> f64 {
    f64::from_bits(x.bits)
}

fn fs(values: &[Binary64]) -> Vec<f64> {
    values.iter().map(|value| f(*value)).collect()
}

fn group(name: &str, power: f64) -> (String, Binary64) {
    (name.to_string(), b(power))
}

fn live(pid: i32, process: &str, power: f64) -> LiveProcessSample {
    LiveProcessSample {
        pid,
        process: process.to_string(),
        power: b(power),
    }
}

fn bucket(start: u64, total: f64, groups: Vec<GroupPowerSum>) -> TierSample {
    TierSample {
        bucket_start_secs: start,
        sample_count: 1,
        total_power_sum: b(total),
        groups,
        processes: Vec::new(),
        gap_before: false,
    }
}

fn sum(name: &str, power_sum: f64) -> GroupPowerSum {
    GroupPowerSum {
        name: name.to_string(),
        power_sum: b(power_sum),
    }
}

fn encode_tier_v2(writer: &mut Vec<u8>, tier: &VecDeque<TierSample>) {
    write_len(writer, tier.len()).expect("length");
    for sample in tier {
        write_u64(writer, sample.bucket_start_secs);
        write_u32(writer, sample.sample_count);
        write_f64(writer, sample.total_power_sum);

        write_len(writer, sample.groups.len()).expect("length");
        for group in &sample.groups {
            write_string(writer, &group.name).expect("text");
            write_f64(writer, group.power_sum);
        }
    }
}

fn encode_session_cache_v2(cache: &SessionCache, writer: &mut Vec<u8>) {
    writer.extend_from_slice(b"ETOPCACH");
    write_u16(writer, CACHE_VERSION_V2);
    write_u64(writer, cache.saved_at_unix_millis);
    write_u64(writer, cache.last_tick);
    write_u64(writer, cache.archive.last_sample_unix_secs.unwrap_or(0));

    write_len(writer, cache.live_power_history.len()).expect("length");
    for value in &cache.live_power_history {
        write_f64(writer, *value);
    }

    write_len(writer, cache.live_snapshots.len()).expect("length");
    for snapshot in &cache.live_snapshots {
        write_u64(writer, snapshot.tick);
        write_len(writer, snapshot.samples.len()).expect("length");

        for sample in &snapshot.samples {
            write_i32(writer, sample.pid);
            write_string(writer, &sample.process).expect("text");
            write_f64(writer, sample.power);
        }
    }

    encode_tier_v2(writer, &cache.archive.raw_2s);
    encode_tier_v2(writer, &cache.archive.agg_10s);
    encode_tier_v2(writer, &cache.archive.agg_60s);
}

fn sample_cache() -> SessionCache {
    let mut archive = ArchiveState::default();
    archive.record_sample(
        100,
        6,
        b(10.0),
        &vec![group("Safari", 6.0), group("Mail", 4.0)],
    );
    archive.record_sample(
        102,
        6,
        b(8.0),
        &vec![group("Safari", 5.0), group("Slack", 3.0)],
    );

    SessionCache {
        saved_at_unix_millis: 123_456,
        last_tick: 42,
        live_power_history: vec![b(1.0), b(2.5), b(3.75)],
        live_snapshots: vec![
            LiveSnapshot {
                tick: 41,
                samples: vec![live(1, "Safari", 4.0), live(2, "Mail", 1.0)],
            },
            LiveSnapshot {
                tick: 42,
                samples: vec![live(1, "Safari", 5.0)],
            },
        ],
        archive,
    }
}

#[test]
fn session_cache_roundtrips_binary_format() {
    let cache = sample_cache();

    let mut bytes = Vec::new();
    encode_session_cache(&cache, &mut bytes).expect("encode should succeed");

    let decoded = decode_session_cache(bytes).expect("decode should succeed");
    assert_eq!(decoded, cache);
}

#[test]
fn session_cache_decodes_v2_binary_format_with_gap_flags_defaulted() {
    let cache = SessionCache {
        saved_at_unix_millis: 123_456,
        last_tick: 42,
        live_power_history: vec![b(1.0), b(2.5)],
        live_snapshots: vec![LiveSnapshot {
            tick: 42,
            samples: vec![live(1, "Safari", 5.0)],
        }],
        archive: ArchiveState {
            raw_2s: VecDeque::from(vec![
                bucket(100, 10.0, vec![sum("Safari", 10.0)]),
                bucket(108, 12.0, vec![sum("Safari", 12.0)]),
            ]),
            last_sample_unix_secs: Some(108),
            ..ArchiveState::default()
        },
    };

    let mut bytes = Vec::new();
    encode_session_cache_v2(&cache, &mut bytes);

    let decoded = decode_session_cache(bytes).expect("decode should succeed");
    assert_eq!(decoded, cache);
}

#[test]
fn archive_tiers_stay_bounded() {
    let mut archive = ArchiveState::default();

    for idx in 0..25_000_u64 {
        archive.record_sample(
            idx * 2,
            6,
            b((idx % 100) as f64),
            &vec![group("Safari", (idx % 10) as f64)],
        );
    }

    assert_eq!(archive.raw_2s.len(), RAW_2S_CAPACITY);
    assert_eq!(archive.agg_10s.len(), AGG_10S_CAPACITY);
    assert_eq!(archive.agg_60s.len(), AGG_60S_CAPACITY);

    assert!(
        archive
            .raw_2s
            .front()
            .map(|sample| sample.bucket_start_secs)
            .unwrap_or(0)
            > 0
    );
    assert!(
        archive
            .agg_10s
            .front()
            .map(|sample| sample.bucket_start_secs)
            .unwrap_or(0)
            > 0
    );
    assert!(
        archive
            .agg_60s
            .front()
            .map(|sample| sample.bucket_start_secs)
            .unwrap_or(0)
            > 0
    );
}

#[test]
fn archive_does_not_merge_same_10s_bucket_after_long_gap() {
    let mut archive = ArchiveState::default();
    let threshold = continuity_threshold_secs(Interval::from_secs(2));

    archive.record_sample(100, threshold, b(10.0), &vec![group("Safari", 10.0)]);
    archive.record_sample(108, threshold, b(12.0), &vec![group("Safari", 12.0)]);

    assert_eq!(archive.agg_10s.len(), 2);
    assert_eq!(archive.agg_10s[0].bucket_start_secs, 100);
    assert_eq!(archive.agg_10s[1].bucket_start_secs, 100);
    assert_eq!(archive.agg_10s[0].sample_count, 1);
    assert_eq!(archive.agg_10s[1].sample_count, 1);
    assert!(!archive.agg_10s[0].gap_before);
    assert!(archive.agg_10s[1].gap_before);
}

#[test]
fn archive_does_not_merge_same_60s_bucket_after_long_gap() {
    let mut archive = ArchiveState::default();
    let threshold = continuity_threshold_secs(Interval::from_secs(2));

    archive.record_sample(124, threshold, b(10.0), &vec![group("Safari", 10.0)]);
    archive.record_sample(136, threshold, b(12.0), &vec![group("Safari", 12.0)]);

    assert_eq!(archive.agg_60s.len(), 2);
    assert_eq!(archive.agg_60s[0].bucket_start_secs, 120);
    assert_eq!(archive.agg_60s[1].bucket_start_secs, 120);
    assert_eq!(archive.agg_60s[0].sample_count, 1);
    assert_eq!(archive.agg_60s[1].sample_count, 1);
    assert!(!archive.agg_60s[0].gap_before);
    assert!(archive.agg_60s[1].gap_before);
}

#[test]
fn archive_marks_gap_before_adjacent_bucket_after_long_gap() {
    let mut archive = ArchiveState::default();
    let threshold = continuity_threshold_secs(Interval::from_secs(2));

    archive.record_sample(100, threshold, b(10.0), &vec![group("Safari", 10.0)]);
    archive.record_sample(115, threshold, b(12.0), &vec![group("Safari", 12.0)]);

    assert_eq!(archive.agg_10s.len(), 2);
    assert_eq!(archive.agg_10s[0].bucket_start_secs, 100);
    assert_eq!(archive.agg_10s[1].bucket_start_secs, 110);
    assert!(!archive.agg_10s[0].gap_before);
    assert!(archive.agg_10s[1].gap_before);
}

#[test]
fn session_cache_sanitizes_implausible_live_and_archive_power_values() {
    let mut cache = SessionCache {
        saved_at_unix_millis: 123,
        last_tick: 2,
        live_power_history: vec![b(10.0), b(55_443_352.6)],
        live_snapshots: vec![
            LiveSnapshot {
                tick: 1,
                samples: vec![live(10, "Safari", 10.0)],
            },
            LiveSnapshot {
                tick: 2,
                samples: vec![live(336, "powerd", 55_443_258.0), live(20, "Mail", 4.6)],
            },
        ],
        archive: ArchiveState {
            raw_2s: VecDeque::from(vec![
                bucket(100, 10.0, Vec::new()),
                bucket(102, 55_443_352.6, Vec::new()),
            ]),
            ..ArchiveState::default()
        },
    };

    cache.sanitize_power_data(Binary64::from_bits(MAX_REASONABLE_PERSISTED_POWER_BITS));

    assert_eq!(fs(&cache.live_power_history), vec![10.0, 4.6]);
    assert_eq!(cache.live_snapshots[1].samples.len(), 1);
    assert_eq!(cache.live_snapshots[1].samples[0].process, "Mail");
    assert_eq!(cache.archive.raw_2s.len(), 1);
    assert_eq!(f(cache.archive.raw_2s[0].total_power_sum), 10.0);
}

#[test]
fn quick_gap_hydration_gate_respects_threshold() {
    let refresh = Interval::from_secs(2);
    let threshold = refresh.as_millis() as u64 * QUICK_HYDRATE_GAP_MULTIPLIER;

    assert!(should_hydrate_live(0, refresh));
    assert!(should_hydrate_live(threshold, refresh));
    assert!(!should_hydrate_live(threshold + 1, refresh));
}

#[test]
fn thresholds_stay_at_the_largest_number() {
    let short = Interval { secs: 1, subsec_nanos: 999_999_999 };
    assert_eq!(short.as_millis(), 1_999);
    assert_eq!(continuity_threshold_millis(short), 5_997);
    assert_eq!(continuity_threshold_secs(short), 6);
    let long = Interval::from_secs(u64::MAX);
    assert_eq!(continuity_threshold_millis(long), u64::MAX);
    assert_eq!(continuity_threshold_secs(long), u64::MAX / 1_000);
    assert_eq!(to_epoch_millis(12, 345), 12_345);
    assert_eq!(to_epoch_millis(u64::MAX / 1_000, 999), u64::MAX);
    assert_eq!(to_epoch_millis(u64::MAX, 0), u64::MAX);
}

#[test]
fn the_clock_runs() {
    let secs = unix_time_secs_now();
    let millis = unix_time_millis_now();
    assert!(secs > 1_600_000_000);
    assert!(millis / 1_000 >= secs && millis / 1_000 - secs < 60);
}

#[test]
fn groups_are_summed_in_the_order_of_their_names() {
    let groups = normalize_group_sums(&vec![
        group("b", 1.0),
        group("a", 2.0),
        group("b", 0.5),
        group("B", 3.0),
    ]);
    assert_eq!(groups, vec![sum("B", 3.0), sum("a", 2.0), sum("b", 1.5)]);

    let mut bucket = vec![sum("a", 1.0), sum("c", 1.0)];
    merge_group_sums(&mut bucket, &vec![sum("b", 5.0), sum("c", 2.0)]);
    assert_eq!(bucket, vec![sum("a", 1.0), sum("b", 5.0), sum("c", 3.0)]);

    let mut doubled = vec![sum("z", 1.0), sum("a", 1.0), sum("z", 4.0)];
    merge_group_sums(&mut doubled, &vec![sum("z", 2.0)]);
    assert_eq!(doubled, vec![sum("a", 1.0), sum("z", 6.0)]);
}

#[test]
fn samples_in_one_bucket_are_merged() {
    let mut archive = ArchiveState::default();
    archive.record_sample(100, 6, b(5.0), &vec![live(1, "a", 2.0), live(2, "a", 3.0)]);
    archive.record_sample(101, 6, b(6.0), &vec![live(2, "a", 4.0), live(3, "b", 2.0)]);

    assert_eq!(archive.raw_2s.len(), 1);
    let merged = &archive.raw_2s[0];
    assert_eq!(merged.sample_count, 2);
    assert_eq!(f(merged.total_power_sum), 11.0);
    assert_eq!(merged.groups, vec![sum("a", 9.0), sum("b", 2.0)]);
    let power = |pid: i32, process: &str, power_sum: f64| ArchivedProcessPower {
        pid,
        process: process.to_string(),
        power_sum: b(power_sum),
    };
    assert_eq!(
        merged.processes,
        vec![power(1, "a", 2.0), power(2, "a", 7.0), power(3, "b", 2.0)]
    );
    assert_eq!(archive.last_sample_unix_secs, Some(101));
    assert!(!archive.is_empty());
    assert!(ArchiveState::default().is_empty());
}

#[test]
fn unreasonable_groups_leave_a_bucket() {
    let mut archive = ArchiveState::default();
    let mut full = bucket(100, 30.0, vec![sum("a", 30.0), sum("b", -1.0), sum("c", f64::NAN)]);
    full.sample_count = 3;
    let mut empty = bucket(102, 1.0, Vec::new());
    empty.sample_count = 0;
    archive.raw_2s = VecDeque::from(vec![full, empty, bucket(104, f64::INFINITY, Vec::new())]);
    archive.sanitize_power_data(b(10.0));
    assert_eq!(archive.raw_2s.len(), 1);
    assert_eq!(archive.raw_2s[0].groups, vec![sum("a", 30.0)]);
}

#[test]
fn live_history_without_snapshots_is_filtered() {
    let mut cache = SessionCache::new();
    cache.live_power_history = vec![b(1.0), b(-1.0), b(f64::NAN), b(10_000.0), b(10_000.5)];
    cache.sanitize_power_data(Binary64::from_bits(MAX_REASONABLE_PERSISTED_POWER_BITS));
    assert_eq!(fs(&cache.live_power_history), vec![1.0, 10_000.0]);
}

#[test]
fn bounds_keep_the_newest() {
    let mut cache = sample_cache();
    cache.enforce_bounds(0);
    assert_eq!(fs(&cache.live_power_history), vec![3.75]);
    assert_eq!(cache.live_snapshots.len(), 1);
    assert_eq!(cache.live_snapshots[0].tick, 42);
}

#[test]
fn saving_trims_and_cleans() {
    let mut cache = SessionCache::new();
    cache.live_power_history = vec![b(2.0); 20_000];
    cache.archive.raw_2s = (0..1_000).map(|i| bucket(i * 2, 1.0, Vec::new())).collect();
    cache.prepare_for_saving();
    assert_eq!(cache.live_power_history.len(), 16_384);
    assert_eq!(cache.archive.raw_2s.len(), RAW_2S_CAPACITY);
    assert_eq!(cache.archive.raw_2s[0].bucket_start_secs, 200);
}

#[test]
fn saving_writes_the_prepared_cache() {
    let mut cache = sample_cache();
    cache.live_snapshots[0].samples.push(live(9, "powerd", 1.0e9));
    let saved = save_session_cache(&cache).expect("save should succeed");
    assert_eq!(cache.live_snapshots[0].samples.len(), 3);
    cache.prepare_for_saving();
    assert_eq!(cache.live_snapshots[0].samples.len(), 2);
    let mut bytes = Vec::new();
    encode_session_cache(&cache, &mut bytes).expect("encode should succeed");
    assert_eq!(saved, bytes);
}

#[test]
fn loading_tells_how_old_a_cache_is() {
    let cache = sample_cache();
    let mut bytes = Vec::new();
    encode_session_cache(&cache, &mut bytes).expect("encode should succeed");
    let recent = load_session_cache_for_startup(
        bytes.clone(),
        123_456 + 6_000,
        Interval::from_secs(2),
        240,
    )
    .expect("load should succeed");
    assert_eq!(recent.gap_millis, 6_000);
    assert!(recent.hydrate_live);
    assert_eq!(fs(&recent.cache.live_power_history), vec![5.0, 5.0]);
    let late =
        load_session_cache_for_startup(bytes.clone(), 200_000, Interval::from_secs(2), 240)
            .expect("load should succeed");
    assert!(!late.hydrate_live);
    let early = load_session_cache_for_startup(bytes, 0, Interval::from_secs(2), 240)
        .expect("load should succeed");
    assert_eq!(early.gap_millis, 0);
    assert!(early.hydrate_live);
}

#[test]
fn processes_are_not_written() {
    let mut cache = sample_cache();
    cache.archive.raw_2s[0].processes = vec![ArchivedProcessPower {
        pid: 1,
        process: "Safari".to_string(),
        power_sum: b(6.0),
    }];
    cache.archive.last_sample_unix_secs = Some(0);
    let mut bytes = Vec::new();
    encode_session_cache(&cache, &mut bytes).expect("encode should succeed");
    let decoded = decode_session_cache(bytes).expect("decode should succeed");
    assert!(decoded.archive.raw_2s[0].processes.is_empty());
    assert_eq!(decoded.archive.raw_2s[0].groups, cache.archive.raw_2s[0].groups);
    assert_eq!(decoded.archive.last_sample_unix_secs, None);
}

#[test]
fn bytes_have_the_lowest_first() {
    let mut bytes = Vec::new();
    write_u16(&mut bytes, 0x0102);
    write_u32(&mut bytes, 0x0304_0506);
    write_u64(&mut bytes, 0x0708_090a_0b0c_0d0e);
    write_i32(&mut bytes, -2);
    write_f64(&mut bytes, b(1.5));
    write_bool(&mut bytes, true);
    write_string(&mut bytes, "é").expect("text");
    let mut expected = Vec::new();
    expected.extend_from_slice(&0x0102_u16.to_le_bytes());
    expected.extend_from_slice(&0x0304_0506_u32.to_le_bytes());
    expected.extend_from_slice(&0x0708_090a_0b0c_0d0e_u64.to_le_bytes());
    expected.extend_from_slice(&(-2_i32).to_le_bytes());
    expected.extend_from_slice(&1.5_f64.to_le_bytes());
    expected.push(1);
    expected.extend_from_slice(&2_u32.to_le_bytes());
    expected.extend_from_slice("é".as_bytes());
    assert_eq!(bytes, expected);
}

fn header(version: u16) -> Vec<u8> {
    let mut bytes = b"ETOPCACH".to_vec();
    write_u16(&mut bytes, version);
    write_u64(&mut bytes, 1);
    write_u64(&mut bytes, 2);
    write_u64(&mut bytes, 3);
    bytes
}

#[test]
fn every_kind_of_bad_cache_is_named() {
    let err = decode_session_cache(b"ETOP".to_vec()).expect_err("short");
    assert_eq!(err, DecodeError::UnexpectedEnd);
    assert_eq!(err.message(), "failed to fill whole buffer");

    let err = decode_session_cache(b"NOTCACHE\x03\x00".to_vec()).expect_err("magic");
    assert_eq!(err, DecodeError::InvalidMagic);
    assert_eq!(err.message(), "invalid cache magic");

    let err = decode_session_cache(header(4)).expect_err("version");
    assert_eq!(err, DecodeError::UnsupportedVersion(4));
    assert_eq!(err.message(), "unsupported cache version: 4");

    let mut bytes = header(3);
    write_u32(&mut bytes, 16_385);
    let err = decode_session_cache(bytes).expect_err("length");
    assert_eq!(
        err,
        DecodeError::LengthExceedsMax {
            field: Field::LivePowerHistory,
            value: 16_385,
            max: 16_384
        }
    );
    assert_eq!(err.message(), "live power history length 16385 exceeds max 16384");

    let mut bytes = header(3);
    write_u32(&mut bytes, 0);
    write_u32(&mut bytes, 1);
    write_u64(&mut bytes, 9);
    write_u32(&mut bytes, 1);
    write_i32(&mut bytes, 7);
    write_u32(&mut bytes, 2);
    bytes.extend_from_slice(&[0xff, 0x41]);
    let err = decode_session_cache(bytes).expect_err("text");
    let expected = String::from_utf8(vec![0xff, 0x41]).expect_err("no text").to_string();
    assert_eq!(err, DecodeError::Utf8(expected.clone()));
    assert_eq!(err.message(), format!("utf8 error: {expected}"));

    let mut bytes = header(3);
    write_u32(&mut bytes, 0);
    write_u32(&mut bytes, 0);
    write_u32(&mut bytes, 1);
    write_u64(&mut bytes, 9);
    write_u32(&mut bytes, 1);
    write_f64(&mut bytes, b(1.0));
    write_u32(&mut bytes, 0);
    bytes.push(7);
    let err = decode_session_cache(bytes).expect_err("bool");
    assert_eq!(err, DecodeError::InvalidBool(7));
    assert_eq!(err.message(), "invalid bool value: 7");
}

#[test]
fn lengths_are_named_by_what_they_count() {
    assert_eq!(Field::LiveSnapshots.label(), "live snapshots");
    assert_eq!(Field::SnapshotRows.label(), "snapshot rows");
    assert_eq!(Field::TierSamples.label(), "tier samples");
    assert_eq!(Field::GroupedSamples.label(), "grouped samples");
    assert_eq!(Field::Text.label(), "string");
    let mut bytes = Vec::new();
    let refused = write_len(&mut bytes, u32::MAX as usize + 1).expect_err("too long");
    assert_eq!(refused.message(), "length exceeds u32");
    assert!(bytes.is_empty());
}

#[test]
fn merging_into_names_out_of_order_adds_to_each() {
    let mut bucket = vec![sum("z", 1.0), sum("a", 2.0), sum("m", 3.0)];
    merge_group_sums(&mut bucket, &vec![sum("m", 0.5), sum("b", 4.0), sum("m", 0.25)]);
    let expected = vec![sum("a", 2.0), sum("b", 4.0), sum("m", 3.75), sum("z", 1.0)];
    assert_eq!(bucket, expected);
}

#[test]
fn clock_before_the_epoch_counts_as_zero() {
    assert_eq!(epoch_parts(None), (0, 0));
    assert_eq!(epoch_parts(Some((1_700_000_000, 999))), (1_700_000_000, 999));
}
