use std::collections::VecDeque;

use etop::app_state::App;
use etop::archive_query::{display_bucket_for_sample, graph_samples_for_range, ArchiveGraphRange};
use etop::binary64::Binary64;
use etop::cli::dump_lines;
use etop::codec::{
    encode_session_cache, write_bool, write_len, write_string, DecodeError, Field,
};
use etop::decoder::{decode_session_cache, read_bool, read_len, read_string, ByteReader};
use etop::graph::{
    braille_history_cells_optional_with_scale, braille_history_cells_with_scale,
    braille_history_lines_with_scale, graph_scale_bounds, row_position_color,
    value_to_vertical_steps, GraphRange, HeatColor,
};
use etop::history::{HistoryStore, PidKey, ProcessSample};
use etop::layout::{middle_rooms, rooms_for, slots_from, Area, Room};
use etop::persistence::{
    is_reasonable_power, sanitize_power, ArchiveState, LiveProcessSample, LiveSnapshot,
    SessionCache,
};
use etop::screen::{compose, draw_ui, Screen};
use etop::settings::{KeyCode, KeyEvent, KeyEventKind};
use etop::text::{chars_of, i32_chars, parse_i32};
use etop::ui::Draw;
use etop::top_parse::{
    parse_second_sample_excluding, snapshot_from_rows, ProcRow, TopStreamParser,
};

fn b(x: f64) -> Binary64 {
    Binary64::from_bits(x.to_bits())
}

fn f(x: Binary64) -> f64 {
    f64::from_bits(x.bits)
}

fn row(pid: i32, process: &str, power_num: f64) -> ProcRow {
    ProcRow {
        pid,
        process: process.to_string(),
        process_lc: process.to_lowercase(),
        power: format!("{power_num:.1}"),
        power_num: b(power_num),
    }
}

fn press(app: &mut App, code: KeyCode) -> bool {
    app.handle_key(KeyEvent { code, kind: KeyEventKind::Press })
}

fn seeded() -> App {
    let mut app = App::new();
    app.apply_snapshot_at(
        snapshot_from_rows(vec![row(1, "a", 3.0), row(2, "b", 2.0), row(3, "c", 1.0)]),
        100,
    );
    app
}

#[test]
fn whole_numbers_read_back() {
    for n in [0, 7, -7, 10, i32::MAX, i32::MIN, 1_000_000] {
        let text: String = i32_chars(n).into_iter().collect();
        assert_eq!(text, n.to_string());
        assert_eq!(parse_i32(&i32_chars(n)), Some(n));
    }
}

#[test]
fn zero_is_neutral_and_negative_zero_always() {
    for x in [1.5, -2.25, 5.0e-324, f64::MAX, f64::NEG_INFINITY] {
        assert_eq!(b(x).plus(b(0.0)), b(x));
        assert_eq!(b(-0.0).plus(b(x)), b(x));
    }
    assert_eq!(b(-0.0).plus(b(0.0)), b(0.0));
    assert_eq!(b(-0.0).plus(b(-0.0)), b(-0.0));
}

#[test]
fn adding_and_scaling_do_not_shrink() {
    for x in [1.0e-310, 0.3, 7.0, 9.9e15, 1.0e300, f64::MAX] {
        assert!(b(x).is_at_most(b(x).plus(b(0.1))));
        assert!(b(x).is_below(b(x).times(b(1.35))));
    }
    assert_eq!(f(Binary64::from_whole((1 << 53) - 1)), 9007199254740991.0);
}

#[test]
fn sorting_keeps_equal_rows_in_order() {
    let lines = dump_lines(vec![row(3, "x", 1.0), row(1, "x", 2.0), row(2, "x", 1.0)]);
    let pids: Vec<&str> = lines.iter().map(|line| line[..6].trim()).collect();
    assert_eq!(pids, vec!["1", "3", "2"]);
}

#[test]
fn buckets_keep_the_order_of_time_and_every_sample() {
    let mut archive = ArchiveState::default();
    let mut at = 1_000;
    for step in [0, 1, 1, 5, 9, 2, 70, 1] {
        at += step;
        archive.record_sample(at, 6, b(1.0), &vec![("a".to_string(), b(1.0))]);
    }
    for tier in [&archive.raw_2s, &archive.agg_10s, &archive.agg_60s] {
        assert_eq!(tier.iter().map(|bucket| bucket.sample_count).sum::<u32>(), 8);
        let starts: Vec<u64> = tier.iter().map(|bucket| bucket.bucket_start_secs).collect();
        assert!(starts.windows(2).all(|pair| pair[0] <= pair[1]));
    }
    assert_eq!(archive.agg_10s.iter().filter(|bucket| bucket.gap_before).count(), 2);
}

#[test]
fn earlier_buckets_stay_as_they_are() {
    let mut archive = ArchiveState::default();
    archive.record_sample(10, 100, b(1.0), &vec![("a".to_string(), b(1.0))]);
    archive.record_sample(20, 100, b(2.0), &vec![("a".to_string(), b(2.0))]);
    let before = archive.raw_2s.clone();
    archive.record_sample(21, 100, b(4.0), &vec![("b".to_string(), b(4.0))]);
    assert_eq!(archive.raw_2s[0], before[0]);
    assert_eq!(archive.raw_2s.len(), 2);
    assert_eq!(f(archive.raw_2s[1].total_power_sum), 6.0);
}

#[test]
fn saved_sessions_read_back() {
    let mut cache = SessionCache::default();
    cache.live_snapshots = vec![LiveSnapshot {
        tick: 7,
        samples: vec![
            LiveProcessSample { pid: -1, process: "日本".to_string(), power: b(2.5) },
            LiveProcessSample { pid: 2, process: String::new(), power: b(-2.5) },
        ],
    }];
    cache.live_power_history = vec![b(1.0)];
    cache.archive.record_sample(9, 6, b(1.0), &vec![("a".to_string(), b(1.0))]);
    cache.prepare_for_saving();
    assert_eq!(cache.live_power_history, vec![b(2.5)]);
    let mut bytes = vec![0xaa];
    encode_session_cache(&cache, &mut bytes).expect("encode should succeed");
    let mut written = bytes.split_off(1);
    written.extend_from_slice(b"what follows is left alone");
    assert_eq!(decode_session_cache(written).expect("decode should succeed"), cache);
}

#[test]
fn a_reasonable_power_is_kept() {
    for (power, kept) in [(0.0, true), (-0.0, true), (5.0, true), (5.1, false), (-0.1, false)] {
        assert_eq!(is_reasonable_power(b(power), b(5.0)), kept);
        assert_eq!(f(sanitize_power(b(power), b(5.0))), if kept { power } else { 0.0 });
    }
    assert!(!is_reasonable_power(b(f64::NAN), b(f64::INFINITY)));
    assert!(!is_reasonable_power(b(f64::INFINITY), b(f64::INFINITY)));
}

#[test]
fn peaks_bound_their_window() {
    let mut store = HistoryStore::new(8, 8);
    for (tick, power) in [(1, 2.0), (2, 9.0), (3, 4.0)] {
        store.update(tick, &vec![ProcessSample { pid: 1, process: "a", power: b(power) }]);
    }
    let key = PidKey::new(1, "a");
    assert_eq!(f(store.pid_peak(&key, 3, 3)), 9.0);
    assert_eq!(f(store.pid_peak(&key, 1, 3)), 4.0);
    assert_eq!(f(store.pid_peak(&key, 0, 3)), 4.0);
    assert_eq!(f(store.pid_current(&key)), 4.0);
}

#[test]
fn columns_follow_time() {
    let mut last = 0;
    for start in (0..5_000).step_by(7) {
        let column = display_bucket_for_sample(start, 2, 1_800, 180);
        assert!(column >= last);
        last = column;
    }
}

#[test]
fn a_marked_gap_leaves_a_column_empty() {
    let mut archive = ArchiveState::default();
    for (at, gap) in [(3_000, 100), (3_002, 100), (3_004, 1), (3_006, 100)] {
        archive.record_sample(at, gap, b(1.0), &vec![("a".to_string(), b(1.0))]);
    }
    let samples = graph_samples_for_range(&archive, ArchiveGraphRange::Minutes30, 900);
    let shown: Vec<bool> = samples[samples.len() - 8..].iter().map(Option::is_some).collect();
    assert!(shown.iter().any(|shown| !shown));
    assert!(shown[7]);
}

#[test]
fn graphs_have_room_above_and_stay_inside() {
    for max in [1.0e-9, 0.5, 20.0, 4.0e15, 1.0e300, f64::MAX] {
        let (_, top) = graph_scale_bounds(&[b(max)]);
        assert!(f(top) > max);
        assert!(f(top) >= 1.0);
    }
    for value in [0.01, 3.0, 99.0, 1.0e9] {
        let steps = value_to_vertical_steps(b(value), b(0.0), b(100.0), 3);
        assert!((1..=12).contains(&steps));
    }
}

#[test]
fn heat_rises_and_runs_keep_the_row() {
    for height in 2..40 {
        assert_eq!(row_position_color(height - 1, height), HeatColor::Green);
        assert_eq!(row_position_color(0, height), HeatColor::Red);
    }
    let values: Vec<Binary64> = [1.0, 0.0, 0.0, 0.0, 5.0, 2.0].into_iter().map(b).collect();
    let cells = braille_history_cells_with_scale(&values, 3, 2, b(0.0), b(5.0));
    let lines = braille_history_lines_with_scale(&values, 3, 2, b(0.0), b(5.0));
    for (row, line) in cells.iter().zip(&lines) {
        let text: String = row.iter().map(|(glyph, _)| glyph).collect();
        let joined: String = line.iter().map(|run| run.text.as_str()).collect();
        assert_eq!(text, joined);
        assert!(line.windows(2).all(|pair| pair[0].color != pair[1].color));
    }
}

#[test]
fn the_last_table_alone_counts() {
    let short = parse_second_sample_excluding("PID\n5 e 1.0\n", &vec![]);
    let long = parse_second_sample_excluding("junk\nPID\n1 a 9.0\nPID\n5 e 1.0\n", &vec![]);
    assert_eq!(short, long);
    let mut parser = TopStreamParser::new(vec![9]);
    for line in ["PID", "1 a 1.0", "PID", "9 top 1.0", "2 b 20000.0"] {
        assert_eq!(parser.push_line(line), Ok(None));
    }
    let snapshot = parser.push_line("").expect("no error").expect("a table");
    assert_eq!(snapshot.rows.len(), 1);
    assert_eq!(f(snapshot.rows[0].power_num), 0.0);
}

#[test]
fn sessions_keep_their_promises() {
    let mut app = seeded();
    app.process_selected = 9;
    press(&mut app, KeyCode::Other);
    assert_eq!(app.process_selected, 2);
    for _ in 0..4 {
        press(&mut app, KeyCode::Char('r'));
    }
    assert_eq!(app.graph_range, GraphRange::Minutes8);
    press(&mut app, KeyCode::Char('p'));
    press(&mut app, KeyCode::Char('P'));
    assert!(!app.paused);
    press(&mut app, KeyCode::Enter);
    for code in [KeyCode::Char('s'), KeyCode::Char('g'), KeyCode::Char('r')] {
        press(&mut app, code);
        assert_eq!(app.pinned.as_ref().map(|pin| pin.pid), Some(3));
    }
    press(&mut app, KeyCode::Char('m'));
    assert!(!press(&mut app, KeyCode::Char('q')));
    press(&mut app, KeyCode::Esc);
    press(&mut app, KeyCode::Char('f'));
    press(&mut app, KeyCode::Char('a'));
    press(&mut app, KeyCode::Enter);
    press(&mut app, KeyCode::Char('D'));
    assert_eq!(app.process_active_filter(), "a");
    press(&mut app, KeyCode::Char('d'));
    assert_eq!(app.process_active_filter(), "");
}

#[test]
fn rows_match_a_lowered_filter() {
    let app = seeded();
    let pids = |filter: &str| -> Vec<i32> {
        app.rows_matching(&chars_of(filter)).iter().map(|row| row.key.pid).collect()
    };
    assert_eq!(pids(""), vec![1, 2, 3]);
    assert_eq!(pids("b"), vec![2]);
    assert_eq!(pids("3"), vec![3]);
    assert!(pids("B").is_empty());
}

#[test]
fn drawing_changes_only_the_table() {
    let mut app = seeded();
    let area = Area { x: 0, y: 0, width: 80, height: 30 };
    let screen = Screen { graph: None, table: Some(area), detail: None, rows: area, popup: area };
    let before = (app.tick, app.power_history.clone(), app.snapshot.clone());
    compose(&mut app, area, screen);
    assert_eq!(before, (app.tick, app.power_history.clone(), app.snapshot.clone()));
}

#[test]
fn panels_ask_for_their_parts() {
    assert_eq!(rooms_for(true, true), vec![Room::Percentage(34), Room::Min(8)]);
    assert_eq!(rooms_for(false, true), vec![Room::Min(1)]);
    assert_eq!(
        middle_rooms(60),
        vec![Room::Percentage(20), Room::Percentage(60), Room::Percentage(20)]
    );
    let a = Area { x: 0, y: 0, width: 9, height: 4 };
    let c = Area { x: 0, y: 4, width: 9, height: 5 };
    let slots = slots_from(true, true, &vec![a, c]);
    assert_eq!((slots.graph, slots.table), (Some(a), Some(c)));
    let slots = slots_from(false, true, &vec![c]);
    assert_eq!((slots.graph, slots.table), (None, Some(c)));
}

#[test]
fn history_of_a_session_is_bounded() {
    let mut app = App::new();
    app.power_history = VecDeque::from(vec![b(1.0); 500]);
    app.apply_snapshot_at(snapshot_from_rows(vec![row(1, "a", 2.0)]), 5);
    assert_eq!(app.power_history.len(), 240);
    assert_eq!(app.power_history.back().map(|value| f(*value)), Some(2.0));
}

fn reach(area: &Area) -> (u32, u32) {
    (
        area.x as u32 + area.width as u32,
        area.y as u32 + area.height as u32,
    )
}

#[test]
fn nothing_is_drawn_outside_the_frame() {
    for width in [0, 1, 2, 3, 5, 13, 40, 75, 150] {
        for height in [0, 1, 2, 3, 8, 12, 25, 60] {
            for keys in ["", "1", "2", "12", "m", "f", "r"] {
                for pin in [false, true] {
                    let mut app = seeded();
                    if pin {
                        press(&mut app, KeyCode::Enter);
                    }
                    for key in keys.chars() {
                        press(&mut app, KeyCode::Char(key));
                    }
                    let frame = Area { x: 0, y: 0, width, height };
                    for draw in draw_ui(&mut app, frame) {
                        match draw {
                            Draw::Clear(area)
                            | Draw::Panel { area, .. }
                            | Draw::Text { area, .. }
                            | Draw::Table { area, .. } => {
                                let (right, bottom) = reach(&area);
                                assert!(right <= width as u32 && bottom <= height as u32);
                            }
                            Draw::Chips(marks) => assert!(
                                marks.iter().all(|mark| mark.x < width && mark.y < height)
                            ),
                        }
                    }
                }
            }
        }
    }
}

#[test]
fn texts_read_back_under_every_limit_they_are_within() {
    for text in ["", "a", "Safari", "h\u{e9}llo", "\u{1f600}\u{1f600}"] {
        let mut bytes = Vec::new();
        write_string(&mut bytes, text).expect("length");
        write_bool(&mut bytes, true);
        for max in 0..12 {
            let mut reader = ByteReader::new(bytes.clone());
            let read = read_string(&mut reader, max);
            if text.len() <= max {
                assert_eq!(read, Ok(text.to_string()));
                assert_eq!(read_bool(&mut reader), Ok(true));
            } else {
                let value = text.len() as u32;
                let too_long = DecodeError::LengthExceedsMax { field: Field::Text, value, max };
                assert_eq!(read, Err(too_long));
            }
        }
    }
}

#[test]
fn broken_texts_are_refused_and_read_past() {
    let mut reader = ByteReader::new(vec![2, 0, 0, 0, 0xc3, 0x28, 1]);
    assert!(matches!(read_string(&mut reader, 2), Err(DecodeError::Utf8(_))));
    assert_eq!(read_bool(&mut reader), Ok(true));
    assert_eq!(read_bool(&mut reader), Err(DecodeError::UnexpectedEnd));
}

#[test]
fn lengths_take_four_bytes_even_when_too_large() {
    let mut bytes = Vec::new();
    write_len(&mut bytes, 300).expect("length");
    write_len(&mut bytes, 7).expect("length");
    let mut reader = ByteReader::new(bytes.clone());
    assert_eq!(
        read_len(&mut reader, 299, Field::TierSamples),
        Err(DecodeError::LengthExceedsMax { field: Field::TierSamples, value: 300, max: 299 })
    );
    assert_eq!(read_len(&mut reader, 7, Field::TierSamples), Ok(7));
    assert_eq!(
        read_len(&mut reader, 7, Field::TierSamples),
        Err(DecodeError::UnexpectedEnd)
    );
    let mut reader = ByteReader::new(bytes);
    assert_eq!(read_len(&mut reader, 300, Field::TierSamples), Ok(300));
}

#[test]
fn flags_take_one_byte_even_when_neither_zero_nor_one() {
    let mut reader = ByteReader::new(vec![2, 1, 255, 0]);
    assert_eq!(read_bool(&mut reader), Err(DecodeError::InvalidBool(2)));
    assert_eq!(read_bool(&mut reader), Ok(true));
    assert_eq!(read_bool(&mut reader), Err(DecodeError::InvalidBool(255)));
    assert_eq!(read_bool(&mut reader), Ok(false));
    assert_eq!(read_bool(&mut reader), Err(DecodeError::UnexpectedEnd));
}

#[test]
fn no_cut_cache_is_read_and_further_bytes_change_nothing() {
    let mut archive = ArchiveState::default();
    archive.record_sample(100, 6, b(3.0), &vec![("a".to_string(), b(3.0))]);
    archive.record_sample(900, 6, b(1.0), &vec![("\u{e9}".to_string(), b(1.0))]);
    let cache = SessionCache {
        saved_at_unix_millis: 5,
        last_tick: 9,
        live_power_history: vec![b(1.0), b(2.0)],
        live_snapshots: vec![LiveSnapshot {
            tick: 9,
            samples: vec![LiveProcessSample { pid: -4, process: "a".to_string(), power: b(1.0) }],
        }],
        archive,
    };
    let mut bytes = Vec::new();
    encode_session_cache(&cache, &mut bytes).expect("encode should succeed");
    for len in 0..bytes.len() {
        assert_eq!(
            decode_session_cache(bytes[..len].to_vec()).err(),
            Some(DecodeError::UnexpectedEnd)
        );
    }
    let whole = decode_session_cache(bytes.clone()).expect("decode should succeed");
    bytes.extend([0, 1, 2, 3]);
    let longer = decode_session_cache(bytes).expect("decode should succeed");
    assert_eq!(longer.live_snapshots, whole.live_snapshots);
    assert_eq!(longer.archive.raw_2s, whole.archive.raw_2s);
    assert_eq!(longer.archive.agg_60s, whole.archive.agg_60s);
}

#[test]
fn blank_filter_shows_every_process() {
    let mut app = seeded();
    press(&mut app, KeyCode::Char('f'));
    assert_eq!(app.process_visible_len(), 3);
    press(&mut app, KeyCode::Char(' '));
    press(&mut app, KeyCode::Char(' '));
    assert_eq!(app.process_visible_len(), 3);
    press(&mut app, KeyCode::Char('B'));
    assert_eq!(app.process_visible_len(), 1);
    assert_eq!(app.process_rows[0].key.process, "b");
}

#[test]
fn higher_values_have_no_fewer_steps() {
    let values = [f64::NEG_INFINITY, -1.0, 0.0, 0.0005, 0.002, 0.1, 3.0, 9.0, 80.0, f64::INFINITY];
    let scales = [(0.0, 9.0), (-5.0, 2.0), (f64::NEG_INFINITY, 9.0), (0.0, f64::INFINITY)];
    for (min, max) in scales {
        for rows in [0, 1, 3, 40] {
            let steps: Vec<i32> = values
                .iter()
                .map(|value| value_to_vertical_steps(b(*value), b(min), b(max), rows))
                .collect();
            assert!(steps.windows(2).all(|pair| pair[0] <= pair[1]));
        }
    }
    assert_eq!(value_to_vertical_steps(b(3.0), b(0.0), b(9.0), 3), 4);
    assert_eq!(value_to_vertical_steps(b(80.0), b(0.0), b(9.0), 3), 12);
}

#[test]
fn last_sample_of_a_key_is_current() {
    let sample = |power: f64| ProcessSample { pid: 7, process: "a", power: b(power) };
    let mut store = HistoryStore::new(8, 8);
    store.update(1, &vec![sample(4.0), sample(2.5)]);
    assert_eq!(f(store.pid_current(&PidKey::new(7, "a"))), 2.5);
    assert_eq!(f(store.name_current("a")), 6.5);
}

#[test]
fn present_values_draw_as_plain_ones() {
    let values: Vec<Binary64> = [3.0, 0.0, 0.01, 7.5, 12.0, -2.0].map(b).to_vec();
    let present: Vec<Option<Binary64>> = values.iter().map(|value| Some(*value)).collect();
    for (width, min) in [(0, 0.0), (1, 0.0), (3, 0.0), (3, -4.0), (2, -4.0), (5, 0.0), (9, 1.5)] {
        for height in [0, 1, 2, 5] {
            let optional = braille_history_cells_optional_with_scale(
                &present,
                width,
                height,
                b(min),
                b(10.0),
            );
            let plain =
                braille_history_cells_with_scale(&values, width, height, b(min), b(10.0));
            assert_eq!(optional, plain);
        }
    }
    let optional = braille_history_cells_optional_with_scale(&present, 9, 1, b(-4.0), b(10.0));
    let plain = braille_history_cells_with_scale(&values, 9, 1, b(-4.0), b(10.0));
    assert_ne!(optional, plain);
}
