use std::collections::VecDeque;

use etop::app_state::{should_flush, App, CollectorEvent, ProcessSort, HISTORY_LIMIT};
use etop::binary64::Binary64;
use etop::graph::{
    graph_scale_bounds, history_viewport_samples, history_viewport_samples_deque, GraphRange,
    HeatColor,
};
use etop::history::PidKey;
use etop::persistence::{
    continuity_threshold_secs, ArchiveState, ArchivedProcessPower, Interval, LiveProcessSample,
    LiveSnapshot, LoadedSessionCache, SessionCache, TierSample,
};
use etop::settings::{
    format_setting_value, AppSettings, GraphHeatSettings, KeyCode, KeyEvent, KeyEventKind,
    SettingsField, SettingsModalState,
};
use etop::top_parse::{snapshot_from_rows, ProcRow, Snapshot};
use etop::ui::spectrum_band_color;
use etop::ui_table::archive_bucket_metrics;

fn b(x: f64) -> Binary64 {
    Binary64::from_bits(x.to_bits())
}

fn f(x: Binary64) -> f64 {
    f64::from_bits(x.bits)
}

fn bs(values: &[f64]) -> Vec<Binary64> {
    values.iter().map(|value| b(*value)).collect()
}

fn row(pid: i32, process: &str, power_num: f64) -> ProcRow {
    ProcRow {
        pid,
        process: process.to_string(),
        process_lc: process.to_lowercase(),
        power: format!("{power_num:.1}"),
        power_num: b(power_num),
    }
}

fn key_code(code: KeyCode) -> KeyEvent {
    KeyEvent {
        code,
        kind: KeyEventKind::Press,
    }
}

fn key_press(ch: char) -> KeyEvent {
    key_code(KeyCode::Char(ch))
}

fn key_enter() -> KeyEvent {
    key_code(KeyCode::Enter)
}

fn seed_process_sort_history(app: &mut App) {
    app.apply_snapshot(snapshot_from_rows(vec![
        row(10, "Safari", 60.0),
        row(20, "Mail", 20.0),
        row(30, "Slack", 5.0),
    ]));
    app.apply_snapshot(snapshot_from_rows(vec![
        row(10, "Safari", 1.0),
        row(20, "Mail", 20.0),
        row(30, "Slack", 6.0),
    ]));
}

fn process_identities_in_visible_order(app: &mut App) -> Vec<(i32, String)> {
    app.rebuild_process_rows_if_needed();
    app.process_rows
        .iter()
        .map(|row| (row.key.pid, row.key.process.clone()))
        .collect()
}

#[test]
fn archive_bucket_metrics_returns_none_when_no_historical_samples_exist() {
    let samples = vec![None, None, None];
    assert_eq!(archive_bucket_metrics(&samples), None);
}

#[test]
fn archive_bucket_metrics_summarizes_visible_bucket_values() {
    let samples = vec![None, Some(b(0.0)), Some(b(2.0)), Some(b(4.0)), None];
    let metrics = archive_bucket_metrics(&samples).expect("metrics should be present");

    assert_eq!(metrics.bucket_count, 3);
    assert!((f(metrics.avg_bucket_power) - 2.0).abs() < 1e-9);
    assert_eq!(f(metrics.max_bucket_power), 4.0);
}

#[test]
fn record_history_trims_oversized_deque_back_to_limit() {
    let mut app = App::new();
    app.power_history = VecDeque::from(vec![b(1.0); HISTORY_LIMIT + 3]);
    app.snapshot = Snapshot {
        rows: Vec::new(),
        total_power: b(9.0),
    };

    app.record_history();

    assert_eq!(app.power_history.len(), HISTORY_LIMIT);
    assert!(
        app.power_history
            .iter()
            .all(|value| f(*value) == 1.0 || f(*value) == 9.0)
    );
    assert_eq!(app.power_history.back().copied().map(f), Some(9.0));
}

#[test]
fn graph_heat_settings_validate_requires_ordered_thresholds() {
    let settings = GraphHeatSettings {
        yellow_start: b(80.0),
        orange_start: b(40.0),
        red_start: b(120.0),
    };

    assert!(settings.validate().is_err());
}

#[test]
fn spectrum_band_color_uses_absolute_breakpoints() {
    let settings = GraphHeatSettings {
        yellow_start: b(20.0),
        orange_start: b(40.0),
        red_start: b(60.0),
    };

    assert_eq!(spectrum_band_color(b(10.0), &settings), HeatColor::Green);
    assert_eq!(spectrum_band_color(b(25.0), &settings), HeatColor::Yellow);
    assert_eq!(spectrum_band_color(b(50.0), &settings), HeatColor::Orange);
    assert_eq!(spectrum_band_color(b(70.0), &settings), HeatColor::Red);
}

#[test]
fn process_sort_cycles_with_s_key_and_wraps() {
    let mut app = App::new();

    assert_eq!(app.process_sort, ProcessSort::Current);

    app.handle_key(key_press('s'));
    assert_eq!(app.process_sort, ProcessSort::Avg2m);

    app.handle_key(key_press('s'));
    assert_eq!(app.process_sort, ProcessSort::Peak);

    app.handle_key(key_press('s'));
    assert_eq!(app.process_sort, ProcessSort::Current);
}

#[test]
fn graph_range_cycles_with_r_key_and_wraps() {
    let mut app = App::new();

    assert_eq!(app.graph_range, GraphRange::Minutes8);

    app.handle_key(key_press('r'));
    assert_eq!(app.graph_range, GraphRange::Minutes30);

    app.handle_key(key_press('r'));
    assert_eq!(app.graph_range, GraphRange::Hours3);

    app.handle_key(key_press('r'));
    assert_eq!(app.graph_range, GraphRange::Hours12);

    app.handle_key(key_press('r'));
    assert_eq!(app.graph_range, GraphRange::Minutes8);
}

#[test]
fn f_key_starts_filter_input_and_slash_does_not() {
    let mut app = App::new();
    app.apply_snapshot(snapshot_from_rows(vec![
        row(10, "Safari", 8.0),
        row(20, "Mail", 4.0),
    ]));

    app.handle_key(key_press('f'));
    assert_eq!(app.process_filter_input.as_deref(), Some(""));

    app.handle_key(key_press('x'));
    assert_eq!(app.process_filter_input.as_deref(), Some("x"));

    app.handle_key(key_code(KeyCode::Esc));
    assert!(app.process_filter_input.is_none());

    app.handle_key(key_press('/'));
    assert!(app.process_filter_input.is_none());
}

#[test]
fn main_graph_stays_live_only_even_when_range_changes() {
    let mut app = App::new();
    app.power_history = VecDeque::from(bs(&[1.0, 2.0, 3.0, 4.0, 5.0]));

    for range in [
        GraphRange::Minutes8,
        GraphRange::Minutes30,
        GraphRange::Hours3,
        GraphRange::Hours12,
    ] {
        app.graph_range = range;
        let samples = app.main_graph_live_samples_for_width(2);
        assert_eq!(
            samples,
            history_viewport_samples_deque(&app.power_history, 2)
        );
    }
}

#[test]
fn pinned_process_history_uses_archive_pid_data_for_ranges_above_8m() {
    let mut app = App::new();
    let key = PidKey::new(10, "Safari");
    app.archive = ArchiveState {
        raw_2s: VecDeque::from(vec![TierSample {
            bucket_start_secs: 1_700,
            sample_count: 2,
            total_power_sum: b(40.0),
            groups: Vec::new(),
            processes: vec![ArchivedProcessPower {
                pid: 10,
                process: "Safari".to_string(),
                power_sum: b(18.0),
            }],
            gap_before: false,
        }]),
        ..ArchiveState::default()
    };

    app.graph_range = GraphRange::Minutes8;
    assert!(app.pid_archive_samples_for_width(&key, 3).is_none());

    app.graph_range = GraphRange::Minutes30;
    let samples = app
        .pid_archive_samples_for_width(&key, 3)
        .expect("30m range should use exact-pid archive data");

    assert_eq!(samples.len(), 6);
    assert_eq!(samples[5].map(f), Some(9.0));
}

#[test]
fn process_sort_changes_visible_ordering_by_metric() {
    let mut app = App::new();
    seed_process_sort_history(&mut app);

    assert_eq!(
        process_identities_in_visible_order(&mut app),
        vec![
            (20, "Mail".to_string()),
            (30, "Slack".to_string()),
            (10, "Safari".to_string()),
        ]
    );

    app.handle_key(key_press('s'));
    assert_eq!(app.process_sort, ProcessSort::Avg2m);
    assert_eq!(
        process_identities_in_visible_order(&mut app),
        vec![
            (10, "Safari".to_string()),
            (20, "Mail".to_string()),
            (30, "Slack".to_string()),
        ]
    );

    app.handle_key(key_press('s'));
    assert_eq!(app.process_sort, ProcessSort::Peak);
    assert_eq!(
        process_identities_in_visible_order(&mut app),
        vec![
            (10, "Safari".to_string()),
            (20, "Mail".to_string()),
            (30, "Slack".to_string()),
        ]
    );
}

#[test]
fn enter_toggles_process_pin() {
    let mut app = App::new();
    app.apply_snapshot(snapshot_from_rows(vec![
        row(10, "Safari", 8.0),
        row(20, "Mail", 4.0),
    ]));

    app.handle_key(key_enter());
    let pinned = app.pinned.as_ref().expect("process should be pinned");
    assert_eq!(pinned.pid, 10);
    assert_eq!(pinned.process, "Safari");

    app.handle_key(key_enter());
    assert!(app.pinned.is_none());
}

#[test]
fn process_sort_cycle_preserves_selected_pid_when_possible() {
    let mut app = App::new();
    seed_process_sort_history(&mut app);

    app.process_selected = 1;
    let selected_before = app
        .selected_process_key()
        .expect("selected process should exist");
    assert_eq!(selected_before.pid, 30);

    app.handle_key(key_press('s'));

    let selected_after = app
        .selected_process_key()
        .expect("selected process should still exist");
    assert_eq!(selected_after.pid, 30);
    assert_eq!(app.process_selected, 2);
}

#[test]
fn process_selection_survives_snapshot_reorder_by_metric() {
    let mut app = App::new();
    seed_process_sort_history(&mut app);

    app.process_selected = 1;
    assert_eq!(
        app.selected_process_key().as_ref().map(|key| key.pid),
        Some(30)
    );

    app.apply_snapshot(snapshot_from_rows(vec![
        row(10, "Safari", 30.0),
        row(20, "Mail", 10.0),
        row(30, "Slack", 5.0),
    ]));

    assert_eq!(
        app.selected_process_key().as_ref().map(|key| key.pid),
        Some(30)
    );
    assert_eq!(app.process_selected, 2);
}

#[test]
fn process_selection_tracks_exact_pid_even_with_same_name() {
    let mut app = App::new();
    app.apply_snapshot(snapshot_from_rows(vec![
        row(10, "Safari", 8.0),
        row(11, "Safari", 6.0),
        row(20, "Mail", 4.0),
    ]));

    app.process_selected = 1;
    assert_eq!(
        app.selected_process_key().as_ref().map(|key| key.pid),
        Some(11)
    );

    app.apply_snapshot(snapshot_from_rows(vec![
        row(11, "Safari", 12.0),
        row(10, "Safari", 2.0),
        row(20, "Mail", 4.0),
    ]));

    assert_eq!(
        app.selected_process_key().as_ref().map(|key| key.pid),
        Some(11)
    );
}

#[test]
fn process_filter_matches_name_or_pid() {
    let mut app = App::new();
    app.apply_snapshot(snapshot_from_rows(vec![
        row(101, "Safari", 12.0),
        row(202, "Mail", 4.0),
        row(303, "Safari GPU", 3.0),
    ]));

    app.process_filter_query = "saf".to_string();
    app.mark_process_rows_dirty();
    let visible_len = app.process_visible_len();

    assert_eq!(visible_len, 2);
    assert_eq!(
        process_identities_in_visible_order(&mut app),
        vec![(101, "Safari".to_string()), (303, "Safari GPU".to_string())]
    );

    app.process_filter_query = "101".to_string();
    app.mark_process_rows_dirty();
    assert_eq!(
        process_identities_in_visible_order(&mut app),
        vec![(101, "Safari".to_string())]
    );
}

#[test]
fn process_selection_normalizes_after_filter_changes_result_size() {
    let mut app = App::new();
    app.apply_snapshot(snapshot_from_rows(vec![
        row(10, "Safari", 8.0),
        row(20, "Mail", 6.0),
        row(30, "Slack", 4.0),
    ]));

    assert_eq!(app.process_visible_len(), 3);

    app.process_selected = 2;
    app.process_scroll = 2;

    app.process_filter_query = "mail".to_string();
    app.mark_process_rows_dirty();
    let visible_len = app.process_visible_len();
    app.normalize_process_selection(visible_len);

    assert_eq!(visible_len, 1);
    assert_eq!(app.process_selected, 0);
    assert_eq!(app.process_scroll, 0);
}

#[test]
fn app_graph_scale_recovers_after_spike_leaves_viewport() {
    let app = App::new();

    let width = 3;
    let spike_visible = history_viewport_samples(&bs(&[2.0, 180.0, 3.0, 4.0, 4.0, 4.0]), width);
    let (_, spike_max) = app.graph_scale_bounds_for_viewport(&spike_visible);

    let spike_aged_out =
        history_viewport_samples(&bs(&[2.0, 180.0, 3.0, 4.0, 4.0, 4.0, 4.0, 4.0]), width);
    let (_, recovered_max) = app.graph_scale_bounds_for_viewport(&spike_aged_out);
    let (_, expected_recovered_max) = graph_scale_bounds(&spike_aged_out);

    assert!(f(recovered_max) < f(spike_max));
    assert_eq!(recovered_max, expected_recovered_max);
}

#[test]
fn main_graph_scale_bounds_adds_headroom_for_flat_history() {
    let (_, max) = graph_scale_bounds(&bs(&[5.0, 5.0, 5.0]));
    assert!(f(max) > 5.0);
}

#[test]
fn main_graph_scale_bounds_adds_headroom_for_active_history() {
    let (_, max) = graph_scale_bounds(&bs(&[39.3, 64.1, 118.8]));
    assert!(f(max) > 118.8);
}

#[test]
fn loaded_session_cache_skips_live_hydration_when_gap_is_too_large() {
    let mut app = App::new();
    let mut archive = ArchiveState::default();
    archive.record_sample(
        100,
        continuity_threshold_secs(Interval::from_secs(2)),
        b(12.0),
        &vec![LiveProcessSample {
            pid: 10,
            process: "Safari".to_string(),
            power: b(12.0),
        }],
    );

    app.apply_loaded_session_cache(LoadedSessionCache {
        cache: SessionCache {
            saved_at_unix_millis: 1,
            last_tick: 42,
            live_power_history: bs(&[7.0, 8.0]),
            live_snapshots: vec![LiveSnapshot {
                tick: 42,
                samples: vec![LiveProcessSample {
                    pid: 10,
                    process: "Safari".to_string(),
                    power: b(8.0),
                }],
            }],
            archive: archive.clone(),
        },
        gap_millis: 99_999,
        hydrate_live: false,
    });

    assert!(app.power_history.is_empty());
    assert!(app.live_snapshot_history.is_empty());
    assert_eq!(app.tick, 0);
    assert_eq!(
        f(app.history_store.pid_current(&PidKey::new(10, "Safari"))),
        0.0
    );
    assert_eq!(app.archive, archive);
    assert!(app.loading);
    assert!(app.snapshot.rows.is_empty());
}

#[test]
fn a_recent_session_carries_on() {
    let mut app = App::new();
    app.apply_snapshot_at(snapshot_from_rows(vec![row(10, "Safari", 8.0)]), 1_000);
    app.apply_snapshot_at(snapshot_from_rows(vec![row(10, "Safari", 6.0)]), 1_002);
    let cache = app.session_cache_at(1_002_500);
    assert_eq!(cache.saved_at_unix_millis, 1_002_500);
    assert_eq!(cache.last_tick, 2);

    let mut next = App::new();
    next.last_error = Some("old".to_string());
    next.apply_loaded_session_cache(LoadedSessionCache {
        cache,
        gap_millis: 100,
        hydrate_live: true,
    });
    assert_eq!(next.power_history, app.power_history);
    assert_eq!(next.tick, 2);
    assert_eq!(next.archive, app.archive);
    assert!(!next.loading);
    assert!(next.last_error.is_none());
    assert_eq!(next.snapshot.rows[0].power, "6.0");
    let key = PidKey::new(10, "Safari");
    assert_eq!(f(next.history_store.pid_avg(&key, 2, 2)), 7.0);
    assert_eq!(next.process_rows.len(), 1);
}

#[test]
fn snapshots_out_of_order_are_sorted() {
    let snapshot = |tick: u64, power: f64| LiveSnapshot {
        tick,
        samples: vec![LiveProcessSample {
            pid: 1,
            process: "a".to_string(),
            power: b(power),
        }],
    };
    let mut app = App::new();
    app.apply_loaded_session_cache(LoadedSessionCache {
        cache: SessionCache {
            saved_at_unix_millis: 1,
            last_tick: 3,
            live_power_history: vec![b(1.0); HISTORY_LIMIT + 5],
            live_snapshots: vec![snapshot(9, 2.0), snapshot(4, 1.0)],
            archive: ArchiveState::default(),
        },
        gap_millis: 0,
        hydrate_live: true,
    });
    assert_eq!(app.tick, 9);
    assert_eq!(app.live_snapshot_history[0].tick, 4);
    assert_eq!(app.power_history.len(), HISTORY_LIMIT);
    assert_eq!(app.snapshot.rows[0].power, "2.0");
}

#[test]
fn d_key_clears_the_filter() {
    let mut app = App::new();
    app.apply_snapshot(snapshot_from_rows(vec![row(1, "a", 1.0), row(2, "b", 2.0)]));
    for ch in ['f', 'b'] {
        app.handle_key(key_press(ch));
    }
    app.handle_key(key_enter());
    assert_eq!(app.process_filter_query, "b");
    assert_eq!(app.process_rows.len(), 1);
    app.handle_key(key_press('d'));
    assert_eq!(app.process_filter_query, "");
    assert_eq!(app.process_rows.len(), 2);
}

#[test]
fn esc_keeps_the_applied_filter() {
    let mut app = App::new();
    app.process_filter_query = "mail".to_string();
    app.handle_key(key_press('f'));
    app.handle_key(key_press('X'));
    app.handle_key(key_code(KeyCode::Backspace));
    app.handle_key(key_code(KeyCode::Backspace));
    assert_eq!(app.process_active_filter(), "mai");
    app.handle_key(key_code(KeyCode::Esc));
    assert_eq!(app.process_filter_query, "mail");
    assert!(!app.is_filter_input_active());
}

#[test]
fn filter_letters_do_not_quit() {
    let mut app = App::new();
    app.handle_key(key_press('f'));
    assert!(!app.handle_key(key_press('q')));
    app.handle_key(key_code(KeyCode::Esc));
    assert!(app.handle_key(key_press('q')));
    assert!(app.handle_key(key_press('Q')));
}

#[test]
fn a_hidden_table_takes_no_filter() {
    let mut app = App::new();
    app.handle_key(key_press('2'));
    assert!(!app.show_table);
    app.handle_key(key_press('f'));
    assert!(!app.is_filter_input_active());
    app.handle_key(key_press('1'));
    assert!(!app.show_graph);
}

#[test]
fn keys_move_the_selection_unless_a_process_is_pinned() {
    let mut app = App::new();
    app.apply_snapshot(snapshot_from_rows(vec![
        row(1, "a", 3.0),
        row(2, "b", 2.0),
        row(3, "c", 1.0),
    ]));
    app.handle_key(key_press('j'));
    app.handle_key(key_code(KeyCode::Down));
    app.handle_key(key_code(KeyCode::Down));
    assert_eq!(app.process_selected, 2);
    app.handle_key(key_press('k'));
    assert_eq!(app.process_selected, 1);
    app.handle_key(key_press('g'));
    assert_eq!(app.process_selected, 0);
    app.handle_key(key_code(KeyCode::Up));
    assert_eq!(app.process_selected, 0);
    app.handle_key(key_press('G'));
    assert_eq!(app.process_selected, 2);
    app.handle_key(key_enter());
    app.handle_key(key_press('k'));
    assert_eq!(app.process_selected, 2);
    app.apply_snapshot(snapshot_from_rows(vec![row(1, "a", 3.0)]));
    assert_eq!(app.pinned.as_ref().map(|pin| pin.pid), Some(3));
    assert_eq!(app.process_selected, 0);
}

#[test]
fn only_presses_count() {
    let mut app = App::new();
    for kind in [KeyEventKind::Release, KeyEventKind::Repeat] {
        let key = KeyEvent { code: KeyCode::Char('q'), kind };
        assert!(!app.handle_key(key));
        let key = KeyEvent { code: KeyCode::Char('p'), kind };
        app.handle_key(key);
    }
    assert!(!app.paused);
    app.handle_key(key_press('p'));
    assert!(app.paused);
}

#[test]
fn collector_events_reach_the_session() {
    let mut app = App::new();
    app.apply_collector_event(CollectorEvent::Error("no top".to_string()));
    assert_eq!(app.last_error.as_deref(), Some("refresh failed: no top"));
    assert!(!app.loading);
    app.apply_collector_event(CollectorEvent::Snapshot(snapshot_from_rows(vec![row(
        1, "a", 3.0,
    )])));
    assert!(app.last_error.is_none());
    assert_eq!(app.tick, 1);
    assert_eq!(app.archive.raw_2s.len(), 1);
    assert_eq!(app.to_session_cache().last_tick, 1);
}

#[test]
fn settings_are_edited_and_applied() {
    let mut app = App::new();
    app.handle_key(key_press('m'));
    let modal = app.settings_modal.as_ref().expect("dialog");
    assert_eq!(modal.display_value(SettingsField::YellowStart), "40");
    app.handle_key(key_enter());
    for _ in 0..2 {
        app.handle_key(key_code(KeyCode::Backspace));
    }
    for ch in ['-', '5', '2', '.', '5', 'x', '-'] {
        app.handle_key(key_press(ch));
    }
    let modal = app.settings_modal.as_ref().expect("dialog");
    assert_eq!(modal.display_value(SettingsField::YellowStart), "-52.5");
    app.handle_key(key_enter());
    let modal = app.settings_modal.as_ref().expect("dialog");
    assert_eq!(modal.error.as_deref(), Some("value must be a finite number >= 0"));
    for _ in 0..5 {
        app.handle_key(key_code(KeyCode::Backspace));
    }
    app.handle_key(key_enter());
    let modal = app.settings_modal.as_ref().expect("dialog");
    assert_eq!(modal.error.as_deref(), Some("invalid number"));
    for ch in ['5', '2', '.', '5'] {
        app.handle_key(key_press(ch));
    }
    app.handle_key(key_enter());
    assert_eq!(f(app.settings.graph_heat.yellow_start), 40.0);
    app.handle_key(key_press('m'));
    assert!(app.settings_modal.is_none());
    assert_eq!(f(app.settings.graph_heat.yellow_start), 52.5);
}

#[test]
fn settings_out_of_order_stay_in_the_dialog() {
    let mut app = App::new();
    app.handle_key(key_press('m'));
    app.handle_key(key_code(KeyCode::Up));
    assert_eq!(app.settings_modal.as_ref().map(|modal| modal.selected), Some(2));
    app.handle_key(key_enter());
    for _ in 0..3 {
        app.handle_key(key_code(KeyCode::Backspace));
    }
    app.handle_key(key_press('7'));
    app.handle_key(key_enter());
    app.handle_key(key_press('M'));
    let modal = app.settings_modal.as_ref().expect("dialog");
    assert_eq!(
        modal.error.as_deref(),
        Some("thresholds must satisfy yellow < orange < red")
    );
    app.handle_key(key_code(KeyCode::Tab));
    app.handle_key(key_code(KeyCode::BackTab));
    app.handle_key(key_code(KeyCode::Esc));
    assert!(app.settings_modal.is_none());
    assert_eq!(app.settings, AppSettings::default());
}

#[test]
fn thresholds_must_be_numbers() {
    let mut heat = GraphHeatSettings::default();
    assert_eq!(heat.validate(), Ok(()));
    heat.red_start = b(f64::NAN);
    assert_eq!(
        heat.validate(),
        Err("thresholds must be finite numbers >= 0".to_string())
    );
    heat.red_start = b(-1.0);
    assert!(heat.validate().is_err());
}

#[test]
fn settings_show_no_needless_zeros() {
    for (value, text) in [
        (0.0, "0"),
        (-0.0, "-0"),
        (40.0, "40"),
        (52.5, "52.5"),
        (100.04, "100"),
        (f64::NAN, "NaN"),
        (f64::INFINITY, "inf"),
        (1.0e22, "10000000000000000000000"),
    ] {
        assert_eq!(format_setting_value(b(value)), text);
    }
    let modal = SettingsModalState::new(&AppSettings::default());
    assert_eq!(modal.display_value(SettingsField::OrangeStart), "85");
    assert_eq!(modal.display_value(SettingsField::RedStart), "140");
    assert_eq!(SettingsField::RedStart.label(), "red start");
}

#[test]
fn sessions_are_saved_every_fifteen_ticks() {
    assert!(!should_flush(14, 0));
    assert!(should_flush(15, 0));
    assert!(!should_flush(3, u64::MAX - 2));
    assert!(should_flush(12, u64::MAX - 2));
}

#[test]
fn ticks_start_over() {
    let mut app = App::new();
    app.tick = u64::MAX;
    app.record_history_at(5);
    assert_eq!(app.tick, 0);
}

#[test]
fn the_collector_is_told_of_pauses() {
    let mut app = App::new();
    assert_eq!(app.step_key(key_press('x')).set_paused, None);
    let step = app.step_key(key_press('p'));
    assert_eq!((step.quit, step.set_paused), (false, Some(true)));
    assert_eq!(app.step_key(key_press('p')).set_paused, Some(false));
    assert!(app.step_key(key_press('q')).quit);
}

#[test]
fn cache_failures_are_noted() {
    let mut app = App::new();
    app.note_failed_load("HOME is not set");
    assert_eq!(app.last_error.as_deref(), Some("cache load failed: HOME is not set"));
    app.note_failed_flush("disk full");
    assert_eq!(app.last_error.as_deref(), Some("cache flush failed: disk full"));
}
