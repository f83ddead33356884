use etop::binary64::Binary64;
use etop::history::{HistoryStore, PidKey, ProcessSample};

fn b(x: f64) -> Binary64 {
    Binary64::from_bits(x.to_bits())
}

fn f(x: Binary64) -> f64 {
    f64::from_bits(x.bits)
}

fn fs(values: &[Binary64]) -> Vec<f64> {
    values.iter().map(|value| f(*value)).collect()
}

fn s<'a>(pid: i32, process: &'a str, power: f64) -> ProcessSample<'a> {
    ProcessSample {
        pid,
        process,
        power: b(power),
    }
}

#[test]
fn groups_by_exact_process_name() {
    let mut store = HistoryStore::new(8, 8);

    store.update(1, &vec![s(10, "Safari", 4.0), s(11, "Safari", 2.0)]);

    assert_eq!(f(store.name_current("Safari")), 6.0);
}

#[test]
fn pid_key_uses_pid_plus_exact_name() {
    let mut store = HistoryStore::new(8, 8);

    store.update(1, &vec![s(10, "Safari", 4.0)]);
    store.update(2, &vec![s(10, "Safari GPU", 8.0)]);

    let safari_key = PidKey::new(10, "Safari");
    let gpu_key = PidKey::new(10, "Safari GPU");

    assert_eq!(f(store.pid_current(&safari_key)), 0.0);
    assert_eq!(f(store.pid_current(&gpu_key)), 8.0);
}

#[test]
fn missing_entries_receive_zero_samples() {
    let mut store = HistoryStore::new(8, 8);
    let key = PidKey::new(10, "Safari");

    store.update(1, &vec![s(10, "Safari", 4.0)]);
    store.update(2, &vec![]);

    assert_eq!(f(store.pid_current(&key)), 0.0);
    assert_eq!(f(store.pid_avg(&key, 2, 2)), 2.0);
}

#[test]
fn evicts_stale_pid_and_name_series() {
    let mut store = HistoryStore::new(8, 2);
    let key = PidKey::new(10, "Safari");

    store.update(1, &vec![s(10, "Safari", 4.0)]);
    store.update(2, &vec![]);
    store.update(3, &vec![]);
    store.update(4, &vec![]);

    assert_eq!(f(store.pid_current(&key)), 0.0);
    assert_eq!(f(store.name_current("Safari")), 0.0);
}

#[test]
fn bounded_history_uses_vecdeque_limit() {
    let mut store = HistoryStore::new(3, 10);

    store.update(1, &vec![s(10, "Safari", 1.0)]);
    store.update(2, &vec![s(10, "Safari", 2.0)]);
    store.update(3, &vec![s(10, "Safari", 3.0)]);
    store.update(4, &vec![s(10, "Safari", 4.0)]);

    let values = store.name_recent_values("Safari", 10, 4);
    assert_eq!(fs(&values), vec![2.0, 3.0, 4.0]);
}

#[test]
fn computes_avg_and_peak() {
    let mut store = HistoryStore::new(16, 16);

    store.update(1, &vec![s(10, "Safari", 2.0)]);
    store.update(2, &vec![s(10, "Safari", 4.0)]);
    store.update(3, &vec![s(10, "Safari", 6.0)]);

    assert_eq!(f(store.name_avg("Safari", 2, 3)), 5.0);
    assert_eq!(f(store.name_peak("Safari", 3, 3)), 6.0);
}

#[test]
fn pid_recent_values_follow_exact_identity() {
    let mut store = HistoryStore::new(16, 16);
    let key = PidKey::new(10, "Safari");

    store.update(1, &vec![s(10, "Safari", 2.0)]);
    store.update(2, &vec![s(10, "Safari", 4.0)]);
    store.update(3, &vec![s(10, "Safari GPU", 7.0)]);

    assert_eq!(fs(&store.pid_recent_values(&key, 3, 3)), vec![2.0, 4.0, 0.0]);
}

#[test]
fn top_offenders_sorted_by_current_then_avg() {
    let mut store = HistoryStore::new(16, 16);

    store.update(
        1,
        &vec![
            s(10, "Safari", 6.0),
            s(11, "Mail", 3.0),
            s(12, "Slack", 3.0),
        ],
    );
    store.update(
        2,
        &vec![
            s(10, "Safari", 4.0),
            s(11, "Mail", 3.5),
            s(12, "Slack", 3.0),
        ],
    );

    let offenders = store.top_name_offenders(2, 2, 2, 3);
    assert_eq!(offenders.len(), 3);
    assert_eq!(offenders[0].name, "Safari");
    assert_eq!(offenders[1].name, "Mail");
    assert_eq!(offenders[2].name, "Slack");
}

#[test]
fn top_offenders_stop_at_the_limit_and_break_ties_by_name() {
    let mut store = HistoryStore::new(4, 4);
    store.update(
        1,
        &vec![s(1, "b", 1.0), s(2, "a", 1.0), s(3, "c", 2.0), s(4, "d", 0.5)],
    );

    let offenders = store.top_name_offenders(1, 1, 1, 3);
    let names: Vec<&str> = offenders.iter().map(|o| o.name.as_str()).collect();
    assert_eq!(names, vec!["c", "a", "b"]);
    assert_eq!(f(offenders[0].avg), 2.0);
    assert_eq!(f(offenders[0].peak), 2.0);
    assert_eq!(f(offenders[0].current), 2.0);
}

#[test]
fn a_series_holds_at_least_one_sample() {
    let mut store = HistoryStore::new(0, 4);
    let key = PidKey::new(1, "a");
    store.update(1, &vec![s(1, "a", 3.0)]);
    store.update(2, &vec![s(1, "a", 5.0)]);
    assert_eq!(fs(&store.pid_recent_values(&key, 10, 2)), vec![5.0]);
}

#[test]
fn a_process_seen_twice_at_a_tick_has_two_samples() {
    let mut store = HistoryStore::new(8, 8);
    let key = PidKey::new(1, "a");
    store.update(1, &vec![s(1, "a", 3.0), s(1, "a", 5.0)]);
    assert_eq!(fs(&store.pid_recent_values(&key, 1, 1)), vec![3.0, 5.0]);
    assert_eq!(f(store.name_current("a")), 8.0);
}

#[test]
fn an_unseen_series_lasts_until_it_is_stale() {
    let mut store = HistoryStore::new(8, 2);
    let key = PidKey::new(1, "a");
    store.update(1, &vec![s(1, "a", 3.0)]);
    store.update(2, &vec![]);
    store.update(3, &vec![]);
    assert_eq!(f(store.pid_peak(&key, 8, 3)), 3.0);
    store.update(4, &vec![]);
    assert_eq!(f(store.pid_peak(&key, 8, 4)), 0.0);
    assert_eq!(store.top_name_offenders(4, 4, 4, 9).len(), 0);
}
