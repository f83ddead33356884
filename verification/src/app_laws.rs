//! What holds of every session.
use vstd::prelude::*;

use crate::app_state::{
    AppModel, ProcessSort, ProcessTableRowModel, HISTORY_LIMIT, REFRESH_EVERY_SECS,
};
use crate::binary64::Binary64;
use crate::codec::CACHE_VERSION;
use crate::graph::GraphRange;
use crate::history::{HistoryModel, PidKeyModel};
use crate::persistence::{
    Interval, LiveProcessSampleModel, LiveSnapshotModel, LoadedSessionCacheModel,
    SessionCacheModel, MAX_REASONABLE_PERSISTED_POWER_BITS,
};
use crate::settings::{KeyCode, KeyEvent, KeyEventKind};
use crate::top_parse::{ProcRowModel, SnapshotModel};

verus! {

/// Whether the selection is on a row, or at the top of an empty table, and not scrolled past.
pub open spec fn selection_is_on_a_row(app: AppModel) -> bool {
    &&& !app.process_rows_dirty
    &&& app.process_selected < app.process_rows.len() || app.process_selected == 0
    &&& app.process_scroll <= app.process_selected
}

/// After a key that does not end the session and goes to the table or the filter, the rows are up
/// to date and the selection is on one of them.
pub proof fn law_keys_leave_selection_on_a_row(app: AppModel, key: KeyEvent)
    requires
        key.kind == KeyEventKind::Press,
        !app.quits(key),
        app.settings_modal is None,
    ensures
        selection_is_on_a_row(app.after_key(key)),
{
}

/// After a snapshot the rows are up to date and the selection is on one of them.
pub proof fn law_snapshots_leave_selection_on_a_row(
    app: AppModel,
    next: SnapshotModel,
    now_secs: u64,
)
    ensures
        selection_is_on_a_row(app.with_snapshot(next, now_secs)),
{
}

proof fn lemma_row_of_key(rows: Seq<ProcessTableRowModel>, key: PidKeyModel)
    ensures
        row_of_key_is_first(rows, key),
    decreases rows.len(),
{
    if rows.len() > 0 && rows[0].key != key {
        lemma_row_of_key(rows.skip(1), key);
        let at = crate::app_state::row_of_key(rows.skip(1), key);
        if at < rows.skip(1).len() {
            assert(rows[at as int + 1] == rows.skip(1)[at as int]);
        }
        assert forall|i: int| 0 <= i < rows.len() && (#[trigger] rows[i]).key == key implies i
            >= at + 1 by {
            assert(rows.skip(1)[i - 1] == rows[i]);
        }
    }
}

pub open spec fn row_of_key_is_first(rows: Seq<ProcessTableRowModel>, key: PidKeyModel) -> bool {
    let at = crate::app_state::row_of_key(rows, key);
    &&& at <= rows.len()
    &&& at < rows.len() ==> rows[at as int].key == key
    &&& forall|i: int| 0 <= i < rows.len() && (#[trigger] rows[i]).key == key ==> i >= at
}

/// Whether a process has a row.
pub open spec fn has_row(app: AppModel, key: PidKeyModel) -> bool {
    exists|i: int| 0 <= i < app.process_rows.len() && (#[trigger] app.process_rows[i]).key == key
}

/// The selection stays on its process when the table is sorted anew.
pub proof fn law_selection_follows_its_process_through_sorting(app: AppModel, key: PidKeyModel)
    requires
        app.selected_key() == Some(key),
        has_row(app.sort_cycled(), key),
        app.sort_cycled().process_rows.len() <= usize::MAX,
    ensures
        app.sort_cycled().selected_key() == Some(key),
{
    let after = app.sort_cycled();
    lemma_row_of_key(after.process_rows, key);
    let i = choose|i: int|
        0 <= i < after.process_rows.len() && (#[trigger] after.process_rows[i]).key == key;
    assert(crate::app_state::row_of_key(after.process_rows, key) <= i);
}

/// The selection stays on its process when a snapshot comes in, if the process is still there.
pub proof fn law_selection_follows_its_process_through_snapshots(
    app: AppModel,
    next: SnapshotModel,
    now_secs: u64,
    key: PidKeyModel,
)
    requires
        app.selected_key() == Some(key),
        has_row(app.with_snapshot(next, now_secs), key),
        app.with_snapshot(next, now_secs).process_rows.len() <= usize::MAX,
    ensures
        app.with_snapshot(next, now_secs).selected_key() == Some(key),
{
    let after = app.with_snapshot(next, now_secs);
    lemma_row_of_key(after.process_rows, key);
    let i = choose|i: int|
        0 <= i < after.process_rows.len() && (#[trigger] after.process_rows[i]).key == key;
    assert(crate::app_state::row_of_key(after.process_rows, key) <= i);
}

/// While a process is pinned, its details are held until `Enter`, and the keys that move the
/// selection do not.
pub proof fn law_pin_holds(app: AppModel, key: KeyEvent)
    requires
        app.pinned is Some,
    ensures
        key.code != KeyCode::Enter ==> app.after_key(key).pinned == app.pinned,
        (key.code == KeyCode::Down || key.code == KeyCode::Up || key.code == KeyCode::Char('j')
            || key.code == KeyCode::Char('k') || key.code == KeyCode::Char('g') || key.code
            == KeyCode::Char('G')) && selection_is_on_a_row(app) && app.process_filter_input is None
            ==> app.after_key(key).process_selected == app.process_selected,
{
}

/// A snapshot leaves a pinned process pinned.
pub proof fn law_pin_outlasts_snapshots(app: AppModel, next: SnapshotModel, now_secs: u64)
    ensures
        app.with_snapshot(next, now_secs).pinned == app.pinned,
{
}

/// Pinning and then unpinning leaves nothing pinned.
pub proof fn law_pin_toggles(app: AppModel)
    requires
        app.pinned is None,
    ensures
        app.pin_toggled().pinned == app.selected_key(),
        app.pin_toggled().pinned is Some ==> app.pin_toggled().pin_toggled().pinned is None,
{
}

/// `Esc` ends the typing of a filter and keeps the one that was applied; `Enter` applies what was
/// typed.
pub proof fn law_filter_typing_ends(app: AppModel, input: Seq<char>)
    ensures
        app.filter_typed(input, KeyCode::Esc).process_filter_input is None,
        app.filter_typed(input, KeyCode::Esc).process_filter_query == app.process_filter_query,
        app.filter_typed(input, KeyCode::Enter).process_filter_input is None,
        app.filter_typed(input, KeyCode::Enter).process_filter_query == input,
{
}

/// Clearing the filter leaves none.
pub proof fn law_clearing_leaves_no_filter(app: AppModel)
    requires
        app.process_filter_input is None,
    ensures
        app.filter_cleared().active_filter().len() == 0,
        app.filter_cleared().filter_cleared() == app.filter_cleared(),
{
}

/// A key that is held or released does nothing.
pub proof fn law_only_presses_count(app: AppModel, key: KeyEvent)
    requires
        key.kind != KeyEventKind::Press,
    ensures
        app.after_key(key) == app,
        !app.quits(key),
{
}

/// While a dialog or the filter is open, no key ends the session.
pub proof fn law_typing_does_not_quit(app: AppModel, key: KeyEvent)
    requires
        app.settings_modal is Some || app.process_filter_input is Some,
    ensures
        !app.quits(key),
{
}

/// Leaving the settings dialog without applying it leaves the settings as they were, and whatever
/// is applied is sound.
pub proof fn law_settings_change_only_when_sound(app: AppModel, key: KeyEvent)
    ensures
        app.after_key(key).settings != app.settings ==> app.settings_modal is Some && app.after_key(
            key,
        ).settings_modal is None && app.after_key(key).settings.graph_heat.fault() is None,
{
}

/// Going through the ranges and the orders comes back to the first.
pub proof fn law_cycles_close(range: GraphRange, sort: ProcessSort)
    ensures
        range.following().following().following().following() == range,
        sort.following().following().following() == sort,
        range.following() != range,
        sort.following() != sort,
{
}

/// What a session keeps of its past stays bounded.
pub proof fn law_past_is_bounded(app: AppModel, next: SnapshotModel, now_secs: u64)
    requires
        app.archive.bounded(),
    ensures
        app.with_snapshot(next, now_secs).power_history.len() <= HISTORY_LIMIT,
        app.with_snapshot(next, now_secs).live_snapshot_history.len() <= HISTORY_LIMIT,
        app.with_snapshot(next, now_secs).archive.bounded(),
        app.with_snapshot(next, now_secs).power_history.last() == next.total_power,
{
}

/// Whether no figure of the rows is undefined.
pub open spec fn figures_are_numbers(rows: Seq<ProcessTableRowModel>) -> bool {
    forall|row: ProcessTableRowModel| #[trigger]
        rows.contains(row) ==> !row.current.nan() && !row.avg.nan() && !row.peak.nan()
}

proof fn lemma_row_above(
    sort: ProcessSort,
    a: ProcessTableRowModel,
    b: ProcessTableRowModel,
    c: ProcessTableRowModel,
)
    requires
        !a.current.nan() && !b.current.nan() && !c.current.nan(),
        !a.avg.nan() && !b.avg.nan() && !c.avg.nan(),
        !a.peak.nan() && !b.peak.nan() && !c.peak.nan(),
    ensures
        crate::app_state::row_above(sort, a, b) ==> !crate::app_state::row_above(sort, b, a),
        crate::app_state::row_above(sort, a, b) && !crate::app_state::row_above(sort, c, b)
            ==> crate::app_state::row_above(sort, a, c),
{
    crate::text::law_text_order_is_total(a.key.process, b.key.process, c.key.process);
    crate::text::law_text_order_is_total(b.key.process, c.key.process, a.key.process);
    crate::text::law_text_order_is_total(c.key.process, a.key.process, b.key.process);
    crate::text::law_text_order_is_total(c.key.process, b.key.process, a.key.process);
    crate::text::law_text_order_is_total(b.key.process, a.key.process, c.key.process);
    crate::text::law_text_order_is_total(a.key.process, c.key.process, b.key.process);
}

/// The table shows the rows that pass the filter, all of them and no others, in order.
pub proof fn law_table_shows_what_passes(app: AppModel)
    requires
        figures_are_numbers(
            crate::app_state::listed(
                app.snapshot.rows,
                app.history_store,
                app.tick,
                app.filter_text(),
            ),
        ),
    ensures
        crate::sort::in_order(
            app.wanted_rows(),
            crate::app_state::rows_above(app.process_sort),
        ),
        forall|row: ProcRowModel| #[trigger]
            app.snapshot.rows.contains(row) && crate::app_state::passes(row, app.filter_text())
                ==> app.wanted_rows().contains(
                crate::app_state::table_row(row, app.history_store, app.tick),
            ),
        forall|shown: ProcessTableRowModel| #[trigger]
            app.wanted_rows().contains(shown) ==> exists|row: ProcRowModel| #[trigger]
                app.snapshot.rows.contains(row) && crate::app_state::passes(row, app.filter_text())
                    && shown == crate::app_state::table_row(row, app.history_store, app.tick),
{
    let rows = crate::app_state::listed(
        app.snapshot.rows,
        app.history_store,
        app.tick,
        app.filter_text(),
    );
    let lt = crate::app_state::rows_above(app.process_sort);
    assert(crate::sort::orders(rows, lt)) by {
        assert forall|a: ProcessTableRowModel, b: ProcessTableRowModel|
            rows.contains(a) && rows.contains(b) && #[trigger] lt(a, b) implies !lt(b, a) by {
            lemma_row_above(app.process_sort, a, b, a);
        }
        assert forall|
            a: ProcessTableRowModel,
            b: ProcessTableRowModel,
            c: ProcessTableRowModel,
        |
            rows.contains(a) && rows.contains(b) && rows.contains(c) && #[trigger] lt(a, b)
                && !#[trigger] lt(c, b) implies lt(a, c) by {
            lemma_row_above(app.process_sort, a, b, c);
        }
    }
    crate::sort::law_sorting_orders(rows, lt);
    crate::sort::law_sorting_keeps_items(rows, lt);
    lemma_listed(app.snapshot.rows, app.history_store, app.tick, app.filter_text());
}

proof fn lemma_all_listed(rows: Seq<ProcRowModel>, history: HistoryModel, tick: u64)
    ensures
        crate::app_state::listed(rows, history, tick, Seq::empty()) == rows.map_values(
            |row: ProcRowModel| crate::app_state::table_row(row, history, tick),
        ),
    decreases rows.len(),
{
    let shown = |row: ProcRowModel| crate::app_state::table_row(row, history, tick);
    if rows.len() > 0 {
        lemma_all_listed(rows.drop_last(), history, tick);
        assert(rows.map_values(shown) =~= rows.drop_last().map_values(shown).push(
            shown(rows.last()),
        ));
    } else {
        assert(rows.map_values(shown) =~= Seq::empty());
    }
}

/// With no filter but white space, the table shows every process of the snapshot, each as often as
/// it is there.
pub proof fn law_unfiltered_table_shows_every_process(app: AppModel)
    requires
        crate::text::trimmed(app.active_filter()).len() == 0,
    ensures
        app.wanted_rows().len() == app.snapshot.rows.len(),
        app.wanted_rows().to_multiset() == app.snapshot.rows.map_values(
            |row: ProcRowModel|
                crate::app_state::table_row(row, app.history_store, app.tick),
        ).to_multiset(),
{
    lemma_all_listed(app.snapshot.rows, app.history_store, app.tick);
    let rows = crate::app_state::listed(
        app.snapshot.rows,
        app.history_store,
        app.tick,
        app.filter_text(),
    );
    crate::sort::law_sorting_keeps_items(rows, crate::app_state::rows_above(app.process_sort));
}

pub proof fn lemma_listed(
    rows: Seq<ProcRowModel>,
    history: HistoryModel,
    tick: u64,
    filter: Seq<char>,
)
    ensures
        forall|row: ProcRowModel| #[trigger]
            rows.contains(row) && crate::app_state::passes(row, filter)
                ==> crate::app_state::listed(rows, history, tick, filter).contains(
                crate::app_state::table_row(row, history, tick),
            ),
        forall|shown: ProcessTableRowModel| #[trigger]
            crate::app_state::listed(rows, history, tick, filter).contains(shown) ==> exists|
                row: ProcRowModel,
            | #[trigger]
                rows.contains(row) && crate::app_state::passes(row, filter) && shown
                    == crate::app_state::table_row(row, history, tick),
    decreases rows.len(),
{
    if rows.len() > 0 {
        let front = rows.drop_last();
        lemma_listed(front, history, tick, filter);
        let before = crate::app_state::listed(front, history, tick, filter);
        let after = crate::app_state::listed(rows, history, tick, filter);
        let last = crate::app_state::table_row(rows.last(), history, tick);
        assert forall|row: ProcRowModel| #[trigger]
            rows.contains(row) && crate::app_state::passes(row, filter) implies after.contains(
            crate::app_state::table_row(row, history, tick),
        ) by {
            let k = choose|k: int| 0 <= k < rows.len() && rows[k] == row;
            let made = crate::app_state::table_row(row, history, tick);
            if k < front.len() {
                assert(front[k] == row);
                assert(front.contains(row));
                assert(before.contains(made));
                let j = choose|j: int| 0 <= j < before.len() && before[j] == made;
                assert(after[j] == made);
            } else {
                assert(after[after.len() - 1] == made);
            }
        }
        assert forall|shown: ProcessTableRowModel| #[trigger]
            after.contains(shown) implies exists|row: ProcRowModel| #[trigger]
            rows.contains(row) && crate::app_state::passes(row, filter) && shown
                == crate::app_state::table_row(row, history, tick) by {
            let j = choose|j: int| 0 <= j < after.len() && after[j] == shown;
            if j < before.len() {
                assert(before[j] == shown);
                assert(before.contains(shown));
                let row = choose|row: ProcRowModel| #[trigger]
                    front.contains(row) && crate::app_state::passes(row, filter) && shown
                        == crate::app_state::table_row(row, history, tick);
                let k = choose|k: int| 0 <= k < front.len() && front[k] == row;
                assert(rows[k] == row);
                assert(rows.contains(row));
            } else {
                assert(rows[rows.len() - 1] == rows.last());
                assert(rows.contains(rows.last()));
            }
        }
    }
}

proof fn lemma_sorted_stays(snapshots: Seq<LiveSnapshotModel>)
    requires
        crate::sort::in_order(snapshots, crate::app_state::by_tick()),
    ensures
        crate::sort::sorted(snapshots, crate::app_state::by_tick()) == snapshots,
    decreases snapshots.len(),
{
    if snapshots.len() > 0 {
        let front = snapshots.drop_last();
        let lt = crate::app_state::by_tick();
        assert forall|i: int, j: int| 0 <= i < j < front.len() implies !lt(
            #[trigger] front[j],
            #[trigger] front[i],
        ) by {
            assert(!lt(snapshots[j], snapshots[i]));
        }
        lemma_sorted_stays(front);
        let n = snapshots.len() as int;
        if n > 1 {
            assert(!lt(snapshots[n - 1], snapshots[n - 2]));
        }
        assert(snapshots =~= front.push(snapshots.last()));
    }
}

/// A session that is saved and read back in time carries on with the same history.
pub proof fn law_session_carries_on(app: AppModel, fresh: AppModel, now_millis: u64, gap: u64)
    requires
        app.power_history.len() <= HISTORY_LIMIT,
        app.live_snapshot_history.len() <= HISTORY_LIMIT,
        crate::sort::in_order(app.live_snapshot_history, crate::app_state::by_tick()),
        app.live_snapshot_history.len() > 0 ==> app.live_snapshot_history.last().tick <= app.tick,
    ensures
        ({
            let after = fresh.with_loaded(
                LoadedSessionCacheModel {
                    cache: app.saved(now_millis),
                    gap_millis: gap,
                    hydrate_live: true,
                },
            );
            &&& after.power_history == app.power_history
            &&& after.live_snapshot_history == app.live_snapshot_history
            &&& after.archive == app.archive
            &&& after.tick == app.tick
            &&& after.history_store == crate::app_state::history_of(app.live_snapshot_history)
        }),
{
    lemma_sorted_stays(app.live_snapshot_history);
}

/// A session that is read back too late keeps the archive and nothing else.
pub proof fn law_late_session_keeps_the_archive_alone(
    fresh: AppModel,
    loaded: LoadedSessionCacheModel,
)
    requires
        !loaded.hydrate_live,
    ensures
        fresh.with_loaded(loaded) == (AppModel { archive: loaded.cache.archive, ..fresh }),
{
}

/// Whether the power history tells what the live snapshots add up to, both within bounds, and the
/// snapshots stand in the order of their ticks, none past the present one.
pub open spec fn coherent(app: AppModel) -> bool {
    &&& app.power_history.len() == app.live_snapshot_history.len()
    &&& app.power_history.len() <= HISTORY_LIMIT
    &&& forall|i: int|
        0 <= i < app.power_history.len() ==> #[trigger] app.power_history[i]
            == crate::binary64::total(
            crate::persistence::powers(app.live_snapshot_history[i].samples),
        )
    &&& crate::sort::in_order(app.live_snapshot_history, crate::app_state::by_tick())
    &&& forall|i: int|
        0 <= i < app.live_snapshot_history.len() ==> (
        #[trigger] app.live_snapshot_history[i]).tick <= app.tick
}

/// A new session is coherent, and stays so with every snapshot whose total is that of its rows,
/// until the ticks start over.
pub proof fn law_sessions_stay_coherent(app: AppModel, rows: Seq<ProcRowModel>, now_secs: u64)
    requires
        coherent(app),
        app.tick < u64::MAX,
    ensures
        coherent(AppModel::initial()),
        coherent(app.with_snapshot(crate::top_parse::snapshot_of(rows), now_secs)),
{
    let next = crate::top_parse::snapshot_of(rows);
    let after = app.with_snapshot(next, now_secs);
    let samples = crate::app_state::live_samples(rows);
    let tick = (app.tick + 1) as u64;
    let lt = crate::app_state::by_tick();
    let last = LiveSnapshotModel { tick, samples };
    let longer = app.live_snapshot_history.push(last);
    let more = app.power_history.push(next.total_power);
    assert(crate::persistence::powers(samples) =~= crate::top_parse::row_powers(rows));
    assert(after.live_snapshot_history == crate::lists::newest(longer, HISTORY_LIMIT as nat));
    assert(after.power_history == crate::lists::newest(more, HISTORY_LIMIT as nat));
    assert(after.tick == tick);
    let dropped: int = longer.len() - after.live_snapshot_history.len();
    assert forall|i: int| 0 <= i < after.live_snapshot_history.len() implies (
    #[trigger] after.live_snapshot_history[i]).tick <= after.tick by {
        assert(after.live_snapshot_history[i] == longer[i + dropped]);
        if i + dropped < app.live_snapshot_history.len() {
            assert(app.live_snapshot_history[i + dropped].tick <= app.tick);
        }
    }
    assert forall|i: int, j: int| 0 <= i < j < after.live_snapshot_history.len() implies !lt(
        #[trigger] after.live_snapshot_history[j],
        #[trigger] after.live_snapshot_history[i],
    ) by {
        assert(after.live_snapshot_history[i] == longer[i + dropped]);
        assert(after.live_snapshot_history[j] == longer[j + dropped]);
        assert(longer[i + dropped] == app.live_snapshot_history[i + dropped]);
        if j + dropped < app.live_snapshot_history.len() {
            assert(!lt(
                app.live_snapshot_history[j + dropped],
                app.live_snapshot_history[i + dropped],
            ));
        } else {
            assert(app.live_snapshot_history[i + dropped].tick <= app.tick);
        }
    }
    assert forall|i: int| 0 <= i < after.power_history.len() implies #[trigger] after.power_history[i]
        == crate::binary64::total(
        crate::persistence::powers(after.live_snapshot_history[i].samples),
    ) by {
        assert(after.power_history[i] == more[i + dropped]);
        assert(after.live_snapshot_history[i] == longer[i + dropped]);
        if i + dropped < app.power_history.len() {
            assert(more[i + dropped] == app.power_history[i + dropped]);
        }
    }
}

/// Whether every live sample draws what a machine may.
pub open spec fn all_reasonable(snapshots: Seq<LiveSnapshotModel>) -> bool {
    forall|i: int, j: int|
        #![trigger snapshots[i].samples[j]]
        0 <= i < snapshots.len() && 0 <= j < snapshots[i].samples.len()
            ==> crate::persistence::reasonable(
            snapshots[i].samples[j].power,
            Binary64 { bits: MAX_REASONABLE_PERSISTED_POWER_BITS },
        )
}

proof fn lemma_all_kept(samples: Seq<LiveProcessSampleModel>, max: Binary64)
    requires
        forall|j: int|
            0 <= j < samples.len() ==> crate::persistence::reasonable(
                (#[trigger] samples[j]).power,
                max,
            ),
    ensures
        samples.filter(crate::persistence::sample_kept(max)) == samples,
    decreases samples.len(),
{
    reveal(Seq::filter);
    if samples.len() > 0 {
        let front = samples.drop_last();
        assert forall|j: int| 0 <= j < front.len() implies crate::persistence::reasonable(
            (#[trigger] front[j]).power,
            max,
        ) by {
            assert(crate::persistence::reasonable(samples[j].power, max));
        }
        lemma_all_kept(front, max);
        assert(crate::persistence::reasonable(samples[samples.len() - 1].power, max));
        assert(samples =~= front.push(samples.last()));
    }
}

proof fn lemma_clean_live_part_stays(cache: SessionCacheModel)
    requires
        all_reasonable(cache.live_snapshots),
        cache.live_power_history.len() == cache.live_snapshots.len(),
        forall|i: int|
            0 <= i < cache.live_power_history.len() ==> #[trigger] cache.live_power_history[i]
                == crate::binary64::total(
                crate::persistence::powers(cache.live_snapshots[i].samples),
            ),
    ensures
        ({
            let clean = cache.sanitized(Binary64 { bits: MAX_REASONABLE_PERSISTED_POWER_BITS });
            clean.live_snapshots == cache.live_snapshots && clean.live_power_history
                == cache.live_power_history
        }),
{
    let max = Binary64 { bits: MAX_REASONABLE_PERSISTED_POWER_BITS };
    let clean = cache.sanitized(max);
    assert forall|i: int| 0 <= i < cache.live_snapshots.len() implies clean.live_snapshots[i]
        == cache.live_snapshots[i] by {
        let samples = cache.live_snapshots[i].samples;
        assert forall|j: int| 0 <= j < samples.len() implies crate::persistence::reasonable(
            (#[trigger] samples[j]).power,
            max,
        ) by {
            assert(crate::persistence::reasonable(cache.live_snapshots[i].samples[j].power, max));
        }
        lemma_all_kept(samples, max);
    }
    assert(clean.live_snapshots =~= cache.live_snapshots);
    reveal(Seq::filter);
    assert(clean.live_power_history =~= cache.live_power_history);
}

/// A session that is saved, and read back before the pause is too long, carries on with the live
/// history that it had.
pub proof fn law_session_survives_saving(
    app: AppModel,
    fresh: AppModel,
    saved_millis: u64,
    now_millis: u64,
)
    requires
        coherent(app),
        all_reasonable(app.live_snapshot_history),
        crate::decoder::readable(app.saved(saved_millis).prepared()),
        now_millis <= saved_millis + 6000,
    ensures
        ({
            let bytes = crate::codec::session_bytes(
                app.saved(saved_millis).prepared(),
                CACHE_VERSION,
            );
            let refresh = Interval { secs: REFRESH_EVERY_SECS, subsec_nanos: 0 };
            crate::decoder::parse_session(bytes) matches Ok((cache, _)) && {
                let loaded = crate::decoder::loaded(
                    cache,
                    now_millis,
                    refresh,
                    HISTORY_LIMIT as nat,
                );
                let after = fresh.with_loaded(loaded);
                &&& loaded.hydrate_live
                &&& after.power_history == app.power_history
                &&& after.live_snapshot_history == app.live_snapshot_history
                &&& after.tick == app.tick
                &&& after.history_store == crate::app_state::history_of(app.live_snapshot_history)
            }
        }),
{
    let cache = app.saved(saved_millis);
    let prepared = cache.prepared();
    lemma_clean_live_part_stays(cache);
    assert(prepared.live_snapshots == app.live_snapshot_history);
    assert(prepared.live_power_history == app.power_history);
    crate::decoder::law_saved_caches_read_back(cache);
    let stored = crate::decoder::stored(prepared, CACHE_VERSION);
    lemma_clean_live_part_stays(stored);
    lemma_sorted_stays(app.live_snapshot_history);
    if app.live_snapshot_history.len() > 0 {
        let n = app.live_snapshot_history.len() as int;
        assert(app.live_snapshot_history[n - 1].tick <= app.tick);
    }
}

} // verus!
