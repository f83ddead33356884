//! What holds of a session as it goes on: its refreshes and its keys.
use vstd::prelude::*;

use crate::app_state::{AppModel, ProcessSort};
use crate::binary64::Binary64;
use crate::graph::GraphRange;
use crate::history_laws::last_of;
use crate::persistence::{LiveSnapshotModel, LoadedSessionCacheModel, SessionCacheModel};
use crate::settings::{KeyCode, KeyEvent, KeyEventKind};
use crate::top_parse::SnapshotModel;

verus! {

/// Whether two sessions differ in nothing but what the table shows: its rows, the selection and how
/// far it is scrolled.
pub open spec fn alike_but_for_the_table(a: AppModel, b: AppModel) -> bool {
    &&& a.snapshot == b.snapshot
    &&& a.last_error == b.last_error
    &&& a.loading == b.loading
    &&& a.paused == b.paused
    &&& a.settings == b.settings
    &&& a.settings_modal == b.settings_modal
    &&& a.pinned == b.pinned
    &&& a.process_filter_query == b.process_filter_query
    &&& a.process_filter_input == b.process_filter_input
    &&& a.process_sort == b.process_sort
    &&& a.power_history == b.power_history
    &&& a.live_snapshot_history == b.live_snapshot_history
    &&& a.archive == b.archive
    &&& a.graph_range == b.graph_range
    &&& a.show_graph == b.show_graph
    &&& a.show_table == b.show_table
    &&& a.tick == b.tick
    &&& a.history_store == b.history_store
}

/// A refresh brings in its snapshot: it counts as one more tick, its total is put behind the power
/// history and its rows behind the live snapshots, of which the last two hundred and forty are kept,
/// and all else of the session stays. The table is that of the new snapshot.
pub proof fn law_refreshes_are_recorded(app: AppModel, next: SnapshotModel, now_secs: u64)
    ensures
        ({
            let after = app.with_snapshot(next, now_secs);
            let tick = if app.tick < u64::MAX {
                app.tick + 1
            } else {
                0
            };
            let newest = after.live_snapshot_history.last();
            &&& after.snapshot == next
            &&& after.last_error is None
            &&& !after.loading
            &&& after.tick == tick
            &&& after.power_history == last_of(app.power_history.push(next.total_power), 240)
            &&& after.live_snapshot_history == last_of(app.live_snapshot_history.push(newest), 240)
            &&& newest.tick == tick
            &&& newest.samples.len() == next.rows.len()
            &&& forall|i: int|
                0 <= i < next.rows.len() ==> (#[trigger] newest.samples[i]).pid == next.rows[i].pid
                    && newest.samples[i].process == next.rows[i].process && newest.samples[i].power
                    == next.rows[i].power_num
            &&& after.history_store == crate::app_state::fed(
                app.history_store,
                tick as u64,
                newest.samples,
            )
            &&& after.archive == app.archive.recorded(
                now_secs,
                6,
                next.total_power,
                crate::persistence::grouped_sums(
                    crate::persistence::samples_by_name(newest.samples),
                ),
                crate::persistence::processes_entered(
                    Seq::empty(),
                    crate::persistence::samples_by_process(newest.samples),
                ),
            )
            &&& after.process_rows == after.wanted_rows()
            &&& !after.process_rows_dirty
            &&& alike_but_for_the_table(
                after,
                AppModel {
                    snapshot: after.snapshot,
                    last_error: after.last_error,
                    loading: after.loading,
                    tick: after.tick,
                    power_history: after.power_history,
                    live_snapshot_history: after.live_snapshot_history,
                    history_store: after.history_store,
                    archive: after.archive,
                    ..app
                },
            )
        }),
{
    let after = app.with_snapshot(next, now_secs);
    let samples = crate::app_state::live_samples(next.rows);
    let tick: u64 = if app.tick < u64::MAX {
        (app.tick + 1) as u64
    } else {
        0
    };
    let newest = LiveSnapshotModel { tick, samples };
    assert(after.power_history =~= last_of(app.power_history.push(next.total_power), 240));
    assert(after.live_snapshot_history =~= last_of(
        app.live_snapshot_history.push(newest),
        240,
    ));
    assert(after.live_snapshot_history.last() == newest);
}

/// What a refresh hands to the history are its processes: each with its number, its name and its
/// power, and each name with the same power.
pub proof fn law_refreshes_feed_the_history(
    history: crate::history::HistoryModel,
    tick: u64,
    samples: Seq<crate::persistence::LiveProcessSampleModel>,
    i: int,
)
    requires
        0 <= i < samples.len(),
    ensures
        ({
            let keys = crate::app_state::live_keys(samples);
            let names = crate::app_state::live_names(samples);
            let powers = crate::persistence::powers(samples);
            &&& crate::app_state::fed(history, tick, samples) == history.updated(
                tick,
                keys,
                names,
                powers,
            )
            &&& keys.len() == samples.len() && names.len() == samples.len() && powers.len()
                == samples.len()
            &&& keys[i].pid == samples[i].pid
            &&& keys[i].process == samples[i].process
            &&& names[i] == samples[i].process
            &&& powers[i] == samples[i].power
        }),
{
}

/// A refresh that failed is reported, and changes nothing else.
pub proof fn law_failed_refreshes_are_reported(app: AppModel, message: Seq<char>)
    ensures
        app.with_error(message) == (AppModel {
            loading: false,
            last_error: Some("refresh failed: "@ + message),
            ..app
        }),
{
}

/// A new session shows everything and has seen nothing: both panels, the shortest range, sorted by
/// current power, with a history of two hundred and forty ticks.
pub proof fn law_new_sessions_have_seen_nothing()
    ensures
        ({
            let app = AppModel::initial();
            &&& app.show_graph && app.show_table
            &&& app.loading && !app.paused
            &&& app.graph_range == GraphRange::Minutes8
            &&& app.process_sort == ProcessSort::Current
            &&& app.tick == 0
            &&& app.pinned is None && app.last_error is None && app.settings_modal is None
                && app.process_filter_input is None
            &&& app.process_filter_query.len() == 0 && app.process_rows.len() == 0
                && app.power_history.len() == 0 && app.live_snapshot_history.len() == 0
                && app.snapshot.rows.len() == 0
            &&& app.history_store.max_samples == 240
            &&& app.history_store.stale_after_ticks == 240
            &&& app.history_store.by_pid == Map::<
                crate::history::PidKeyModel,
                crate::history::SeriesModel,
            >::empty()
            &&& app.archive.raw_2s.len() == 0 && app.archive.agg_10s.len() == 0
                && app.archive.agg_60s.len() == 0 && app.archive.last_sample_unix_secs is None
        }),
{
}

/// A key that is pressed while neither a dialog is open nor a filter is typed.
pub open spec fn typed(app: AppModel, code: KeyCode) -> AppModel {
    app.after_key(KeyEvent { code, kind: KeyEventKind::Press })
}

pub open spec fn at_the_table(app: AppModel) -> bool {
    app.settings_modal is None && app.process_filter_input is None
}

/// `q` ends the session, and no other key does.
pub proof fn law_q_quits(app: AppModel, key: KeyEvent)
    ensures
        app.quits(key) <==> key.kind == KeyEventKind::Press && at_the_table(app) && (key.code
            == KeyCode::Char('q') || key.code == KeyCode::Char('Q')),
        app.key_step(key).quit == app.quits(key),
{
}

/// `p` pauses and resumes, and the collector is told so.
pub proof fn law_p_pauses(app: AppModel, code: KeyCode)
    requires
        at_the_table(app),
        code == KeyCode::Char('p') || code == KeyCode::Char('P'),
    ensures
        alike_but_for_the_table(typed(app, code), AppModel { paused: !app.paused, ..app }),
        app.key_step(KeyEvent { code, kind: KeyEventKind::Press }).set_paused == Some(!app.paused),
{
}

/// Only `p` changes whether a session is paused.
pub proof fn law_other_keys_do_not_pause(app: AppModel, key: KeyEvent)
    requires
        !(key.code == KeyCode::Char('p') || key.code == KeyCode::Char('P')) || !at_the_table(app),
    ensures
        app.after_key(key).paused == app.paused,
        app.key_step(key).set_paused is None,
{
}

/// `1` and `2` show and hide the graph and the table.
pub proof fn law_digits_show_and_hide_panels(app: AppModel)
    requires
        at_the_table(app),
    ensures
        alike_but_for_the_table(
            typed(app, KeyCode::Char('1')),
            AppModel { show_graph: !app.show_graph, ..app },
        ),
        alike_but_for_the_table(
            typed(app, KeyCode::Char('2')),
            AppModel { show_table: !app.show_table, ..app },
        ),
{
}

/// `r` goes on to the next longer range, and from the longest to the shortest.
pub proof fn law_r_goes_to_the_next_range(app: AppModel, code: KeyCode)
    requires
        at_the_table(app),
        code == KeyCode::Char('r') || code == KeyCode::Char('R'),
    ensures
        alike_but_for_the_table(
            typed(app, code),
            AppModel { graph_range: typed(app, code).graph_range, ..app },
        ),
        app.graph_range == GraphRange::Minutes8 ==> typed(app, code).graph_range
            == GraphRange::Minutes30,
        app.graph_range == GraphRange::Minutes30 ==> typed(app, code).graph_range
            == GraphRange::Hours3,
        app.graph_range == GraphRange::Hours3 ==> typed(app, code).graph_range
            == GraphRange::Hours12,
        app.graph_range == GraphRange::Hours12 ==> typed(app, code).graph_range
            == GraphRange::Minutes8,
{
}

/// `s` sorts by the next figure, and the table is sorted by it at once.
pub proof fn law_s_sorts_by_the_next_figure(app: AppModel, code: KeyCode)
    requires
        at_the_table(app),
        code == KeyCode::Char('s') || code == KeyCode::Char('S'),
    ensures
        ({
            let after = typed(app, code);
            &&& alike_but_for_the_table(after, AppModel { process_sort: after.process_sort, ..app })
            &&& app.process_sort == ProcessSort::Current ==> after.process_sort
                == ProcessSort::Avg2m
            &&& app.process_sort == ProcessSort::Avg2m ==> after.process_sort == ProcessSort::Peak
            &&& app.process_sort == ProcessSort::Peak ==> after.process_sort
                == ProcessSort::Current
            &&& after.process_rows == after.wanted_rows()
        }),
{
}

/// The rows that the table has, before a key and after it.
pub open spec fn row_count(app: AppModel) -> int {
    app.shown_rows().len() as int
}

/// `j` and `k` move the selection by one row, no further than the last and the first; `g` and `G` go
/// to those. While a process is pinned the selection stays where it is.
pub proof fn law_keys_move_the_selection(app: AppModel, code: KeyCode)
    requires
        at_the_table(app),
        row_count(app) > 0,
        app.process_selected < row_count(app),
        row_count(app) <= usize::MAX,
    ensures
        ({
            let after = typed(app, code).process_selected;
            let last = row_count(app) - 1;
            let at = app.process_selected;
            let free = app.pinned is None;
            &&& (code == KeyCode::Char('j') || code == KeyCode::Down) && free ==> after == if at
                < last {
                at + 1
            } else {
                last
            }
            &&& (code == KeyCode::Char('k') || code == KeyCode::Up) && free ==> after == if at > 0 {
                at - 1
            } else {
                0
            }
            &&& code == KeyCode::Char('g') && free ==> after == 0
            &&& code == KeyCode::Char('G') && free ==> after == last
            &&& (code == KeyCode::Char('j') || code == KeyCode::Down || code == KeyCode::Char('k')
                || code == KeyCode::Up || code == KeyCode::Char('g') || code == KeyCode::Char('G'))
                ==> alike_but_for_the_table(typed(app, code), app) && typed(app, code).process_rows
                == app.shown_rows() && (!free ==> after == at)
        }),
{
}

/// `Enter` pins the selected process, or unpins the one that is pinned.
pub proof fn law_enter_pins_the_selected_process(app: AppModel)
    requires
        at_the_table(app),
    ensures
        ({
            let after = typed(app, KeyCode::Enter);
            &&& alike_but_for_the_table(after, AppModel { pinned: after.pinned, ..app })
            &&& app.pinned is Some ==> after.pinned is None
            &&& app.pinned is None && app.process_selected < row_count(app) ==> after.pinned
                == Some(app.shown_rows()[app.process_selected as int].key)
            &&& app.pinned is None && app.process_selected >= row_count(app)
                ==> after.pinned is None
        }),
{
}

/// `f` starts typing, from the filter that is set; `d` takes it away.
pub proof fn law_f_and_d_are_for_the_filter(app: AppModel)
    requires
        at_the_table(app),
    ensures
        app.show_table ==> alike_but_for_the_table(
            typed(app, KeyCode::Char('f')),
            AppModel { process_filter_input: Some(app.process_filter_query), ..app },
        ),
        !app.show_table ==> alike_but_for_the_table(typed(app, KeyCode::Char('f')), app),
        alike_but_for_the_table(
            typed(app, KeyCode::Char('d')),
            AppModel { process_filter_query: Seq::empty(), ..app },
        ),
{
    if app.process_filter_query.len() == 0 {
        assert(app.process_filter_query =~= Seq::empty());
    }
}

/// While a filter is typed, a character is put behind it and the last one is taken back; `Enter` sets
/// it and `Esc` leaves the one that was set. The table follows at once.
pub proof fn law_filters_are_typed(app: AppModel, input: Seq<char>, c: char)
    requires
        app.settings_modal is None,
        app.process_filter_input == Some(input),
    ensures
        alike_but_for_the_table(
            typed(app, KeyCode::Char(c)),
            AppModel { process_filter_input: Some(input.push(c)), ..app },
        ),
        alike_but_for_the_table(
            typed(app, KeyCode::Backspace),
            AppModel {
                process_filter_input: Some(
                    if input.len() > 0 {
                        input.take(input.len() - 1)
                    } else {
                        input
                    },
                ),
                ..app
            },
        ),
        alike_but_for_the_table(
            typed(app, KeyCode::Enter),
            AppModel { process_filter_query: input, process_filter_input: None, ..app },
        ),
        alike_but_for_the_table(
            typed(app, KeyCode::Esc),
            AppModel { process_filter_input: None, ..app },
        ),
        typed(app, KeyCode::Char(c)).process_rows == typed(app, KeyCode::Char(c)).wanted_rows(),
        typed(app, KeyCode::Backspace).process_rows == typed(
            app,
            KeyCode::Backspace,
        ).wanted_rows(),
        typed(app, KeyCode::Enter).process_rows == typed(app, KeyCode::Enter).wanted_rows(),
        typed(app, KeyCode::Esc).process_rows == typed(app, KeyCode::Esc).wanted_rows(),
{
    if input.len() > 0 {
        assert(input.drop_last() =~= input.take(input.len() - 1));
    }
}

/// `m` opens the dialog with the settings as they are.
pub proof fn law_m_opens_the_dialog(app: AppModel, code: KeyCode)
    requires
        at_the_table(app),
        code == KeyCode::Char('m') || code == KeyCode::Char('M'),
    ensures
        ({
            let after = typed(app, code);
            &&& alike_but_for_the_table(
                after,
                AppModel { settings_modal: after.settings_modal, ..app },
            )
            &&& after.settings_modal is Some
            &&& after.settings_modal->0.draft == app.settings
            &&& after.settings_modal->0.editing is None
            &&& after.settings_modal->0.error is None
            &&& after.settings_modal->0.selected == 0
        }),
{
}

/// What is saved of a session: the time, its tick, its power history, its live snapshots and its
/// archive.
pub proof fn law_saving_keeps_the_session(app: AppModel, now_millis: u64)
    ensures
        app.saved(now_millis) == (SessionCacheModel {
            saved_at_unix_millis: now_millis,
            last_tick: app.tick,
            live_power_history: app.power_history,
            live_snapshots: app.live_snapshot_history,
            archive: app.archive,
        }),
{
}

/// What was saved is taken up: the archive always, and the rest where it is recent, with the last two
/// hundred and forty values.
pub proof fn law_saved_sessions_are_taken_up(app: AppModel, loaded: LoadedSessionCacheModel)
    ensures
        ({
            let after = app.with_loaded(loaded);
            &&& after.archive == loaded.cache.archive
            &&& !loaded.hydrate_live ==> after == (AppModel {
                archive: loaded.cache.archive,
                ..app
            })
            &&& loaded.hydrate_live ==> {
                &&& after.power_history == last_of(loaded.cache.live_power_history, 240)
                &&& after.live_snapshot_history.len() == if loaded.cache.live_snapshots.len()
                    <= 240 {
                    loaded.cache.live_snapshots.len()
                } else {
                    240
                }
                &&& after.tick >= loaded.cache.last_tick
                &&& after.pinned == app.pinned
                &&& after.settings == app.settings
                &&& after.process_filter_query == app.process_filter_query
            }
            &&& loaded.hydrate_live && loaded.cache.live_snapshots.len() > 0 ==> {
                let newest = after.live_snapshot_history.last();
                &&& !after.loading
                &&& after.last_error is None
                &&& after.tick >= newest.tick
                &&& after.snapshot.rows.len() == newest.samples.len()
                &&& forall|i: int|
                    0 <= i < newest.samples.len() ==> (#[trigger] after.snapshot.rows[i]).pid
                        == newest.samples[i].pid && after.snapshot.rows[i].process
                        == newest.samples[i].process && after.snapshot.rows[i].power_num
                        == newest.samples[i].power
                &&& after.process_rows == after.wanted_rows()
            }
            &&& loaded.hydrate_live ==> after.history_store == crate::app_state::history_of(
                after.live_snapshot_history,
            )
            &&& loaded.hydrate_live ==> forall|i: int, j: int|
                0 <= i < j < after.live_snapshot_history.len() ==> (
                #[trigger] after.live_snapshot_history[i]).tick <= (
                #[trigger] after.live_snapshot_history[j]).tick
        }),
{
    let after = app.with_loaded(loaded);
    let by_tick = crate::app_state::by_tick();
    crate::sort::law_sorting_orders(loaded.cache.live_snapshots, by_tick);
    let sorted = crate::sort::sorted(loaded.cache.live_snapshots, by_tick);
    if loaded.hydrate_live {
        let kept = after.live_snapshot_history;
        assert forall|i: int, j: int| 0 <= i < j < kept.len() implies (#[trigger] kept[i]).tick <= (
        #[trigger] kept[j]).tick by {
            let off = sorted.len() - kept.len();
            assert(!by_tick(sorted[off + j], sorted[off + i]));
        }
    }
    crate::sort::law_sorting_keeps_items(
        loaded.cache.live_snapshots,
        crate::app_state::by_tick(),
    );
    if loaded.hydrate_live {
        assert(after.power_history =~= last_of(loaded.cache.live_power_history, 240));
    }
}

/// A session is saved once fifteen ticks have gone by since it was last, and not before.
pub proof fn law_sessions_are_saved_every_fifteen_ticks(last: u64, gone: u64)
    ensures
        crate::app_state::flush_due(
            ((last + gone) % 0x1_0000_0000_0000_0000) as u64,
            last,
        ) <==> gone >= 15,
        crate::app_state::REFRESH_EVERY_SECS == 2,
{
}

/// A key without a meaning changes nothing but that the table is brought up to date.
pub proof fn law_other_keys_change_nothing(app: AppModel, c: char)
    requires
        at_the_table(app),
        c != 'j' && c != 'k' && c != 'g' && c != 'G' && c != 'f' && c != 'F' && c != 'd' && c != 'p'
            && c != 'P' && c != 'm' && c != 'M' && c != '1' && c != '2' && c != 'r' && c != 'R' && c
            != 's' && c != 'S' && c != 'q' && c != 'Q',
    ensures
        typed(app, KeyCode::Char(c)) == app.settled(),
        typed(app, KeyCode::Esc) == app.settled(),
        typed(app, KeyCode::Backspace) == app.settled(),
        typed(app, KeyCode::Tab) == app.settled(),
        typed(app, KeyCode::Other) == app.settled(),
{
}

/// Bringing the table up to date sorts and filters its rows where anything has changed, and keeps the
/// selection on a row.
pub proof fn law_the_table_is_brought_up_to_date(app: AppModel)
    ensures
        ({
            let after = app.settled();
            &&& alike_but_for_the_table(after, app)
            &&& !after.process_rows_dirty
            &&& app.process_rows_dirty ==> after.process_rows == app.wanted_rows()
            &&& !app.process_rows_dirty ==> after.process_rows == app.process_rows
            &&& after.process_rows.len() > 0 && app.process_selected < after.process_rows.len()
                ==> after.process_selected == app.process_selected
            &&& after.process_rows.len() > 0 && app.process_selected >= after.process_rows.len()
                && after.process_rows.len() <= usize::MAX ==> after.process_selected
                == after.process_rows.len() - 1
            &&& after.process_rows.len() == 0 ==> after.process_selected == 0
        }),
{
}

/// The rows of a snapshot that was kept have the names in small letters and the powers in words too.
pub proof fn law_kept_rows_are_complete(
    live: LiveSnapshotModel,
    i: int,
)
    requires
        0 <= i < live.samples.len(),
    ensures
        ({
            let rows = crate::top_parse::rows_of_live(live);
            &&& rows.len() == live.samples.len()
            &&& rows[i].pid == live.samples[i].pid
            &&& rows[i].process == live.samples[i].process
            &&& rows[i].process_lc == crate::text::lowercase(live.samples[i].process)
            &&& rows[i].power == crate::decimal::fixed_text(live.samples[i].power, 1)
            &&& rows[i].power_num == live.samples[i].power
        }),
{
}

/// The milliseconds since the epoch are those of the seconds and those past them.
pub proof fn law_epoch_millis_add_up(secs: u64, millis: u32)
    requires
        secs <= 0x40_0000_0000_0000,
    ensures
        crate::persistence::epoch_millis(secs, millis) == 1_000 * secs + millis,
{
}

/// The name of a range tells how long it is, and a range of the archive reaches back that long.
pub proof fn law_ranges_are_named_by_their_length()
    ensures
        GraphRange::Minutes8.name() == "8m"@,
        GraphRange::Minutes30.name() == "30m"@,
        GraphRange::Hours3.name() == "3h"@,
        GraphRange::Hours12.name() == "12h"@,
        GraphRange::Minutes8.archived() is None,
        GraphRange::Minutes30.archived() is Some && crate::archive_laws::reach_secs(
            GraphRange::Minutes30.archived()->0,
        ) == 1_800,
        GraphRange::Hours3.archived() is Some && crate::archive_laws::reach_secs(
            GraphRange::Hours3.archived()->0,
        ) == 10_800,
        GraphRange::Hours12.archived() is Some && crate::archive_laws::reach_secs(
            GraphRange::Hours12.archived()->0,
        ) == 43_200,
{
}

/// The sum of what was drawn together is zero for a snapshot without rows, and the exact sum of the
/// rows to one part in a billion.
pub proof fn law_totals_are_close(rows: Seq<crate::top_parse::ProcRowModel>)
    requires
        crate::sum_laws::plain(crate::top_parse::row_powers(rows)),
    ensures
        ({
            let total = crate::top_parse::snapshot_of(rows).total_power;
            let exact = crate::sum_laws::exact_sum(crate::top_parse::row_powers(rows));
            total.finite() && -exact <= 1_000_000_000 * (total.value() - exact) <= exact
        }),
{
    let start = Binary64 { bits: crate::binary64::SIGN };
    assert(start.magnitude() == 0);
    crate::sum_laws::law_sums_are_close(start, crate::top_parse::row_powers(rows));
}


/// The history of some snapshots is that of those before the last, with the last one taken in.
pub proof fn law_histories_are_made_of_snapshots(
    snapshots: Seq<LiveSnapshotModel>,
    next: LiveSnapshotModel,
)
    ensures
        crate::app_state::history_of(snapshots.push(next)) == crate::app_state::fed(
            crate::app_state::history_of(snapshots),
            next.tick,
            next.samples,
        ),
        crate::app_state::history_of(Seq::<LiveSnapshotModel>::empty()).max_samples == 240,
        crate::app_state::history_of(Seq::<LiveSnapshotModel>::empty()).stale_after_ticks == 240,
{
    assert(snapshots.push(next).drop_last() =~= snapshots);
}

} // verus!
