//! The state of a session, and what snapshots, keys and a saved cache do to it.
use std::collections::VecDeque;

use vstd::prelude::*;

use crate::binary64::Binary64;
use crate::graph::GraphRange;
use crate::history::{
    HistoryModel, HistoryStore, PidKey, PidKeyModel, ProcessSample,
};
use crate::persistence::{
    ArchiveState, ArchiveStateModel, Interval, LiveProcessSample, LiveProcessSampleModel,
    LiveSnapshot, LiveSnapshotModel, LoadedSessionCache, LoadedSessionCacheModel, SessionCache,
    SessionCacheModel,
};
use crate::settings::{
    AppSettings, KeyCode, KeyEvent, KeyEventKind, SettingsModalModel, SettingsModalState,
};
use crate::top_parse::{ProcRow, ProcRowModel, Snapshot, SnapshotModel};

verus! {

pub const REFRESH_EVERY_SECS: u64 = 2;

pub const HISTORY_LIMIT: usize = 240;

pub const HISTORY_STALE_TICKS: u64 = 240;

pub const PROCESS_AVG_WINDOW_TICKS: u64 = 60;

pub const PROCESS_PEAK_WINDOW_TICKS: u64 = 60;

pub const PERSIST_FLUSH_EVERY_TICKS: u64 = 15;

/// Whether enough ticks have passed since the session was last saved; the count of ticks starts
/// over behind the largest number.
pub open spec fn flush_due(tick: u64, last_persist_tick: u64) -> bool {
    if tick >= last_persist_tick {
        tick - last_persist_tick >= PERSIST_FLUSH_EVERY_TICKS
    } else {
        tick + 0x1_0000_0000_0000_0000 - last_persist_tick >= PERSIST_FLUSH_EVERY_TICKS
    }
}

pub fn should_flush(tick: u64, last_persist_tick: u64) -> (flush: bool)
    ensures
        flush == flush_due(tick, last_persist_tick),
        flush == if tick >= last_persist_tick {
            tick - last_persist_tick >= PERSIST_FLUSH_EVERY_TICKS
        } else {
            tick + 0x1_0000_0000_0000_0000 - last_persist_tick >= PERSIST_FLUSH_EVERY_TICKS
        },
{
    tick.wrapping_sub(last_persist_tick) >= PERSIST_FLUSH_EVERY_TICKS
}

/// The process whose details are held on screen.
#[derive(Debug, PartialEq)]
pub struct PinnedProcess {
    pub pid: i32,
    pub process: String,
}

impl View for PinnedProcess {
    type V = PidKeyModel;

    open spec fn view(&self) -> PidKeyModel {
        PidKeyModel { pid: self.pid, process: self.process@ }
    }
}

/// A row of the process table.
#[derive(Debug)]
pub struct ProcessTableRow {
    pub key: PidKey,
    pub current: Binary64,
    pub avg: Binary64,
    pub peak: Binary64,
    pub process_lc: String,
}

#[verifier::ext_equal]
pub struct ProcessTableRowModel {
    pub key: PidKeyModel,
    pub current: Binary64,
    pub avg: Binary64,
    pub peak: Binary64,
    pub process_lc: Seq<char>,
}

impl View for ProcessTableRow {
    type V = ProcessTableRowModel;

    open spec fn view(&self) -> ProcessTableRowModel {
        ProcessTableRowModel {
            key: self.key@,
            current: self.current,
            avg: self.avg,
            peak: self.peak,
            process_lc: self.process_lc@,
        }
    }
}

/// What the table is sorted by.
#[derive(Debug, Clone, Copy, PartialEq, Eq, Structural)]
pub enum ProcessSort {
    Current,
    Avg2m,
    Peak,
}

impl ProcessSort {
    pub open spec fn following(self) -> ProcessSort {
        match self {
            ProcessSort::Current => ProcessSort::Avg2m,
            ProcessSort::Avg2m => ProcessSort::Peak,
            ProcessSort::Peak => ProcessSort::Current,
        }
    }

    pub open spec fn figure(self, row: ProcessTableRowModel) -> Binary64 {
        match self {
            ProcessSort::Current => row.current,
            ProcessSort::Avg2m => row.avg,
            ProcessSort::Peak => row.peak,
        }
    }

    pub fn next(self) -> (sort: ProcessSort)
        ensures
            sort == self.following(),
    {
        match self {
            ProcessSort::Current => ProcessSort::Avg2m,
            ProcessSort::Avg2m => ProcessSort::Peak,
            ProcessSort::Peak => ProcessSort::Current,
        }
    }

    fn figure_of(self, row: &ProcessTableRow) -> (figure: Binary64)
        ensures
            figure == self.figure(row@),
    {
        match self {
            ProcessSort::Current => row.current,
            ProcessSort::Avg2m => row.avg,
            ProcessSort::Peak => row.peak,
        }
    }

    /// Whether one row stands above another.
    pub fn ranks_above(self, a: &ProcessTableRow, b: &ProcessTableRow) -> (above: bool)
        ensures
            above == row_above(self, a@, b@),
    {
        let x: Binary64 = self.figure_of(a);
        let y: Binary64 = self.figure_of(b);
        if y.is_below(x) {
            true
        } else if x.is_below(y) {
            false
        } else if b.current.is_below(a.current) {
            true
        } else if a.current.is_below(b.current) {
            false
        } else if b.avg.is_below(a.avg) {
            true
        } else if a.avg.is_below(b.avg) {
            false
        } else if b.peak.is_below(a.peak) {
            true
        } else if a.peak.is_below(b.peak) {
            false
        } else if a.key.process.eq(&b.key.process) {
            a.key.pid < b.key.pid
        } else {
            crate::text::is_before(&a.key.process, &b.key.process)
        }
    }
}

/// Whether one row stands above another: by the figure that the table is sorted by, by what the
/// process draws now, on average and at most, by its name and by its number.
pub open spec fn row_above(
    sort: ProcessSort,
    a: ProcessTableRowModel,
    b: ProcessTableRowModel,
) -> bool {
    if sort.figure(b).lt(sort.figure(a)) {
        true
    } else if sort.figure(a).lt(sort.figure(b)) {
        false
    } else if b.current.lt(a.current) {
        true
    } else if a.current.lt(b.current) {
        false
    } else if b.avg.lt(a.avg) {
        true
    } else if a.avg.lt(b.avg) {
        false
    } else if b.peak.lt(a.peak) {
        true
    } else if a.peak.lt(b.peak) {
        false
    } else if a.key.process == b.key.process {
        a.key.pid < b.key.pid
    } else {
        crate::text::text_before(a.key.process, b.key.process)
    }
}

pub open spec fn rows_above(sort: ProcessSort) -> spec_fn(
    ProcessTableRowModel,
    ProcessTableRowModel,
) -> bool {
    |a: ProcessTableRowModel, b: ProcessTableRowModel| row_above(sort, a, b)
}

/// What the collector reports.
#[derive(Debug)]
pub enum CollectorEvent {
    Snapshot(Snapshot),
    Error(String),
}

/// What the loop around a session does after a key: whether it ends, and whether the collector is
/// told to pause or to go on.
#[derive(Debug, Clone, Copy, PartialEq, Eq, Structural)]
pub struct KeyStep {
    pub quit: bool,
    pub set_paused: Option<bool>,
}

/// A session.
#[derive(Debug)]
pub struct App {
    pub snapshot: Snapshot,
    pub last_error: Option<String>,
    pub loading: bool,
    pub paused: bool,
    pub settings: AppSettings,
    pub settings_modal: Option<SettingsModalState>,
    pub pinned: Option<PinnedProcess>,
    pub process_selected: usize,
    pub process_scroll: usize,
    pub process_filter_query: String,
    pub process_filter_input: Option<String>,
    pub process_rows: Vec<ProcessTableRow>,
    pub process_rows_dirty: bool,
    pub process_sort: ProcessSort,
    pub power_history: VecDeque<Binary64>,
    pub live_snapshot_history: VecDeque<LiveSnapshot>,
    pub archive: ArchiveState,
    pub graph_range: GraphRange,
    pub show_graph: bool,
    pub show_table: bool,
    pub tick: u64,
    pub history_store: HistoryStore,
}

#[verifier::ext_equal]
pub struct AppModel {
    pub snapshot: SnapshotModel,
    pub last_error: Option<Seq<char>>,
    pub loading: bool,
    pub paused: bool,
    pub settings: AppSettings,
    pub settings_modal: Option<SettingsModalModel>,
    pub pinned: Option<PidKeyModel>,
    pub process_selected: usize,
    pub process_scroll: usize,
    pub process_filter_query: Seq<char>,
    pub process_filter_input: Option<Seq<char>>,
    pub process_rows: Seq<ProcessTableRowModel>,
    pub process_rows_dirty: bool,
    pub process_sort: ProcessSort,
    pub power_history: Seq<Binary64>,
    pub live_snapshot_history: Seq<LiveSnapshotModel>,
    pub archive: ArchiveStateModel,
    pub graph_range: GraphRange,
    pub show_graph: bool,
    pub show_table: bool,
    pub tick: u64,
    pub history_store: HistoryModel,
}

pub open spec fn modal_model(modal: Option<SettingsModalState>) -> Option<SettingsModalModel> {
    match modal {
        Some(modal) => Some(modal@),
        None => None,
    }
}

pub open spec fn pinned_model(pinned: Option<PinnedProcess>) -> Option<PidKeyModel> {
    match pinned {
        Some(pinned) => Some(pinned@),
        None => None,
    }
}

impl View for App {
    type V = AppModel;

    open spec fn view(&self) -> AppModel {
        AppModel {
            snapshot: self.snapshot@,
            last_error: crate::text::text_of(self.last_error),
            loading: self.loading,
            paused: self.paused,
            settings: self.settings,
            settings_modal: modal_model(self.settings_modal),
            pinned: pinned_model(self.pinned),
            process_selected: self.process_selected,
            process_scroll: self.process_scroll,
            process_filter_query: self.process_filter_query@,
            process_filter_input: crate::text::text_of(self.process_filter_input),
            process_rows: crate::lists::models(self.process_rows@),
            process_rows_dirty: self.process_rows_dirty,
            process_sort: self.process_sort,
            power_history: self.power_history@,
            live_snapshot_history: crate::lists::models(self.live_snapshot_history@),
            archive: self.archive@,
            graph_range: self.graph_range,
            show_graph: self.show_graph,
            show_table: self.show_table,
            tick: self.tick,
            history_store: self.history_store@,
        }
    }
}

/// A row of the table for a row of the snapshot.
pub open spec fn table_row(
    row: ProcRowModel,
    history: HistoryModel,
    tick: u64,
) -> ProcessTableRowModel {
    let key = PidKeyModel { pid: row.pid, process: row.process };
    ProcessTableRowModel {
        key,
        current: row.power_num,
        avg: history.pid_average(key, PROCESS_AVG_WINDOW_TICKS, tick),
        peak: history.pid_highest(key, PROCESS_PEAK_WINDOW_TICKS, tick),
        process_lc: row.process_lc,
    }
}

/// Whether a row passes a filter in small letters: its name or its number holds it.
pub open spec fn passes(row: ProcRowModel, filter: Seq<char>) -> bool {
    filter.len() == 0 || crate::text::has_part(row.process_lc, filter) || crate::text::has_part(
        crate::text::integer_text(row.pid as int),
        filter,
    )
}

/// The rows of the table that pass a filter, in the order of the snapshot.
pub open spec fn listed(
    rows: Seq<ProcRowModel>,
    history: HistoryModel,
    tick: u64,
    filter: Seq<char>,
) -> Seq<ProcessTableRowModel>
    decreases rows.len(),
{
    if rows.len() == 0 {
        Seq::empty()
    } else {
        let before = listed(rows.drop_last(), history, tick, filter);
        if passes(rows.last(), filter) {
            before.push(table_row(rows.last(), history, tick))
        } else {
            before
        }
    }
}

/// The place of the first row of a process, or the number of rows.
pub open spec fn row_of_key(rows: Seq<ProcessTableRowModel>, key: PidKeyModel) -> nat
    decreases rows.len(),
{
    if rows.len() == 0 || rows[0].key == key {
        0
    } else {
        1 + row_of_key(rows.skip(1), key)
    }
}

pub open spec fn live_keys(samples: Seq<LiveProcessSampleModel>) -> Seq<PidKeyModel> {
    Seq::new(
        samples.len(),
        |i: int| PidKeyModel { pid: samples[i].pid, process: samples[i].process },
    )
}

pub open spec fn live_names(samples: Seq<LiveProcessSampleModel>) -> Seq<Seq<char>> {
    Seq::new(samples.len(), |i: int| samples[i].process)
}

/// The history after the samples of one tick.
pub open spec fn fed(
    history: HistoryModel,
    tick: u64,
    samples: Seq<LiveProcessSampleModel>,
) -> HistoryModel {
    history.updated(
        tick,
        live_keys(samples),
        live_names(samples),
        crate::persistence::powers(samples),
    )
}

/// The history that snapshots make, the oldest first.
pub open spec fn history_of(snapshots: Seq<LiveSnapshotModel>) -> HistoryModel
    decreases snapshots.len(),
{
    if snapshots.len() == 0 {
        HistoryModel::fresh(HISTORY_LIMIT, HISTORY_STALE_TICKS)
    } else {
        fed(
            history_of(snapshots.drop_last()),
            snapshots.last().tick,
            snapshots.last().samples,
        )
    }
}

/// The samples that a snapshot leaves in the history.
pub open spec fn live_samples(rows: Seq<ProcRowModel>) -> Seq<LiveProcessSampleModel> {
    Seq::new(
        rows.len(),
        |i: int|
            LiveProcessSampleModel {
                pid: rows[i].pid,
                process: rows[i].process,
                power: rows[i].power_num,
            },
    )
}

pub open spec fn by_tick() -> spec_fn(LiveSnapshotModel, LiveSnapshotModel) -> bool {
    |a: LiveSnapshotModel, b: LiveSnapshotModel| a.tick < b.tick
}

/// The longest pause, in seconds, that the archive takes for none: three refreshes.
pub open spec fn contiguous_secs() -> u64 {
    6
}

impl AppModel {
    pub open spec fn initial() -> AppModel {
        AppModel {
            snapshot: SnapshotModel { rows: Seq::empty(), total_power: Binary64 { bits: 0 } },
            last_error: None,
            loading: true,
            paused: false,
            settings: AppSettings::usual(),
            settings_modal: None,
            pinned: None,
            process_selected: 0,
            process_scroll: 0,
            process_filter_query: Seq::empty(),
            process_filter_input: None,
            process_rows: Seq::empty(),
            process_rows_dirty: false,
            process_sort: ProcessSort::Current,
            power_history: Seq::empty(),
            live_snapshot_history: Seq::empty(),
            archive: ArchiveStateModel::blank(),
            graph_range: GraphRange::Minutes8,
            show_graph: true,
            show_table: true,
            tick: 0,
            history_store: HistoryModel::fresh(HISTORY_LIMIT, HISTORY_STALE_TICKS),
        }
    }

    pub open spec fn active_filter(self) -> Seq<char> {
        match self.process_filter_input {
            Some(input) => input,
            None => self.process_filter_query,
        }
    }

    /// The filter as rows are held against it: nothing where it is blank, else in small letters.
    pub open spec fn filter_text(self) -> Seq<char> {
        let trimmed = crate::text::trimmed(self.active_filter());
        if trimmed.len() == 0 {
            Seq::empty()
        } else {
            crate::text::lowercase(trimmed)
        }
    }

    /// The rows that the table should show, in order.
    pub open spec fn wanted_rows(self) -> Seq<ProcessTableRowModel> {
        crate::sort::sorted(
            listed(self.snapshot.rows, self.history_store, self.tick, self.filter_text()),
            rows_above(self.process_sort),
        )
    }

    /// The rows as the table shows them once they are brought up to date.
    pub open spec fn shown_rows(self) -> Seq<ProcessTableRowModel> {
        if self.process_rows_dirty {
            self.wanted_rows()
        } else {
            self.process_rows
        }
    }

    pub open spec fn rebuilt(self) -> AppModel {
        AppModel { process_rows: self.shown_rows(), process_rows_dirty: false, ..self }
    }

    pub open spec fn dirty(self) -> AppModel {
        AppModel { process_rows_dirty: true, ..self }
    }

    /// The selection within a number of rows, and the scroll position not below it.
    pub open spec fn normalized(self, visible_len: nat) -> AppModel {
        if visible_len == 0 {
            AppModel { process_selected: 0, process_scroll: 0, ..self }
        } else {
            let selected = if self.process_selected >= visible_len {
                (visible_len - 1) as usize
            } else {
                self.process_selected
            };
            AppModel {
                process_selected: selected,
                process_scroll: if self.process_scroll > selected {
                    selected
                } else {
                    self.process_scroll
                },
                ..self
            }
        }
    }

    /// The rows brought up to date, and the selection within them.
    pub open spec fn settled(self) -> AppModel {
        self.rebuilt().normalized(self.shown_rows().len())
    }

    pub open spec fn selected_key(self) -> Option<PidKeyModel> {
        if self.process_selected < self.shown_rows().len() {
            Some(self.shown_rows()[self.process_selected as int].key)
        } else {
            None
        }
    }

    /// The rows brought up to date, and the selection on a process where it is still there.
    pub open spec fn restored(self, key: Option<PidKeyModel>) -> AppModel {
        let rows = self.shown_rows();
        let found = match key {
            Some(key) => if row_of_key(rows, key) < rows.len() {
                AppModel { process_selected: row_of_key(rows, key) as usize, ..self.rebuilt() }
            } else {
                self.rebuilt()
            },
            None => self.rebuilt(),
        };
        found.normalized(rows.len())
    }

    pub open spec fn sort_cycled(self) -> AppModel {
        (AppModel {
            process_sort: self.process_sort.following(),
            ..self.rebuilt().dirty()
        }).restored(self.selected_key())
    }

    /// The history, the live samples and the archive with the present snapshot.
    pub open spec fn recorded(self, now_secs: u64) -> AppModel {
        let tick = if self.tick == u64::MAX {
            0
        } else {
            (self.tick + 1) as u64
        };
        let samples = live_samples(self.snapshot.rows);
        AppModel {
            tick,
            power_history: crate::lists::newest(
                self.power_history.push(self.snapshot.total_power),
                HISTORY_LIMIT as nat,
            ),
            history_store: fed(self.history_store, tick, samples),
            live_snapshot_history: crate::lists::newest(
                self.live_snapshot_history.push(LiveSnapshotModel { tick, samples }),
                HISTORY_LIMIT as nat,
            ),
            archive: self.archive.recorded(
                now_secs,
                contiguous_secs(),
                self.snapshot.total_power,
                crate::persistence::grouped_sums(
                    crate::persistence::samples_by_name(samples),
                ),
                crate::persistence::processes_entered(
                    Seq::empty(),
                    crate::persistence::samples_by_process(samples),
                ),
            ),
            ..self
        }
    }

    /// The session with a new snapshot, the selection on the same process where it is still there.
    pub open spec fn with_snapshot(self, next: SnapshotModel, now_secs: u64) -> AppModel {
        (AppModel { snapshot: next, last_error: None, loading: false, ..self.rebuilt() }).recorded(
            now_secs,
        ).dirty().restored(self.selected_key())
    }

    pub open spec fn with_error(self, message: Seq<char>) -> AppModel {
        AppModel { loading: false, last_error: Some("refresh failed: "@ + message), ..self }
    }

    /// The session after a saved one was read: always its archive, and its live part only where it
    /// is recent.
    pub open spec fn with_loaded(self, loaded: LoadedSessionCacheModel) -> AppModel {
        let archived = AppModel { archive: loaded.cache.archive, ..self };
        if !loaded.hydrate_live {
            archived
        } else {
            let snapshots = crate::lists::newest(
                crate::sort::sorted(loaded.cache.live_snapshots, by_tick()),
                HISTORY_LIMIT as nat,
            );
            let carried = AppModel {
                power_history: crate::lists::newest(
                    loaded.cache.live_power_history,
                    HISTORY_LIMIT as nat,
                ),
                live_snapshot_history: snapshots,
                tick: if snapshots.len() > 0 && snapshots.last().tick > loaded.cache.last_tick {
                    snapshots.last().tick
                } else {
                    loaded.cache.last_tick
                },
                history_store: history_of(snapshots),
                ..archived
            };
            if snapshots.len() == 0 {
                carried
            } else {
                (AppModel {
                    snapshot: crate::top_parse::snapshot_of(
                        crate::top_parse::rows_of_live(snapshots.last()),
                    ),
                    loading: false,
                    last_error: None,
                    ..carried
                }).dirty().settled()
            }
        }
    }

    pub open spec fn saved(self, now_millis: u64) -> SessionCacheModel {
        SessionCacheModel {
            saved_at_unix_millis: now_millis,
            last_tick: self.tick,
            live_power_history: self.power_history,
            live_snapshots: self.live_snapshot_history,
            archive: self.archive,
        }
    }

    pub open spec fn moved(self, delta: int) -> AppModel {
        let len = self.shown_rows().len();
        let now = self.rebuilt();
        if len == 0 {
            AppModel { process_selected: 0, process_scroll: 0, ..now }
        } else {
            let at = now.process_selected + delta;
            AppModel {
                process_selected: if at < 0 {
                    0
                } else if at > len - 1 {
                    (len - 1) as usize
                } else {
                    at as usize
                },
                ..now
            }
        }
    }

    pub open spec fn at_top(self) -> AppModel {
        AppModel { process_selected: 0, process_scroll: 0, ..self }
    }

    pub open spec fn at_bottom(self) -> AppModel {
        let len = self.shown_rows().len();
        if len == 0 {
            AppModel { process_selected: 0, process_scroll: 0, ..self.rebuilt() }
        } else {
            AppModel { process_selected: (len - 1) as usize, ..self.rebuilt() }
        }
    }

    pub open spec fn pin_toggled(self) -> AppModel {
        match self.pinned {
            Some(_) => AppModel { pinned: None, ..self },
            None => AppModel { pinned: self.selected_key(), ..self.rebuilt() },
        }
    }

    pub open spec fn filter_started(self) -> AppModel {
        AppModel { process_filter_input: Some(self.process_filter_query), ..self.dirty() }
    }

    /// The session without a filter.
    pub open spec fn filter_cleared(self) -> AppModel {
        if self.process_filter_query.len() == 0 {
            self
        } else {
            AppModel { process_filter_query: Seq::empty(), ..self.at_top().dirty() }
        }
    }

    /// A key while a filter is being typed.
    pub open spec fn filter_typed(self, input: Seq<char>, code: KeyCode) -> AppModel {
        let top = self.at_top().dirty();
        let after = match code {
            KeyCode::Esc => AppModel { process_filter_input: None, ..top },
            KeyCode::Enter => AppModel {
                process_filter_query: input,
                process_filter_input: None,
                ..top
            },
            KeyCode::Backspace => AppModel {
                process_filter_input: Some(
                    if input.len() > 0 {
                        input.drop_last()
                    } else {
                        input
                    },
                ),
                ..top
            },
            KeyCode::Char(c) => AppModel { process_filter_input: Some(input.push(c)), ..top },
            _ => self,
        };
        after.settled()
    }

    pub open spec fn modal_typed(self, modal: SettingsModalModel, code: KeyCode) -> AppModel {
        let step = modal.after(code);
        AppModel {
            settings: match step.applied {
                Some(settings) => settings,
                None => self.settings,
            },
            settings_modal: step.modal,
            ..self
        }
    }

    /// What a key means in the table.
    pub open spec fn commanded(self, code: KeyCode) -> AppModel {
        let free = self.pinned is None;
        match code {
            KeyCode::Char('j') | KeyCode::Down => if free {
                self.moved(1)
            } else {
                self
            },
            KeyCode::Char('k') | KeyCode::Up => if free {
                self.moved(-1)
            } else {
                self
            },
            KeyCode::Char('g') => if free {
                self.at_top()
            } else {
                self
            },
            KeyCode::Char('G') => if free {
                self.at_bottom()
            } else {
                self
            },
            KeyCode::Char('f') | KeyCode::Char('F') => if self.show_table {
                self.filter_started()
            } else {
                self
            },
            KeyCode::Char('d') => self.filter_cleared(),
            KeyCode::Char('p') | KeyCode::Char('P') => AppModel { paused: !self.paused, ..self },
            KeyCode::Char('m') | KeyCode::Char('M') => AppModel {
                settings_modal: Some(SettingsModalModel::opened(self.settings)),
                ..self
            },
            KeyCode::Char('1') => AppModel { show_graph: !self.show_graph, ..self },
            KeyCode::Char('2') => AppModel { show_table: !self.show_table, ..self },
            KeyCode::Char('r') | KeyCode::Char('R') => AppModel {
                graph_range: self.graph_range.following(),
                ..self
            },
            KeyCode::Char('s') | KeyCode::Char('S') => self.sort_cycled(),
            KeyCode::Enter => self.pin_toggled(),
            _ => self,
        }
    }

    /// Whether a key ends the session.
    pub open spec fn quits(self, key: KeyEvent) -> bool {
        key.kind == KeyEventKind::Press && self.settings_modal is None
            && self.process_filter_input is None && (key.code == KeyCode::Char('q') || key.code
            == KeyCode::Char('Q'))
    }

    /// The session after a key: it goes to the settings dialog, to the filter or to the table.
    pub open spec fn after_key(self, key: KeyEvent) -> AppModel {
        if key.kind != KeyEventKind::Press || self.quits(key) {
            self
        } else {
            match self.settings_modal {
                Some(modal) => self.modal_typed(modal, key.code),
                None => match self.process_filter_input {
                    Some(input) => self.filter_typed(input, key.code),
                    None => self.commanded(key.code).settled(),
                },
            }
        }
    }

    /// What the loop does after a key.
    pub open spec fn key_step(self, key: KeyEvent) -> KeyStep {
        let after = self.after_key(key);
        KeyStep {
            quit: self.quits(key),
            set_paused: if self.quits(key) || after.paused == self.paused {
                None
            } else {
                Some(after.paused)
            },
        }
    }

    /// Whether what is being typed into the settings is sound.
    pub open spec fn wf(self) -> bool {
        self.settings_modal matches Some(modal) ==> modal.wf()
    }
}

/// The samples as the history takes them.
fn process_samples<'a>(samples: &'a Vec<LiveProcessSample>) -> (out: Vec<ProcessSample<'a>>)
    ensures
        crate::history::sample_keys(out@) == live_keys(crate::lists::models(samples@)),
        crate::history::sample_names(out@) == live_names(crate::lists::models(samples@)),
        crate::history::sample_powers(out@) == crate::persistence::powers(
            crate::lists::models(samples@),
        ),
{
    let mut out: Vec<ProcessSample<'a>> = Vec::new();
    let mut i: usize = 0;
    while i < samples.len()
        invariant
            i <= samples@.len(),
            out@.len() == i,
            forall|j: int|
                0 <= j < i ==> (#[trigger] out@[j]).pid == samples@[j].pid && out@[j].process@
                    == samples@[j].process@ && out@[j].power == samples@[j].power,
        decreases samples@.len() - i,
    {
        out.push(
            ProcessSample {
                pid: samples[i].pid,
                process: samples[i].process.as_str(),
                power: samples[i].power,
            },
        );
        i = i + 1;
    }
    proof {
        let all = crate::lists::models(samples@);
        assert(crate::history::sample_keys(out@) =~= live_keys(all));
        assert(crate::history::sample_names(out@) =~= live_names(all));
        assert(crate::history::sample_powers(out@) =~= crate::persistence::powers(all));
    }
    out
}

impl App {
    /// Whether the history holds each key once, and what is being typed is sound.
    pub open spec fn wf(&self) -> bool {
        self.history_store.wf() && self@.wf()
    }

    pub fn new() -> (app: App)
        ensures
            app.wf(),
            app@ == AppModel::initial(),
    {
        let app = App {
            snapshot: Snapshot { rows: Vec::new(), total_power: Binary64::zero() },
            last_error: None,
            loading: true,
            paused: false,
            settings: AppSettings::default(),
            settings_modal: None,
            pinned: None,
            process_selected: 0,
            process_scroll: 0,
            process_filter_query: String::new(),
            process_filter_input: None,
            process_rows: Vec::new(),
            process_rows_dirty: false,
            process_sort: ProcessSort::Current,
            power_history: VecDeque::new(),
            live_snapshot_history: VecDeque::new(),
            archive: ArchiveState::new(),
            graph_range: GraphRange::Minutes8,
            show_graph: true,
            show_table: true,
            tick: 0,
            history_store: HistoryStore::new(HISTORY_LIMIT, HISTORY_STALE_TICKS),
        };
        proof {
            assert(app@ =~= AppModel::initial());
        }
        app
    }

    /// The filter that rows are held against: what is being typed, or what was applied.
    pub fn process_active_filter(&self) -> (filter: &str)
        ensures
            filter@ == self@.active_filter(),
    {
        match &self.process_filter_input {
            Some(input) => input.as_str(),
            None => self.process_filter_query.as_str(),
        }
    }

    pub fn is_filter_input_active(&self) -> (active: bool)
        ensures
            active == self@.process_filter_input is Some,
    {
        self.process_filter_input.is_some()
    }

    pub fn mark_process_rows_dirty(&mut self)
        requires
            old(self).wf(),
        ensures
            final(self).wf(),
            final(self)@ == old(self)@.dirty(),
    {
        self.process_rows_dirty = true;
    }

    /// The rows of the table that pass a filter in small letters, in order.
    pub fn rows_matching(&self, filter: &Vec<char>) -> (rows: Vec<ProcessTableRow>)
        requires
            self.wf(),
        ensures
            crate::lists::models(rows@) == crate::sort::sorted(
                listed(self@.snapshot.rows, self@.history_store, self@.tick, filter@),
                rows_above(self@.process_sort),
            ),
    {
        let ghost all = self@.snapshot.rows;
        let ghost history = self@.history_store;
        let mut rows: Vec<ProcessTableRow> = Vec::new();
        let mut i: usize = 0;
        proof {
            assert(all.take(0) =~= Seq::empty());
            assert(crate::lists::models(rows@) =~= Seq::empty());
        }
        while i < self.snapshot.rows.len()
            invariant
                self.wf(),
                i <= self.snapshot.rows@.len(),
                all == self@.snapshot.rows,
                history == self@.history_store,
                crate::lists::models(rows@) == listed(
                    all.take(i as int),
                    history,
                    self.tick,
                    filter@,
                ),
            decreases self.snapshot.rows@.len() - i,
        {
            let ghost before = crate::lists::models(rows@);
            let row: &ProcRow = &self.snapshot.rows[i];
            proof {
                assert(all.take(i + 1).drop_last() =~= all.take(i as int));
                assert(all.take(i + 1).last() == row@);
            }
            let name: Vec<char> = crate::text::chars_of(row.process_lc.as_str());
            let number: Vec<char> = crate::text::i32_chars(row.pid);
            if filter.len() == 0 || crate::text::contains_chars(&name, &filter)
                || crate::text::contains_chars(&number, &filter) {
                let key: PidKey = PidKey::new(row.pid, row.process.as_str());
                let avg: Binary64 = self.history_store.pid_avg(
                    &key,
                    PROCESS_AVG_WINDOW_TICKS,
                    self.tick,
                );
                let peak: Binary64 = self.history_store.pid_peak(
                    &key,
                    PROCESS_PEAK_WINDOW_TICKS,
                    self.tick,
                );
                let entry = ProcessTableRow {
                    key,
                    current: row.power_num,
                    avg,
                    peak,
                    process_lc: row.process_lc.clone(),
                };
                rows.push(entry);
                proof {
                    assert(crate::lists::models(rows@) =~= before.push(entry@));
                }
            }
            i = i + 1;
        }
        proof {
            assert(all.take(i as int) =~= all);
        }
        let sort: ProcessSort = self.process_sort;
        let above = |a: &ProcessTableRow, b: &ProcessTableRow| -> (r: bool)
            ensures
                r == row_above(sort, a@, b@),
        {
            sort.ranks_above(a, b)
        };
        crate::sort::sort_by(&mut rows, above, Ghost(rows_above(sort)));
        rows
    }

    /// Brings the table's rows up to date.
    pub fn rebuild_process_rows_if_needed(&mut self)
        requires
            old(self).wf(),
        ensures
            final(self).wf(),
            final(self)@ == old(self)@.rebuilt(),
    {
        if !self.process_rows_dirty {
            return;
        }
        let trimmed: Vec<char> = crate::text::trim_chars(
            &crate::text::chars_of(self.process_active_filter()),
        );
        let filter: Vec<char> = if trimmed.len() == 0 {
            Vec::new()
        } else {
            let trimmed: String = crate::text::string_of(&trimmed);
            crate::text::chars_of(crate::text::to_lowercase(trimmed.as_str()).as_str())
        };
        proof {
            assert(filter@ =~= self@.filter_text());
        }
        let rows: Vec<ProcessTableRow> = self.rows_matching(&filter);
        self.process_rows = rows;
        self.process_rows_dirty = false;
    }

    /// How many rows the table shows.
    pub fn process_visible_len(&mut self) -> (len: usize)
        requires
            old(self).wf(),
        ensures
            final(self).wf(),
            final(self)@ == old(self)@.rebuilt(),
            len == old(self)@.shown_rows().len(),
    {
        self.rebuild_process_rows_if_needed();
        self.process_rows.len()
    }

    pub fn normalize_process_selection(&mut self, visible_len: usize)
        requires
            old(self).wf(),
        ensures
            final(self).wf(),
            final(self)@ == old(self)@.normalized(visible_len as nat),
    {
        if visible_len == 0 {
            self.process_selected = 0;
            self.process_scroll = 0;
            return;
        }
        if self.process_selected >= visible_len {
            self.process_selected = visible_len - 1;
        }
        if self.process_scroll > self.process_selected {
            self.process_scroll = self.process_selected;
        }
    }

    fn settle(&mut self)
        requires
            old(self).wf(),
        ensures
            final(self).wf(),
            final(self)@ == old(self)@.settled(),
    {
        let visible_len: usize = self.process_visible_len();
        self.normalize_process_selection(visible_len);
    }

    /// The process that the selection is on.
    pub fn selected_process_key(&mut self) -> (key: Option<PidKey>)
        requires
            old(self).wf(),
        ensures
            final(self).wf(),
            final(self)@ == old(self)@.rebuilt(),
            match key {
                Some(key) => Some(key@) == old(self)@.selected_key(),
                None => old(self)@.selected_key() is None,
            },
    {
        self.rebuild_process_rows_if_needed();
        if self.process_selected < self.process_rows.len() {
            Some(self.process_rows[self.process_selected].key.clone())
        } else {
            None
        }
    }

    /// The place of the first row of a process, or the number of rows.
    pub(crate) fn position_of(&self, key: &PidKey) -> (at: usize)
        ensures
            at == row_of_key(self@.process_rows, key@),
            at <= self@.process_rows.len(),
    {
        let ghost all = self@.process_rows;
        let mut i: usize = 0;
        proof {
            assert(all.skip(0) =~= all);
        }
        while i < self.process_rows.len()
            invariant
                i <= self.process_rows@.len(),
                all == self@.process_rows,
                row_of_key(all, key@) == i + row_of_key(all.skip(i as int), key@),
            decreases self.process_rows@.len() - i,
        {
            proof {
                assert(all.skip(i as int)[0] == self.process_rows@[i as int]@);
                assert(all.skip(i as int).skip(1) =~= all.skip(i + 1));
            }
            if self.process_rows[i].key.pid == key.pid && self.process_rows[i].key.process.eq(
                &key.process,
            ) {
                return i;
            }
            i = i + 1;
        }
        i
    }

    fn restore_process_selection_by_key(&mut self, selected_key: Option<PidKey>)
        requires
            old(self).wf(),
        ensures
            final(self).wf(),
            final(self)@ == old(self)@.restored(
                match selected_key {
                    Some(key) => Some(key@),
                    None => None,
                },
            ),
    {
        self.rebuild_process_rows_if_needed();
        if let Some(key) = selected_key {
            let at: usize = self.position_of(&key);
            if at < self.process_rows.len() {
                self.process_selected = at;
            }
        }
        let visible_len: usize = self.process_rows.len();
        self.normalize_process_selection(visible_len);
    }

    /// Sorts by the next figure, the selection staying on its process.
    pub fn cycle_process_sort(&mut self)
        requires
            old(self).wf(),
        ensures
            final(self).wf(),
            final(self)@ == old(self)@.sort_cycled(),
    {
        let selected_key: Option<PidKey> = self.selected_process_key();
        self.process_sort = self.process_sort.next();
        self.process_rows_dirty = true;
        self.restore_process_selection_by_key(selected_key);
    }

    /// Takes the present snapshot into the history, at a moment.
    pub fn record_history_at(&mut self, now_secs: u64)
        requires
            old(self).wf(),
        ensures
            final(self).wf(),
            final(self)@ == old(self)@.recorded(now_secs),
    {
        self.tick = self.tick.wrapping_add(1);
        self.power_history.push_back(self.snapshot.total_power);
        crate::lists::trim_to_capacity(&mut self.power_history, HISTORY_LIMIT);
        let mut samples: Vec<LiveProcessSample> = Vec::new();
        let mut i: usize = 0;
        while i < self.snapshot.rows.len()
            invariant
                i <= self.snapshot.rows@.len(),
                samples@.len() == i,
                forall|j: int|
                    0 <= j < i ==> (#[trigger] samples@[j])@ == live_samples(
                        self@.snapshot.rows,
                    )[j],
            decreases self.snapshot.rows@.len() - i,
        {
            samples.push(
                LiveProcessSample {
                    pid: self.snapshot.rows[i].pid,
                    process: self.snapshot.rows[i].process.clone(),
                    power: self.snapshot.rows[i].power_num,
                },
            );
            i = i + 1;
        }
        proof {
            assert(crate::lists::models(samples@) =~= live_samples(self@.snapshot.rows));
        }
        let seen: Vec<ProcessSample> = process_samples(&samples);
        self.history_store.update(self.tick, &seen);
        proof {
            crate::persistence::lemma_live_entries(samples@);
        }
        self.archive.record_sample(
            now_secs,
            crate::persistence::continuity_threshold_secs(Interval::from_secs(REFRESH_EVERY_SECS)),
            self.snapshot.total_power,
            &samples,
        );
        let ghost before = self.live_snapshot_history@;
        let snapshot = LiveSnapshot { tick: self.tick, samples };
        self.live_snapshot_history.push_back(snapshot);
        let ghost longer = self.live_snapshot_history@;
        crate::lists::trim_to_capacity(&mut self.live_snapshot_history, HISTORY_LIMIT);
        proof {
            assert(crate::lists::models(longer) =~= crate::lists::models(before).push(snapshot@));
            crate::lists::lemma_models_newest(longer, HISTORY_LIMIT as nat);
        }
    }

    /// Takes the present snapshot into the history, at the present moment.
    pub fn record_history(&mut self)
        requires
            old(self).wf(),
        ensures
            final(self).wf(),
            exists|now_secs: u64| final(self)@ == #[trigger] old(self)@.recorded(now_secs),
    {
        let now_secs: u64 = crate::persistence::unix_time_secs_now();
        self.record_history_at(now_secs);
    }

    fn rebuild_history_store_from_live_snapshots(&mut self)
        requires
            old(self).wf(),
        ensures
            final(self).wf(),
            final(self)@ == (AppModel {
                history_store: history_of(old(self)@.live_snapshot_history),
                ..old(self)@
            }),
    {
        let mut store: HistoryStore = HistoryStore::new(HISTORY_LIMIT, HISTORY_STALE_TICKS);
        let ghost all = self@.live_snapshot_history;
        let mut i: usize = 0;
        proof {
            assert(all.take(0) =~= Seq::empty());
        }
        while i < self.live_snapshot_history.len()
            invariant
                *self == *old(self),
                i <= self.live_snapshot_history@.len(),
                all == self@.live_snapshot_history,
                store.wf(),
                store@ == history_of(all.take(i as int)),
            decreases self.live_snapshot_history@.len() - i,
        {
            let snapshot: &LiveSnapshot = &self.live_snapshot_history[i];
            proof {
                assert(all.take(i + 1).drop_last() =~= all.take(i as int));
                assert(all.take(i + 1).last() == snapshot@);
            }
            let seen: Vec<ProcessSample> = process_samples(&snapshot.samples);
            store.update(snapshot.tick, &seen);
            i = i + 1;
        }
        proof {
            assert(all.take(i as int) =~= all);
        }
        self.history_store = store;
    }

    /// Carries on from a saved session.
    pub fn apply_loaded_session_cache(&mut self, loaded: LoadedSessionCache)
        requires
            old(self).wf(),
        ensures
            final(self).wf(),
            final(self)@ == old(self)@.with_loaded(loaded@),
    {
        let cache: SessionCache = loaded.cache;
        self.archive = cache.archive;
        if !loaded.hydrate_live {
            return;
        }
        let mut powers: Vec<Binary64> = cache.live_power_history;
        crate::lists::trim_vec_front(&mut powers, HISTORY_LIMIT);
        let mut snapshots: Vec<LiveSnapshot> = cache.live_snapshots;
        let earlier = |a: &LiveSnapshot, b: &LiveSnapshot| -> (r: bool)
            ensures
                r == (a@.tick < b@.tick),
        {
            a.tick < b.tick
        };
        crate::sort::sort_by(&mut snapshots, earlier, Ghost(by_tick()));
        let ghost sorted = snapshots@;
        crate::lists::trim_vec_front(&mut snapshots, HISTORY_LIMIT);
        proof {
            crate::lists::lemma_models_newest(sorted, HISTORY_LIMIT as nat);
        }
        let mut tick: u64 = cache.last_tick;
        let ghost kept = crate::lists::models(snapshots@);
        if snapshots.len() > 0 {
            proof {
                assert(kept.last() == snapshots@[snapshots@.len() - 1]@);
            }
            let last: u64 = snapshots[snapshots.len() - 1].tick;
            if last > tick {
                tick = last;
            }
        }
        self.power_history = crate::lists::queue_of(powers);
        self.live_snapshot_history = crate::lists::queue_of(snapshots);
        self.tick = tick;
        self.rebuild_history_store_from_live_snapshots();
        let len: usize = self.live_snapshot_history.len();
        if len > 0 {
            self.snapshot = crate::top_parse::snapshot_from_live_snapshot(
                &self.live_snapshot_history[len - 1],
            );
            self.loading = false;
            self.last_error = None;
            self.process_rows_dirty = true;
            self.settle();
        }
    }

    /// What of the session is saved, at a moment.
    pub fn session_cache_at(&self, now_millis: u64) -> (cache: SessionCache)
        ensures
            cache@ == self@.saved(now_millis),
    {
        SessionCache {
            saved_at_unix_millis: now_millis,
            last_tick: self.tick,
            live_power_history: crate::lists::copied_numbers(&self.power_history),
            live_snapshots: crate::lists::copied_queue(&self.live_snapshot_history),
            archive: self.archive.clone(),
        }
    }

    /// What of the session is saved, at the present moment.
    pub fn to_session_cache(&self) -> (cache: SessionCache)
        ensures
            exists|now_millis: u64| cache@ == #[trigger] self@.saved(now_millis),
    {
        let now_millis: u64 = crate::persistence::unix_time_millis_now();
        self.session_cache_at(now_millis)
    }

    /// The newest total powers, two for each cell of a width.
    pub fn main_graph_live_samples_for_width(&self, graph_width: usize) -> (samples: Vec<Binary64>)
        ensures
            samples@ == crate::graph::viewport(
                self@.power_history,
                crate::archive_query::points_of(graph_width),
                Binary64 { bits: 0 },
            ),
    {
        crate::graph::history_viewport_samples_deque(&self.power_history, graph_width)
    }

    /// A process's archived power over the range on screen, where that is an archived one.
    pub fn pid_archive_samples_for_width(&self, key: &PidKey, graph_width: usize) -> (samples:
        Option<Vec<Option<Binary64>>>)
        ensures
            match self@.graph_range.archived() {
                Some(range) => samples is Some && samples->0@ == crate::archive_query::graph(
                    range.tier(self@.archive),
                    range,
                    crate::archive_query::points_of(graph_width),
                    crate::archive_query::Subject::Process(key@),
                ),
                None => samples is None,
            },
    {
        match self.graph_range.archive_range() {
            Some(range) => Some(
                crate::archive_query::pid_graph_samples_for_range(
                    &self.archive,
                    range,
                    graph_width,
                    key,
                ),
            ),
            None => None,
        }
    }

    pub fn graph_scale_bounds_for_viewport(&self, samples: &[Binary64]) -> (bounds: (
        Binary64,
        Binary64,
    ))
        ensures
            bounds.0 == (Binary64 { bits: 0 }),
            bounds.1 == crate::graph::scale_top(crate::graph::extent(samples@)),
    {
        crate::graph::graph_scale_bounds(samples)
    }

    fn move_selection(&mut self, delta: isize)
        requires
            old(self).wf(),
        ensures
            final(self).wf(),
            final(self)@ == old(self)@.moved(delta as int),
    {
        let len: usize = self.process_visible_len();
        if len == 0 {
            self.process_selected = 0;
            self.process_scroll = 0;
            return;
        }
        let at: i128 = self.process_selected as i128 + delta as i128;
        self.process_selected = if at < 0 {
            0
        } else if at > (len - 1) as i128 {
            len - 1
        } else {
            at as usize
        };
    }

    fn select_top(&mut self)
        requires
            old(self).wf(),
        ensures
            final(self).wf(),
            final(self)@ == old(self)@.at_top(),
    {
        self.process_selected = 0;
        self.process_scroll = 0;
    }

    fn select_bottom(&mut self)
        requires
            old(self).wf(),
        ensures
            final(self).wf(),
            final(self)@ == old(self)@.at_bottom(),
    {
        let len: usize = self.process_visible_len();
        if len == 0 {
            self.process_selected = 0;
            self.process_scroll = 0;
        } else {
            self.process_selected = len - 1;
        }
    }

    pub fn is_pinned(&self) -> (pinned: bool)
        ensures
            pinned == self@.pinned is Some,
    {
        self.pinned.is_some()
    }

    fn toggle_pin(&mut self)
        requires
            old(self).wf(),
        ensures
            final(self).wf(),
            final(self)@ == old(self)@.pin_toggled(),
    {
        if self.pinned.is_some() {
            self.pinned = None;
            return;
        }
        self.pinned = match self.selected_process_key() {
            Some(key) => Some(PinnedProcess { pid: key.pid, process: key.process }),
            None => None,
        };
    }

    fn handle_settings_key(&mut self, code: KeyCode)
        requires
            old(self).wf(),
        ensures
            final(self).wf(),
            final(self)@ == match old(self)@.settings_modal {
                Some(modal) => old(self)@.modal_typed(modal, code),
                None => old(self)@,
            },
    {
        if let Some(mut modal) = self.settings_modal.take() {
            let (open, applied): (bool, Option<AppSettings>) = modal.handle_key(code);
            if let Some(settings) = applied {
                self.settings = settings;
            }
            if open {
                self.settings_modal = Some(modal);
            }
        }
    }

    fn start_filter_input(&mut self)
        requires
            old(self).wf(),
        ensures
            final(self).wf(),
            final(self)@ == old(self)@.filter_started(),
    {
        self.process_filter_input = Some(self.process_filter_query.clone());
        self.process_rows_dirty = true;
    }

    fn clear_filter(&mut self)
        requires
            old(self).wf(),
        ensures
            final(self).wf(),
            final(self)@ == old(self)@.filter_cleared(),
    {
        if !crate::text::is_empty(self.process_filter_query.as_str()) {
            self.process_filter_query = String::new();
            self.process_selected = 0;
            self.process_scroll = 0;
            self.process_rows_dirty = true;
            proof {
                assert(self@.process_filter_query =~= Seq::empty());
            }
        }
    }

    fn handle_filter_key(&mut self, code: KeyCode)
        requires
            old(self).wf(),
        ensures
            final(self).wf(),
            final(self)@ == match old(self)@.process_filter_input {
                Some(input) => old(self)@.filter_typed(input, code),
                None => old(self)@,
            },
    {
        let mut input: String = match self.process_filter_input.take() {
            Some(input) => input,
            None => {
                return;
            },
        };
        let mut touched: bool = true;
        match code {
            KeyCode::Esc => {},
            KeyCode::Enter => {
                self.process_filter_query = input;
            },
            KeyCode::Backspace => {
                let _ = input.pop();
                self.process_filter_input = Some(input);
            },
            KeyCode::Char(c) => {
                input.push(c);
                self.process_filter_input = Some(input);
            },
            _ => {
                touched = false;
                self.process_filter_input = Some(input);
            },
        }
        if touched {
            self.process_selected = 0;
            self.process_scroll = 0;
            self.process_rows_dirty = true;
        }
        self.settle();
    }

    /// Takes in a snapshot, at a moment.
    pub fn apply_snapshot_at(&mut self, next: Snapshot, now_secs: u64)
        requires
            old(self).wf(),
        ensures
            final(self).wf(),
            final(self)@ == old(self)@.with_snapshot(next@, now_secs),
    {
        let selected_key: Option<PidKey> = self.selected_process_key();
        self.snapshot = next;
        self.last_error = None;
        self.loading = false;
        self.record_history_at(now_secs);
        self.process_rows_dirty = true;
        self.restore_process_selection_by_key(selected_key);
    }

    /// Takes in a snapshot, at the present moment.
    pub fn apply_snapshot(&mut self, next: Snapshot)
        requires
            old(self).wf(),
        ensures
            final(self).wf(),
            exists|now_secs: u64|
                final(self)@ == #[trigger] old(self)@.with_snapshot(next@, now_secs),
    {
        let now_secs: u64 = crate::persistence::unix_time_secs_now();
        self.apply_snapshot_at(next, now_secs);
    }

    /// Notes that a refresh failed.
    pub fn apply_refresh_error(&mut self, message: &str)
        requires
            old(self).wf(),
        ensures
            final(self).wf(),
            final(self)@ == old(self)@.with_error(message@),
    {
        let mut text: Vec<char> = crate::text::chars_of("refresh failed: ");
        crate::text::append_text(&mut text, message);
        self.loading = false;
        self.last_error = Some(crate::text::string_of(&text));
    }

    /// Takes in what the collector reports, at the present moment.
    pub fn apply_collector_event(&mut self, event: CollectorEvent)
        requires
            old(self).wf(),
        ensures
            final(self).wf(),
            match event {
                CollectorEvent::Snapshot(next) => exists|now_secs: u64|
                    final(self)@ == #[trigger] old(self)@.with_snapshot(next@, now_secs),
                CollectorEvent::Error(message) => final(self)@ == old(self)@.with_error(message@),
            },
    {
        match event {
            CollectorEvent::Snapshot(next) => self.apply_snapshot(next),
            CollectorEvent::Error(message) => self.apply_refresh_error(message.as_str()),
        }
    }

    fn command(&mut self, code: KeyCode)
        requires
            old(self).wf(),
        ensures
            final(self).wf(),
            final(self)@ == old(self)@.commanded(code),
    {
        let can_navigate: bool = !self.is_pinned();
        match code {
            KeyCode::Char('j') | KeyCode::Down => {
                if can_navigate {
                    self.move_selection(1);
                }
            },
            KeyCode::Char('k') | KeyCode::Up => {
                if can_navigate {
                    self.move_selection(-1);
                }
            },
            KeyCode::Char('g') => {
                if can_navigate {
                    self.select_top();
                }
            },
            KeyCode::Char('G') => {
                if can_navigate {
                    self.select_bottom();
                }
            },
            KeyCode::Char('f') | KeyCode::Char('F') => {
                if self.show_table {
                    self.start_filter_input();
                }
            },
            KeyCode::Char('d') => {
                self.clear_filter();
            },
            KeyCode::Char('p') | KeyCode::Char('P') => {
                self.paused = !self.paused;
            },
            KeyCode::Char('m') | KeyCode::Char('M') => {
                self.settings_modal = Some(SettingsModalState::new(&self.settings));
            },
            KeyCode::Char('1') => {
                self.show_graph = !self.show_graph;
            },
            KeyCode::Char('2') => {
                self.show_table = !self.show_table;
            },
            KeyCode::Char('r') | KeyCode::Char('R') => {
                self.graph_range = self.graph_range.next();
            },
            KeyCode::Char('s') | KeyCode::Char('S') => {
                self.cycle_process_sort();
            },
            KeyCode::Enter => {
                self.toggle_pin();
            },
            _ => {},
        }
    }

    /// Handles a key; the answer says whether it ends the session.
    pub fn handle_key(&mut self, key: KeyEvent) -> (quit: bool)
        requires
            old(self).wf(),
        ensures
            final(self).wf(),
            final(self)@ == old(self)@.after_key(key),
            quit == old(self)@.quits(key),
    {
        match key.kind {
            KeyEventKind::Press => {},
            _ => {
                return false;
            },
        }
        if self.settings_modal.is_some() {
            self.handle_settings_key(key.code);
            return false;
        }
        if self.is_filter_input_active() {
            self.handle_filter_key(key.code);
            return false;
        }
        match key.code {
            KeyCode::Char('q') | KeyCode::Char('Q') => {
                return true;
            },
            _ => {},
        }
        self.command(key.code);
        self.settle();
        false
    }

    /// Handles a key, and says what the loop around the session does after it.
    pub fn step_key(&mut self, key: KeyEvent) -> (step: KeyStep)
        requires
            old(self).wf(),
        ensures
            final(self).wf(),
            final(self)@ == old(self)@.after_key(key),
            step == old(self)@.key_step(key),
    {
        let was_paused: bool = self.paused;
        let quit: bool = self.handle_key(key);
        let set_paused: Option<bool> = if quit || self.paused == was_paused {
            None
        } else {
            Some(self.paused)
        };
        KeyStep { quit, set_paused }
    }

    /// Notes that the saved session could not be read.
    pub fn note_failed_load(&mut self, message: &str)
        requires
            old(self).wf(),
        ensures
            final(self).wf(),
            final(self)@ == (AppModel {
                last_error: Some("cache load failed: "@ + message@),
                ..old(self)@
            }),
    {
        let mut text: Vec<char> = crate::text::chars_of("cache load failed: ");
        crate::text::append_text(&mut text, message);
        self.last_error = Some(crate::text::string_of(&text));
    }

    /// Notes that the session could not be saved.
    pub fn note_failed_flush(&mut self, message: &str)
        requires
            old(self).wf(),
        ensures
            final(self).wf(),
            final(self)@ == (AppModel {
                last_error: Some("cache flush failed: "@ + message@),
                ..old(self)@
            }),
    {
        let mut text: Vec<char> = crate::text::chars_of("cache flush failed: ");
        crate::text::append_text(&mut text, message);
        self.last_error = Some(crate::text::string_of(&text));
    }
}

} // verus!
