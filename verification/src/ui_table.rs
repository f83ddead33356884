//! The process table and the details of a pinned process above it.
use vstd::prelude::*;

use crate::app_state::{
    App, AppModel, PinnedProcess, ProcessSort, ProcessTableRow, ProcessTableRowModel,
    HISTORY_LIMIT, PROCESS_AVG_WINDOW_TICKS, PROCESS_PEAK_WINDOW_TICKS,
};
use crate::binary64::Binary64;
use crate::chips::{Paint, Piece, PieceModel, Tone};
use crate::graph::Run;
use crate::history::{HistoryModel, HistoryStore, PidKey, PidKeyModel};
use crate::layout::{Area, Room, TableLayout};
use crate::settings::GraphHeatSettings;
use crate::top_parse::{ProcRow, ProcRowModel};
use crate::ui::{Draw, DrawModel, NEGATIVE_INFINITY_BITS};

verus! {

/// What the columns of an archived graph come to.
#[derive(Debug, Clone, Copy, PartialEq, Eq, Structural)]
pub struct ArchiveBucketMetrics {
    pub avg_bucket_power: Binary64,
    pub max_bucket_power: Binary64,
    pub bucket_count: usize,
}

/// The largest of some values, and negative infinity for none.
pub open spec fn top_value(values: Seq<Binary64>) -> Binary64
    decreases values.len(),
{
    if values.len() == 0 {
        Binary64 { bits: NEGATIVE_INFINITY_BITS }
    } else {
        top_value(values.drop_last()).larger(values.last())
    }
}

/// The metrics of the columns that hold a value.
pub open spec fn bucket_metrics(samples: Seq<Option<Binary64>>) -> Option<ArchiveBucketMetrics> {
    let values = crate::graph::present(samples);
    if values.len() == 0 {
        None
    } else {
        Some(
            ArchiveBucketMetrics {
                avg_bucket_power: crate::binary64::added_to(
                    Binary64 { bits: 0 },
                    values,
                ).quotient(Binary64::whole(values.len())),
                max_bucket_power: top_value(values),
                bucket_count: values.len() as usize,
            },
        )
    }
}

pub fn archive_bucket_metrics(samples: &[Option<Binary64>]) -> (metrics: Option<
    ArchiveBucketMetrics,
>)
    ensures
        metrics == bucket_metrics(samples@),
{
    let mut sum: Binary64 = Binary64::zero();
    let mut count: usize = 0;
    let mut max: Binary64 = Binary64::from_bits(NEGATIVE_INFINITY_BITS);
    let mut i: usize = 0;
    proof {
        assert(samples@.take(0) =~= Seq::empty());
    }
    while i < samples.len()
        invariant
            i <= samples@.len(),
            count <= i,
            count == crate::graph::present(samples@.take(i as int)).len(),
            sum == crate::binary64::added_to(
                Binary64 { bits: 0 },
                crate::graph::present(samples@.take(i as int)),
            ),
            max == top_value(crate::graph::present(samples@.take(i as int))),
        decreases samples@.len() - i,
    {
        proof {
            assert(samples@.take(i + 1).drop_last() =~= samples@.take(i as int));
        }
        if let Some(value) = samples[i] {
            proof {
                let longer = crate::graph::present(samples@.take(i + 1));
                assert(longer.drop_last() =~= crate::graph::present(samples@.take(i as int)));
            }
            sum = sum.plus(value);
            count = count + 1;
            max = max.max(value);
        }
        i = i + 1;
    }
    proof {
        assert(samples@.take(i as int) =~= samples@);
    }
    if count == 0 {
        return None;
    }
    Some(
        ArchiveBucketMetrics {
            avg_bucket_power: sum.over(Binary64::from_whole(count as u64)),
            max_bucket_power: max,
            bucket_count: count,
        },
    )
}

/// What a process draws in the latest snapshot, where it is there.
pub open spec fn live_power(rows: Seq<ProcRowModel>, key: PidKeyModel) -> Option<Binary64>
    decreases rows.len(),
{
    if rows.len() == 0 {
        None
    } else if rows[0].pid == key.pid && rows[0].process == key.process {
        Some(rows[0].power_num)
    } else {
        live_power(rows.skip(1), key)
    }
}

fn live_power_of(rows: &Vec<ProcRow>, key: &PidKey) -> (power: Option<Binary64>)
    ensures
        power == live_power(crate::lists::models(rows@), key@),
{
    let ghost all = crate::lists::models(rows@);
    let mut i: usize = 0;
    proof {
        assert(all.skip(0) =~= all);
    }
    while i < rows.len()
        invariant
            i <= rows@.len(),
            all == crate::lists::models(rows@),
            live_power(all, key@) == live_power(all.skip(i as int), key@),
        decreases rows@.len() - i,
    {
        proof {
            assert(all.skip(i as int)[0] == rows@[i as int]@);
            assert(all.skip(i as int).skip(1) =~= all.skip(i + 1));
        }
        if rows[i].pid == key.pid && rows[i].process.eq(&key.process) {
            return Some(rows[i].power_num);
        }
        i = i + 1;
    }
    None
}

/// The place of a process in the table, in words.
pub open spec fn rank_text(rows: Seq<ProcessTableRowModel>, key: PidKeyModel) -> Seq<char> {
    let at = crate::app_state::row_of_key(rows, key);
    if at < rows.len() {
        "#"@ + crate::text::decimal_text(at + 1) + " / "@ + crate::text::decimal_text(rows.len())
    } else {
        "not in current filtered list"@
    }
}

fn rank_chars(app: &App, key: &PidKey) -> (text: Vec<char>)
    ensures
        text@ == rank_text(app@.process_rows, key@),
{
    let at: usize = app.position_of(key);
    if at < app.process_rows.len() {
        let mut text: Vec<char> = crate::text::chars_of("#");
        crate::text::append_number(&mut text, at as u64 + 1);
        crate::text::append_text(&mut text, " / ");
        crate::text::append_number(&mut text, app.process_rows.len() as u64);
        text
    } else {
        crate::text::chars_of("not in current filtered list")
    }
}

/// The range that the details show, in words.
pub open spec fn range_text(app: AppModel) -> Seq<char> {
    if app.graph_range.archived() is Some {
        "hist "@ + app.graph_range.name()
    } else {
        app.graph_range.name()
    }
}

pub open spec fn detail_title(app: AppModel, key: PidKeyModel) -> Seq<char> {
    "pinned "@ + crate::text::integer_text(key.pid as int) + " • "@ + range_text(app)
}

/// A process's archived power over the range on screen.
pub open spec fn archived_samples(app: AppModel, key: PidKeyModel, width: u16) -> Option<
    Seq<Option<Binary64>>,
> {
    match app.graph_range.archived() {
        Some(range) => if width == 0 {
            None
        } else {
            Some(
                crate::archive_query::graph(
                    range.tier(app.archive),
                    range,
                    crate::archive_query::points_of(width as usize),
                    crate::archive_query::Subject::Process(key),
                ),
            )
        },
        None => None,
    }
}

pub open spec fn muted(text: Seq<char>) -> PieceModel {
    crate::chips::a_piece(text, Tone::of(Paint::Muted))
}

pub open spec fn bright(text: Seq<char>) -> PieceModel {
    crate::chips::a_piece(text, Tone::of(Paint::Fg))
}

fn muted_piece(text: &str) -> (piece: Piece)
    ensures
        piece@ == muted(text@),
{
    crate::chips::piece(text, crate::chips::tone_of(Paint::Muted))
}

fn bright_piece(text: &Vec<char>) -> (piece: Piece)
    ensures
        piece@ == bright(text@),
{
    crate::chips::piece_of(text, crate::chips::tone_of(Paint::Fg))
}

/// What the pinned process draws now, on average and at most, and its place in the table.
pub open spec fn figures_line(app: AppModel, key: PidKeyModel) -> Seq<PieceModel> {
    let current = match live_power(app.snapshot.rows, key) {
        Some(power) => power,
        None => Binary64 { bits: 0 },
    };
    seq![
        muted("now "@),
        crate::chips::a_piece(
            crate::decimal::fixed_text(current, 1),
            Tone::strong(crate::ui::band(current, app.settings.graph_heat)),
        ),
        muted("  avg2m "@),
        bright(
            crate::decimal::fixed_text(
                app.history_store.pid_average(key, PROCESS_AVG_WINDOW_TICKS, app.tick),
                1,
            ),
        ),
        muted("  peak2m "@),
        bright(
            crate::decimal::fixed_text(
                app.history_store.pid_highest(key, PROCESS_PEAK_WINDOW_TICKS, app.tick),
                1,
            ),
        ),
        muted("  live rank "@),
        bright(rank_text(app.process_rows, key)),
    ]
}

/// What the archive says of the pinned process over the range on screen.
pub open spec fn archive_line(
    label: Seq<char>,
    samples: Option<Seq<Option<Binary64>>>,
) -> Seq<PieceModel> {
    let metrics = match samples {
        Some(samples) => bucket_metrics(samples),
        None => None,
    };
    match metrics {
        Some(metrics) => seq![
            muted("hist "@ + label + " pid buckets "@),
            muted("avg bucket "@),
            bright(crate::decimal::fixed_text(metrics.avg_bucket_power, 1)),
            muted("  max bucket avg "@),
            bright(crate::decimal::fixed_text(metrics.max_bucket_power, 1)),
            muted("  buckets "@),
            bright(crate::text::decimal_text(metrics.bucket_count as nat)),
        ],
        None => seq![
            muted("hist "@ + label + " pid buckets: no historical data in selected range."@),
        ],
    }
}

/// The lines of the details.
pub open spec fn detail_lines(
    app: AppModel,
    key: PidKeyModel,
    samples: Option<Seq<Option<Binary64>>>,
) -> Seq<Seq<PieceModel>> {
    seq![
        seq![
            crate::chips::a_piece(
                key.process + " ("@ + crate::text::integer_text(key.pid as int) + ")"@,
                Tone::strong(Paint::Fg),
            ),
        ],
        figures_line(app, key),
    ] + (if app.graph_range.archived() is Some {
        seq![archive_line(app.graph_range.name(), samples)]
    } else {
        Seq::empty()
    }) + (if live_power(app.snapshot.rows, key) is None {
        seq![seq![muted("Not present in the latest top sample."@)]]
    } else {
        Seq::empty()
    })
}

/// The graph under the details: the archived range, or the live history.
pub open spec fn detail_graph(
    app: AppModel,
    key: PidKeyModel,
    samples: Option<Seq<Option<Binary64>>>,
    width: u16,
    height: u16,
) -> Option<Seq<Seq<PieceModel>>> {
    if width == 0 || height == 0 {
        None
    } else if app.graph_range.archived() is Some {
        match samples {
            Some(samples) => Some(
                crate::chips::run_lines(
                    crate::graph::lines(
                        crate::graph::chart_of_optional(
                            samples,
                            width as nat,
                            height as nat,
                            Binary64 { bits: 0 },
                            crate::graph::scale_top(
                                crate::graph::extent(crate::graph::present(samples)),
                            ),
                        ).cells(width as nat),
                    ),
                ),
            ),
            None => None,
        }
    } else {
        let values = app.history_store.pid_window(key, HISTORY_LIMIT as u64, app.tick);
        Some(
            crate::ui::live_graph(
                values,
                crate::graph::viewport(
                    values,
                    crate::archive_query::points_of(width as usize),
                    Binary64 { bits: 0 },
                ),
                width as nat,
                height as nat,
            ),
        )
    }
}

/// The details of a pinned process.
pub open spec fn detail_panel(
    app: AppModel,
    key: PidKeyModel,
    area: Area,
    blocked: bool,
) -> Seq<DrawModel> {
    let inner = area.inside();
    let samples = archived_samples(app, key, inner.width);
    let lines = detail_lines(app, key, samples);
    let text_height = if lines.len() < inner.height {
        lines.len() as u16
    } else {
        inner.height
    };
    let graph = detail_graph(
        app,
        key,
        samples,
        inner.width,
        (inner.height - text_height) as u16,
    );
    seq![
        DrawModel::Panel {
            area,
            top: seq![crate::chips::a_piece(detail_title(app, key), Tone::as_is())],
            bottom: Seq::empty(),
            bottom_on_right: false,
        },
    ] + (if blocked {
        Seq::empty()
    } else {
        seq![
            crate::ui::right_chips(
                area,
                crate::ui::lower_border(area),
                seq![
                    crate::chips::action_chip("range"@, "r"@),
                    crate::chips::action_chip("unpin"@, "Enter"@),
                ],
            ),
        ]
    }) + seq![
        DrawModel::Text {
            area: Area { x: inner.x, y: inner.y, width: inner.width, height: text_height },
            lines,
            centered: false,
            wrapped: false,
        },
    ] + (match graph {
        Some(rows) => seq![
            DrawModel::Text {
                area: Area {
                    x: inner.x,
                    y: (inner.y + text_height) as u16,
                    width: inner.width,
                    height: (inner.height - text_height) as u16,
                },
                lines: rows,
                centered: false,
                wrapped: false,
            },
        ],
        None => Seq::empty(),
    })
}

fn title_chars(app: &App, key: &PidKey) -> (text: Vec<char>)
    ensures
        text@ == detail_title(app@, key@),
{
    let mut text: Vec<char> = crate::text::chars_of("pinned ");
    let mut number: Vec<char> = crate::text::i32_chars(key.pid);
    text.append(&mut number);
    crate::text::append_text(&mut text, " • ");
    if app.graph_range.archive_range().is_some() {
        crate::text::append_text(&mut text, "hist ");
    }
    crate::text::append_text(&mut text, app.graph_range.label());
    proof {
        assert(text@ =~= detail_title(app@, key@));
    }
    text
}

fn figures(app: &App, key: &PidKey, current: Binary64) -> (line: Vec<Piece>)
    requires
        app.wf(),
        current == match live_power(app@.snapshot.rows, key@) {
            Some(power) => power,
            None => Binary64 { bits: 0 },
        },
    ensures
        crate::lists::models(line@) == figures_line(app@, key@),
{
    let avg: Binary64 = app.history_store.pid_avg(key, PROCESS_AVG_WINDOW_TICKS, app.tick);
    let peak: Binary64 = app.history_store.pid_peak(key, PROCESS_PEAK_WINDOW_TICKS, app.tick);
    let heat: Paint = Paint::Heat(
        crate::ui::spectrum_band_color(current, &app.settings.graph_heat),
    );
    let line: Vec<Piece> = vec![
        muted_piece("now "),
        crate::chips::piece_of(
            &crate::chips::power_text(current),
            crate::chips::tone_strong(heat),
        ),
        muted_piece("  avg2m "),
        bright_piece(&crate::chips::power_text(avg)),
        muted_piece("  peak2m "),
        bright_piece(&crate::chips::power_text(peak)),
        muted_piece("  live rank "),
        bright_piece(&rank_chars(app, key)),
    ];
    proof {
        assert(crate::lists::models(line@) =~= figures_line(app@, key@));
    }
    line
}

/// Archived samples that may be missing.
pub open spec fn samples_model(samples: Option<Vec<Option<Binary64>>>) -> Option<
    Seq<Option<Binary64>>,
> {
    match samples {
        Some(samples) => Some(samples@),
        None => None,
    }
}

fn archive_pieces(label: &str, samples: &Option<Vec<Option<Binary64>>>) -> (line: Vec<Piece>)
    ensures
        crate::lists::models(line@) == archive_line(label@, samples_model(*samples)),
{
    let metrics: Option<ArchiveBucketMetrics> = match samples {
        Some(samples) => archive_bucket_metrics(samples.as_slice()),
        None => None,
    };
    let mut start: Vec<char> = crate::text::chars_of("hist ");
    crate::text::append_text(&mut start, label);
    match metrics {
        Some(metrics) => {
            crate::text::append_text(&mut start, " pid buckets ");
            let line: Vec<Piece> = vec![
                crate::chips::piece_of(&start, crate::chips::tone_of(Paint::Muted)),
                muted_piece("avg bucket "),
                bright_piece(&crate::chips::power_text(metrics.avg_bucket_power)),
                muted_piece("  max bucket avg "),
                bright_piece(&crate::chips::power_text(metrics.max_bucket_power)),
                muted_piece("  buckets "),
                bright_piece(&crate::text::decimal_chars(metrics.bucket_count as u64)),
            ];
            proof {
                assert(crate::lists::models(line@) =~= archive_line(
                    label@,
                    samples_model(*samples),
                ));
            }
            line
        },
        None => {
            crate::text::append_text(
                &mut start,
                " pid buckets: no historical data in selected range.",
            );
            crate::chips::line_of(
                crate::chips::piece_of(&start, crate::chips::tone_of(Paint::Muted)),
            )
        },
    }
}

fn detail_text(app: &App, key: &PidKey, samples: &Option<Vec<Option<Binary64>>>) -> (lines: Vec<
    Vec<Piece>,
>)
    requires
        app.wf(),
    ensures
        crate::chips::line_models(lines@) == detail_lines(app@, key@, samples_model(*samples)),
        lines@.len() <= 4,
{
    let live: Option<Binary64> = live_power_of(&app.snapshot.rows, key);
    let current: Binary64 = match live {
        Some(power) => power,
        None => Binary64::zero(),
    };
    let mut name: Vec<char> = crate::text::chars_of(key.process.as_str());
    crate::text::append_text(&mut name, " (");
    let mut number: Vec<char> = crate::text::i32_chars(key.pid);
    name.append(&mut number);
    crate::text::append_text(&mut name, ")");
    let first: Vec<Piece> = crate::chips::line_of(
        crate::chips::piece_of(&name, crate::chips::tone_strong(Paint::Fg)),
    );
    let mut lines: Vec<Vec<Piece>> = vec![first, figures(app, key, current)];
    if app.graph_range.archive_range().is_some() {
        lines.push(archive_pieces(app.graph_range.label(), samples));
    }
    if live.is_none() {
        lines.push(crate::chips::line_of(muted_piece("Not present in the latest top sample.")));
    }
    proof {
        assert(crate::chips::line_models(lines@) =~= detail_lines(
            app@,
            key@,
            samples_model(*samples),
        ));
    }
    lines
}

fn detail_dots(
    app: &App,
    key: &PidKey,
    samples: &Option<Vec<Option<Binary64>>>,
    width: u16,
    height: u16,
) -> (lines: Option<Vec<Vec<Piece>>>)
    requires
        app.wf(),
    ensures
        match detail_graph(app@, key@, samples_model(*samples), width, height) {
            Some(rows) => lines is Some && crate::chips::line_models(lines->0@) == rows,
            None => lines is None,
        },
{
    if width == 0 || height == 0 {
        return None;
    }
    if app.graph_range.archive_range().is_some() {
        return match samples {
            Some(samples) => {
                let (min, max): (Binary64, Binary64) = crate::graph::graph_scale_bounds_optional(
                    samples.as_slice(),
                );
                let runs: Vec<Vec<Run>> = crate::graph::braille_history_lines_optional_with_scale(
                    samples.as_slice(),
                    width as usize,
                    height as usize,
                    min,
                    max,
                );
                Some(crate::chips::lines_from_runs(&runs))
            },
            None => None,
        };
    }
    let values: Vec<Binary64> = app.history_store.pid_recent_values(
        key,
        HISTORY_LIMIT as u64,
        app.tick,
    );
    let shown: Vec<Binary64> = crate::graph::history_viewport_samples(
        values.as_slice(),
        width as usize,
    );
    Some(crate::ui::live_graph_lines(&values, &shown, width, height))
}

/// Draws the details of a pinned process.
pub(crate) fn draw_detail_panel(
    out: &mut Vec<Draw>,
    app: &App,
    key: &PidKey,
    area: Area,
    blocked: bool,
)
    requires
        app.wf(),
        area.fits(),
    ensures
        crate::lists::models(final(out)@) == crate::lists::models(old(out)@) + detail_panel(
            app@,
            key@,
            area,
            blocked,
        ),
{
    let ghost before = crate::lists::models(out@);
    let inner: Area = area.inner();
    let top: Vec<Piece> = crate::chips::line_of(
        crate::chips::piece_of(&title_chars(app, key), crate::chips::tone_as_is()),
    );
    let bottom: Vec<Piece> = Vec::new();
    proof {
        assert(crate::lists::models(bottom@) =~= Seq::empty());
    }
    crate::ui::draw(out, Draw::Panel { area, top, bottom, bottom_on_right: false });
    if !blocked {
        let keys: Vec<Vec<Piece>> = vec![
            crate::chips::action_chip_line("range", "r"),
            crate::chips::action_chip_line("unpin", "Enter"),
        ];
        proof {
            assert(crate::chips::line_models(keys@) =~= seq![
                crate::chips::action_chip("range"@, "r"@),
                crate::chips::action_chip("unpin"@, "Enter"@),
            ]);
        }
        crate::ui::draw_right_chips(out, area, crate::ui::lower_border_of(area), &keys);
    }
    let samples: Option<Vec<Option<Binary64>>> = if inner.width == 0 {
        None
    } else {
        app.pid_archive_samples_for_width(key, inner.width as usize)
    };
    proof {
        assert(samples_model(samples) == archived_samples(app@, key@, inner.width));
    }
    let lines: Vec<Vec<Piece>> = detail_text(app, key, &samples);
    let text_height: u16 = if lines.len() < inner.height as usize {
        lines.len() as u16
    } else {
        inner.height
    };
    crate::ui::draw(
        out,
        Draw::Text {
            area: Area { x: inner.x, y: inner.y, width: inner.width, height: text_height },
            lines,
            centered: false,
            wrapped: false,
        },
    );
    let left: u16 = inner.height - text_height;
    match detail_dots(app, key, &samples, inner.width, left) {
        Some(rows) => {
            crate::ui::draw(
                out,
                Draw::Text {
                    area: Area {
                        x: inner.x,
                        y: inner.y + text_height,
                        width: inner.width,
                        height: left,
                    },
                    lines: rows,
                    centered: false,
                    wrapped: false,
                },
            );
        },
        None => {},
    }
    proof {
        assert(crate::lists::models(out@) =~= before + detail_panel(app@, key@, area, blocked));
    }
}

pub open spec fn plain_cell(text: Seq<char>) -> Seq<PieceModel> {
    seq![crate::chips::a_piece(text, Tone::as_is())]
}

pub open spec fn accent_cell(text: Seq<char>) -> Seq<PieceModel> {
    seq![crate::chips::a_piece(text, Tone::strong(Paint::Accent))]
}

/// The mark of the pinned process's row.
pub open spec fn pin_marker(pinned: bool) -> Seq<PieceModel> {
    if pinned {
        accent_cell("▍"@)
    } else {
        plain_cell(" "@)
    }
}

/// A heading that an arrow stands behind where the table is sorted by it.
pub open spec fn sort_header(label: Seq<char>, active: bool) -> Seq<PieceModel> {
    seq![
        crate::chips::a_piece(label, Tone::strong(Paint::Accent)),
        if active {
            crate::chips::a_piece("↓"@, Tone::strong(Paint::Accent))
        } else {
            crate::chips::a_piece(" "@, Tone::as_is())
        },
    ]
}

/// A row of dots for some values.
pub open spec fn trend_dots(values: Seq<Binary64>, width: u16) -> Seq<PieceModel> {
    if width == 0 || values.len() == 0 {
        plain_cell(""@)
    } else {
        crate::ui::live_graph(values, values, width as nat, 1)[0]
    }
}

/// The cells of a row of the table.
pub open spec fn row_cells(
    row: ProcessTableRowModel,
    pinned: Option<PidKeyModel>,
    history: HistoryModel,
    tick: u64,
    heat: GraphHeatSettings,
    layout: TableLayout,
) -> Seq<Seq<PieceModel>> {
    seq![pin_marker(pinned == Some(row.key))] + (if layout.show_pid {
        seq![plain_cell(crate::text::integer_text(row.key.pid as int))]
    } else {
        Seq::empty()
    }) + seq![
        plain_cell(row.key.process),
        seq![
            crate::chips::a_piece(
                crate::decimal::fixed_text(row.current, 1),
                Tone::of(crate::ui::band(row.current, heat)),
            ),
        ],
    ] + (if layout.show_avg {
        seq![plain_cell(crate::decimal::fixed_text(row.avg, 1))]
    } else {
        Seq::empty()
    }) + (if layout.show_peak {
        seq![plain_cell(crate::decimal::fixed_text(row.peak, 1))]
    } else {
        Seq::empty()
    }) + (if layout.trend_width > 0 {
        seq![
            trend_dots(
                history.pid_window(row.key, (layout.trend_width * 2) as u64, tick),
                layout.trend_width,
            ),
        ]
    } else {
        Seq::empty()
    })
}

/// The headings of the table.
pub open spec fn header_cells(layout: TableLayout, sort: ProcessSort) -> Seq<Seq<PieceModel>> {
    seq![plain_cell(" "@)] + (if layout.show_pid {
        seq![plain_cell("PID"@)]
    } else {
        Seq::empty()
    }) + seq![accent_cell("PROCESS"@), sort_header("NOW"@, sort == ProcessSort::Current)] + (
    if layout.show_avg {
        seq![sort_header("AVG2M"@, sort == ProcessSort::Avg2m)]
    } else {
        Seq::empty()
    }) + (if layout.show_peak {
        seq![sort_header("PEAK"@, sort == ProcessSort::Peak)]
    } else {
        Seq::empty()
    }) + (if layout.trend_width > 0 {
        seq![accent_cell("TREND"@)]
    } else {
        Seq::empty()
    })
}

/// How many rows are shown of how many, and the filter.
pub open spec fn table_title(app: AppModel) -> Seq<char> {
    let counts = crate::text::decimal_text(app.process_rows.len()) + "/"@
        + crate::text::decimal_text(app.snapshot.rows.len());
    match app.process_filter_input {
        Some(input) => counts + " • filter edit: "@ + input,
        None => if app.process_filter_query.len() == 0 {
            counts
        } else {
            counts + " • filter: "@ + app.process_filter_query
        },
    }
}

/// The rows of the table that are on screen.
pub open spec fn rows_shown(app: AppModel, area: Area) -> Seq<Seq<Seq<PieceModel>>> {
    let (start, end) = crate::layout::row_window(
        app.process_scroll,
        crate::layout::rows_on_screen(area.height),
        app.process_rows.len(),
    );
    Seq::new(
        (end - start) as nat,
        |i: int|
            row_cells(
                app.process_rows[start + i],
                app.pinned,
                app.history_store,
                app.tick,
                app.settings.graph_heat,
                TableLayout::of(area.width),
            ),
    )
}

/// The row that is picked out: the selected one, unless a process is pinned.
pub open spec fn row_picked(app: AppModel) -> Option<usize> {
    if app.process_rows.len() == 0 || app.pinned is Some {
        None
    } else {
        let start = if app.process_scroll <= app.process_rows.len() {
            app.process_scroll as int
        } else {
            app.process_rows.len() as int
        };
        Some(
            if app.process_selected >= start {
                (app.process_selected - start) as usize
            } else {
                0
            },
        )
    }
}

/// The process table.
pub open spec fn table_panel(app: AppModel, area: Area, blocked: bool) -> Seq<DrawModel> {
    let layout = TableLayout::of(area.width);
    let low = crate::ui::lower_border(area);
    seq![
        DrawModel::Table {
            area,
            title: seq![muted(table_title(app))],
            header: header_cells(layout, app.process_sort),
            rows: rows_shown(app, area),
            widths: layout.widths(crate::layout::name_width(area.width)),
            selected: row_picked(app),
        },
        crate::ui::left_chips(
            area,
            area.y,
            seq![crate::chips::chip("²processes"@, Some('²'))],
        ),
    ] + (if blocked {
        Seq::empty()
    } else {
        seq![
            crate::ui::left_chips(
                area,
                low,
                seq![
                    crate::chips::action_chip("menu"@, "m"@),
                    crate::chips::action_chip("filter"@, "f"@),
                    crate::chips::action_chip("quit"@, "q"@),
                ],
            ),
            crate::ui::right_chips(area, low, seq![crate::chips::action_chip("sort"@, "s"@)]),
        ]
    })
}

fn plain_line(text: &str) -> (cell: Vec<Piece>)
    ensures
        crate::lists::models(cell@) == plain_cell(text@),
{
    crate::chips::line_of(crate::chips::piece(text, crate::chips::tone_as_is()))
}

fn plain_chars(text: &Vec<char>) -> (cell: Vec<Piece>)
    ensures
        crate::lists::models(cell@) == plain_cell(text@),
{
    crate::chips::line_of(crate::chips::piece_of(text, crate::chips::tone_as_is()))
}

fn accent_line(text: &str) -> (cell: Vec<Piece>)
    ensures
        crate::lists::models(cell@) == accent_cell(text@),
{
    crate::chips::line_of(crate::chips::piece(text, crate::chips::tone_strong(Paint::Accent)))
}

pub fn pin_marker_cell(is_pinned: bool) -> (cell: Vec<Piece>)
    ensures
        crate::lists::models(cell@) == pin_marker(is_pinned),
{
    if is_pinned {
        accent_line("▍")
    } else {
        plain_line(" ")
    }
}

pub fn sort_header_cell(label: &str, active: bool) -> (cell: Vec<Piece>)
    ensures
        crate::lists::models(cell@) == sort_header(label@, active),
{
    let arrow: Piece = if active {
        crate::chips::piece("↓", crate::chips::tone_strong(Paint::Accent))
    } else {
        crate::chips::piece(" ", crate::chips::tone_as_is())
    };
    let cell: Vec<Piece> = vec![
        crate::chips::piece(label, crate::chips::tone_strong(Paint::Accent)),
        arrow,
    ];
    proof {
        assert(crate::lists::models(cell@) =~= sort_header(label@, active));
    }
    cell
}

pub fn trend_sparkline_cell(samples: &Vec<Binary64>, width: u16) -> (cell: Vec<Piece>)
    ensures
        crate::lists::models(cell@) == trend_dots(samples@, width),
{
    if width == 0 || samples.len() == 0 {
        return plain_line("");
    }
    let mut lines: Vec<Vec<Piece>> = crate::ui::live_graph_lines(samples, samples, width, 1);
    proof {
        let all = crate::ui::live_graph(samples@, samples@, width as nat, 1);
        assert(all.len() == 1);
        assert(all[0] == crate::chips::line_models(lines@)[0]);
    }
    lines.remove(0)
}

fn is_pinned_row(pinned: &Option<PinnedProcess>, key: &PidKey) -> (b: bool)
    ensures
        b == (crate::app_state::pinned_model(*pinned) == Some(key@)),
{
    match pinned {
        Some(pin) => pin.pid == key.pid && pin.process.eq(&key.process),
        None => false,
    }
}

fn cells_of_row(
    row: &ProcessTableRow,
    pinned: &Option<PinnedProcess>,
    history: &HistoryStore,
    tick: u64,
    heat: &GraphHeatSettings,
    layout: TableLayout,
) -> (cells: Vec<Vec<Piece>>)
    requires
        history.wf(),
        layout.trend_width <= 24,
    ensures
        crate::chips::line_models(cells@) == row_cells(
            row@,
            crate::app_state::pinned_model(*pinned),
            history@,
            tick,
            *heat,
            layout,
        ),
{
    let mut cells: Vec<Vec<Piece>> = vec![pin_marker_cell(is_pinned_row(pinned, &row.key))];
    if layout.show_pid {
        cells.push(plain_chars(&crate::text::i32_chars(row.key.pid)));
    }
    cells.push(plain_line(row.key.process.as_str()));
    let paint: Paint = Paint::Heat(crate::ui::spectrum_band_color(row.current, heat));
    cells.push(
        crate::chips::line_of(
            crate::chips::piece_of(
                &crate::chips::power_text(row.current),
                crate::chips::tone_of(paint),
            ),
        ),
    );
    if layout.show_avg {
        cells.push(plain_chars(&crate::chips::power_text(row.avg)));
    }
    if layout.show_peak {
        cells.push(plain_chars(&crate::chips::power_text(row.peak)));
    }
    if layout.trend_width > 0 {
        let values: Vec<Binary64> = history.pid_recent_values(
            &row.key,
            layout.trend_width as u64 * 2,
            tick,
        );
        cells.push(trend_sparkline_cell(&values, layout.trend_width));
    }
    proof {
        assert(crate::chips::line_models(cells@) =~= row_cells(
            row@,
            crate::app_state::pinned_model(*pinned),
            history@,
            tick,
            *heat,
            layout,
        ));
    }
    cells
}

#[verifier::rlimit(40)]
fn header_of(layout: TableLayout, sort: ProcessSort) -> (cells: Vec<Vec<Piece>>)
    ensures
        crate::chips::line_models(cells@) == header_cells(layout, sort),
{
    let mut cells: Vec<Vec<Piece>> = vec![plain_line(" ")];
    if layout.show_pid {
        cells.push(plain_line("PID"));
    }
    cells.push(accent_line("PROCESS"));
    cells.push(sort_header_cell("NOW", sort == ProcessSort::Current));
    if layout.show_avg {
        cells.push(sort_header_cell("AVG2M", sort == ProcessSort::Avg2m));
    }
    if layout.show_peak {
        cells.push(sort_header_cell("PEAK", sort == ProcessSort::Peak));
    }
    if layout.trend_width > 0 {
        cells.push(accent_line("TREND"));
    }
    proof {
        assert(crate::chips::line_models(cells@) =~= header_cells(layout, sort));
    }
    cells
}

fn table_title_chars(app: &App) -> (text: Vec<char>)
    ensures
        text@ == table_title(app@),
{
    let mut text: Vec<char> = crate::text::decimal_chars(app.process_rows.len() as u64);
    crate::text::append_text(&mut text, "/");
    crate::text::append_number(&mut text, app.snapshot.rows.len() as u64);
    match &app.process_filter_input {
        Some(input) => {
            crate::text::append_text(&mut text, " • filter edit: ");
            crate::text::append_text(&mut text, input.as_str());
        },
        None => {
            if !crate::text::is_empty(app.process_filter_query.as_str()) {
                crate::text::append_text(&mut text, " • filter: ");
                crate::text::append_text(&mut text, app.process_filter_query.as_str());
            }
        },
    }
    text
}

/// Draws the process table.
pub(crate) fn draw_table_panel(out: &mut Vec<Draw>, app: &App, area: Area, blocked: bool)
    requires
        app.wf(),
        area.fits(),
    ensures
        crate::lists::models(final(out)@) == crate::lists::models(old(out)@) + table_panel(
            app@,
            area,
            blocked,
        ),
{
    let ghost before = crate::lists::models(out@);
    let layout: TableLayout = TableLayout::for_processes(area.width);
    let visible: usize = area.height.saturating_sub(3) as usize;
    let (start, end): (usize, usize) = crate::layout::visible_rows(
        app.process_scroll,
        visible,
        app.process_rows.len(),
    );
    let ghost wanted = rows_shown(app@, area);
    let mut rows: Vec<Vec<Vec<Piece>>> = Vec::new();
    let mut i: usize = start;
    while i < end
        invariant
            start <= i <= end <= app.process_rows@.len(),
            app.wf(),
            layout == TableLayout::of(area.width),
            rows@.len() == i - start,
            wanted == rows_shown(app@, area),
            (start as nat, end as nat) == crate::layout::row_window(
                app.process_scroll,
                crate::layout::rows_on_screen(area.height),
                app@.process_rows.len(),
            ),
            forall|j: int|
                0 <= j < i - start ==> crate::chips::line_models((#[trigger] rows@[j])@)
                    == wanted[j],
        decreases end - i,
    {
        proof {
            assert(app@.process_rows[i as int] == app.process_rows@[i as int]@);
        }
        rows.push(
            cells_of_row(
                &app.process_rows[i],
                &app.pinned,
                &app.history_store,
                app.tick,
                &app.settings.graph_heat,
                layout,
            ),
        );
        i = i + 1;
    }
    proof {
        assert(crate::ui::row_models(rows@) =~= wanted);
    }
    let selected: Option<usize> = if app.process_rows.len() == 0 || app.is_pinned() {
        None
    } else {
        Some(app.process_selected.saturating_sub(start))
    };
    let title: Vec<Piece> = crate::chips::line_of(
        crate::chips::piece_of(&table_title_chars(app), crate::chips::tone_of(Paint::Muted)),
    );
    let widths: Vec<Room> = layout.column_widths(
        crate::layout::compute_process_col_width(area.width),
    );
    let header: Vec<Vec<Piece>> = header_of(layout, app.process_sort);
    crate::ui::draw(out, Draw::Table { area, title, header, rows, widths, selected });
    crate::ui::draw_left_chips(
        out,
        area,
        area.y,
        &crate::ui::one_chip(crate::chips::chip_line("²processes", Some('²'))),
    );
    if !blocked {
        let low: u16 = crate::ui::lower_border_of(area);
        let keys: Vec<Vec<Piece>> = vec![
            crate::chips::action_chip_line("menu", "m"),
            crate::chips::action_chip_line("filter", "f"),
            crate::chips::action_chip_line("quit", "q"),
        ];
        proof {
            assert(crate::chips::line_models(keys@) =~= seq![
                crate::chips::action_chip("menu"@, "m"@),
                crate::chips::action_chip("filter"@, "f"@),
                crate::chips::action_chip("quit"@, "q"@),
            ]);
        }
        crate::ui::draw_left_chips(out, area, low, &keys);
        crate::ui::draw_right_chips(
            out,
            area,
            low,
            &crate::ui::one_chip(crate::chips::action_chip_line("sort", "s")),
        );
    }
    proof {
        assert(crate::lists::models(out@) =~= before + table_panel(app@, area, blocked));
    }
}

} // verus!
