//! What holds of what is drawn.
use vstd::prelude::*;

use crate::app_state::{AppModel, ProcessSort};
use crate::binary64::Binary64;
use crate::chips::{PieceModel, Tone};
use crate::history::PidKeyModel;
use crate::layout::{Area, Room, TableLayout};
use crate::top_parse::ProcRowModel;
use crate::ui::DrawModel;

verus! {

/// The characters of a line, whatever their tones.
pub open spec fn text_of(line: Seq<PieceModel>) -> Seq<char>
    decreases line.len(),
{
    if line.len() == 0 {
        Seq::empty()
    } else {
        text_of(line.drop_last()) + line.last().text
    }
}

pub proof fn lemma_text_of_one(piece: PieceModel)
    ensures
        text_of(seq![piece]) == piece.text,
{
    let line = seq![piece];
    assert(line.drop_last() =~= Seq::empty());
    assert(text_of(line.drop_last()) =~= Seq::empty());
    assert(text_of(line) =~= piece.text);
}

pub proof fn lemma_text_of_joined(a: Seq<PieceModel>, b: Seq<PieceModel>)
    ensures
        text_of(a + b) == text_of(a) + text_of(b),
    decreases b.len(),
{
    if b.len() == 0 {
        assert(a + b =~= a);
        assert(text_of(a) + text_of(b) =~= text_of(a));
    } else {
        lemma_text_of_joined(a, b.drop_last());
        assert((a + b).drop_last() =~= a + b.drop_last());
        assert(text_of(a) + (text_of(b.drop_last()) + b.last().text) =~= text_of(a) + text_of(
            b.drop_last(),
        ) + b.last().text);
    }
}

/// The table's columns by its width: the number from seventy-four cells on, the average from
/// fifty-eight, the peak from seventy and a trend from ninety, which grows at a hundred and ten and at
/// a hundred and forty.
pub proof fn law_columns_come_with_width(width: u16)
    ensures
        TableLayout::of(width).show_pid <==> width >= 74,
        TableLayout::of(width).show_avg <==> width >= 58,
        TableLayout::of(width).show_peak <==> width >= 70,
        width < 90 ==> TableLayout::of(width).trend_width == 0,
        90 <= width < 110 ==> TableLayout::of(width).trend_width == 14,
        110 <= width < 140 ==> TableLayout::of(width).trend_width == 18,
        width >= 140 ==> TableLayout::of(width).trend_width == 24,
        width < 44 ==> crate::layout::name_width(width) == 20,
        44 <= width < 84 ==> crate::layout::name_width(width) == 24,
        84 <= width < 124 ==> crate::layout::name_width(width) == 28,
        width >= 124 ==> crate::layout::name_width(width) == 32,
{
}

/// The place of a column among those of the table, counted from the left: the mark, the number, the
/// name, the present power, the average, the peak and the trend, each where it is shown.
pub open spec fn name_column(layout: TableLayout) -> int {
    if layout.show_pid {
        2
    } else {
        1
    }
}

pub open spec fn avg_column(layout: TableLayout) -> int {
    name_column(layout) + 2
}

pub open spec fn peak_column(layout: TableLayout) -> int {
    avg_column(layout) + if layout.show_avg {
        1int
    } else {
        0
    }
}

pub open spec fn trend_column(layout: TableLayout) -> int {
    peak_column(layout) + if layout.show_peak {
        1int
    } else {
        0
    }
}

pub open spec fn column_count(layout: TableLayout) -> int {
    trend_column(layout) + if layout.trend_width > 0 {
        1int
    } else {
        0
    }
}

/// The table shows its rows from the scroll position on, as many as its height has room for, one to
/// each line: in their columns the number, the name, and the present power, the average and the peak
/// with one digit behind the point.
pub proof fn law_table_shows_its_rows(app: AppModel, area: Area, i: int)
    requires
        app.process_scroll <= app.process_rows.len(),
        0 <= i < crate::ui_table::rows_shown(app, area).len(),
    ensures
        ({
            let shown = crate::ui_table::rows_shown(app, area);
            let room = if area.height > 3 {
                area.height - 3
            } else {
                0
            };
            let left = app.process_rows.len() - app.process_scroll;
            let row = app.process_rows[app.process_scroll + i];
            let layout = TableLayout::of(area.width);
            let cells = shown[i];
            &&& shown.len() == if left < room {
                left
            } else {
                room
            }
            &&& cells.len() == column_count(layout)
            &&& layout.show_pid ==> text_of(cells[1]) == crate::text::integer_text(
                row.key.pid as int,
            )
            &&& text_of(cells[name_column(layout)]) == row.key.process
            &&& text_of(cells[name_column(layout) + 1]) == crate::decimal::fixed_text(
                row.current,
                1,
            )
            &&& layout.show_avg ==> text_of(cells[avg_column(layout)])
                == crate::decimal::fixed_text(row.avg, 1)
            &&& layout.show_peak ==> text_of(cells[peak_column(layout)])
                == crate::decimal::fixed_text(row.peak, 1)
            &&& cells[0][0].text == "▍"@ || app.pinned != Some(row.key)
        }),
{
    let row = app.process_rows[app.process_scroll + i];
    let layout = TableLayout::of(area.width);
    let cells = crate::ui_table::rows_shown(app, area)[i];
    lemma_text_of_one(
        crate::chips::a_piece(crate::text::integer_text(row.key.pid as int), Tone::as_is()),
    );
    lemma_text_of_one(crate::chips::a_piece(row.key.process, Tone::as_is()));
    lemma_text_of_one(
        crate::chips::a_piece(
            crate::decimal::fixed_text(row.current, 1),
            Tone::of(crate::ui::band(row.current, app.settings.graph_heat)),
        ),
    );
    lemma_text_of_one(
        crate::chips::a_piece(crate::decimal::fixed_text(row.avg, 1), Tone::as_is()),
    );
    lemma_text_of_one(
        crate::chips::a_piece(crate::decimal::fixed_text(row.peak, 1), Tone::as_is()),
    );
}

/// The headings stand over their columns, and an arrow stands behind the one that the table is sorted
/// by.
pub proof fn law_headings_stand_over_their_columns(layout: TableLayout, sort: ProcessSort)
    ensures
        ({
            let cells = crate::ui_table::header_cells(layout, sort);
            let widths = layout.widths(crate::layout::name_width(0));
            &&& cells.len() == column_count(layout)
            &&& widths.len() == column_count(layout)
            &&& layout.show_pid ==> cells[1][0].text == "PID"@ && widths[1] == Room::Length(7)
            &&& cells[name_column(layout)][0].text == "PROCESS"@
            &&& widths[name_column(layout)] is Min
            &&& cells[name_column(layout) + 1][0].text == "NOW"@
            &&& widths[name_column(layout) + 1] == Room::Length(8)
            &&& layout.show_avg ==> cells[avg_column(layout)][0].text == "AVG2M"@
                && widths[avg_column(layout)] == Room::Length(8)
            &&& layout.show_peak ==> cells[peak_column(layout)][0].text == "PEAK"@
                && widths[peak_column(layout)] == Room::Length(8)
            &&& layout.trend_width > 0 ==> cells[trend_column(layout)][0].text == "TREND"@
                && widths[trend_column(layout)] == Room::Length(layout.trend_width)
            &&& sort == ProcessSort::Current ==> cells[name_column(layout) + 1][1].text == "↓"@
            &&& sort == ProcessSort::Avg2m && layout.show_avg
                ==> cells[avg_column(layout)][1].text == "↓"@
            &&& sort == ProcessSort::Peak && layout.show_peak
                ==> cells[peak_column(layout)][1].text == "↓"@
            &&& sort != ProcessSort::Current ==> cells[name_column(layout) + 1][1].text == " "@
        }),
{
}

/// The table says how many rows pass the filter of how many there are, and what the filter is.
pub proof fn law_table_says_how_many_rows_it_has(app: AppModel)
    ensures
        ({
            let counts = crate::text::decimal_text(app.process_rows.len()) + "/"@
                + crate::text::decimal_text(app.snapshot.rows.len());
            let title = crate::ui_table::table_title(app);
            &&& app.process_filter_input matches Some(input) ==> title == counts
                + " • filter edit: "@ + input
            &&& app.process_filter_input is None && app.process_filter_query.len() > 0 ==> title
                == counts + " • filter: "@ + app.process_filter_query
            &&& app.process_filter_input is None && app.process_filter_query.len() == 0 ==> title
                == counts
        }),
{
}

/// The picked row is the selected one, counted from the first on screen.
pub proof fn law_selected_row_is_picked_out(app: AppModel)
    requires
        app.pinned is None,
        app.process_scroll <= app.process_selected < app.process_rows.len(),
    ensures
        crate::ui_table::row_picked(app) == Some(
            (app.process_selected - app.process_scroll) as usize,
        ),
{
}

/// The graph's panel shows the power history, the newest value at the right, over the whole of its
/// inside, on a scale from nothing to the top for what it shows.
pub proof fn law_graph_panel_shows_the_power_history(app: AppModel, area: Area, blocked: bool)
    ensures
        ({
            let inner = area.inside();
            let shown = crate::graph::viewport(
                app.power_history,
                2 * inner.width as nat,
                Binary64 { bits: 0 },
            );
            let panel = crate::ui::graph_panel(app, area, blocked);
            &&& panel.len() >= 4
            &&& panel.last() == DrawModel::Text {
                area: inner,
                lines: crate::chips::run_lines(
                    crate::graph::lines(
                        crate::graph::chart_of(
                            app.power_history,
                            inner.width as nat,
                            inner.height as nat,
                            Binary64 { bits: 0 },
                            crate::graph::scale_top(crate::graph::extent(shown)),
                        ).cells(inner.width as nat),
                    ),
                ),
                centered: false,
                wrapped: false,
            }
            &&& panel[2] == crate::ui::right_chips(
                area,
                area.y,
                crate::ui::power_chips(
                    app.snapshot.total_power,
                    Binary64 { bits: 0 },
                    crate::graph::scale_top(crate::graph::extent(shown)),
                ),
            )
            &&& panel[0] == DrawModel::Panel {
                area,
                top: Seq::empty(),
                bottom: crate::ui::error_line(app.last_error),
                bottom_on_right: false,
            }
        }),
{
    let inner = area.inside();
    let shown = crate::ui::main_samples(app, inner.width);
    let points = 2 * inner.width as nat;
    assert(crate::archive_query::points_of(inner.width as usize) == points);
    assert(crate::graph::viewport(shown, points, Binary64 { bits: 0 })
        =~= crate::graph::viewport(app.power_history, points, Binary64 { bits: 0 }));
}

/// The border of the graph says what is drawn together, with one digit behind the point, and how far
/// the scale goes. An error is told in full.
pub proof fn law_graph_panel_says_the_total(total: Binary64, max: Binary64, error: Seq<char>)
    ensures
        text_of(crate::ui::power_chips(total, Binary64 { bits: 0 }, max)[0]) == "power "@
            + crate::decimal::fixed_text(total, 1),
        text_of(crate::ui::power_chips(total, Binary64 { bits: 0 }, max)[1])
            == crate::decimal::fixed_text(Binary64 { bits: 0 }, 0) + "–"@
            + crate::decimal::fixed_text(max, 0),
        text_of(crate::ui::error_line(Some(error))) == "error: "@ + error,
{
    let chips = crate::ui::power_chips(total, Binary64 { bits: 0 }, max);
    let first = chips[0];
    assert(first.drop_last() =~= seq![first[0]]);
    lemma_text_of_one(first[0]);
    lemma_text_of_one(chips[1][0]);
    assert(chips[1] =~= seq![chips[1][0]]);
    lemma_text_of_one(crate::ui::error_line(Some(error))[0]);
    assert(crate::ui::error_line(Some(error)) =~= seq![
        crate::ui::error_line(Some(error))[0],
    ]);
}

/// While a session is paused or waits for its first refresh, the border of the graph says so.
pub proof fn law_graph_panel_says_the_state(paused: bool, loading: bool)
    ensures
        ({
            let chips = crate::ui::state_chips(paused, loading);
            &&& chips.len() == 1 + (if paused {
                1int
            } else {
                0
            }) + (if loading {
                1int
            } else {
                0
            })
            &&& paused ==> chips[1][0].text == "PAUSED"@
            &&& loading ==> chips.last()[0].text == "LOADING"@
        }),
{
}

/// What a process draws now is found by its number and its name.
pub proof fn law_live_power_is_that_of_the_process(rows: Seq<ProcRowModel>, key: PidKeyModel)
    ensures
        match crate::ui_table::live_power(rows, key) {
            Some(power) => exists|i: int|
                0 <= i < rows.len() && (#[trigger] rows[i]).pid == key.pid && rows[i].process
                    == key.process && rows[i].power_num == power && forall|j: int|
                    0 <= j < i ==> (#[trigger] rows[j]).pid != key.pid || rows[j].process
                        != key.process,
            None => forall|j: int|
                0 <= j < rows.len() ==> (#[trigger] rows[j]).pid != key.pid || rows[j].process
                    != key.process,
        },
    decreases rows.len(),
{
    if rows.len() > 0 && !(rows[0].pid == key.pid && rows[0].process == key.process) {
        let rest = rows.skip(1);
        law_live_power_is_that_of_the_process(rest, key);
        match crate::ui_table::live_power(rows, key) {
            Some(power) => {
                let i = choose|i: int|
                    0 <= i < rest.len() && (#[trigger] rest[i]).pid == key.pid && rest[i].process
                        == key.process && rest[i].power_num == power && forall|j: int|
                        0 <= j < i ==> (#[trigger] rest[j]).pid != key.pid || rest[j].process
                            != key.process;
                assert(rows[i + 1] == rest[i]);
                assert forall|j: int| 0 <= j < i + 1 implies (#[trigger] rows[j]).pid != key.pid
                    || rows[j].process != key.process by {
                    if j > 0 {
                        assert(rest[j - 1] == rows[j]);
                    }
                }
            },
            None => {
                assert forall|j: int| 0 <= j < rows.len() implies (#[trigger] rows[j]).pid
                    != key.pid || rows[j].process != key.process by {
                    if j > 0 {
                        assert(rest[j - 1] == rows[j]);
                    }
                }
            },
        }
    }
}

/// The details of a process say its name and number, what it draws now, and its average and its peak
/// of two minutes, with one digit behind the point.
pub proof fn law_details_say_the_figures(
    app: AppModel,
    key: PidKeyModel,
    samples: Option<Seq<Option<Binary64>>>,
)
    ensures
        ({
            let lines = crate::ui_table::detail_lines(app, key, samples);
            let now = match crate::ui_table::live_power(app.snapshot.rows, key) {
                Some(power) => power,
                None => Binary64 { bits: 0 },
            };
            &&& lines.len() >= 2
            &&& lines[0][0].text == key.process + " ("@ + crate::text::integer_text(
                key.pid as int,
            ) + ")"@
            &&& lines[1][0].text == "now "@
            &&& lines[1][1].text == crate::decimal::fixed_text(now, 1)
            &&& lines[1][2].text == "  avg2m "@
            &&& lines[1][3].text == crate::decimal::fixed_text(
                app.history_store.pid_average(key, 60, app.tick),
                1,
            )
            &&& lines[1][4].text == "  peak2m "@
            &&& lines[1][5].text == crate::decimal::fixed_text(
                app.history_store.pid_highest(key, 60, app.tick),
                1,
            )
            &&& crate::ui_table::live_power(app.snapshot.rows, key) is None ==> lines.last()[0].text
                == "Not present in the latest top sample."@
            &&& app.graph_range.archived() is Some ==> lines.len() >= 3
        }),
{
}

/// The details show the archive of the process over the range that is chosen, or the live history of
/// the process where the range is the shortest.
pub proof fn law_details_show_the_chosen_range(
    app: AppModel,
    key: PidKeyModel,
    width: u16,
    height: u16,
)
    requires
        width > 0,
        height > 0,
    ensures
        ({
            let samples = crate::ui_table::archived_samples(app, key, width);
            let graph = crate::ui_table::detail_graph(app, key, samples, width, height);
            &&& app.graph_range.archived() matches Some(range) ==> samples == Some(
                crate::archive_query::graph(
                    range.tier(app.archive),
                    range,
                    2 * width as nat,
                    crate::archive_query::Subject::Process(key),
                ),
            ) && graph == Some(
                crate::chips::run_lines(
                    crate::graph::lines(
                        crate::graph::chart_of_optional(
                            samples->0,
                            width as nat,
                            height as nat,
                            Binary64 { bits: 0 },
                            crate::graph::scale_top(
                                crate::graph::extent(crate::graph::present(samples->0)),
                            ),
                        ).cells(width as nat),
                    ),
                ),
            )
            &&& app.graph_range.archived() is None ==> samples is None && graph == Some(
                crate::ui::live_graph(
                    app.history_store.pid_window(key, 240, app.tick),
                    crate::graph::viewport(
                        app.history_store.pid_window(key, 240, app.tick),
                        2 * width as nat,
                        Binary64 { bits: 0 },
                    ),
                    width as nat,
                    height as nat,
                ),
            )
        }),
{
}

/// The rank of a process is its place among the rows of the table, counted from one.
pub proof fn law_rank_is_the_place_in_the_table(
    rows: Seq<crate::app_state::ProcessTableRowModel>,
    key: PidKeyModel,
    i: int,
)
    requires
        0 <= i < rows.len(),
        rows[i].key == key,
        forall|j: int| 0 <= j < i ==> (#[trigger] rows[j]).key != key,
    ensures
        crate::app_state::row_of_key(rows, key) == i,
        crate::ui_table::rank_text(rows, key) == "#"@ + crate::text::decimal_text((i + 1) as nat)
            + " / "@ + crate::text::decimal_text(rows.len()),
    decreases rows.len(),
{
    if i > 0 {
        let rest = rows.skip(1);
        assert(rows[0].key != key);
        assert(rest[i - 1] == rows[i]);
        assert forall|j: int| 0 <= j < i - 1 implies (#[trigger] rest[j]).key != key by {
            assert(rest[j] == rows[j + 1]);
        }
        law_rank_is_the_place_in_the_table(rest, key, i - 1);
    }
}

/// The average and the largest of the columns that hold a value, and how many they are.
pub proof fn law_metrics_are_of_the_columns_with_a_value(samples: Seq<Option<Binary64>>)
    ensures
        ({
            let there = crate::graph::present(samples);
            let metrics = crate::ui_table::bucket_metrics(samples);
            &&& metrics is None <==> there.len() == 0
            &&& metrics matches Some(found) ==> {
                &&& there.len() <= usize::MAX ==> found.bucket_count == there.len()
                &&& found.avg_bucket_power == crate::binary64::added_to(
                    Binary64 { bits: 0 },
                    there,
                ).quotient(Binary64::whole(there.len()))
                &&& (forall|i: int| 0 <= i < there.len() ==> !(#[trigger] there[i]).nan()) ==> (
                forall|i: int|
                    0 <= i < there.len() ==> (#[trigger] there[i]).le(found.max_bucket_power))
                    && there.contains(found.max_bucket_power)
            }
        }),
{
    let there = crate::graph::present(samples);
    if there.len() > 0 && (forall|i: int| 0 <= i < there.len() ==> !(#[trigger] there[i]).nan()) {
        lemma_top_value(there);
    }
}

proof fn lemma_top_value(values: Seq<Binary64>)
    requires
        values.len() > 0,
        forall|i: int| 0 <= i < values.len() ==> !(#[trigger] values[i]).nan(),
    ensures
        !crate::ui_table::top_value(values).nan(),
        forall|i: int|
            0 <= i < values.len() ==> (#[trigger] values[i]).le(
                crate::ui_table::top_value(values),
            ),
        values.contains(crate::ui_table::top_value(values)),
    decreases values.len(),
{
    let front = values.drop_last();
    let last = values[values.len() - 1];
    let least = Binary64 { bits: crate::ui::NEGATIVE_INFINITY_BITS };
    assert(least.magnitude() == crate::binary64::INFINITE && least.negative());
    assert(!last.nan());
    if front.len() == 0 {
        assert(crate::ui_table::top_value(front) == least);
        assert(crate::ui_table::top_value(values).rank() == last.rank());
        assert(values[0] == last);
        if !least.lt(last) {
            assert(last.rank() == least.rank());
            assert(last.bits == least.bits);
        }
    } else {
        assert forall|i: int| 0 <= i < front.len() implies !(#[trigger] front[i]).nan() by {
            assert(front[i] == values[i]);
        }
        lemma_top_value(front);
        let top = crate::ui_table::top_value(front);
        let k = choose|k: int| 0 <= k < front.len() && front[k] == top;
        assert(values[k] == top);
        assert forall|i: int| 0 <= i < values.len() implies (#[trigger] values[i]).le(
            crate::ui_table::top_value(values),
        ) by {
            if i < front.len() {
                assert(front[i] == values[i]);
            }
        }
    }
    assert(values.contains(values[values.len() - 1]));
}

/// The values that are there are those of the columns with one, in their order.
pub proof fn law_present_values_are_those_that_are_there(
    samples: Seq<Option<Binary64>>,
    next: Option<Binary64>,
)
    ensures
        crate::graph::present(samples.push(next)) == match next {
            Some(value) => crate::graph::present(samples).push(value),
            None => crate::graph::present(samples),
        },
        crate::graph::present(Seq::<Option<Binary64>>::empty()) == Seq::<Binary64>::empty(),
{
    assert(samples.push(next).drop_last() =~= samples);
}

/// A chip spells its label, whichever character is picked out.
pub proof fn law_chips_spell_their_label(label: Seq<char>, hotkey: Option<char>)
    ensures
        text_of(crate::chips::chip(label, hotkey)) == label,
{
    let chip = crate::chips::chip(label, hotkey);
    match hotkey {
        Some(key) => {
            lemma_key_within(label, key);
            let at = crate::chips::key_at(label, key) as int;
            if at >= label.len() {
                lemma_text_of_one(chip[0]);
                assert(chip =~= seq![chip[0]]);
            } else {
                let plain = Tone::strong(crate::chips::Paint::Fg);
                let marked = Tone::strong(crate::chips::Paint::Accent);
                let a = crate::chips::some_piece(label.take(at), plain);
                let b = seq![PieceModel { text: seq![label[at]], tone: marked }];
                let c = crate::chips::some_piece(label.skip(at + 1), plain);
                lemma_some_piece(label.take(at), plain);
                lemma_some_piece(label.skip(at + 1), plain);
                lemma_text_of_one(b[0]);
                lemma_text_of_joined(a, b);
                lemma_text_of_joined(a + b, c);
                assert(label.take(at) + seq![label[at]] + label.skip(at + 1) =~= label);
            }
        },
        None => {
            lemma_text_of_one(chip[0]);
            assert(chip =~= seq![chip[0]]);
        },
    }
}

proof fn lemma_some_piece(text: Seq<char>, tone: Tone)
    ensures
        text_of(crate::chips::some_piece(text, tone)) == text,
{
    if text.len() == 0 {
        assert(text_of(crate::chips::some_piece(text, tone)) =~= text);
    } else {
        lemma_text_of_one(PieceModel { text, tone });
    }
}

proof fn lemma_key_within(label: Seq<char>, key: char)
    ensures
        crate::chips::key_at(label, key) <= label.len(),
    decreases label.len(),
{
    if label.len() > 0 {
        lemma_key_within(label.skip(1), key);
    }
}

/// The details have about a third of the table's part: thirty-five hundredths, but at least four rows,
/// and six rows are left to the table. Where there is no room for both they are not shown.
pub proof fn law_details_have_a_third(height: u16)
    ensures
        crate::layout::detail_share(height) is Some <==> height >= 10,
        crate::layout::detail_share(height) matches Some(share) ==> 4 <= share && share + 6
            <= height && (height >= 12 ==> 100 * share <= 35 * height < 100 * share + 100),
        10 <= height < 12 ==> crate::layout::detail_share(height) == Some(4u16),
{
}

/// The palette.
pub proof fn law_the_palette()
    ensures
        crate::chips::Paint::Fg.parts() == (0xabu8, 0xb2u8, 0xbfu8),
        crate::chips::Paint::Accent.parts() == (0x61u8, 0xafu8, 0xefu8),
        crate::chips::Paint::Muted.parts() == (0x5cu8, 0x63u8, 0x70u8),
        crate::graph::HeatColor::Green.parts() == (0x98u8, 0xc3u8, 0x79u8),
        crate::graph::HeatColor::Yellow.parts() == (0xe5u8, 0xc0u8, 0x7bu8),
        crate::graph::HeatColor::Orange.parts() == (0xd1u8, 0x9au8, 0x66u8),
        crate::graph::HeatColor::Red.parts() == (0xe0u8, 0x6cu8, 0x75u8),
{
}


/// What a process draws now has the color of its power, in the table and in the details.
pub proof fn law_powers_are_drawn_in_their_color(app: AppModel, area: Area, i: int, key: PidKeyModel)
    requires
        app.process_scroll <= app.process_rows.len(),
        0 <= i < crate::ui_table::rows_shown(app, area).len(),
    ensures
        ({
            let row = app.process_rows[app.process_scroll + i];
            let layout = TableLayout::of(area.width);
            let cell = crate::ui_table::rows_shown(app, area)[i][name_column(layout) + 1];
            let now = match crate::ui_table::live_power(app.snapshot.rows, key) {
                Some(power) => power,
                None => Binary64 { bits: 0 },
            };
            &&& cell[0].tone.paint == Some(
                crate::chips::Paint::Heat(app.settings.graph_heat.heat(row.current)),
            )
            &&& crate::ui_table::figures_line(app, key)[1].tone.paint == Some(
                crate::chips::Paint::Heat(app.settings.graph_heat.heat(now)),
            )
        }),
{
}

} // verus!
