//! What holds of the panels, their borders and the dialog.
use vstd::prelude::*;

use crate::app_state::AppModel;
use crate::binary64::Binary64;
use crate::chips::{PieceModel, Tone};
use crate::draw_laws::text_of;
use crate::history::PidKeyModel;
use crate::layout::{Area, TableLayout};
use crate::screen::Screen;
use crate::settings::{SettingsField, SettingsModalModel};
use crate::ui::DrawModel;

verus! {

/// A border takes one row and one column on each side.
pub proof fn law_borders_are_one_wide(area: Area)
    requires
        area.width >= 2,
        area.height >= 2,
        area.fits(),
    ensures
        area.inside().x == area.x + 1,
        area.inside().y == area.y + 1,
        area.inside().width == area.width - 2,
        area.inside().height == area.height - 2,
{
}

/// The table is scrolled no further than the selection asks for: up to it where it is above, and until
/// it is the last row on screen where it is below.
pub proof fn law_scrolling_follows_the_selection(
    selected: usize,
    scroll: usize,
    visible: nat,
    len: nat,
)
    requires
        visible > 0,
        len > 0,
        selected < usize::MAX,
    ensures
        selected < scroll ==> crate::layout::scrolled(selected, scroll, visible, len) == selected,
        selected >= scroll + visible ==> crate::layout::scrolled(selected, scroll, visible, len)
            + visible == selected + 1,
        scroll <= selected < scroll + visible ==> crate::layout::scrolled(
            selected,
            scroll,
            visible,
            len,
        ) == scroll,
{
}

/// The table's panel: its rows, its headings and its columns over the whole of its area, with the
/// picked row and the title.
pub proof fn law_table_panel_is_complete(app: AppModel, area: Area, blocked: bool)
    ensures
        ({
            let panel = crate::ui_table::table_panel(app, area, blocked);
            let layout = TableLayout::of(area.width);
            &&& panel.len() == if blocked {
                2nat
            } else {
                4
            }
            &&& panel[0] == DrawModel::Table {
                area,
                title: seq![
                    crate::chips::a_piece(
                        crate::ui_table::table_title(app),
                        Tone::of(crate::chips::Paint::Muted),
                    ),
                ],
                header: crate::ui_table::header_cells(layout, app.process_sort),
                rows: crate::ui_table::rows_shown(app, area),
                widths: layout.widths(crate::layout::name_width(area.width)),
                selected: crate::ui_table::row_picked(app),
            }
        }),
{
}

/// Where the table has a trend, it is that of the process over the last ticks, two to a cell.
pub proof fn law_trends_show_the_last_ticks(app: AppModel, area: Area, i: int)
    requires
        0 <= i < crate::ui_table::rows_shown(app, area).len(),
        area.width >= 90,
    ensures
        ({
            let start = crate::layout::row_window(
                app.process_scroll,
                crate::layout::rows_on_screen(area.height),
                app.process_rows.len(),
            ).0;
            let row = app.process_rows[start + i];
            let width = TableLayout::of(area.width).trend_width;
            let values = app.history_store.pid_window(row.key, (2 * width) as u64, app.tick);
            let cells = crate::ui_table::rows_shown(app, area)[i];
            values.len() > 0 ==> cells.last() == crate::ui::live_graph(
                values,
                values,
                width as nat,
                1,
            )[0]
        }),
{
}

/// With both panels roomy all of them are drawn: the graph, the details of a pinned process where they
/// have a part, the table, scrolled to its selection, and an open dialog on top.
pub proof fn law_all_panels_are_drawn(app: AppModel, frame: Area, graph: Area, table: Area)
    requires
        app.show_graph,
        app.show_table,
        Screen::arranged(app, frame).graph == Some(graph),
        Screen::arranged(app, frame).table == Some(table),
        graph.height >= 3 && graph.width >= 3,
        table.height >= 3 && table.width >= 3,
    ensures
        ({
            let screen = Screen::arranged(app, frame);
            let now = app.settled();
            let shut = now.settings_modal is Some || now.process_filter_input is Some;
            let detail = if screen.detail is Some && now.pinned is Some {
                crate::ui_table::detail_panel(now, now.pinned->0, screen.detail->0, shut)
            } else {
                Seq::empty()
            };
            let scrolled = AppModel {
                process_scroll: crate::layout::scrolled(
                    now.process_selected,
                    now.process_scroll,
                    crate::layout::rows_on_screen(screen.rows.height),
                    now.process_rows.len(),
                ),
                ..now
            };
            let dialog = if now.settings_modal is Some {
                crate::ui::modal_panel(now.settings_modal->0, screen.popup)
            } else {
                Seq::empty()
            };
            crate::screen::drawing(app, frame, screen) == crate::ui::graph_panel(now, graph, shut)
                + detail + crate::ui_table::table_panel(scrolled, screen.rows, shut) + dialog
        }),
{
}

/// A panel that is shown alone is drawn over the whole frame, and with none the idle screen is.
pub proof fn law_single_panels_are_drawn(app: AppModel, frame: Area)
    requires
        frame.height >= 3,
        frame.width >= 3,
        app.settings_modal is None,
        !app.show_graph || !app.show_table,
    ensures
        ({
            let screen = Screen::arranged(app, frame);
            let now = app.settled();
            let drawn = crate::screen::drawing(app, frame, screen);
            let shut = now.process_filter_input is Some;
            &&& app.show_graph ==> drawn == crate::ui::graph_panel(now, frame, shut)
            &&& !app.show_graph && !app.show_table ==> drawn == crate::ui::idle_screen(now, frame)
            &&& app.show_table && app.pinned is None ==> drawn == crate::ui_table::table_panel(
                crate::screen::scrolled_for(now, frame),
                frame,
                shut,
            )
        }),
{
    let screen = Screen::arranged(app, frame);
    let now = app.settled();
    let drawn = crate::screen::drawing(app, frame, screen);
    let shut = now.process_filter_input is Some;
    if app.show_graph {
        assert(drawn =~= crate::ui::graph_panel(now, frame, shut));
    } else if app.show_table && app.pinned is None {
        assert(drawn =~= crate::ui_table::table_panel(
            crate::screen::scrolled_for(now, frame),
            frame,
            shut,
        ));
    } else if !app.show_table {
        assert(drawn =~= crate::ui::idle_screen(now, frame));
    }
}

/// The details' panel: its lines at the top of its inside, and the graph in all that they leave.
pub proof fn law_detail_panel_is_complete(
    app: AppModel,
    key: PidKeyModel,
    area: Area,
    blocked: bool,
)
    requires
        area.inside().width > 0,
        area.inside().height > 4,
        area.fits(),
    ensures
        ({
            let inner = area.inside();
            let samples = crate::ui_table::archived_samples(app, key, inner.width);
            let lines = crate::ui_table::detail_lines(app, key, samples);
            let left = (inner.height - lines.len()) as u16;
            let graph = crate::ui_table::detail_graph(app, key, samples, inner.width, left);
            let panel = crate::ui_table::detail_panel(app, key, area, blocked);
            &&& lines.len() <= 4
            &&& graph is Some
            &&& panel.len() >= 3
            &&& panel.last() == DrawModel::Text {
                area: Area {
                    x: inner.x,
                    y: (inner.y + lines.len()) as u16,
                    width: inner.width,
                    height: left,
                },
                lines: graph->0,
                centered: false,
                wrapped: false,
            }
            &&& panel[panel.len() - 2] == DrawModel::Text {
                area: Area {
                    x: inner.x,
                    y: inner.y,
                    width: inner.width,
                    height: lines.len() as u16,
                },
                lines,
                centered: false,
                wrapped: false,
            }
            &&& panel[0] is Panel
        }),
{
}

/// The details say which process is pinned and which range they show.
pub proof fn law_details_name_the_process(app: AppModel, key: PidKeyModel)
    ensures
        crate::ui_table::detail_title(app, key) == "pinned "@ + crate::text::integer_text(
            key.pid as int,
        ) + " • "@ + if app.graph_range == crate::graph::GraphRange::Minutes8 {
            "8m"@
        } else if app.graph_range == crate::graph::GraphRange::Minutes30 {
            "hist "@ + "30m"@
        } else if app.graph_range == crate::graph::GraphRange::Hours3 {
            "hist "@ + "3h"@
        } else {
            "hist "@ + "12h"@
        },
{
}

/// What the archive says of a process: the average of its columns, the largest and how many have a
/// value, or that there are none.
pub proof fn law_archive_line_says_the_metrics(label: Seq<char>, samples: Seq<Option<Binary64>>)
    ensures
        ({
            let line = crate::ui_table::archive_line(label, Some(samples));
            let metrics = crate::ui_table::bucket_metrics(samples);
            &&& metrics matches Some(found) ==> {
                &&& line.len() == 7
                &&& line[0].text == "hist "@ + label + " pid buckets "@
                &&& line[2].text == crate::decimal::fixed_text(found.avg_bucket_power, 1)
                &&& line[4].text == crate::decimal::fixed_text(found.max_bucket_power, 1)
                &&& line[6].text == crate::text::decimal_text(found.bucket_count as nat)
            }
            &&& metrics is None ==> line.len() == 1 && line[0].text == "hist "@ + label
                + " pid buckets: no historical data in selected range."@
        }),
{
}

/// The dialog shows each threshold in a row of its own: its name and its value, or what is typed for
/// it.
pub proof fn law_dialog_shows_the_thresholds(modal: SettingsModalModel, row: int)
    requires
        0 <= row < 3,
    ensures
        ({
            let line = crate::ui::modal_lines(modal)[2 + row];
            let field = SettingsField::nth(row);
            let typing = modal.editing is Some && modal.editing->0.field == field;
            &&& crate::ui::modal_lines(modal).len() == 7
            &&& line.len() == 3
            &&& line[0].text.len() >= field.name().len()
            &&& line[0].text.take(field.name().len() as int) == field.name()
            &&& typing ==> line[2].text == modal.editing->0.buffer + "▏"@
            &&& !typing ==> line[2].text == crate::settings::setting_text(field.of(modal.draft))
            &&& modal.error matches Some(message) ==> text_of(crate::ui::modal_lines(modal)[6])
                == "error: "@ + message
        }),
{
    let line = crate::ui::modal_lines(modal)[2 + row];
    let field = SettingsField::nth(row);
    assert(line == crate::ui::field_line(modal, row));
    assert(line[0].text.take(field.name().len() as int) =~= field.name());
    if let Some(message) = modal.error {
        let last = crate::ui::modal_lines(modal)[6];
        assert(last.drop_last() =~= Seq::empty());
        assert(text_of(last.drop_last()) =~= Seq::empty());
        assert(text_of(last) =~= "error: "@ + message);
    }
}

/// The dialog clears its part of the screen, and its lines fill the inside.
pub proof fn law_dialog_is_drawn_on_top(modal: SettingsModalModel, area: Area)
    ensures
        ({
            let panel = crate::ui::modal_panel(modal, area);
            &&& panel.len() == 4
            &&& panel[0] == DrawModel::Clear(area)
            &&& panel[1] is Panel
            &&& panel[3] == DrawModel::Text {
                area: area.inside(),
                lines: crate::ui::modal_lines(modal),
                centered: false,
                wrapped: true,
            }
        }),
{
}

/// Without panels the screen says what is drawn together and shows its history, in two thirds of the
/// width.
pub proof fn law_idle_screen_still_watches(app: AppModel, frame: Area)
    requires
        frame.width >= 32,
        frame.height >= 11,
        frame.fits(),
    ensures
        ({
            let drawn = crate::ui::idle_screen(app, frame);
            let inner = frame.inside();
            let width = if inner.width as int * 2 / 3 < 20 {
                20
            } else {
                inner.width as int * 2 / 3
            };
            &&& drawn.len() == 5
            &&& drawn[2] matches DrawModel::Text { lines, .. } && lines[0][0].text
                == crate::decimal::fixed_text(app.snapshot.total_power, 1) && lines[0][1].text
                == " W"@
            &&& drawn[3] matches DrawModel::Text { area, lines, .. } && area.width == width
                && area.height == 5 && lines == crate::ui::live_graph(
                crate::ui::main_samples(app, width as u16),
                crate::ui::main_samples(app, width as u16),
                width as nat,
                5,
            )
            &&& drawn[4] matches DrawModel::Text { lines, .. } && lines[0][0].text == if app.tick
                % 8 < 4 {
                "press 1 or 2 to bring a panel back"@
            } else {
                "etop is still watching"@
            }
        }),
{
}

/// The samples of the main graph are the newest of the power history, two to a cell, the newest last.
pub proof fn law_main_samples_are_the_newest(app: AppModel, width: u16, back: int)
    requires
        0 <= back < 2 * width,
    ensures
        ({
            let samples = crate::ui::main_samples(app, width);
            &&& samples.len() == 2 * width
            &&& samples[2 * width - 1 - back] == if back < app.power_history.len() {
                app.power_history[app.power_history.len() - 1 - back]
            } else {
                Binary64 { bits: 0 }
            }
        }),
{
}

/// A viewport has two samples to each cell.
pub proof fn law_cells_have_two_samples(width: usize)
    requires
        2 * width <= usize::MAX,
    ensures
        crate::archive_query::points_of(width) == 2 * width,
{
}

/// Where there is room for all chips, all of them are drawn: each with a cap on both sides, side by
/// side in the row of the border.
pub proof fn law_chips_are_drawn_where_there_is_room(
    area: Area,
    y: u16,
    start_x: u16,
    chips: Seq<Seq<PieceModel>>,
    i: int,
)
    requires
        area.fits(),
        area.y <= y < area.bottom(),
        start_x + crate::chips::chips_width(chips) <= area.corner(),
        0 <= i < crate::chips::chips_width(chips),
    ensures
        ({
            let marks = crate::chips::chips_from(area, y, start_x, chips);
            &&& marks.len() == crate::chips::chips_width(chips)
            &&& marks[i].x == start_x + i
            &&& marks[i].y == y
            &&& marks[i].glyph == spelled(chips, y + 1 == area.bottom())[i]
        }),
{
    lemma_all_fit(chips, area.corner() - start_x, y + 1 == area.bottom());
}

/// The characters of chips: each between its caps, which differ above and below.
pub open spec fn spelled(chips: Seq<Seq<PieceModel>>, bottom: bool) -> Seq<char>
    decreases chips.len(),
{
    if chips.len() == 0 {
        Seq::empty()
    } else {
        seq![
            if bottom {
                '┘'
            } else {
                '┐'
            },
        ] + text_of(chips[0]) + seq![
            if bottom {
                '└'
            } else {
                '┌'
            },
        ] + spelled(chips.skip(1), bottom)
    }
}

proof fn lemma_glyphs_spell(line: Seq<PieceModel>)
    ensures
        crate::chips::glyphs(line).len() == text_of(line).len(),
        crate::chips::line_width(line) == text_of(line).len(),
        forall|i: int|
            0 <= i < text_of(line).len() ==> (#[trigger] crate::chips::glyphs(line)[i]).0
                == text_of(line)[i],
    decreases line.len(),
{
    if line.len() > 0 {
        lemma_glyphs_spell(line.drop_last());
    }
}

proof fn lemma_chips_width_front(chips: Seq<Seq<PieceModel>>)
    requires
        chips.len() > 0,
    ensures
        crate::chips::chips_width(chips) == crate::chips::line_width(chips[0]) + 2
            + crate::chips::chips_width(chips.skip(1)),
    decreases chips.len(),
{
    if chips.len() == 1 {
        assert(chips.drop_last() =~= Seq::empty());
        assert(chips.skip(1) =~= Seq::empty());
        assert(crate::chips::chips_width(chips.drop_last()) == 0);
    } else {
        lemma_chips_width_front(chips.drop_last());
        assert(chips.drop_last().skip(1) =~= chips.skip(1).drop_last());
        assert(chips.skip(1).last() == chips.last());
    }
}

proof fn lemma_all_fit(chips: Seq<Seq<PieceModel>>, room: int, bottom: bool)
    requires
        crate::chips::chips_width(chips) <= room,
    ensures
        crate::chips::fitting(chips, room, bottom).len() == crate::chips::chips_width(chips),
        spelled(chips, bottom).len() == crate::chips::chips_width(chips),
        forall|i: int|
            0 <= i < spelled(chips, bottom).len() ==> (#[trigger] crate::chips::fitting(
                chips,
                room,
                bottom,
            )[i]).0 == spelled(chips, bottom)[i],
    decreases chips.len(),
{
    if chips.len() > 0 {
        lemma_chips_width_front(chips);
        lemma_glyphs_spell(chips[0]);
        lemma_all_fit(
            chips.skip(1),
            room - (crate::chips::line_width(chips[0]) + 2),
            bottom,
        );
    }
}

/// A hint spells its text, and so do several with dots between them.
pub proof fn law_hints_spell_their_text(s: Seq<char>)
    ensures
        text_of(crate::chips::hints(s)) == s,
    decreases s.len(),
{
    let at = crate::chips::bullet_at(s) as int;
    lemma_bullet(s);
    if at + 3 > s.len() {
        lemma_hint_spells(s);
    } else {
        let dot = PieceModel {
            text: seq![' ', '•', ' '],
            tone: Tone::of(crate::chips::Paint::Muted),
        };
        let a = crate::chips::hint(s.take(at));
        let b = seq![dot];
        let c = crate::chips::hints(s.skip(at + 3));
        lemma_hint_spells(s.take(at));
        law_hints_spell_their_text(s.skip(at + 3));
        crate::draw_laws::lemma_text_of_one(dot);
        crate::draw_laws::lemma_text_of_joined(a, b);
        crate::draw_laws::lemma_text_of_joined(a + b, c);
        assert(s.take(at) + seq![' ', '•', ' '] + s.skip(at + 3) =~= s);
    }
}

proof fn lemma_bullet(s: Seq<char>)
    ensures
        crate::chips::bullet_at(s) <= s.len(),
        ({
            let at = crate::chips::bullet_at(s) as int;
            at < s.len() ==> at + 3 <= s.len() && s[at] == ' ' && s[at + 1] == '•' && s[at + 2]
                == ' '
        }),
    decreases s.len(),
{
    if s.len() > 0 {
        lemma_bullet(s.skip(1));
    }
}

proof fn lemma_hint_spells(chunk: Seq<char>)
    ensures
        text_of(crate::chips::hint(chunk)) == chunk,
{
    let line = crate::chips::hint(chunk);
    lemma_blank_within(chunk);
    let at = crate::chips::blank_at(chunk) as int;
    if line.len() == 2 {
        assert(line.drop_last() =~= seq![line[0]]);
        crate::draw_laws::lemma_text_of_one(line[0]);
        assert(chunk.take(at) + chunk.skip(at) =~= chunk);
    } else {
        assert(line =~= seq![line[0]]);
        crate::draw_laws::lemma_text_of_one(line[0]);
    }
}

proof fn lemma_blank_within(s: Seq<char>)
    ensures
        crate::chips::blank_at(s) <= s.len(),
    decreases s.len(),
{
    if s.len() > 0 {
        lemma_blank_within(s.skip(1));
    }
}


/// The dialog has three fifths of the frame's width and half of its height, to the nearest cell, and as
/// much room on its left as on its right and above as below, but for one cell.
pub proof fn law_dialog_is_in_the_middle(app: AppModel, frame: Area)
    requires
        frame.fits(),
    ensures
        ({
            let popup = Screen::arranged(app, frame).popup;
            &&& -100 <= 100 * popup.width - 60 * frame.width <= 100
            &&& -100 <= 100 * popup.height - 50 * frame.height <= 100
            &&& -1 <= (popup.x - frame.x) - (frame.right() - popup.right()) <= 1
            &&& -1 <= (popup.y - frame.y) - (frame.bottom() - popup.bottom()) <= 1
        }),
{
    let band = crate::layout::middle_part(frame, true, 50);
    let side: int = 25;
    let to: int = 75;
    let h: int = frame.height as int;
    assert(h * side == 25 * h && h * to == 75 * h) by (nonlinear_arith)
        requires
            side == 25,
            to == 75,
    ;
    let left: int = 20;
    let right: int = 80;
    let w: int = frame.width as int;
    assert(w * left == 20 * w && w * right == 80 * w) by (nonlinear_arith)
        requires
            left == 20,
            right == 80,
    ;
    assert(crate::layout::edge(frame.y, frame.height, 25) == frame.y + (25 * h + 50) / 100);
    assert(crate::layout::edge(frame.y, frame.height, 75) == frame.y + (75 * h + 50) / 100);
    assert(crate::layout::edge(frame.x, frame.width, 20) == frame.x + (20 * w + 50) / 100);
    assert(crate::layout::edge(frame.x, frame.width, 80) == frame.x + (80 * w + 50) / 100);
    assert(band.x == frame.x && band.width == frame.width);
}

/// Chips on the right end at the corner of their panel, where there is room for all of them; chips on
/// the left start right behind the other corner.
pub proof fn law_chips_stand_at_the_ends_of_the_border(
    area: Area,
    bottom: bool,
    chips: Seq<Seq<PieceModel>>,
)
    requires
        area.fits(),
        area.width > 0,
        area.height > 0,
        area.right() < u16::MAX,
        chips.len() > 0,
        crate::chips::chips_width(chips) + 3 <= area.width,
    ensures
        ({
            let y = if bottom {
                crate::ui::lower_border(area)
            } else {
                area.y
            };
            &&& y == if bottom {
                area.bottom() - 1
            } else {
                area.y as int
            }
            &&& crate::ui::left_chips(area, y, chips) == DrawModel::Chips(
                crate::chips::chips_from(area, y, (area.x + 1) as u16, chips),
            )
            &&& crate::ui::right_chips(area, y, chips) == DrawModel::Chips(
                crate::chips::chips_from(
                    area,
                    y,
                    (area.right() - 1 - crate::chips::chips_width(chips)) as u16,
                    chips,
                ),
            )
        }),
{
}

/// A chip for a key spells its label, with the key before it where that has a name.
pub proof fn law_action_chips_spell_their_label(label: Seq<char>, hotkey: Seq<char>)
    ensures
        hotkey.len() == 1 ==> text_of(crate::chips::action_chip(label, hotkey)) == label,
        hotkey.len() != 1 ==> text_of(crate::chips::action_chip(label, hotkey)) == hotkey + (seq![
            ' ',
        ] + label),
{
    let chip = crate::chips::action_chip(label, hotkey);
    if hotkey.len() == 1 {
        crate::draw_laws::law_chips_spell_their_label(label, Some(hotkey[0]));
    } else {
        assert(chip.drop_last() =~= seq![chip[0]]);
        crate::draw_laws::lemma_text_of_one(chip[0]);
    }
}

/// In a chip the first character that is its key, in either case, is picked out.
pub proof fn law_keys_are_picked_out(label: Seq<char>, key: char, at: int)
    requires
        0 < at < label.len() - 1,
        'a' <= key <= 'z',
        label[at] == key || label[at] as int == key as int - 32,
        forall|i: int|
            0 <= i < at ==> #[trigger] label[i] != key && label[i] as int != key as int - 32,
    ensures
        ({
            let chip = crate::chips::chip(label, Some(key));
            &&& chip.len() == 3
            &&& chip[1].text == seq![label[at]]
            &&& chip[1].tone.paint == Some(crate::chips::Paint::Accent)
            &&& chip[0].tone.paint == Some(crate::chips::Paint::Fg)
            &&& chip[2].tone.paint == Some(crate::chips::Paint::Fg)
        }),
{
    lemma_key_found(label, key, at);
}

proof fn lemma_key_found(label: Seq<char>, key: char, at: int)
    requires
        0 <= at < label.len(),
        'a' <= key <= 'z',
        label[at] == key || label[at] as int == key as int - 32,
        forall|i: int|
            0 <= i < at ==> #[trigger] label[i] != key && label[i] as int != key as int - 32,
    ensures
        crate::chips::key_at(label, key) == at,
    decreases label.len(),
{
    if at > 0 {
        let rest = label.skip(1);
        assert(label[0] != key && label[0] as int != key as int - 32);
        assert(!crate::chips::is_key(label[0], key));
        assert(rest[at - 1] == label[at]);
        assert forall|i: int| 0 <= i < at - 1 implies #[trigger] rest[i] != key && rest[i] as int
            != key as int - 32 by {
            assert(rest[i] == label[i + 1]);
        }
        lemma_key_found(rest, key, at - 1);
    } else {
        assert(crate::chips::is_key(label[0], key));
    }
}

} // verus!
