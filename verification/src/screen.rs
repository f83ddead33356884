//! The whole screen, panel by panel.
use vstd::prelude::*;

use crate::app_state::{App, AppModel};
use crate::binary64::Binary64;
use crate::chips::PieceModel;
use crate::history::{PidKey, PidKeyModel};
use crate::layout::{Area, Slots};
use crate::settings::SettingsModalModel;
use crate::ui::{Draw, DrawModel};

verus! {

/// Where the panels are: the graph, the table's part of the screen, the details and the rows within
/// that part, and the settings dialog.
#[derive(Debug, Clone, Copy, PartialEq, Eq, Structural)]
pub struct Screen {
    pub graph: Option<Area>,
    pub table: Option<Area>,
    pub detail: Option<Area>,
    pub rows: Area,
    pub popup: Area,
}

/// Whether a panel has room for anything but its border.
pub open spec fn roomy(area: Area) -> bool {
    area.height >= 3 && area.width >= 3
}

impl Screen {
    pub open spec fn fits(self) -> bool {
        &&& self.graph matches Some(area) ==> area.fits()
        &&& self.table matches Some(area) ==> area.fits()
        &&& self.detail matches Some(area) ==> area.fits()
        &&& self.rows.fits()
        &&& self.popup.fits()
    }

    /// Where the panels of a session are: the details only for a pinned process and where the table
    /// leaves room for them, and the dialog in the middle.
    pub open spec fn arranged(app: AppModel, frame: Area) -> Screen {
        let slots = crate::layout::slots_for(app.show_graph, app.show_table, frame);
        let (detail, rows) = match slots.table {
            Some(area) => crate::layout::parts_of_table(area, app.pinned is Some),
            None => (None, frame),
        };
        Screen {
            graph: slots.graph,
            table: slots.table,
            detail,
            rows,
            popup: crate::layout::middle_part(
                crate::layout::middle_part(frame, true, 50),
                false,
                60,
            ),
        }
    }
}

/// Whether the keys go to a dialog or to the filter, so that no hints for them are shown.
pub open spec fn blocked(app: AppModel) -> bool {
    app.settings_modal is Some || app.process_filter_input is Some
}

/// The session as the table shows it: scrolled so that the selection is among the rows on screen.
pub open spec fn scrolled_for(app: AppModel, rows: Area) -> AppModel {
    AppModel {
        process_scroll: crate::layout::scrolled(
            app.process_selected,
            app.process_scroll,
            crate::layout::rows_on_screen(rows.height),
            app.process_rows.len(),
        ),
        ..app
    }
}

/// Whether the table has a part of the screen with room for it.
pub open spec fn table_fits(screen: Screen) -> bool {
    screen.table matches Some(area) && roomy(area)
}

/// The session after its screen was drawn.
pub open spec fn after_drawing(app: AppModel, screen: Screen) -> AppModel {
    if (app.show_graph || app.show_table) && table_fits(screen) {
        scrolled_for(app.settled(), screen.rows)
    } else {
        app.settled()
    }
}

/// What is drawn, the dialog on top of all else.
pub open spec fn drawing(app: AppModel, frame: Area, screen: Screen) -> Seq<DrawModel> {
    let now = app.settled();
    let shut = blocked(now);
    let dialog = match now.settings_modal {
        Some(modal) => crate::ui::modal_panel(modal, screen.popup),
        None => Seq::empty(),
    };
    if !now.show_graph && !now.show_table {
        crate::ui::idle_screen(now, frame) + dialog
    } else {
        let graph = match screen.graph {
            Some(area) => if roomy(area) {
                crate::ui::graph_panel(now, area, shut)
            } else {
                Seq::empty()
            },
            None => Seq::empty(),
        };
        if !table_fits(screen) {
            graph + dialog
        } else {
            let detail = match (screen.detail, now.pinned) {
                (Some(area), Some(key)) => crate::ui_table::detail_panel(now, key, area, shut),
                _ => Seq::empty(),
            };
            graph + detail + crate::ui_table::table_panel(
                scrolled_for(now, screen.rows),
                screen.rows,
                shut,
            ) + dialog
        }
    }
}

fn is_roomy(area: Area) -> (b: bool)
    ensures
        b == roomy(area),
{
    area.height >= 3 && area.width >= 3
}

fn draw_dialog(out: &mut Vec<Draw>, app: &App, popup: Area)
    requires
        popup.fits(),
    ensures
        crate::lists::models(final(out)@) == crate::lists::models(old(out)@)
            + match app@.settings_modal {
            Some(modal) => crate::ui::modal_panel(modal, popup),
            None => Seq::empty(),
        },
{
    match &app.settings_modal {
        Some(modal) => {
            crate::ui::draw_settings_modal(out, modal, popup);
        },
        None => {
            proof {
                assert(crate::lists::models(out@) + Seq::<DrawModel>::empty()
                    =~= crate::lists::models(out@));
            }
        },
    }
}

/// Draws the screen with the panels in given places.
#[verifier::rlimit(40)]
pub fn compose(app: &mut App, frame: Area, screen: Screen) -> (out: Vec<Draw>)
    requires
        old(app).wf(),
        frame.fits(),
        screen.fits(),
    ensures
        final(app).wf(),
        final(app)@ == after_drawing(old(app)@, screen),
        crate::lists::models(out@) == drawing(old(app)@, frame, screen),
{
    let ghost start = app@;
    let visible_len: usize = app.process_visible_len();
    app.normalize_process_selection(visible_len);
    let ghost now = app@;
    let mut out: Vec<Draw> = Vec::new();
    let shut: bool = app.settings_modal.is_some() || app.is_filter_input_active();
    proof {
        assert(now == start.settled());
        assert(crate::lists::models(out@) =~= Seq::empty());
    }
    if !app.show_graph && !app.show_table {
        crate::ui::draw_easter_egg(&mut out, app, frame);
        draw_dialog(&mut out, app, screen.popup);
        proof {
            assert(crate::lists::models(out@) =~= drawing(start, frame, screen));
        }
        return out;
    }
    if let Some(area) = screen.graph {
        if is_roomy(area) {
            crate::ui::draw_graph_panel(&mut out, app, area, shut);
        }
    }
    let region: bool = match screen.table {
        Some(area) => is_roomy(area),
        None => false,
    };
    if !region {
        draw_dialog(&mut out, app, screen.popup);
        proof {
            assert(crate::lists::models(out@) =~= drawing(start, frame, screen));
        }
        return out;
    }
    if let Some(area) = screen.detail {
        if let Some(pin) = &app.pinned {
            let key: PidKey = PidKey::new(pin.pid, pin.process.as_str());
            crate::ui_table::draw_detail_panel(&mut out, app, &key, area, shut);
        }
    }
    let visible: usize = screen.rows.height.saturating_sub(3) as usize;
    let len: usize = app.process_rows.len();
    app.process_scroll = crate::layout::scroll_position(
        app.process_selected,
        app.process_scroll,
        visible,
        len,
    );
    crate::ui_table::draw_table_panel(&mut out, app, screen.rows, shut);
    draw_dialog(&mut out, app, screen.popup);
    proof {
        assert(app@ == scrolled_for(now, screen.rows));
        assert(crate::lists::models(out@) =~= drawing(start, frame, screen));
    }
    out
}

/// Finds places for the panels.
pub fn arrange(app: &App, frame: Area) -> (screen: Screen)
    requires
        frame.fits(),
    ensures
        screen == Screen::arranged(app@, frame),
        screen.fits(),
{
    let slots: Slots = if app.show_graph || app.show_table {
        crate::layout::panel_slots(app.show_graph, app.show_table, frame)
    } else {
        Slots { graph: None, table: None }
    };
    let popup: Area = crate::layout::centered_rect(60, 50, frame);
    match slots.table {
        Some(area) => {
            let (detail, rows): (Option<Area>, Area) = crate::layout::table_parts(
                area,
                app.is_pinned(),
            );
            Screen { graph: slots.graph, table: slots.table, detail, rows, popup }
        },
        None => Screen {
            graph: slots.graph,
            table: None,
            detail: None,
            rows: frame,
            popup,
        },
    }
}

/// Draws the screen: finds places for the panels, and draws them there.
pub fn draw_ui(app: &mut App, frame: Area) -> (out: Vec<Draw>)
    requires
        old(app).wf(),
        frame.fits(),
    ensures
        final(app).wf(),
        final(app)@ == after_drawing(old(app)@, Screen::arranged(old(app)@, frame)),
        crate::lists::models(out@) == drawing(
            old(app)@,
            frame,
            Screen::arranged(old(app)@, frame),
        ),
{
    let screen: Screen = arrange(app, frame);
    compose(app, frame, screen)
}

/// Drawing changes nothing of a session but what the table shows: its rows, the selection within
/// them and how far it is scrolled.
pub proof fn law_drawing_keeps_the_session(app: AppModel, screen: Screen)
    ensures
        after_drawing(app, screen) == (AppModel {
            process_rows: after_drawing(app, screen).process_rows,
            process_rows_dirty: false,
            process_selected: after_drawing(app, screen).process_selected,
            process_scroll: after_drawing(app, screen).process_scroll,
            ..app
        }),
{
}

/// After drawing, the selected row is among those on screen.
pub proof fn law_selected_row_is_drawn(app: AppModel, screen: Screen)
    requires
        app.show_table,
        table_fits(screen),
        crate::layout::rows_on_screen(screen.rows.height) > 0,
        after_drawing(app, screen).process_rows.len() > 0,
    ensures
        ({
            let after = after_drawing(app, screen);
            let (start, end) = crate::layout::row_window(
                after.process_scroll,
                crate::layout::rows_on_screen(screen.rows.height),
                after.process_rows.len(),
            );
            start <= after.process_selected < end
        }),
{
    let now = app.settled();
    crate::layout::law_selection_is_on_screen(
        now.process_selected,
        now.process_scroll,
        crate::layout::rows_on_screen(screen.rows.height),
        now.process_rows.len(),
    );
}

/// While a process is pinned no row is picked out.
pub proof fn law_cursor_is_hidden_while_pinned(app: AppModel)
    requires
        app.pinned is Some,
    ensures
        crate::ui_table::row_picked(app) is None,
{
}

/// Whether a thing to draw lies in a rectangle.
pub open spec fn inside(what: DrawModel, frame: Area) -> bool {
    match what {
        DrawModel::Clear(area) => area.within(frame),
        DrawModel::Panel { area, .. } => area.within(frame),
        DrawModel::Text { area, .. } => area.within(frame),
        DrawModel::Table { area, .. } => area.within(frame),
        DrawModel::Chips(marks) => forall|i: int|
            0 <= i < marks.len() ==> frame.x <= (#[trigger] marks[i]).x < frame.right() && frame.y
                <= marks[i].y < frame.bottom(),
    }
}

pub open spec fn all_inside(what: Seq<DrawModel>, frame: Area) -> bool {
    forall|i: int| 0 <= i < what.len() ==> inside(#[trigger] what[i], frame)
}

proof fn lemma_left_chips_inside(area: Area, y: u16, chips: Seq<Seq<PieceModel>>, frame: Area)
    requires
        area.fits(),
        area.within(frame),
    ensures
        inside(crate::ui::left_chips(area, y, chips), frame),
{
    let start = crate::ui::left_of(area);
    let marks = crate::chips::chips_from(area, y, start, chips);
    assert forall|i: int| 0 <= i < marks.len() implies frame.x <= (#[trigger] marks[i]).x
        < frame.right() && frame.y <= marks[i].y < frame.bottom() by {
        crate::chips::law_chips_stay_in_the_border(area, y, start, chips, i);
    }
}

proof fn lemma_right_chips_inside(area: Area, y: u16, chips: Seq<Seq<PieceModel>>, frame: Area)
    requires
        area.fits(),
        area.within(frame),
    ensures
        inside(crate::ui::right_chips(area, y, chips), frame),
{
    let end = area.corner() as u16;
    let marks = crate::chips::chips_up_to(area, y, end, chips);
    let start = (end - crate::chips::chips_width(chips)) as u16;
    assert forall|i: int| 0 <= i < marks.len() implies frame.x <= (#[trigger] marks[i]).x
        < frame.right() && frame.y <= marks[i].y < frame.bottom() by {
        crate::chips::law_chips_stay_in_the_border(area, y, start, chips, i);
    }
}

proof fn lemma_joined_inside(a: Seq<DrawModel>, b: Seq<DrawModel>, frame: Area)
    requires
        all_inside(a, frame),
        all_inside(b, frame),
    ensures
        all_inside(a + b, frame),
{
    assert forall|i: int| 0 <= i < (a + b).len() implies inside(#[trigger] (a + b)[i], frame) by {
        if i < a.len() {
            assert((a + b)[i] == a[i]);
        } else {
            assert((a + b)[i] == b[i - a.len()]);
        }
    }
}

proof fn lemma_graph_panel_inside(app: AppModel, area: Area, shut: bool, frame: Area)
    requires
        area.fits(),
        area.within(frame),
    ensures
        all_inside(crate::ui::graph_panel(app, area, shut), frame),
{
    let low = crate::ui::lower_border(area);
    let samples = crate::ui::main_samples(app, area.inside().width);
    lemma_left_chips_inside(
        area,
        area.y,
        crate::ui::state_chips(app.paused, app.loading),
        frame,
    );
    lemma_right_chips_inside(
        area,
        area.y,
        crate::ui::power_chips(
            app.snapshot.total_power,
            Binary64 { bits: 0 },
            crate::graph::scale_top(crate::graph::extent(samples)),
        ),
        frame,
    );
    lemma_left_chips_inside(
        area,
        low,
        seq![
            crate::chips::action_chip("menu"@, "m"@),
            crate::chips::action_chip("quit"@, "q"@),
        ],
        frame,
    );
    lemma_right_chips_inside(
        area,
        low,
        seq![crate::chips::action_chip("pause"@, "p"@)],
        frame,
    );
}

proof fn lemma_idle_screen_inside(app: AppModel, frame: Area)
    requires
        frame.fits(),
    ensures
        all_inside(crate::ui::idle_screen(app, frame), frame),
{
    lemma_left_chips_inside(frame, frame.y, seq![crate::chips::chip("etop"@, None)], frame);
    let inner = frame.inside();
    if inner.width >= 12 && inner.height >= crate::ui::IDLE_HEIGHT {
        let body = crate::ui::idle_body(app, inner);
        assert(all_inside(body, frame)) by {
            let width = crate::ui::idle_width(inner.width);
            assert(width <= inner.width);
            assert(body.len() == 3);
            assert(inside(body[0], frame) && inside(body[1], frame) && inside(body[2], frame));
        }
        lemma_joined_inside(
            crate::ui::idle_screen(app, frame).take(2),
            body,
            frame,
        );
        assert(crate::ui::idle_screen(app, frame) =~= crate::ui::idle_screen(app, frame).take(2)
            + body);
    }
}

proof fn lemma_modal_panel_inside(modal: SettingsModalModel, area: Area, frame: Area)
    requires
        area.fits(),
        area.within(frame),
    ensures
        all_inside(crate::ui::modal_panel(modal, area), frame),
{
    lemma_left_chips_inside(
        area,
        area.y,
        seq![crate::chips::chip("menu"@, Some('m'))],
        frame,
    );
}

proof fn lemma_detail_panel_inside(
    app: AppModel,
    key: PidKeyModel,
    area: Area,
    shut: bool,
    frame: Area,
)
    requires
        area.fits(),
        area.within(frame),
    ensures
        all_inside(crate::ui_table::detail_panel(app, key, area, shut), frame),
{
    lemma_right_chips_inside(
        area,
        crate::ui::lower_border(area),
        seq![
            crate::chips::action_chip("range"@, "r"@),
            crate::chips::action_chip("unpin"@, "Enter"@),
        ],
        frame,
    );
}

proof fn lemma_table_panel_inside(app: AppModel, area: Area, shut: bool, frame: Area)
    requires
        area.fits(),
        area.within(frame),
    ensures
        all_inside(crate::ui_table::table_panel(app, area, shut), frame),
{
    let low = crate::ui::lower_border(area);
    lemma_left_chips_inside(
        area,
        area.y,
        seq![crate::chips::chip("²processes"@, Some('²'))],
        frame,
    );
    lemma_left_chips_inside(
        area,
        low,
        seq![
            crate::chips::action_chip("menu"@, "m"@),
            crate::chips::action_chip("filter"@, "f"@),
            crate::chips::action_chip("quit"@, "q"@),
        ],
        frame,
    );
    lemma_right_chips_inside(
        area,
        low,
        seq![crate::chips::action_chip("sort"@, "s"@)],
        frame,
    );
}

/// The panels fill the frame: with both shown the graph is on top, as wide as the frame, with the
/// table right below it down to the last row, and the details are right above the rows.
pub proof fn law_panels_fill_the_frame(app: AppModel, frame: Area)
    requires
        frame.fits(),
    ensures
        ({
            let screen = Screen::arranged(app, frame);
            &&& screen.fits()
            &&& screen.graph is Some <==> app.show_graph
            &&& screen.table is Some <==> app.show_table
            &&& screen.graph matches Some(graph) ==> graph.x == frame.x && graph.width
                == frame.width && graph.y == frame.y && (!app.show_table ==> graph == frame)
            &&& screen.table matches Some(table) ==> {
                &&& table.x == frame.x && table.width == frame.width
                &&& table.bottom() == frame.bottom()
                &&& table.y == (match screen.graph {
                    Some(graph) => graph.bottom(),
                    None => frame.y as int,
                })
                &&& screen.rows.x == table.x && screen.rows.width == table.width
                &&& screen.rows.bottom() == table.bottom()
                &&& match screen.detail {
                    Some(detail) => detail.x == table.x && detail.width == table.width && detail.y
                        == table.y && screen.rows.y == detail.bottom(),
                    None => screen.rows == table,
                }
            }
        }),
{
    crate::layout::lemma_graph_rows(frame.height);
    crate::layout::lemma_middle_part_inside(frame, true, 50);
    crate::layout::lemma_middle_part_inside(
        crate::layout::middle_part(frame, true, 50),
        false,
        60,
    );
}

/// With both panels shown the graph has a third of the frame, to the nearest row of thirty-four
/// hundredths, wherever that leaves the table eight rows; else the table has eight, as far as there
/// are any.
pub proof fn law_graph_has_the_top_third(app: AppModel, frame: Area)
    requires
        app.show_graph,
        app.show_table,
    ensures
        ({
            let screen = Screen::arranged(app, frame);
            let graph = screen.graph->0;
            let table = screen.table->0;
            &&& frame.height >= 13 ==> -50 <= 100 * graph.height - 34 * frame.height <= 50
            &&& 8 <= frame.height < 13 ==> table.height == 8
            &&& frame.height < 8 ==> graph.height == 0 && table == frame
        }),
{
    crate::layout::lemma_graph_rows(frame.height);
}

/// Every panel lies in the frame, and the details and the rows lie in the table's part.
pub proof fn law_panels_stay_in_the_frame(app: AppModel, frame: Area)
    requires
        frame.fits(),
    ensures
        ({
            let screen = Screen::arranged(app, frame);
            &&& screen.graph matches Some(area) ==> area.within(frame)
            &&& screen.table matches Some(area) ==> area.within(frame) && screen.rows.within(area)
            &&& screen.detail matches Some(part) ==> screen.table is Some && part.within(
                screen.table->0,
            )
            &&& screen.rows.within(frame)
            &&& screen.popup.within(frame)
        }),
{
    law_panels_fill_the_frame(app, frame);
    crate::layout::lemma_middle_part_inside(frame, true, 50);
    crate::layout::lemma_middle_part_inside(
        crate::layout::middle_part(frame, true, 50),
        false,
        60,
    );
}

/// Nothing is drawn outside the frame.
pub proof fn law_drawing_stays_inside(app: AppModel, frame: Area)
    requires
        frame.fits(),
    ensures
        all_inside(drawing(app, frame, Screen::arranged(app, frame)), frame),
{
    let screen = Screen::arranged(app, frame);
    law_panels_fill_the_frame(app, frame);
    law_panels_stay_in_the_frame(app, frame);
    let now = app.settled();
    let shut = blocked(now);
    let dialog = match now.settings_modal {
        Some(modal) => crate::ui::modal_panel(modal, screen.popup),
        None => Seq::empty(),
    };
    if let Some(modal) = now.settings_modal {
        lemma_modal_panel_inside(modal, screen.popup, frame);
    }
    if !now.show_graph && !now.show_table {
        lemma_idle_screen_inside(now, frame);
        lemma_joined_inside(crate::ui::idle_screen(now, frame), dialog, frame);
    } else {
        let graph = match screen.graph {
            Some(area) => if roomy(area) {
                crate::ui::graph_panel(now, area, shut)
            } else {
                Seq::empty()
            },
            None => Seq::empty(),
        };
        if let Some(area) = screen.graph {
            lemma_graph_panel_inside(now, area, shut, frame);
        }
        if !table_fits(screen) {
            lemma_joined_inside(graph, dialog, frame);
        } else {
            let detail = match (screen.detail, now.pinned) {
                (Some(area), Some(key)) => crate::ui_table::detail_panel(now, key, area, shut),
                _ => Seq::empty(),
            };
            if let Some(area) = screen.detail {
                if let Some(key) = now.pinned {
                    lemma_detail_panel_inside(now, key, area, shut, frame);
                }
            }
            let table = crate::ui_table::table_panel(
                scrolled_for(now, screen.rows),
                screen.rows,
                shut,
            );
            lemma_table_panel_inside(scrolled_for(now, screen.rows), screen.rows, shut, frame);
            lemma_joined_inside(graph, detail, frame);
            lemma_joined_inside(graph + detail, table, frame);
            lemma_joined_inside(graph + detail + table, dialog, frame);
        }
    }
}

} // verus!
