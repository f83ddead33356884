//! What the screen shows: each panel as a list of things to draw.
use vstd::prelude::*;

use crate::app_state::{App, AppModel};
use crate::binary64::Binary64;
use crate::chips::{Mark, Paint, Piece, PieceModel, Tone};
use crate::graph::{HeatColor, Run};
use crate::layout::{Area, Room};
use crate::settings::{
    GraphHeatSettings, SettingsField, SettingsModalModel, SettingsModalState,
};

verus! {

/// The bits of negative infinity.
pub const NEGATIVE_INFINITY_BITS: u64 = 0xfff0_0000_0000_0000;

/// One thing to draw. Later ones cover earlier ones.
#[derive(Debug, PartialEq)]
pub enum Draw {
    /// An empty rectangle.
    Clear(Area),
    /// A border with titles in it.
    Panel { area: Area, top: Vec<Piece>, bottom: Vec<Piece>, bottom_on_right: bool },
    /// Single characters.
    Chips(Vec<Mark>),
    /// Lines of text.
    Text { area: Area, lines: Vec<Vec<Piece>>, centered: bool, wrapped: bool },
    /// A table in a border, with a title at its right end.
    Table {
        area: Area,
        title: Vec<Piece>,
        header: Vec<Vec<Piece>>,
        rows: Vec<Vec<Vec<Piece>>>,
        widths: Vec<Room>,
        selected: Option<usize>,
    },
}

#[verifier::ext_equal]
pub enum DrawModel {
    Clear(Area),
    Panel { area: Area, top: Seq<PieceModel>, bottom: Seq<PieceModel>, bottom_on_right: bool },
    Chips(Seq<Mark>),
    Text { area: Area, lines: Seq<Seq<PieceModel>>, centered: bool, wrapped: bool },
    Table {
        area: Area,
        title: Seq<PieceModel>,
        header: Seq<Seq<PieceModel>>,
        rows: Seq<Seq<Seq<PieceModel>>>,
        widths: Seq<Room>,
        selected: Option<usize>,
    },
}

/// The cells of each row.
pub open spec fn row_models(rows: Seq<Vec<Vec<Piece>>>) -> Seq<Seq<Seq<PieceModel>>> {
    Seq::new(rows.len(), |i: int| crate::chips::line_models(rows[i]@))
}

impl View for Draw {
    type V = DrawModel;

    open spec fn view(&self) -> DrawModel {
        match self {
            Draw::Clear(area) => DrawModel::Clear(*area),
            Draw::Panel { area, top, bottom, bottom_on_right } => DrawModel::Panel {
                area: *area,
                top: crate::lists::models(top@),
                bottom: crate::lists::models(bottom@),
                bottom_on_right: *bottom_on_right,
            },
            Draw::Chips(marks) => DrawModel::Chips(marks@),
            Draw::Text { area, lines, centered, wrapped } => DrawModel::Text {
                area: *area,
                lines: crate::chips::line_models(lines@),
                centered: *centered,
                wrapped: *wrapped,
            },
            Draw::Table { area, title, header, rows, widths, selected } => DrawModel::Table {
                area: *area,
                title: crate::lists::models(title@),
                header: crate::chips::line_models(header@),
                rows: row_models(rows@),
                widths: widths@,
                selected: *selected,
            },
        }
    }
}

/// Puts one thing to draw behind others.
pub(crate) fn draw(out: &mut Vec<Draw>, what: Draw)
    ensures
        crate::lists::models(final(out)@) == crate::lists::models(old(out)@).push(what@),
{
    out.push(what);
    proof {
        assert(crate::lists::models(out@) =~= crate::lists::models(old(out)@).push(what@));
    }
}

/// The first column inside a border.
pub open spec fn left_of(area: Area) -> u16 {
    if area.x < u16::MAX {
        (area.x + 1) as u16
    } else {
        area.x
    }
}

/// The row of the lower border.
pub open spec fn lower_border(area: Area) -> u16 {
    if area.height > 0 {
        (area.y + area.height - 1) as u16
    } else {
        area.y
    }
}

pub(crate) fn lower_border_of(area: Area) -> (y: u16)
    requires
        area.fits(),
    ensures
        y == lower_border(area),
{
    area.y + area.height.saturating_sub(1)
}

fn corner_of(area: Area) -> (x: u16)
    requires
        area.fits(),
    ensures
        x == area.corner(),
{
    area.x + area.width.saturating_sub(1)
}

/// Chips in the upper or the lower border, from its left end.
pub open spec fn left_chips(area: Area, y: u16, chips: Seq<Seq<PieceModel>>) -> DrawModel {
    DrawModel::Chips(crate::chips::chips_from(area, y, left_of(area), chips))
}

/// Chips in the upper or the lower border, up to its right end.
pub open spec fn right_chips(area: Area, y: u16, chips: Seq<Seq<PieceModel>>) -> DrawModel {
    DrawModel::Chips(crate::chips::chips_up_to(area, y, area.corner() as u16, chips))
}

pub(crate) fn draw_left_chips(out: &mut Vec<Draw>, area: Area, y: u16, chips: &Vec<Vec<Piece>>)
    requires
        area.fits(),
    ensures
        crate::lists::models(final(out)@) == crate::lists::models(old(out)@).push(
            left_chips(area, y, crate::chips::line_models(chips@)),
        ),
{
    let start: u16 = area.x.saturating_add(1);
    let marks: Vec<Mark> = crate::chips::draw_chips_on_border(area, y, start, chips);
    draw(out, Draw::Chips(marks));
}

pub(crate) fn draw_right_chips(out: &mut Vec<Draw>, area: Area, y: u16, chips: &Vec<Vec<Piece>>)
    requires
        area.fits(),
    ensures
        crate::lists::models(final(out)@) == crate::lists::models(old(out)@).push(
            right_chips(area, y, crate::chips::line_models(chips@)),
        ),
{
    let end: u16 = corner_of(area);
    let marks: Vec<Mark> = crate::chips::draw_chips_on_border_right(area, y, end, chips);
    draw(out, Draw::Chips(marks));
}

/// The color of a power, by the thresholds.
pub open spec fn band(power: Binary64, thresholds: GraphHeatSettings) -> Paint {
    Paint::Heat(thresholds.heat(power))
}

pub fn spectrum_band_color(power: Binary64, thresholds: &GraphHeatSettings) -> (color: HeatColor)
    ensures
        color == thresholds.heat(power),
{
    thresholds.color_for_power(power)
}

/// A graph of the newest values, scaled to what it shows.
pub open spec fn live_graph(
    values: Seq<Binary64>,
    shown: Seq<Binary64>,
    width: nat,
    height: nat,
) -> Seq<Seq<PieceModel>> {
    crate::chips::run_lines(
        crate::graph::lines(
            crate::graph::chart_of(
                values,
                width,
                height,
                Binary64 { bits: 0 },
                crate::graph::scale_top(crate::graph::extent(shown)),
            ).cells(width),
        ),
    )
}

pub(crate) fn live_graph_lines(values: &Vec<Binary64>, shown: &Vec<Binary64>, width: u16, height: u16) -> (
lines: Vec<Vec<Piece>>)
    ensures
        crate::chips::line_models(lines@) == live_graph(
            values@,
            shown@,
            width as nat,
            height as nat,
        ),
{
    let (min, max): (Binary64, Binary64) = crate::graph::graph_scale_bounds(shown.as_slice());
    let runs: Vec<Vec<Run>> = crate::graph::braille_history_lines_with_scale(
        values.as_slice(),
        width as usize,
        height as usize,
        min,
        max,
    );
    crate::chips::lines_from_runs(&runs)
}

/// The power history as the main graph shows it.
pub open spec fn main_samples(app: AppModel, width: u16) -> Seq<Binary64> {
    crate::graph::viewport(
        app.power_history,
        crate::archive_query::points_of(width as usize),
        Binary64 { bits: 0 },
    )
}

/// A chip that says one word in yellow.
pub open spec fn notice(word: Seq<char>) -> Seq<PieceModel> {
    seq![crate::chips::a_piece(word, Tone::strong(Paint::Heat(HeatColor::Yellow)))]
}

/// The chips at the left of the graph's upper border.
pub open spec fn state_chips(paused: bool, loading: bool) -> Seq<Seq<PieceModel>> {
    seq![crate::chips::chip("¹etop"@, Some('¹'))] + (if paused {
        seq![notice("PAUSED"@)]
    } else {
        Seq::empty()
    }) + (if loading {
        seq![notice("LOADING"@)]
    } else {
        Seq::empty()
    })
}

/// The chips at the right of the graph's upper border: the total, and the scale.
pub open spec fn power_chips(total: Binary64, min: Binary64, max: Binary64) -> Seq<
    Seq<PieceModel>,
> {
    seq![
        seq![
            crate::chips::a_piece("power "@, Tone::of(Paint::Muted)),
            crate::chips::a_piece(
                crate::decimal::fixed_text(total, 1),
                Tone::strong(Paint::Heat(HeatColor::Red)),
            ),
        ],
        seq![
            crate::chips::a_piece(
                crate::decimal::fixed_text(min, 0) + "–"@ + crate::decimal::fixed_text(max, 0),
                Tone::of(Paint::Muted),
            ),
        ],
    ]
}

/// What is said of an error.
pub open spec fn error_line(error: Option<Seq<char>>) -> Seq<PieceModel> {
    match error {
        Some(text) => seq![
            crate::chips::a_piece("error: "@ + text, Tone::of(Paint::Heat(HeatColor::Red))),
        ],
        None => Seq::empty(),
    }
}

/// The graph of the total power.
pub open spec fn graph_panel(app: AppModel, area: Area, blocked: bool) -> Seq<DrawModel> {
    let inner = area.inside();
    let samples = main_samples(app, inner.width);
    let low = lower_border(area);
    let top = seq![
        DrawModel::Panel {
            area,
            top: Seq::empty(),
            bottom: error_line(app.last_error),
            bottom_on_right: false,
        },
        left_chips(area, area.y, state_chips(app.paused, app.loading)),
        right_chips(
            area,
            area.y,
            power_chips(
                app.snapshot.total_power,
                Binary64 { bits: 0 },
                crate::graph::scale_top(crate::graph::extent(samples)),
            ),
        ),
    ];
    let hints = if blocked {
        Seq::empty()
    } else {
        (if app.show_table {
            Seq::empty()
        } else {
            seq![
                left_chips(
                    area,
                    low,
                    seq![
                        crate::chips::action_chip("menu"@, "m"@),
                        crate::chips::action_chip("quit"@, "q"@),
                    ],
                ),
            ]
        }).push(right_chips(area, low, seq![crate::chips::action_chip("pause"@, "p"@)]))
    };
    (top + hints).push(
        DrawModel::Text {
            area: inner,
            lines: live_graph(samples, samples, inner.width as nat, inner.height as nat),
            centered: false,
            wrapped: false,
        },
    )
}

pub(crate) fn error_piece(error: &Option<String>) -> (line: Vec<Piece>)
    ensures
        crate::lists::models(line@) == error_line(crate::text::text_of(*error)),
{
    match error {
        Some(message) => {
            let mut text: Vec<char> = crate::text::chars_of("error: ");
            crate::text::append_text(&mut text, message.as_str());
            crate::chips::line_of(
                crate::chips::piece_of(
                    &text,
                    crate::chips::tone_of(Paint::Heat(HeatColor::Red)),
                ),
            )
        },
        None => {
            let none: Vec<Piece> = Vec::new();
            proof {
                assert(crate::lists::models(none@) =~= Seq::empty());
            }
            none
        },
    }
}

fn notice_line(word: &str) -> (line: Vec<Piece>)
    ensures
        crate::lists::models(line@) == notice(word@),
{
    crate::chips::line_of(
        crate::chips::piece(word, crate::chips::tone_strong(Paint::Heat(HeatColor::Yellow))),
    )
}

fn state_chip_lines(paused: bool, loading: bool) -> (chips: Vec<Vec<Piece>>)
    ensures
        crate::chips::line_models(chips@) == state_chips(paused, loading),
{
    let mut chips: Vec<Vec<Piece>> = vec![crate::chips::chip_line("¹etop", Some('¹'))];
    if paused {
        chips.push(notice_line("PAUSED"));
    }
    if loading {
        chips.push(notice_line("LOADING"));
    }
    proof {
        assert(crate::chips::line_models(chips@) =~= state_chips(paused, loading));
    }
    chips
}

fn power_chip_lines(total: Binary64, min: Binary64, max: Binary64) -> (chips: Vec<Vec<Piece>>)
    ensures
        crate::chips::line_models(chips@) == power_chips(total, min, max),
{
    let power: Vec<Piece> = vec![
        crate::chips::piece("power ", crate::chips::tone_of(Paint::Muted)),
        crate::chips::piece_of(
            &crate::chips::power_text(total),
            crate::chips::tone_strong(Paint::Heat(HeatColor::Red)),
        ),
    ];
    let mut range: Vec<char> = crate::decimal::fixed_chars(min, 0);
    crate::text::append_text(&mut range, "–");
    let mut top: Vec<char> = crate::decimal::fixed_chars(max, 0);
    range.append(&mut top);
    let scale: Vec<Piece> = crate::chips::line_of(
        crate::chips::piece_of(&range, crate::chips::tone_of(Paint::Muted)),
    );
    proof {
        assert(crate::lists::models(power@) =~= power_chips(total, min, max)[0]);
    }
    let chips: Vec<Vec<Piece>> = vec![power, scale];
    proof {
        assert(crate::chips::line_models(chips@) =~= power_chips(total, min, max));
    }
    chips
}

/// Draws the graph of the total power.
#[verifier::rlimit(40)]
pub(crate) fn draw_graph_panel(out: &mut Vec<Draw>, app: &App, area: Area, blocked: bool)
    requires
        area.fits(),
    ensures
        crate::lists::models(final(out)@) == crate::lists::models(old(out)@) + graph_panel(
            app@,
            area,
            blocked,
        ),
{
    let ghost before = crate::lists::models(out@);
    let inner: Area = area.inner();
    let samples: Vec<Binary64> = app.main_graph_live_samples_for_width(inner.width as usize);
    let (min, max): (Binary64, Binary64) = app.graph_scale_bounds_for_viewport(samples.as_slice());
    let top: Vec<Piece> = Vec::new();
    proof {
        assert(crate::lists::models(top@) =~= Seq::empty());
    }
    draw(
        out,
        Draw::Panel { area, top, bottom: error_piece(&app.last_error), bottom_on_right: false },
    );
    draw_left_chips(out, area, area.y, &state_chip_lines(app.paused, app.loading));
    draw_right_chips(
        out,
        area,
        area.y,
        &power_chip_lines(app.snapshot.total_power, min, max),
    );
    let low: u16 = lower_border_of(area);
    if !blocked {
        if !app.show_table {
            let keys: Vec<Vec<Piece>> = vec![
                crate::chips::action_chip_line("menu", "m"),
                crate::chips::action_chip_line("quit", "q"),
            ];
            proof {
                assert(crate::chips::line_models(keys@) =~= seq![
                    crate::chips::action_chip("menu"@, "m"@),
                    crate::chips::action_chip("quit"@, "q"@),
                ]);
            }
            draw_left_chips(out, area, low, &keys);
        }
        let keys: Vec<Vec<Piece>> = vec![crate::chips::action_chip_line("pause", "p")];
        proof {
            assert(crate::chips::line_models(keys@) =~= seq![
                crate::chips::action_chip("pause"@, "p"@),
            ]);
        }
        draw_right_chips(out, area, low, &keys);
    }
    let lines: Vec<Vec<Piece>> = live_graph_lines(&samples, &samples, inner.width, inner.height);
    draw(out, Draw::Text { area: inner, lines, centered: false, wrapped: false });
    proof {
        assert(crate::lists::models(out@) =~= before + graph_panel(app@, area, blocked));
    }
}

/// The height of what is shown where no panel is: a power, five rows of dots, a line, and blanks
/// between them.
pub const IDLE_HEIGHT: u16 = 9;

pub const IDLE_DOTS_HEIGHT: u16 = 5;

/// The width of the dots: two thirds, but at least twenty where there is as much.
pub open spec fn idle_width(width: u16) -> u16 {
    let wanted = if width as int * 2 / 3 < 20 {
        20
    } else {
        width as int * 2 / 3
    };
    if wanted < width {
        wanted as u16
    } else {
        width
    }
}

pub open spec fn idle_hint(tick: u64) -> Seq<char> {
    if tick % 8 < 4 {
        "press 1 or 2 to bring a panel back"@
    } else {
        "etop is still watching"@
    }
}

/// What is in the middle of the screen where no panel is.
pub open spec fn idle_body(app: AppModel, inner: Area) -> Seq<DrawModel> {
    let width = idle_width(inner.width);
    let y = inner.y + (inner.height - IDLE_HEIGHT) / 2;
    let samples = main_samples(app, width);
    seq![
        DrawModel::Text {
            area: Area { x: inner.x, y: y as u16, width: inner.width, height: 1 },
            lines: seq![
                seq![
                    crate::chips::a_piece(
                        crate::decimal::fixed_text(app.snapshot.total_power, 1),
                        Tone::strong(Paint::Heat(HeatColor::Red)),
                    ),
                    crate::chips::a_piece(" W"@, Tone::of(Paint::Muted)),
                ],
            ],
            centered: true,
            wrapped: false,
        },
        DrawModel::Text {
            area: Area {
                x: (inner.x + (inner.width - width) / 2) as u16,
                y: (y + 2) as u16,
                width,
                height: IDLE_DOTS_HEIGHT,
            },
            lines: live_graph(samples, samples, width as nat, IDLE_DOTS_HEIGHT as nat),
            centered: false,
            wrapped: false,
        },
        DrawModel::Text {
            area: Area {
                x: inner.x,
                y: (y + 2 + IDLE_DOTS_HEIGHT + 1) as u16,
                width: inner.width,
                height: 1,
            },
            lines: seq![
                seq![crate::chips::a_piece(idle_hint(app.tick), Tone::of(Paint::Muted))],
            ],
            centered: true,
            wrapped: false,
        },
    ]
}

/// The screen where no panel is shown.
pub open spec fn idle_screen(app: AppModel, area: Area) -> Seq<DrawModel> {
    let inner = area.inside();
    let frame = seq![
        DrawModel::Panel {
            area,
            top: Seq::empty(),
            bottom: crate::chips::hints("1 graph • 2 table • q quit"@),
            bottom_on_right: true,
        },
        left_chips(area, area.y, seq![crate::chips::chip("etop"@, None)]),
    ];
    if inner.width < 12 || inner.height < IDLE_HEIGHT {
        frame
    } else {
        frame + idle_body(app, inner)
    }
}

/// A line of one piece, by itself.
pub(crate) fn single_line(piece: Piece) -> (lines: Vec<Vec<Piece>>)
    ensures
        crate::chips::line_models(lines@) == seq![seq![piece@]],
{
    let lines: Vec<Vec<Piece>> = vec![crate::chips::line_of(piece)];
    proof {
        assert(crate::chips::line_models(lines@) =~= seq![seq![piece@]]);
    }
    lines
}

pub(crate) fn one_chip(chip: Vec<Piece>) -> (chips: Vec<Vec<Piece>>)
    ensures
        crate::chips::line_models(chips@) == seq![crate::lists::models(chip@)],
{
    let chips: Vec<Vec<Piece>> = vec![chip];
    proof {
        assert(crate::chips::line_models(chips@) =~= seq![crate::lists::models(chip@)]);
    }
    chips
}

fn draw_idle_body(out: &mut Vec<Draw>, app: &App, inner: Area)
    requires
        inner.fits(),
        inner.width >= 12,
        inner.height >= IDLE_HEIGHT,
    ensures
        crate::lists::models(final(out)@) == crate::lists::models(old(out)@) + idle_body(
            app@,
            inner,
        ),
{
    let ghost before = crate::lists::models(out@);
    let share: u32 = inner.width as u32 * 2 / 3;
    let wanted: u32 = if share < 20 {
        20
    } else {
        share
    };
    let width: u16 = if wanted < inner.width as u32 {
        wanted as u16
    } else {
        inner.width
    };
    let x: u16 = inner.x + (inner.width - width) / 2;
    let y: u16 = inner.y + (inner.height - IDLE_HEIGHT) / 2;
    let power: Vec<Piece> = vec![
        crate::chips::piece_of(
            &crate::chips::power_text(app.snapshot.total_power),
            crate::chips::tone_strong(Paint::Heat(HeatColor::Red)),
        ),
        crate::chips::piece(" W", crate::chips::tone_of(Paint::Muted)),
    ];
    proof {
        assert(crate::lists::models(power@) =~= seq![
            crate::chips::a_piece(
                crate::decimal::fixed_text(app.snapshot.total_power, 1),
                Tone::strong(Paint::Heat(HeatColor::Red)),
            ),
            crate::chips::a_piece(" W"@, Tone::of(Paint::Muted)),
        ]);
    }
    let lines: Vec<Vec<Piece>> = one_chip(power);
    let line: Area = Area { x: inner.x, y, width: inner.width, height: 1 };
    draw(out, Draw::Text { area: line, lines, centered: true, wrapped: false });
    let samples: Vec<Binary64> = app.main_graph_live_samples_for_width(width as usize);
    let lines: Vec<Vec<Piece>> = live_graph_lines(&samples, &samples, width, IDLE_DOTS_HEIGHT);
    let dots: Area = Area { x, y: y + 2, width, height: IDLE_DOTS_HEIGHT };
    draw(out, Draw::Text { area: dots, lines, centered: false, wrapped: false });
    let hint: &str = if app.tick % 8 < 4 {
        "press 1 or 2 to bring a panel back"
    } else {
        "etop is still watching"
    };
    let lines: Vec<Vec<Piece>> = single_line(
        crate::chips::piece(hint, crate::chips::tone_of(Paint::Muted)),
    );
    let line: Area = Area {
        x: inner.x,
        y: y + 2 + IDLE_DOTS_HEIGHT + 1,
        width: inner.width,
        height: 1,
    };
    draw(out, Draw::Text { area: line, lines, centered: true, wrapped: false });
    proof {
        assert(crate::lists::models(out@) =~= before + idle_body(app@, inner));
    }
}

/// Draws the screen where no panel is shown.
pub(crate) fn draw_easter_egg(out: &mut Vec<Draw>, app: &App, area: Area)
    requires
        area.fits(),
    ensures
        crate::lists::models(final(out)@) == crate::lists::models(old(out)@) + idle_screen(
            app@,
            area,
        ),
{
    let ghost before = crate::lists::models(out@);
    let inner: Area = area.inner();
    let top: Vec<Piece> = Vec::new();
    proof {
        assert(crate::lists::models(top@) =~= Seq::empty());
    }
    let bottom: Vec<Piece> = crate::chips::hotkey_hint_line("1 graph • 2 table • q quit");
    draw(out, Draw::Panel { area, top, bottom, bottom_on_right: true });
    draw_left_chips(out, area, area.y, &one_chip(crate::chips::chip_line("etop", None)));
    proof {
        assert(crate::lists::models(out@) =~= before + seq![
            DrawModel::Panel {
                area,
                top: Seq::empty(),
                bottom: crate::chips::hints("1 graph • 2 table • q quit"@),
                bottom_on_right: true,
            },
            left_chips(area, area.y, seq![crate::chips::chip("etop"@, None)]),
        ]);
    }
    if inner.width < 12 || inner.height < IDLE_HEIGHT {
        return;
    }
    draw_idle_body(out, app, inner);
    proof {
        assert(crate::lists::models(out@) =~= before + idle_screen(app@, area));
    }
}

/// A text with blanks behind it up to a width.
pub open spec fn padded(text: Seq<char>, width: nat) -> Seq<char> {
    if text.len() >= width {
        text
    } else {
        text + Seq::new((width - text.len()) as nat, |i: int| ' ')
    }
}

pub(crate) fn pad(text: &str, width: usize) -> (out: Vec<char>)
    ensures
        out@ == padded(text@, width as nat),
{
    let mut out: Vec<char> = crate::text::chars_of(text);
    let ghost start = out@.len();
    while out.len() < width
        invariant
            start == text@.len(),
            start <= out@.len(),
            start >= width ==> out@.len() == start,
            start < width ==> out@.len() <= width,
            out@ == text@ + Seq::new((out@.len() - start) as nat, |i: int| ' '),
        decreases width - out@.len(),
    {
        out.push(' ');
        proof {
            assert(out@ =~= text@ + Seq::new((out@.len() - start) as nat, |i: int| ' '));
        }
    }
    proof {
        assert(out@ =~= padded(text@, width as nat));
    }
    out
}

/// The row of a threshold in the settings dialog.
pub open spec fn field_line(modal: SettingsModalModel, row: int) -> Seq<PieceModel> {
    let field = SettingsField::nth(row);
    let selected = row == modal.selected;
    let editing = modal.editing matches Some(edit) && edit.field == field;
    seq![
        crate::chips::a_piece(
            padded(field.name(), 14),
            if selected {
                Tone::strong(Paint::Accent)
            } else {
                Tone::of(Paint::Fg)
            },
        ),
        crate::chips::a_piece(" "@, Tone::of(Paint::Muted)),
        crate::chips::a_piece(
            if editing {
                modal.shown(field) + "▏"@
            } else {
                modal.shown(field)
            },
            if editing {
                Tone::strong(Paint::Heat(HeatColor::Yellow))
            } else if selected {
                Tone::strong(Paint::Fg)
            } else {
                Tone::of(Paint::Fg)
            },
        ),
    ]
}

/// What is said at the end of the settings dialog: what is wrong, or what can be done.
pub open spec fn modal_message(modal: SettingsModalModel) -> Seq<PieceModel> {
    match modal.error {
        Some(_) => error_line(modal.error),
        None => seq![
            crate::chips::a_piece(
                if modal.editing is Some {
                    "Enter confirm value • Esc cancel field edit"@
                } else {
                    "↑/↓ move • Enter edit field • m apply and close"@
                },
                Tone::of(Paint::Muted),
            ),
        ],
    }
}

pub open spec fn modal_lines(modal: SettingsModalModel) -> Seq<Seq<PieceModel>> {
    let blank = seq![crate::chips::a_piece(""@, Tone::of(Paint::Muted))];
    seq![
        seq![
            crate::chips::a_piece(
                "Graph heat thresholds (absolute power)"@,
                Tone::strong(Paint::Accent),
            ),
        ],
        blank,
        field_line(modal, 0),
        field_line(modal, 1),
        field_line(modal, 2),
        blank,
        modal_message(modal),
    ]
}

/// The settings dialog.
pub open spec fn modal_panel(modal: SettingsModalModel, area: Area) -> Seq<DrawModel> {
    seq![
        DrawModel::Clear(area),
        DrawModel::Panel {
            area,
            top: Seq::empty(),
            bottom: crate::chips::hints("m apply • Esc cancel"@),
            bottom_on_right: true,
        },
        left_chips(area, area.y, seq![crate::chips::chip("menu"@, Some('m'))]),
        DrawModel::Text {
            area: area.inside(),
            lines: modal_lines(modal),
            centered: false,
            wrapped: true,
        },
    ]
}

fn field_pieces(modal: &SettingsModalState, row: usize) -> (line: Vec<Piece>)
    ensures
        crate::lists::models(line@) == field_line(modal@, row as int),
{
    let field: SettingsField = SettingsField::at(row);
    let selected: bool = row == modal.selected;
    let editing: bool = match &modal.editing {
        Some(edit) => edit.field == field,
        None => false,
    };
    let label_tone: Tone = if selected {
        crate::chips::tone_strong(Paint::Accent)
    } else {
        crate::chips::tone_of(Paint::Fg)
    };
    let value_tone: Tone = if editing {
        crate::chips::tone_strong(Paint::Heat(HeatColor::Yellow))
    } else if selected {
        crate::chips::tone_strong(Paint::Fg)
    } else {
        crate::chips::tone_of(Paint::Fg)
    };
    let shown: String = modal.display_value(field);
    let mut value: Vec<char> = crate::text::chars_of(shown.as_str());
    if editing {
        crate::text::append_text(&mut value, "▏");
    }
    let line: Vec<Piece> = vec![
        crate::chips::piece_of(&pad(field.label(), 14), label_tone),
        crate::chips::piece(" ", crate::chips::tone_of(Paint::Muted)),
        crate::chips::piece_of(&value, value_tone),
    ];
    proof {
        assert(crate::lists::models(line@) =~= field_line(modal@, row as int));
    }
    line
}

fn message_pieces(modal: &SettingsModalState) -> (line: Vec<Piece>)
    ensures
        crate::lists::models(line@) == modal_message(modal@),
{
    if modal.error.is_some() {
        return error_piece(&modal.error);
    }
    let text: &str = if modal.editing.is_some() {
        "Enter confirm value • Esc cancel field edit"
    } else {
        "↑/↓ move • Enter edit field • m apply and close"
    };
    crate::chips::line_of(crate::chips::piece(text, crate::chips::tone_of(Paint::Muted)))
}

fn blank_line() -> (line: Vec<Piece>)
    ensures
        crate::lists::models(line@) == seq![crate::chips::a_piece(""@, Tone::of(Paint::Muted))],
{
    crate::chips::line_of(crate::chips::piece("", crate::chips::tone_of(Paint::Muted)))
}

/// Draws the settings dialog.
pub(crate) fn draw_settings_modal(out: &mut Vec<Draw>, modal: &SettingsModalState, area: Area)
    requires
        area.fits(),
    ensures
        crate::lists::models(final(out)@) == crate::lists::models(old(out)@) + modal_panel(
            modal@,
            area,
        ),
{
    let ghost before = crate::lists::models(out@);
    draw(out, Draw::Clear(area));
    let top: Vec<Piece> = Vec::new();
    proof {
        assert(crate::lists::models(top@) =~= Seq::empty());
    }
    let bottom: Vec<Piece> = crate::chips::hotkey_hint_line("m apply • Esc cancel");
    draw(out, Draw::Panel { area, top, bottom, bottom_on_right: true });
    draw_left_chips(out, area, area.y, &one_chip(crate::chips::chip_line("menu", Some('m'))));
    let title: Vec<Piece> = crate::chips::line_of(
        crate::chips::piece(
            "Graph heat thresholds (absolute power)",
            crate::chips::tone_strong(Paint::Accent),
        ),
    );
    let lines: Vec<Vec<Piece>> = vec![
        title,
        blank_line(),
        field_pieces(modal, 0),
        field_pieces(modal, 1),
        field_pieces(modal, 2),
        blank_line(),
        message_pieces(modal),
    ];
    proof {
        assert(crate::chips::line_models(lines@) =~= modal_lines(modal@));
    }
    draw(out, Draw::Text { area: area.inner(), lines, centered: false, wrapped: true });
    proof {
        assert(crate::lists::models(out@) =~= before + modal_panel(modal@, area));
    }
}

} // verus!
