//! Parts of the screen: how the panels share it, and which columns the table has room for.
use ratatui::layout::{Constraint, Layout, Rect};

use vstd::prelude::*;

verus! {

/// A rectangle of the screen, in cells.
#[derive(Debug, Clone, Copy, PartialEq, Eq, Structural)]
pub struct Area {
    pub x: u16,
    pub y: u16,
    pub width: u16,
    pub height: u16,
}

impl Area {
    pub open spec fn right(self) -> int {
        self.x + self.width
    }

    pub open spec fn bottom(self) -> int {
        self.y + self.height
    }

    /// The column of the right border.
    pub open spec fn corner(self) -> int {
        if self.width > 0 {
            self.right() - 1
        } else {
            self.x as int
        }
    }

    /// Whether every place in the rectangle has coordinates.
    pub open spec fn fits(self) -> bool {
        self.right() <= u16::MAX && self.bottom() <= u16::MAX
    }

    pub open spec fn within(self, other: Area) -> bool {
        other.x <= self.x && self.right() <= other.right() && other.y <= self.y && self.bottom()
            <= other.bottom()
    }

    /// What a border on all sides leaves.
    pub open spec fn inside(self) -> Area {
        Area {
            x: if self.width > 0 {
                (self.x + 1) as u16
            } else {
                self.x
            },
            y: if self.height > 0 {
                (self.y + 1) as u16
            } else {
                self.y
            },
            width: if self.width > 2 {
                (self.width - 2) as u16
            } else {
                0
            },
            height: if self.height > 2 {
                (self.height - 2) as u16
            } else {
                0
            },
        }
    }

    pub fn inner(self) -> (area: Area)
        requires
            self.fits(),
        ensures
            area == self.inside(),
            area.fits(),
            area.within(self),
    {
        Area {
            x: if self.width > 0 {
                self.x + 1
            } else {
                self.x
            },
            y: if self.height > 0 {
                self.y + 1
            } else {
                self.y
            },
            width: self.width.saturating_sub(2),
            height: self.height.saturating_sub(2),
        }
    }
}

/// What a part of the screen asks for.
#[derive(Debug, Clone, Copy, PartialEq, Eq, Structural)]
pub enum Room {
    Length(u16),
    Min(u16),
    Percentage(u16),
}

/// How many hundredths the first `count` requests ask for together.
pub open spec fn share_before(rooms: Seq<Room>, count: int) -> int
    decreases count,
{
    if count <= 0 {
        0
    } else {
        share_before(rooms, count - 1) + (match rooms[count - 1] {
            Room::Percentage(percent) => percent as int,
            _ => 0,
        })
    }
}

/// Whether there are three requests at most, all for shares, and no more is asked than there is.
pub open spec fn only_shares(rooms: Seq<Room>) -> bool {
    &&& rooms.len() <= 3
    &&& forall|i: int| 0 <= i < rooms.len() ==> (#[trigger] rooms[i]) is Percentage
    &&& share_before(rooms, rooms.len() as int) <= 100
}

/// The cell nearest to so many hundredths of a length; the later one of two that are as near.
pub open spec fn edge(start: u16, length: u16, share: int) -> int {
    start + (length * share + 50) / 100
}

/// The part of a rectangle between two shares of its height, or of its width.
pub open spec fn part_between(area: Area, stacked: bool, from: int, to: int) -> Area {
    if stacked {
        Area {
            y: edge(area.y, area.height, from) as u16,
            height: (edge(area.y, area.height, to) - edge(area.y, area.height, from)) as u16,
            ..area
        }
    } else {
        Area {
            x: edge(area.x, area.width, from) as u16,
            width: (edge(area.x, area.width, to) - edge(area.x, area.width, from)) as u16,
            ..area
        }
    }
}

/// How many rows the first of two requests gets, the second one below it asking for the rest and no
/// less than some rows: what it asks for, rounded to cells, or what the second one leaves of it.
pub open spec fn first_rows(height: u16, first: Room, second: Room) -> Option<u16> {
    match (first, second) {
        (Room::Length(rows), Room::Min(least)) => if rows + least <= height {
            Some(rows)
        } else {
            None
        },
        (Room::Percentage(percent), Room::Min(least)) => if percent > 100 || least > i16::MAX {
            None
        } else if (100 - percent) * height >= 100 * least {
            Some(((height * percent + 50) / 100) as u16)
        } else if least <= height {
            Some((height - least) as u16)
        } else {
            Some(0)
        },
        _ => None,
    }
}

/// The rows of a rectangle above a cut.
pub open spec fn upper_part(area: Area, cut: u16) -> Area {
    Area { height: cut, ..area }
}

/// The rows of a rectangle below a cut.
pub open spec fn lower_part(area: Area, cut: u16) -> Area {
    Area { y: (area.y + cut) as u16, height: (area.height - cut) as u16, ..area }
}

/// Calls ratatui's `Layout::split`: one rectangle for each request, inside the whole one and as wide
/// (or, side by side, as high) as it.
///
/// - Where only shares are asked for, and no more than there is, each gets its share behind the one
///   before it, with its ends rounded to cells; the shares are solved for in floating point, and this
///   is claimed of three at most.
/// - A single request for some rows at least gets the whole rectangle.
/// - Of a request for a length or a share, and one below it for some rows at least, the second gets
///   those rows first, then the first what it asks for, then the second all else. A length is claimed
///   only where there is room for both; a share only where the rows below it fit an `i16`, to which
///   ratatui casts them.
///
/// How other requests are met is not said here.
#[verifier::external_body]
fn split(area: Area, stacked: bool, rooms: &Vec<Room>) -> (parts: Vec<Area>)
    requires
        area.fits(),
    ensures
        parts@.len() == rooms@.len(),
        forall|i: int| 0 <= i < parts@.len() ==> (#[trigger] parts@[i]).within(area),
        stacked ==> forall|i: int|
            0 <= i < parts@.len() ==> (#[trigger] parts@[i]).x == area.x && parts@[i].width
                == area.width,
        !stacked ==> forall|i: int|
            0 <= i < parts@.len() ==> (#[trigger] parts@[i]).y == area.y && parts@[i].height
                == area.height,
        only_shares(rooms@) ==> forall|i: int|
            0 <= i < parts@.len() ==> (#[trigger] parts@[i]) == part_between(
                area,
                stacked,
                share_before(rooms@, i),
                share_before(rooms@, i + 1),
            ),
        stacked && rooms@.len() == 1 && rooms@[0] is Min ==> parts@[0] == area,
        stacked && rooms@.len() == 2 ==> (first_rows(area.height, rooms@[0], rooms@[1]) matches Some(
            cut,
        ) ==> parts@[0] == upper_part(area, cut) && parts@[1] == lower_part(area, cut)),
{
    let asked = rooms.iter().map(|room| match room {
        Room::Length(n) => Constraint::Length(*n),
        Room::Min(n) => Constraint::Min(*n),
        Room::Percentage(n) => Constraint::Percentage(*n),
    });
    let layout = if stacked { Layout::vertical(asked) } else { Layout::horizontal(asked) };
    let whole = Rect { x: area.x, y: area.y, width: area.width, height: area.height };
    let parts = layout.split(whole);
    parts.iter().map(|r| Area { x: r.x, y: r.y, width: r.width, height: r.height }).collect()
}

/// What a middle part asks for, and the parts on both sides of it.
pub open spec fn middle_asked(percent: u16) -> Seq<Room> {
    let side = Room::Percentage(((100 - percent) / 2) as u16);
    seq![side, Room::Percentage(percent), side]
}

pub fn middle_rooms(percent: u16) -> (rooms: Vec<Room>)
    requires
        percent <= 100,
    ensures
        rooms@ == middle_asked(percent),
{
    let side: Room = Room::Percentage((100 - percent) / 2);
    let rooms: Vec<Room> = vec![side, Room::Percentage(percent), side];
    proof {
        assert(rooms@ =~= middle_asked(percent));
    }
    rooms
}

/// What lies between the first side and the other one, along the height or the width.
pub open spec fn middle_part(area: Area, stacked: bool, percent: u16) -> Area {
    let side: int = (100 - percent) / 2;
    part_between(area, stacked, side, side + percent)
}

proof fn lemma_middle_shares(percent: u16)
    requires
        percent <= 100,
    ensures
        only_shares(middle_asked(percent)),
        share_before(middle_asked(percent), 1) == (100 - percent) / 2,
        share_before(middle_asked(percent), 2) == (100 - percent) / 2 + percent,
{
    reveal_with_fuel(share_before, 4);
}

/// A rectangle in the middle of another, given the shares of its width and height: the middle part
/// of the middle band.
pub fn centered_rect(width_percent: u16, height_percent: u16, area: Area) -> (middle: Area)
    requires
        area.fits(),
        width_percent <= 100,
        height_percent <= 100,
    ensures
        middle == middle_part(middle_part(area, true, height_percent), false, width_percent),
        middle.within(area),
        middle.fits(),
{
    let rows: Vec<Room> = middle_rooms(height_percent);
    let columns: Vec<Room> = middle_rooms(width_percent);
    proof {
        lemma_middle_shares(height_percent);
        lemma_middle_shares(width_percent);
    }
    let stacked: Vec<Area> = split(area, true, &rows);
    let band: Area = stacked[1];
    let beside: Vec<Area> = split(band, false, &columns);
    beside[1]
}

/// The parts of the screen that the graph and the table have.
#[derive(Debug, Clone, Copy, PartialEq, Eq, Structural)]
pub struct Slots {
    pub graph: Option<Area>,
    pub table: Option<Area>,
}

/// What the panels on screen ask for: a third for the graph where both are there.
pub open spec fn asked(show_graph: bool, show_table: bool) -> Seq<Room> {
    if show_graph && show_table {
        seq![Room::Percentage(34), Room::Min(8)]
    } else {
        seq![Room::Min(1)]
    }
}

/// The slots that the parts of the screen become.
pub open spec fn slots_of(show_graph: bool, show_table: bool, parts: Seq<Area>) -> Slots {
    Slots {
        graph: if show_graph {
            Some(parts[0])
        } else {
            None
        },
        table: if show_table {
            Some(
                if show_graph {
                    parts[1]
                } else {
                    parts[0]
                },
            )
        } else {
            None
        },
    }
}

pub fn rooms_for(show_graph: bool, show_table: bool) -> (rooms: Vec<Room>)
    ensures
        rooms@ == asked(show_graph, show_table),
{
    let rooms: Vec<Room> = if show_graph && show_table {
        vec![Room::Percentage(34), Room::Min(8)]
    } else {
        vec![Room::Min(1)]
    };
    proof {
        assert(rooms@ =~= asked(show_graph, show_table));
    }
    rooms
}

/// Gives each panel that is shown its part of the screen.
pub fn slots_from(show_graph: bool, show_table: bool, parts: &Vec<Area>) -> (slots: Slots)
    requires
        parts@.len() == asked(show_graph, show_table).len(),
    ensures
        slots == slots_of(show_graph, show_table, parts@),
{
    Slots {
        graph: if show_graph {
            Some(parts[0])
        } else {
            None
        },
        table: if show_table {
            Some(
                if show_graph {
                    parts[1]
                } else {
                    parts[0]
                },
            )
        } else {
            None
        },
    }
}

/// The parts of the screen that the panels get: the graph about a third on top where both are shown,
/// unless the table needs more, and one that is shown alone all of it.
pub open spec fn slots_for(show_graph: bool, show_table: bool, area: Area) -> Slots {
    let cut = first_rows(area.height, Room::Percentage(34), Room::Min(8))->0;
    Slots {
        graph: if !show_graph {
            None
        } else if show_table {
            Some(upper_part(area, cut))
        } else {
            Some(area)
        },
        table: if !show_table {
            None
        } else if show_graph {
            Some(lower_part(area, cut))
        } else {
            Some(area)
        },
    }
}

/// The rows that the graph has above the table.
pub proof fn lemma_graph_rows(height: u16)
    ensures
        first_rows(height, Room::Percentage(34), Room::Min(8)) == Some(
            if 66 * height >= 800 {
                ((34 * height + 50) / 100) as u16
            } else if height >= 8 {
                (height - 8) as u16
            } else {
                0
            },
        ),
{
    let share: u16 = 34;
    assert((100 - share) * height == 66 * height && height * share == 34 * height)
        by (nonlinear_arith)
        requires
            share == 34,
    ;
}

/// A middle part is inside the whole.
pub proof fn lemma_middle_part_inside(area: Area, stacked: bool, percent: u16)
    requires
        area.fits(),
        percent <= 100,
    ensures
        middle_part(area, stacked, percent).within(area),
        middle_part(area, stacked, percent).fits(),
{
    let side: int = (100 - percent) / 2;
    let to: int = side + percent;
    let length: int = if stacked {
        area.height as int
    } else {
        area.width as int
    };
    assert(0 <= length * side <= length * to <= 100 * length) by (nonlinear_arith)
        requires
            0 <= length,
            0 <= side <= to <= 100,
    ;
}

/// Shares out the screen among the panels that are shown.
pub fn panel_slots(show_graph: bool, show_table: bool, area: Area) -> (slots: Slots)
    requires
        area.fits(),
    ensures
        slots == slots_for(show_graph, show_table, area),
{
    let rooms: Vec<Room> = rooms_for(show_graph, show_table);
    let parts: Vec<Area> = split(area, true, &rooms);
    slots_from(show_graph, show_table, &parts)
}

/// The least rows that the table keeps beside the details.
pub const MIN_TABLE_ROWS: u16 = 6;

/// The height of the details above the table: about a third, and none where there is no room for
/// four lines.
pub open spec fn detail_share(height: u16) -> Option<u16> {
    let most = height - MIN_TABLE_ROWS;
    let preferred = height as int * 35 / 100;
    if most < 4 {
        None
    } else if preferred < 4 {
        Some(4)
    } else if preferred > most {
        Some(most as u16)
    } else {
        Some(preferred as u16)
    }
}

pub fn detail_height(height: u16) -> (share: Option<u16>)
    ensures
        share == detail_share(height),
{
    let most: u16 = height.saturating_sub(MIN_TABLE_ROWS);
    if most < 4 {
        return None;
    }
    let preferred: u32 = height as u32 * 35 / 100;
    if preferred < 4 {
        Some(4)
    } else if preferred > most as u32 {
        Some(most)
    } else {
        Some(preferred as u16)
    }
}

/// The details on top of the table's part and the rows below them, or the rows alone.
pub open spec fn parts_of_table(region: Area, show_detail: bool) -> (Option<Area>, Area) {
    if !show_detail {
        (None, region)
    } else {
        match detail_share(region.height) {
            Some(share) => (Some(upper_part(region, share)), lower_part(region, share)),
            None => (None, region),
        }
    }
}

/// Shares out the table's part between the details and the rows.
pub fn table_parts(region: Area, show_detail: bool) -> (parts: (Option<Area>, Area))
    requires
        region.fits(),
    ensures
        parts == parts_of_table(region, show_detail),
{
    if !show_detail {
        return (None, region);
    }
    match detail_height(region.height) {
        Some(height) => {
            let rooms: Vec<Room> = vec![Room::Length(height), Room::Min(MIN_TABLE_ROWS)];
            let parts: Vec<Area> = split(region, true, &rooms);
            (Some(parts[0]), parts[1])
        },
        None => (None, region),
    }
}

/// The least width of the column of names.
pub open spec fn name_width(panel_width: u16) -> u16 {
    if panel_width < 44 {
        20
    } else if panel_width < 84 {
        24
    } else if panel_width < 124 {
        28
    } else {
        32
    }
}

pub fn compute_process_col_width(panel_width: u16) -> (width: u16)
    ensures
        width == name_width(panel_width),
{
    let inner: u16 = panel_width.saturating_sub(4);
    if inner < 40 {
        20
    } else if inner < 80 {
        24
    } else if inner < 120 {
        28
    } else {
        32
    }
}

pub open spec fn trend_width(panel_width: u16) -> u16 {
    if panel_width >= 140 {
        24
    } else if panel_width >= 110 {
        18
    } else if panel_width >= 90 {
        14
    } else {
        0
    }
}

pub fn trend_column_width(panel_width: u16) -> (width: u16)
    ensures
        width == trend_width(panel_width),
{
    if panel_width >= 140 {
        24
    } else if panel_width >= 110 {
        18
    } else if panel_width >= 90 {
        14
    } else {
        0
    }
}

/// Which columns the table has besides the name and the present power.
#[derive(Debug, Clone, Copy, PartialEq, Eq, Structural)]
pub struct TableLayout {
    pub show_pid: bool,
    pub show_avg: bool,
    pub show_peak: bool,
    pub trend_width: u16,
}

impl TableLayout {
    pub open spec fn of(width: u16) -> TableLayout {
        TableLayout {
            show_pid: width >= 74,
            show_avg: width >= 58,
            show_peak: width >= 70,
            trend_width: trend_width(width),
        }
    }

    pub fn for_processes(width: u16) -> (layout: TableLayout)
        ensures
            layout == TableLayout::of(width),
    {
        TableLayout {
            show_pid: width >= 74,
            show_avg: width >= 58,
            show_peak: width >= 70,
            trend_width: trend_column_width(width),
        }
    }

    /// The widths that the columns ask for.
    pub open spec fn widths(self, name_width: u16) -> Seq<Room> {
        seq![Room::Length(1)] + (if self.show_pid {
            seq![Room::Length(7)]
        } else {
            Seq::empty()
        }) + seq![Room::Min(name_width), Room::Length(8)] + (if self.show_avg {
            seq![Room::Length(8)]
        } else {
            Seq::empty()
        }) + (if self.show_peak {
            seq![Room::Length(8)]
        } else {
            Seq::empty()
        }) + (if self.trend_width > 0 {
            seq![Room::Length(self.trend_width)]
        } else {
            Seq::empty()
        })
    }

    pub fn column_widths(self, name_width: u16) -> (widths: Vec<Room>)
        ensures
            widths@ == self.widths(name_width),
    {
        let mut widths: Vec<Room> = vec![Room::Length(1)];
        if self.show_pid {
            widths.push(Room::Length(7));
        }
        widths.push(Room::Min(name_width));
        widths.push(Room::Length(8));
        if self.show_avg {
            widths.push(Room::Length(8));
        }
        if self.show_peak {
            widths.push(Room::Length(8));
        }
        if self.trend_width > 0 {
            widths.push(Room::Length(self.trend_width));
        }
        proof {
            assert(widths@ =~= self.widths(name_width));
        }
        widths
    }
}

/// How many rows of the table are on screen: its height without the borders and the header.
pub open spec fn rows_on_screen(height: u16) -> nat {
    if height > 3 {
        (height - 3) as nat
    } else {
        0
    }
}

/// The first row on screen, moved only as far as the selection asks for.
pub open spec fn scrolled(selected: usize, scroll: usize, visible: nat, len: nat) -> usize {
    if visible == 0 || len == 0 {
        0
    } else if selected < scroll {
        selected
    } else if selected >= scroll + visible {
        (selected + 1 - visible) as usize
    } else {
        scroll
    }
}

pub fn scroll_position(selected: usize, scroll: usize, visible: usize, len: usize) -> (first: usize)
    ensures
        first == scrolled(selected, scroll, visible as nat, len as nat),
{
    if visible == 0 || len == 0 {
        0
    } else if selected < scroll {
        selected
    } else if selected - scroll >= visible {
        selected - (visible - 1)
    } else {
        scroll
    }
}

/// The rows on screen, from the first to the one behind the last.
pub open spec fn row_window(scroll: usize, visible: nat, len: nat) -> (nat, nat) {
    let start = if scroll <= len {
        scroll as nat
    } else {
        len
    };
    (
        start,
        if start + visible <= len {
            start + visible
        } else {
            len
        },
    )
}

pub fn visible_rows(scroll: usize, visible: usize, len: usize) -> (window: (usize, usize))
    ensures
        (window.0 as nat, window.1 as nat) == row_window(scroll, visible as nat, len as nat),
        window.0 <= window.1 <= len,
{
    let start: usize = if scroll <= len {
        scroll
    } else {
        len
    };
    (
        start,
        if visible <= len - start {
            start + visible
        } else {
            len
        },
    )
}

/// The selected row is on screen.
pub proof fn law_selection_is_on_screen(selected: usize, scroll: usize, visible: nat, len: nat)
    requires
        visible > 0,
        selected < len,
    ensures
        ({
            let (start, end) = row_window(
                scrolled(selected, scroll, visible, len),
                visible,
                len,
            );
            start <= selected < end && end - start <= visible
        }),
{
}

/// Scrolling stays where it is as long as the selection is on screen.
pub proof fn law_scrolling_is_lazy(selected: usize, scroll: usize, visible: nat, len: nat)
    requires
        visible > 0,
        len > 0,
        scroll <= selected < scroll + visible,
    ensures
        scrolled(selected, scroll, visible, len) == scroll,
{
}

} // verus!
