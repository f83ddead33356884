//! Power graphs drawn with Braille dots: two samples to a cell, four steps to a row.
use std::collections::VecDeque;

use vstd::arithmetic::div_mod::*;
use vstd::arithmetic::power2::*;
use vstd::prelude::*;

use crate::archive_query::ArchiveGraphRange;
use crate::binary64::Binary64;

verus! {

/// The bits of `0.001`: what a sample must pass to be shown.
pub const GRAPH_ACTIVITY_EPSILON_BITS: u64 = 0x3f50_624d_d2f1_a9fc;

/// The bits of `1.0`.
pub const ONE_BITS: u64 = 0x3ff0_0000_0000_0000;

/// The bits of `0.5`.
pub const HALF_BITS: u64 = 0x3fe0_0000_0000_0000;

/// The bits of `0.25`.
pub const QUARTER_BITS: u64 = 0x3fd0_0000_0000_0000;

/// The bits of `1.35`: the headroom above the highest sample, as a factor.
pub const HEADROOM_BITS: u64 = 0x3ff5_9999_9999_999a;

/// The bits of `5.0`: the least headroom.
pub const LEAST_HEADROOM_BITS: u64 = 0x4014_0000_0000_0000;

/// The bits of `0.85`: how far up the graph the red rows start.
pub const RED_FROM_BITS: u64 = 0x3feb_3333_3333_3333;

/// The bits of `0.65`.
pub const ORANGE_FROM_BITS: u64 = 0x3fe4_cccc_cccc_cccd;

/// The bits of `0.40`.
pub const YELLOW_FROM_BITS: u64 = 0x3fd9_9999_9999_999a;

/// The most rows whose steps an `i32` can count.
pub const MAX_ROWS: usize = 0x1fff_ffff;

#[derive(Debug, Clone, Copy, PartialEq, Eq, Structural)]
pub enum GraphRange {
    Minutes8,
    Minutes30,
    Hours3,
    Hours12,
}

impl GraphRange {
    pub open spec fn following(self) -> GraphRange {
        match self {
            GraphRange::Minutes8 => GraphRange::Minutes30,
            GraphRange::Minutes30 => GraphRange::Hours3,
            GraphRange::Hours3 => GraphRange::Hours12,
            GraphRange::Hours12 => GraphRange::Minutes8,
        }
    }

    pub open spec fn name(self) -> Seq<char> {
        match self {
            GraphRange::Minutes8 => "8m"@,
            GraphRange::Minutes30 => "30m"@,
            GraphRange::Hours3 => "3h"@,
            GraphRange::Hours12 => "12h"@,
        }
    }

    /// The archive's range; the shortest range is live and has none.
    pub open spec fn archived(self) -> Option<ArchiveGraphRange> {
        match self {
            GraphRange::Minutes8 => None,
            GraphRange::Minutes30 => Some(ArchiveGraphRange::Minutes30),
            GraphRange::Hours3 => Some(ArchiveGraphRange::Hours3),
            GraphRange::Hours12 => Some(ArchiveGraphRange::Hours12),
        }
    }

    pub fn next(self) -> (range: GraphRange)
        ensures
            range == self.following(),
    {
        match self {
            GraphRange::Minutes8 => GraphRange::Minutes30,
            GraphRange::Minutes30 => GraphRange::Hours3,
            GraphRange::Hours3 => GraphRange::Hours12,
            GraphRange::Hours12 => GraphRange::Minutes8,
        }
    }

    pub fn label(self) -> (label: &'static str)
        ensures
            label@ == self.name(),
    {
        match self {
            GraphRange::Minutes8 => "8m",
            GraphRange::Minutes30 => "30m",
            GraphRange::Hours3 => "3h",
            GraphRange::Hours12 => "12h",
        }
    }

    pub fn archive_range(self) -> (range: Option<ArchiveGraphRange>)
        ensures
            range == self.archived(),
    {
        match self {
            GraphRange::Minutes8 => None,
            GraphRange::Minutes30 => Some(ArchiveGraphRange::Minutes30),
            GraphRange::Hours3 => Some(ArchiveGraphRange::Hours3),
            GraphRange::Hours12 => Some(ArchiveGraphRange::Hours12),
        }
    }
}

/// The color of a row of the graph.
#[derive(Debug, Clone, Copy, PartialEq, Eq, Structural)]
pub enum HeatColor {
    Green,
    Yellow,
    Orange,
    Red,
}

impl HeatColor {
    pub open spec fn parts(self) -> (u8, u8, u8) {
        match self {
            HeatColor::Green => (0x98, 0xc3, 0x79),
            HeatColor::Yellow => (0xe5, 0xc0, 0x7b),
            HeatColor::Orange => (0xd1, 0x9a, 0x66),
            HeatColor::Red => (0xe0, 0x6c, 0x75),
        }
    }

    /// The red, green and blue part.
    pub fn rgb(self) -> (parts: (u8, u8, u8))
        ensures
            parts == self.parts(),
    {
        match self {
            HeatColor::Green => (0x98, 0xc3, 0x79),
            HeatColor::Yellow => (0xe5, 0xc0, 0x7b),
            HeatColor::Orange => (0xd1, 0x9a, 0x66),
            HeatColor::Red => (0xe0, 0x6c, 0x75),
        }
    }
}

/// The smallest and the largest of some values.
pub open spec fn extent(values: Seq<Binary64>) -> Option<(Binary64, Binary64)>
    decreases values.len(),
{
    if values.len() == 0 {
        None
    } else {
        let last = values.last();
        match extent(values.drop_last()) {
            Some((min, max)) => Some((min.smaller(last), max.larger(last))),
            None => Some((last, last)),
        }
    }
}

/// The values that are there.
pub open spec fn present(values: Seq<Option<Binary64>>) -> Seq<Binary64>
    decreases values.len(),
{
    if values.len() == 0 {
        Seq::empty()
    } else {
        match values.last() {
            Some(value) => present(values.drop_last()).push(value),
            None => present(values.drop_last()),
        }
    }
}

pub fn history_range(values: &[Binary64]) -> (range: Option<(Binary64, Binary64)>)
    ensures
        range == extent(values@),
{
    let mut range: Option<(Binary64, Binary64)> = None;
    let mut i: usize = 0;
    proof {
        assert(values@.take(0) =~= Seq::empty());
    }
    while i < values.len()
        invariant
            i <= values@.len(),
            range == extent(values@.take(i as int)),
        decreases values@.len() - i,
    {
        proof {
            assert(values@.take(i + 1).drop_last() =~= values@.take(i as int));
        }
        let value: Binary64 = values[i];
        range = match range {
            Some((min, max)) => Some((min.min(value), max.max(value))),
            None => Some((value, value)),
        };
        i = i + 1;
    }
    proof {
        assert(values@.take(i as int) =~= values@);
    }
    range
}

pub fn history_range_optional(values: &[Option<Binary64>]) -> (range: Option<(Binary64, Binary64)>)
    ensures
        range == extent(present(values@)),
{
    let mut range: Option<(Binary64, Binary64)> = None;
    let mut i: usize = 0;
    proof {
        assert(values@.take(0) =~= Seq::empty());
    }
    while i < values.len()
        invariant
            i <= values@.len(),
            range == extent(present(values@.take(i as int))),
        decreases values@.len() - i,
    {
        proof {
            assert(values@.take(i + 1).drop_last() =~= values@.take(i as int));
        }
        if let Some(value) = values[i] {
            proof {
                let longer = present(values@.take(i + 1));
                assert(longer.drop_last() =~= present(values@.take(i as int)));
            }
            range = match range {
                Some((min, max)) => Some((min.min(value), max.max(value))),
                None => Some((value, value)),
            };
        }
        i = i + 1;
    }
    proof {
        assert(values@.take(i as int) =~= values@);
    }
    range
}

/// The newest values, as many as are wanted, with padding on the left where there are fewer.
pub open spec fn viewport<V>(values: Seq<V>, points: nat, pad: V) -> Seq<V> {
    Seq::new(
        points,
        |i: int|
            if values.len() - points + i < 0 {
                pad
            } else {
                values[values.len() - points + i]
            },
    )
}

fn points_for(width: usize) -> (points: usize)
    ensures
        points == crate::archive_query::points_of(width),
{
    match width.checked_mul(2) {
        Some(points) => points,
        None => usize::MAX,
    }
}

pub fn history_viewport_samples(values: &[Binary64], width: usize) -> (samples: Vec<Binary64>)
    ensures
        samples@ == viewport(
            values@,
            crate::archive_query::points_of(width),
            Binary64 { bits: 0 },
        ),
{
    let points: usize = points_for(width);
    let ghost goal = viewport(values@, points as nat, Binary64 { bits: 0 });
    let mut samples: Vec<Binary64> = Vec::new();
    let mut i: usize = 0;
    while i < points
        invariant
            i <= points,
            samples@.len() == i,
            goal == viewport(values@, points as nat, Binary64 { bits: 0 }),
            forall|j: int| 0 <= j < i ==> #[trigger] samples@[j] == goal[j],
        decreases points - i,
    {
        if values.len() < points - i {
            samples.push(Binary64::zero());
        } else {
            samples.push(values[values.len() - (points - i)]);
        }
        i = i + 1;
    }
    proof {
        assert(samples@ =~= goal);
    }
    samples
}

pub fn history_viewport_samples_deque(values: &VecDeque<Binary64>, width: usize) -> (samples: Vec<
    Binary64,
>)
    ensures
        samples@ == viewport(
            values@,
            crate::archive_query::points_of(width),
            Binary64 { bits: 0 },
        ),
{
    let points: usize = points_for(width);
    let ghost goal = viewport(values@, points as nat, Binary64 { bits: 0 });
    let mut samples: Vec<Binary64> = Vec::new();
    let mut i: usize = 0;
    while i < points
        invariant
            i <= points,
            samples@.len() == i,
            goal == viewport(values@, points as nat, Binary64 { bits: 0 }),
            forall|j: int| 0 <= j < i ==> #[trigger] samples@[j] == goal[j],
        decreases points - i,
    {
        if values.len() < points - i {
            samples.push(Binary64::zero());
        } else {
            samples.push(values[values.len() - (points - i)]);
        }
        i = i + 1;
    }
    proof {
        assert(samples@ =~= goal);
    }
    samples
}

pub fn history_viewport_samples_optional(values: &[Option<Binary64>], width: usize) -> (samples:
    Vec<Option<Binary64>>)
    ensures
        samples@ == viewport(values@, crate::archive_query::points_of(width), None),
{
    let points: usize = points_for(width);
    let ghost goal = viewport(values@, points as nat, None);
    let mut samples: Vec<Option<Binary64>> = Vec::new();
    let mut i: usize = 0;
    while i < points
        invariant
            i <= points,
            samples@.len() == i,
            goal == viewport(values@, points as nat, None),
            forall|j: int| 0 <= j < i ==> #[trigger] samples@[j] == goal[j],
        decreases points - i,
    {
        if values.len() < points - i {
            samples.push(None);
        } else {
            samples.push(values[values.len() - (points - i)]);
        }
        i = i + 1;
    }
    proof {
        assert(samples@ =~= goal);
    }
    samples
}

/// The largest value that a graph has room for, given what it shows: some way above the highest
/// sample, and more so where the samples hardly differ.
pub open spec fn scale_top(range: Option<(Binary64, Binary64)>) -> Binary64 {
    let zero = Binary64 { bits: 0 };
    let one = Binary64 { bits: ONE_BITS };
    let (raw_min, raw_max) = match range {
        Some(range) => range,
        None => (zero, zero),
    };
    if raw_max.le(zero) {
        one
    } else {
        let span = raw_max.difference(raw_min).larger(zero);
        let target = raw_max.product(Binary64 { bits: QUARTER_BITS }).larger(one);
        let base = if span.lt(target) {
            raw_max.sum(target.difference(span).product(Binary64 { bits: HALF_BITS }))
        } else {
            raw_max
        };
        base.product(Binary64 { bits: HEADROOM_BITS }).larger(
            raw_max.sum(Binary64 { bits: LEAST_HEADROOM_BITS }),
        ).larger(one)
    }
}

fn scale_bounds(range: Option<(Binary64, Binary64)>) -> (bounds: (Binary64, Binary64))
    ensures
        bounds.0 == (Binary64 { bits: 0 }),
        bounds.1 == scale_top(range),
{
    let zero: Binary64 = Binary64::zero();
    let one: Binary64 = Binary64::from_bits(ONE_BITS);
    let (raw_min, raw_max): (Binary64, Binary64) = match range {
        Some(range) => range,
        None => (zero, zero),
    };
    if raw_max.is_at_most(zero) {
        return (zero, one);
    }
    let span: Binary64 = raw_max.minus(raw_min).max(zero);
    let target: Binary64 = raw_max.times(Binary64::from_bits(QUARTER_BITS)).max(one);
    let base: Binary64 = if span.is_below(target) {
        raw_max.plus(target.minus(span).times(Binary64::from_bits(HALF_BITS)))
    } else {
        raw_max
    };
    let top: Binary64 = base.times(Binary64::from_bits(HEADROOM_BITS)).max(
        raw_max.plus(Binary64::from_bits(LEAST_HEADROOM_BITS)),
    ).max(one);
    (zero, top)
}

/// The values at the bottom and at the top of a graph.
pub fn graph_scale_bounds(values: &[Binary64]) -> (bounds: (Binary64, Binary64))
    ensures
        bounds.0 == (Binary64 { bits: 0 }),
        bounds.1 == scale_top(extent(values@)),
{
    scale_bounds(history_range(values))
}

pub fn graph_scale_bounds_optional(values: &[Option<Binary64>]) -> (bounds: (Binary64, Binary64))
    ensures
        bounds.0 == (Binary64 { bits: 0 }),
        bounds.1 == scale_top(extent(present(values@))),
{
    scale_bounds(history_range_optional(values))
}

/// How far a value is above the bottom of a graph.
pub open spec fn activity(value: Binary64, min: Binary64) -> Binary64 {
    value.difference(min).larger(Binary64 { bits: 0 })
}

/// Whether a value is far enough above the bottom of a graph to be shown.
pub open spec fn active(value: Binary64, min: Binary64) -> bool {
    (Binary64 { bits: GRAPH_ACTIVITY_EPSILON_BITS }).lt(activity(value, min))
}

/// A number moved into the range from zero to one.
pub open spec fn clamped(x: Binary64) -> Binary64 {
    if x.lt(Binary64 { bits: 0 }) {
        Binary64 { bits: 0 }
    } else if (Binary64 { bits: ONE_BITS }).lt(x) {
        Binary64 { bits: ONE_BITS }
    } else {
        x
    }
}

/// The height of a value in steps, four to a row: the share of the scale that it fills, and at
/// least one step where it is active.
pub open spec fn steps(value: Binary64, min: Binary64, max: Binary64, rows: nat) -> int {
    if rows == 0 || max.le(min) || activity(value, min).le(
        Binary64 { bits: GRAPH_ACTIVITY_EPSILON_BITS },
    ) {
        0
    } else {
        let share = clamped(activity(value, min).quotient(max.difference(min)));
        let height = share.product(Binary64::whole(4 * rows)).nearest_i32();
        if height < 1 {
            1
        } else {
            height
        }
    }
}

pub fn value_to_vertical_steps(value: Binary64, min: Binary64, max: Binary64, rows: usize) -> (n:
    i32)
    requires
        rows <= MAX_ROWS,
    ensures
        n == steps(value, min, max, rows as nat),
        n >= 0,
{
    if rows == 0 || max.is_at_most(min) {
        return 0;
    }
    let zero: Binary64 = Binary64::zero();
    let one: Binary64 = Binary64::from_bits(ONE_BITS);
    let above: Binary64 = value.minus(min).max(zero);
    if above.is_at_most(Binary64::from_bits(GRAPH_ACTIVITY_EPSILON_BITS)) {
        return 0;
    }
    let share: Binary64 = above.over(max.minus(min));
    let share: Binary64 = if share.is_below(zero) {
        zero
    } else if one.is_below(share) {
        one
    } else {
        share
    };
    let height: i32 = share.times(Binary64::from_whole(rows as u64 * 4)).round_to_i32();
    if height < 1 {
        1
    } else {
        height
    }
}

/// The color of a row, by how far up the graph it is.
pub open spec fn row_color(row_from_top: int, height: nat) -> HeatColor {
    if height <= 1 {
        HeatColor::Green
    } else {
        let up = Binary64::whole((height - 1 - row_from_top) as nat).quotient(
            Binary64::whole((height - 1) as nat),
        );
        if (Binary64 { bits: RED_FROM_BITS }).le(up) {
            HeatColor::Red
        } else if (Binary64 { bits: ORANGE_FROM_BITS }).le(up) {
            HeatColor::Orange
        } else if (Binary64 { bits: YELLOW_FROM_BITS }).le(up) {
            HeatColor::Yellow
        } else {
            HeatColor::Green
        }
    }
}

pub fn row_position_color(row_from_top: usize, height: usize) -> (color: HeatColor)
    requires
        height <= 1 || row_from_top < height,
    ensures
        color == row_color(row_from_top as int, height as nat),
{
    if height <= 1 {
        return HeatColor::Green;
    }
    let from_bottom: usize = height - 1 - row_from_top;
    let up: Binary64 = Binary64::from_whole(from_bottom as u64).over(
        Binary64::from_whole((height - 1) as u64),
    );
    if Binary64::from_bits(RED_FROM_BITS).is_at_most(up) {
        HeatColor::Red
    } else if Binary64::from_bits(ORANGE_FROM_BITS).is_at_most(up) {
        HeatColor::Orange
    } else if Binary64::from_bits(YELLOW_FROM_BITS).is_at_most(up) {
        HeatColor::Yellow
    } else {
        HeatColor::Green
    }
}

/// The dots of the left half of a cell, filled from the bottom.
pub open spec fn left_dots(level: int) -> int {
    if level == 0 {
        0
    } else if level == 1 {
        0x40
    } else if level == 2 {
        0x44
    } else if level == 3 {
        0x46
    } else {
        0x47
    }
}

/// The dots of the right half of a cell, filled from the bottom.
pub open spec fn right_dots(level: int) -> int {
    if level == 0 {
        0
    } else if level == 1 {
        0x80
    } else if level == 2 {
        0xa0
    } else if level == 3 {
        0xb0
    } else {
        0xb8
    }
}

/// The character with both halves filled to a level from zero to four; a blank for none.
pub open spec fn braille(left: int, right: int) -> char {
    if left == 0 && right == 0 {
        ' '
    } else {
        (0x2800 + left_dots(left) + right_dots(right)) as char
    }
}

fn braille_char(left: u8, right: u8) -> (c: char)
    requires
        left <= 4,
        right <= 4,
    ensures
        c == braille(left as int, right as int),
        c == ' ' <==> left == 0 && right == 0,
{
    match left {
        0 => match right {
            0 => ' ',
            1 => '⢀',
            2 => '⢠',
            3 => '⢰',
            _ => '⢸',
        },
        1 => match right {
            0 => '⡀',
            1 => '⣀',
            2 => '⣠',
            3 => '⣰',
            _ => '⣸',
        },
        2 => match right {
            0 => '⡄',
            1 => '⣄',
            2 => '⣤',
            3 => '⣴',
            _ => '⣼',
        },
        3 => match right {
            0 => '⡆',
            1 => '⣆',
            2 => '⣦',
            3 => '⣶',
            _ => '⣾',
        },
        _ => match right {
            0 => '⡇',
            1 => '⣇',
            2 => '⣧',
            3 => '⣷',
            _ => '⣿',
        },
    }
}

/// How far a sample fills a row whose lowest step is `base`.
pub open spec fn level(
    sample: Option<Binary64>,
    min: Binary64,
    max: Binary64,
    height: nat,
    base: int,
) -> int {
    match sample {
        Some(value) => {
            let above = steps(value, min, max, height) - base;
            if above < 0 {
                0
            } else if above > 4 {
                4
            } else {
                above
            }
        },
        None => 0,
    }
}

/// What a sample fills where the scale shows nothing of it: one step if it is active.
pub open spec fn trace(sample: Option<Binary64>, min: Binary64) -> int {
    match sample {
        Some(value) => if active(value, min) {
            1
        } else {
            0
        },
        None => 0,
    }
}

/// A graph: its samples, two to a column, and its scale.
#[verifier::ext_equal]
pub struct Chart {
    pub samples: Seq<Option<Binary64>>,
    pub height: nat,
    pub min: Binary64,
    pub max: Binary64,
}

impl Chart {
    /// The levels of a cell by the scale.
    pub open spec fn levels(self, row_from_top: int, col: int) -> (int, int) {
        let base = 4 * (self.height - 1 - row_from_top);
        (
            level(self.samples[2 * col], self.min, self.max, self.height, base),
            level(self.samples[2 * col + 1], self.min, self.max, self.height, base),
        )
    }

    /// Whether the scale shows anything in a column.
    pub open spec fn visible(self, col: int) -> bool {
        exists|row: int| 0 <= row < self.height && #[trigger] self.levels(row, col) != (0int, 0int)
    }

    /// The character of a cell. In a column that shows nothing the lowest row still tells where a
    /// sample is active.
    pub open spec fn glyph(self, row_from_top: int, col: int) -> char {
        let traces = (
            trace(self.samples[2 * col], self.min),
            trace(self.samples[2 * col + 1], self.min),
        );
        if row_from_top == self.height - 1 && !self.visible(col) {
            braille(traces.0, traces.1)
        } else {
            let levels = self.levels(row_from_top, col);
            braille(levels.0, levels.1)
        }
    }

    pub open spec fn row(self, row_from_top: int, width: nat) -> Seq<(char, HeatColor)> {
        Seq::new(
            width,
            |col: int| (self.glyph(row_from_top, col), row_color(row_from_top, self.height)),
        )
    }

    /// The cells of the graph, the top row first.
    pub open spec fn cells(self, width: nat) -> Seq<Seq<(char, HeatColor)>> {
        Seq::new(self.height, |row: int| self.row(row, width))
    }
}

/// All values, as values that are there.
pub open spec fn all_present(values: Seq<Binary64>) -> Seq<Option<Binary64>> {
    Seq::new(values.len(), |i: int| Some(values[i]))
}

fn level_of(step: Option<i32>, base: i32) -> (n: u8)
    requires
        0 <= base,
        step matches Some(s) ==> s >= 0,
    ensures
        n <= 4,
        n == match step {
            Some(s) => if s - base < 0 {
                0
            } else if s - base > 4 {
                4
            } else {
                s - base
            },
            None => 0,
        },
{
    match step {
        Some(s) => {
            let above: i32 = s - base;
            if above < 0 {
                0
            } else if above > 4 {
                4
            } else {
                above as u8
            }
        },
        None => 0,
    }
}

fn trace_of(sample: Option<Binary64>, min: Binary64) -> (n: u8)
    ensures
        n <= 1,
        n == trace(sample, min),
{
    match sample {
        Some(value) => {
            let above: Binary64 = value.minus(min).max(Binary64::zero());
            if Binary64::from_bits(GRAPH_ACTIVITY_EPSILON_BITS).is_below(above) {
                1
            } else {
                0
            }
        },
        None => 0,
    }
}

/// Draws samples, two to a column.
fn draw(
    samples: &Vec<Option<Binary64>>,
    width: usize,
    height: usize,
    scale_min: Binary64,
    scale_max: Binary64,
) -> (rows: Vec<Vec<(char, HeatColor)>>)
    requires
        samples@.len() == 2 * width <= usize::MAX,
        height <= MAX_ROWS,
    ensures
        crate::lists::models(rows@) == (Chart {
            samples: samples@,
            height: height as nat,
            min: scale_min,
            max: scale_max,
        }).cells(width as nat),
{
    let ghost chart = Chart {
        samples: samples@,
        height: height as nat,
        min: scale_min,
        max: scale_max,
    };
    let mut heights: Vec<Option<i32>> = Vec::new();
    let mut i: usize = 0;
    while i < samples.len()
        invariant
            i <= samples@.len(),
            heights@.len() == i,
            height <= MAX_ROWS,
            forall|j: int|
                0 <= j < i ==> match #[trigger] heights@[j] {
                    Some(n) => samples@[j] is Some && n == steps(
                        samples@[j]->0,
                        scale_min,
                        scale_max,
                        height as nat,
                    ) && n >= 0,
                    None => samples@[j] is None,
                },
        decreases samples@.len() - i,
    {
        heights.push(
            match samples[i] {
                Some(value) => Some(value_to_vertical_steps(value, scale_min, scale_max, height)),
                None => None,
            },
        );
        i = i + 1;
    }
    // Which columns the scale shows something in.
    let mut shown: Vec<bool> = Vec::new();
    let mut c: usize = 0;
    while c < width
        invariant
            c <= width,
            samples@.len() == 2 * width <= usize::MAX,
            heights@.len() == 2 * width,
            height <= MAX_ROWS,
            shown@.len() == c,
            chart == (Chart {
                samples: samples@,
                height: height as nat,
                min: scale_min,
                max: scale_max,
            }),
            forall|j: int|
                0 <= j < heights@.len() ==> match #[trigger] heights@[j] {
                    Some(n) => samples@[j] is Some && n == steps(
                        samples@[j]->0,
                        scale_min,
                        scale_max,
                        height as nat,
                    ) && n >= 0,
                    None => samples@[j] is None,
                },
            forall|j: int| 0 <= j < c ==> #[trigger] shown@[j] == chart.visible(j),
        decreases width - c,
    {
        let left: Option<i32> = heights[2 * c];
        let right: Option<i32> = heights[2 * c + 1];
        let mut found: bool = false;
        let mut row: usize = 0;
        while row < height
            invariant
                row <= height <= MAX_ROWS,
                c < width,
                samples@.len() == 2 * width <= usize::MAX,
                heights@.len() == 2 * width,
                left == heights@[2 * c],
                right == heights@[2 * c + 1],
                chart == (Chart {
                    samples: samples@,
                    height: height as nat,
                    min: scale_min,
                    max: scale_max,
                }),
                forall|j: int|
                    0 <= j < heights@.len() ==> match #[trigger] heights@[j] {
                        Some(n) => samples@[j] is Some && n == steps(
                            samples@[j]->0,
                            scale_min,
                            scale_max,
                            height as nat,
                        ) && n >= 0,
                        None => samples@[j] is None,
                    },
                found == exists|r: int|
                    0 <= r < row && #[trigger] chart.levels(r, c as int) != (0int, 0int),
            decreases height - row,
        {
            let base: i32 = ((height - 1 - row) * 4) as i32;
            let a: u8 = level_of(left, base);
            let b: u8 = level_of(right, base);
            proof {
                assert(chart.levels(row as int, c as int) == (a as int, b as int));
            }
            if a != 0 || b != 0 {
                found = true;
            }
            row = row + 1;
        }
        shown.push(found);
        c = c + 1;
    }
    let mut rows: Vec<Vec<(char, HeatColor)>> = Vec::new();
    let mut row: usize = 0;
    while row < height
        invariant
            row <= height <= MAX_ROWS,
            samples@.len() == 2 * width <= usize::MAX,
            heights@.len() == 2 * width,
            shown@.len() == width,
            chart == (Chart {
                samples: samples@,
                height: height as nat,
                min: scale_min,
                max: scale_max,
            }),
            forall|j: int|
                0 <= j < heights@.len() ==> match #[trigger] heights@[j] {
                    Some(n) => samples@[j] is Some && n == steps(
                        samples@[j]->0,
                        scale_min,
                        scale_max,
                        height as nat,
                    ) && n >= 0,
                    None => samples@[j] is None,
                },
            forall|j: int| 0 <= j < width ==> #[trigger] shown@[j] == chart.visible(j),
            rows@.len() == row,
            forall|r: int|
                0 <= r < row ==> (#[trigger] rows@[r])@ == chart.row(r, width as nat),
        decreases height - row,
    {
        let color: HeatColor = row_position_color(row, height);
        let base: i32 = ((height - 1 - row) * 4) as i32;
        let mut line: Vec<(char, HeatColor)> = Vec::new();
        let mut col: usize = 0;
        while col < width
            invariant
                col <= width,
                row < height <= MAX_ROWS,
                base == 4 * (height - 1 - row),
                color == row_color(row as int, height as nat),
                samples@.len() == 2 * width <= usize::MAX,
                heights@.len() == 2 * width,
                shown@.len() == width,
                chart == (Chart {
                    samples: samples@,
                    height: height as nat,
                    min: scale_min,
                    max: scale_max,
                }),
                forall|j: int|
                    0 <= j < heights@.len() ==> match #[trigger] heights@[j] {
                        Some(n) => samples@[j] is Some && n == steps(
                            samples@[j]->0,
                            scale_min,
                            scale_max,
                            height as nat,
                        ) && n >= 0,
                        None => samples@[j] is None,
                    },
                forall|j: int| 0 <= j < width ==> #[trigger] shown@[j] == chart.visible(j),
                line@.len() == col,
                forall|j: int|
                    0 <= j < col ==> #[trigger] line@[j] == (chart.glyph(row as int, j), color),
            decreases width - col,
        {
            let glyph: char = if row == height - 1 && !shown[col] {
                braille_char(
                    trace_of(samples[2 * col], scale_min),
                    trace_of(samples[2 * col + 1], scale_min),
                )
            } else {
                let a: u8 = level_of(heights[2 * col], base);
                let b: u8 = level_of(heights[2 * col + 1], base);
                proof {
                    assert(chart.levels(row as int, col as int) == (a as int, b as int));
                }
                braille_char(a, b)
            };
            line.push((glyph, color));
            col = col + 1;
        }
        proof {
            assert(line@ =~= chart.row(row as int, width as nat));
        }
        rows.push(line);
        row = row + 1;
    }
    proof {
        assert(crate::lists::models(rows@) =~= chart.cells(width as nat));
    }
    rows
}

/// The graph of the newest values.
pub open spec fn chart_of(
    values: Seq<Binary64>,
    width: nat,
    height: nat,
    min: Binary64,
    max: Binary64,
) -> Chart {
    Chart {
        samples: all_present(viewport(values, 2 * width, Binary64 { bits: 0 })),
        height,
        min,
        max,
    }
}

/// The same where values may be missing.
pub open spec fn chart_of_optional(
    values: Seq<Option<Binary64>>,
    width: nat,
    height: nat,
    min: Binary64,
    max: Binary64,
) -> Chart {
    Chart { samples: viewport(values, 2 * width, None), height, min, max }
}

pub fn braille_history_cells_with_scale(
    values: &[Binary64],
    width: usize,
    height: usize,
    scale_min: Binary64,
    scale_max: Binary64,
) -> (rows: Vec<Vec<(char, HeatColor)>>)
    requires
        2 * width <= usize::MAX,
        height <= MAX_ROWS,
    ensures
        crate::lists::models(rows@) == chart_of(
            values@,
            width as nat,
            height as nat,
            scale_min,
            scale_max,
        ).cells(width as nat),
{
    let plain: Vec<Binary64> = history_viewport_samples(values, width);
    let mut samples: Vec<Option<Binary64>> = Vec::new();
    let mut i: usize = 0;
    while i < plain.len()
        invariant
            i <= plain@.len(),
            samples@.len() == i,
            forall|j: int| 0 <= j < i ==> #[trigger] samples@[j] == Some(plain@[j]),
        decreases plain@.len() - i,
    {
        samples.push(Some(plain[i]));
        i = i + 1;
    }
    proof {
        assert(samples@ =~= all_present(plain@));
    }
    draw(&samples, width, height, scale_min, scale_max)
}

pub fn braille_history_cells_optional_with_scale(
    values: &[Option<Binary64>],
    width: usize,
    height: usize,
    scale_min: Binary64,
    scale_max: Binary64,
) -> (rows: Vec<Vec<(char, HeatColor)>>)
    requires
        2 * width <= usize::MAX,
        height <= MAX_ROWS,
    ensures
        crate::lists::models(rows@) == chart_of_optional(
            values@,
            width as nat,
            height as nat,
            scale_min,
            scale_max,
        ).cells(width as nat),
{
    let samples: Vec<Option<Binary64>> = history_viewport_samples_optional(values, width);
    draw(&samples, width, height, scale_min, scale_max)
}

/// Characters of one color; blanks have none.
#[derive(Debug, PartialEq)]
pub struct Run {
    pub text: String,
    pub color: Option<HeatColor>,
}

#[verifier::ext_equal]
pub struct RunModel {
    pub text: Seq<char>,
    pub color: Option<HeatColor>,
}

impl View for Run {
    type V = RunModel;

    open spec fn view(&self) -> RunModel {
        RunModel { text: self.text@, color: self.color }
    }
}

/// The color that a cell is seen in.
pub open spec fn seen_color(cell: (char, HeatColor)) -> Option<HeatColor> {
    if cell.0 == ' ' {
        None
    } else {
        Some(cell.1)
    }
}

/// A row cut where its color changes.
pub open spec fn runs(row: Seq<(char, HeatColor)>) -> Seq<RunModel>
    decreases row.len(),
{
    if row.len() == 0 {
        Seq::empty()
    } else {
        let before = runs(row.drop_last());
        let (glyph, _) = row.last();
        let color = seen_color(row.last());
        if before.len() > 0 && before.last().color == color {
            before.drop_last().push(
                RunModel { text: before.last().text.push(glyph), color },
            )
        } else {
            before.push(RunModel { text: seq![glyph], color })
        }
    }
}

fn runs_of(row: &Vec<(char, HeatColor)>) -> (out: Vec<Run>)
    ensures
        crate::lists::models(out@) == runs(row@),
{
    let mut out: Vec<Run> = Vec::new();
    let mut i: usize = 0;
    proof {
        assert(row@.take(0) =~= Seq::empty());
        assert(crate::lists::models(out@) =~= Seq::empty());
    }
    while i < row.len()
        invariant
            i <= row@.len(),
            crate::lists::models(out@) == runs(row@.take(i as int)),
        decreases row@.len() - i,
    {
        let ghost before = crate::lists::models(out@);
        proof {
            assert(row@.take(i + 1).drop_last() =~= row@.take(i as int));
            assert(row@.take(i + 1).last() == row@[i as int]);
        }
        let (glyph, cell_color): (char, HeatColor) = row[i];
        let color: Option<HeatColor> = if glyph == ' ' {
            None
        } else {
            Some(cell_color)
        };
        let joins: bool = out.len() > 0 && same_color(out[out.len() - 1].color, color);
        if joins {
            proof {
                assert(before.last() == out@[out@.len() - 1]@);
            }
            match out.pop() {
                Some(mut run) => {
                    proof {
                        assert(crate::lists::models(out@) =~= before.drop_last());
                    }
                    let ghost shorter = out@;
                    run.text.push(glyph);
                    out.push(run);
                    proof {
                        assert(crate::lists::models(out@) =~= crate::lists::models(shorter).push(
                            run@,
                        ));
                    }
                },
                None => {},
            }
        } else {
            proof {
                if before.len() > 0 {
                    assert(before.last() == out@[out@.len() - 1]@);
                }
            }
            let mut text: String = String::new();
            text.push(glyph);
            let run = Run { text, color };
            proof {
                assert(run@.text =~= seq![glyph]);
            }
            out.push(run);
            proof {
                assert(crate::lists::models(out@) =~= before.push(run@));
            }
        }
        i = i + 1;
    }
    proof {
        assert(row@.take(i as int) =~= row@);
    }
    out
}

fn same_color(a: Option<HeatColor>, b: Option<HeatColor>) -> (same: bool)
    ensures
        same == (a == b),
{
    match (a, b) {
        (Some(x), Some(y)) => x == y,
        (None, None) => true,
        _ => false,
    }
}

/// The rows of a graph, each cut where its color changes.
pub open spec fn lines(cells: Seq<Seq<(char, HeatColor)>>) -> Seq<Seq<RunModel>> {
    Seq::new(cells.len(), |i: int| runs(cells[i]))
}

/// The runs of each line.
pub open spec fn line_models(lines: Seq<Vec<Run>>) -> Seq<Seq<RunModel>> {
    Seq::new(lines.len(), |i: int| crate::lists::models(lines[i]@))
}

fn lines_of(cells: &Vec<Vec<(char, HeatColor)>>) -> (out: Vec<Vec<Run>>)
    ensures
        line_models(out@) == lines(crate::lists::models(cells@)),
{
    let mut out: Vec<Vec<Run>> = Vec::new();
    let mut i: usize = 0;
    while i < cells.len()
        invariant
            i <= cells@.len(),
            out@.len() == i,
            forall|j: int|
                0 <= j < i ==> crate::lists::models((#[trigger] out@[j])@) == runs(cells@[j]@),
        decreases cells@.len() - i,
    {
        out.push(runs_of(&cells[i]));
        i = i + 1;
    }
    proof {
        assert(line_models(out@) =~= lines(crate::lists::models(cells@)));
    }
    out
}

pub fn braille_history_lines_with_scale(
    values: &[Binary64],
    width: usize,
    height: usize,
    scale_min: Binary64,
    scale_max: Binary64,
) -> (out: Vec<Vec<Run>>)
    requires
        2 * width <= usize::MAX,
        height <= MAX_ROWS,
    ensures
        line_models(out@) == lines(
            chart_of(values@, width as nat, height as nat, scale_min, scale_max).cells(
                width as nat,
            ),
        ),
{
    let cells: Vec<Vec<(char, HeatColor)>> = braille_history_cells_with_scale(
        values,
        width,
        height,
        scale_min,
        scale_max,
    );
    lines_of(&cells)
}

pub fn braille_history_lines_optional_with_scale(
    values: &[Option<Binary64>],
    width: usize,
    height: usize,
    scale_min: Binary64,
    scale_max: Binary64,
) -> (out: Vec<Vec<Run>>)
    requires
        2 * width <= usize::MAX,
        height <= MAX_ROWS,
    ensures
        line_models(out@) == lines(
            chart_of_optional(values@, width as nat, height as nat, scale_min, scale_max).cells(
                width as nat,
            ),
        ),
{
    let cells: Vec<Vec<(char, HeatColor)>> = braille_history_cells_optional_with_scale(
        values,
        width,
        height,
        scale_min,
        scale_max,
    );
    lines_of(&cells)
}

/// A new value moves the viewport by one and comes in at its right end.
pub proof fn law_viewport_shifts(values: Seq<Binary64>, value: Binary64, points: nat, i: int)
    requires
        0 <= i < points - 1,
    ensures
        viewport(values.push(value), points, Binary64 { bits: 0 })[i] == viewport(
            values,
            points,
            Binary64 { bits: 0 },
        )[i + 1],
        viewport(values.push(value), points, Binary64 { bits: 0 })[points - 1] == value,
{
}

proof fn lemma_zero_is_blank(min: Binary64, max: Binary64, rows: nat, base: int)
    requires
        (Binary64 { bits: 0 }).le(min),
        base >= 0,
    ensures
        level(Some(Binary64 { bits: 0 }), min, max, rows, base) == 0,
        trace(Some(Binary64 { bits: 0 }), min) == 0,
{
    let zero = Binary64 { bits: 0 };
    let least = Binary64 { bits: GRAPH_ACTIVITY_EPSILON_BITS };
    assert(zero.magnitude() == 0 && least.magnitude() == GRAPH_ACTIVITY_EPSILON_BITS);
    assert(min.opposite().magnitude() == min.magnitude());
    assert(crate::binary64::units(0) == 0);
    assert(activity(zero, min).le(least));
    law_active_values_show(zero, min, max, rows);
}

proof fn lemma_same_cells(a: Chart, b: Chart, width: nat)
    requires
        a.height == b.height,
        a.samples.len() == 2 * width,
        b.samples.len() == 2 * width,
        forall|row: int, i: int|
            #![trigger a.samples[i], 4 * (a.height - 1 - row)]
            0 <= row < a.height && 0 <= i < 2 * width ==> level(
                a.samples[i],
                a.min,
                a.max,
                a.height,
                4 * (a.height - 1 - row),
            ) == level(b.samples[i], b.min, b.max, b.height, 4 * (a.height - 1 - row)),
        forall|i: int|
            0 <= i < 2 * width ==> trace(#[trigger] a.samples[i], a.min) == trace(
                b.samples[i],
                b.min,
            ),
    ensures
        a.cells(width) == b.cells(width),
{
    assert forall|row: int, col: int| 0 <= row < a.height && 0 <= col < width implies a.levels(
        row,
        col,
    ) == b.levels(row, col) by {}
    assert forall|row: int, col: int| 0 <= row < a.height && 0 <= col < width implies #[trigger] a.row(
        row,
        width,
    )[col] == b.row(row, width)[col] by {
        if a.visible(col) {
            let r = choose|r: int| 0 <= r < a.height && #[trigger] a.levels(r, col) != (0int, 0int);
            assert(b.levels(r, col) != (0int, 0int));
        }
        if b.visible(col) {
            let r = choose|r: int| 0 <= r < a.height && #[trigger] b.levels(r, col) != (0int, 0int);
            assert(a.levels(r, col) != (0int, 0int));
        }
        assert(a.levels(row, col) == b.levels(row, col));
        assert(trace(a.samples[2 * col], a.min) == trace(b.samples[2 * col], b.min));
        assert(trace(a.samples[2 * col + 1], a.min) == trace(b.samples[2 * col + 1], b.min));
    }
    assert forall|row: int| 0 <= row < a.height implies a.row(row, width) == b.row(row, width) by {
        assert(a.row(row, width) =~= b.row(row, width));
    }
    assert(a.cells(width) =~= b.cells(width));
}

/// Values that are all there draw as plain values do, where they fill the graph or its bottom is not
/// below zero.
pub proof fn law_present_values_draw_as_plain_ones(
    values: Seq<Binary64>,
    width: nat,
    height: nat,
    min: Binary64,
    max: Binary64,
)
    requires
        values.len() >= 2 * width || (Binary64 { bits: 0 }).le(min),
    ensures
        chart_of_optional(all_present(values), width, height, min, max).cells(width) == chart_of(
            values,
            width,
            height,
            min,
            max,
        ).cells(width),
{
    let optional = chart_of_optional(all_present(values), width, height, min, max);
    let plain = chart_of(values, width, height, min, max);
    if values.len() >= 2 * width {
        assert(optional.samples =~= plain.samples);
    } else {
        assert forall|row: int, i: int|
            #![trigger optional.samples[i], 4 * (height - 1 - row)]
            0 <= row < height && 0 <= i < 2 * width implies level(
            optional.samples[i],
            min,
            max,
            height,
            4 * (height - 1 - row),
        ) == level(plain.samples[i], min, max, height, 4 * (height - 1 - row)) by {
            lemma_zero_is_blank(min, max, height, 4 * (height - 1 - row));
        }
        assert forall|i: int| 0 <= i < 2 * width implies trace(
            #[trigger] optional.samples[i],
            min,
        ) == trace(plain.samples[i], min) by {
            lemma_zero_is_blank(min, max, height, 0);
        }
        lemma_same_cells(optional, plain, width);
    }
}

/// A value has a step on the graph exactly where the graph has a scale and the value is active.
pub proof fn law_active_values_show(value: Binary64, min: Binary64, max: Binary64, rows: nat)
    ensures
        steps(value, min, max, rows) >= 0,
        steps(value, min, max, rows) > 0 <==> rows > 0 && !max.le(min) && active(value, min),
{
    let zero = Binary64 { bits: 0 };
    let least = Binary64 { bits: GRAPH_ACTIVITY_EPSILON_BITS };
    assert(zero.magnitude() == 0 && least.magnitude() == GRAPH_ACTIVITY_EPSILON_BITS);
    assert(!activity(value, min).nan());
}

proof fn lemma_scale_is_positive(min: Binary64, max: Binary64)
    requires
        !max.le(min),
        !max.difference(min).nan(),
    ensures
        !max.difference(min).negative(),
{
    if max.finite() && min.finite() {
        crate::binary64::law_order_is_by_value(max, min);
        assert(min.opposite().magnitude() == min.magnitude());
        assert(min.opposite().value() == -min.value());
    }
}

/// A higher value has no fewer steps on the graph.
pub proof fn law_steps_rise_with_the_value(
    low: Binary64,
    high: Binary64,
    min: Binary64,
    max: Binary64,
    rows: nat,
)
    requires
        low.le(high),
        rows <= MAX_ROWS,
    ensures
        steps(low, min, max, rows) <= steps(high, min, max, rows),
{
    let zero = Binary64 { bits: 0 };
    let one = Binary64 { bits: ONE_BITS };
    let least = Binary64 { bits: GRAPH_ACTIVITY_EPSILON_BITS };
    assert(zero.magnitude() == 0 && one.magnitude() == ONE_BITS);
    assert(least.magnitude() == GRAPH_ACTIVITY_EPSILON_BITS);
    law_active_values_show(low, min, max, rows);
    law_active_values_show(high, min, max, rows);
    if steps(low, min, max, rows) > 0 {
        let a = activity(low, min);
        let b = activity(high, min);
        assert(a == low.difference(min));
        assert(a.le(b)) by {
            if !high.difference(min).nan() {
                crate::binary64::law_adding_keeps_order(low, high, min.opposite());
            }
        }
        let scale = max.difference(min);
        let small = a.quotient(scale);
        let large = b.quotient(scale);
        let whole = Binary64::whole(4 * rows);
        crate::binary64::law_small_whole_is_exact(4 * rows);
        assert(!whole.negative() && whole.finite());
        if !scale.nan() {
            lemma_scale_is_positive(min, max);
            if !small.nan() && !large.nan() {
                crate::binary64::law_dividing_keeps_order(a, b, scale);
                assert(clamped(small).le(clamped(large)));
                crate::binary64::law_multiplying_keeps_order(
                    clamped(small),
                    clamped(large),
                    whole,
                );
                crate::binary64::law_nearest_whole_keeps_order(
                    clamped(small).product(whole),
                    clamped(large).product(whole),
                );
            } else if !small.nan() {
                assert(small == zero);
                let p: nat = pow2(1074);
                let w: nat = crate::binary64::units(whole.magnitude() as nat);
                lemma_pow2_pos(1074);
                let none: nat = crate::binary64::units(0);
                assert(none * w == 0) by (nonlinear_arith)
                    requires
                        none == 0,
                ;
                crate::binary64::law_rounding_respects_magnitudes(0, p, 0);
                assert(small.product(whole).magnitude() == 0);
                assert(small.product(whole).nearest_i32() == 0) by {
                    lemma_basic_div(p as int, 2 * p as int);
                }
            }
        }
    }
}

/// No value is higher than the graph.
pub proof fn law_steps_fit(value: Binary64, min: Binary64, max: Binary64, rows: nat)
    requires
        rows <= MAX_ROWS,
    ensures
        0 <= steps(value, min, max, rows) <= 4 * rows,
{
    let share = clamped(activity(value, min).quotient(max.difference(min)));
    let whole = Binary64::whole(4 * rows);
    let zero = Binary64 { bits: 0 };
    let one = Binary64 { bits: ONE_BITS };
    assert(zero.magnitude() == 0 && one.magnitude() == ONE_BITS);
    crate::binary64::law_small_whole_is_exact(4 * rows);
    crate::binary64::lemma_units_of_one();
    let p: nat = pow2(1074);
    lemma_pow2_pos(1074);
    if rows > 0 && !share.nan() {
        let product = share.product(whole);
        if share.negative() {
            assert(share.rank() <= 0);
            assert(share.magnitude() == 0);
        } else {
            assert(share.magnitude() <= ONE_BITS);
        }
        let u: nat = crate::binary64::units(share.magnitude() as nat);
        let w: nat = crate::binary64::units(whole.magnitude() as nat);
        if share.magnitude() < ONE_BITS {
            crate::binary64::lemma_units_increase(share.magnitude() as nat, ONE_BITS as nat);
        }
        assert(u * w <= w * p) by (nonlinear_arith)
            requires
                u <= p,
        ;
        crate::binary64::law_rounding_respects_magnitudes(u * w, p, whole.magnitude());
        let m: u64 = crate::binary64::nearest(u * w, p);
        assert(product.magnitude() == m);
        if m < whole.magnitude() {
            crate::binary64::lemma_units_increase(m as nat, whole.magnitude() as nat);
        }
        let v: nat = crate::binary64::units(m as nat);
        assert(v <= (4 * rows) * p);
        let away: nat = (2 * v + p) / (2 * p);
        assert(away <= 4 * rows) by {
            assert(2 * v + p < (4 * rows + 1) * (2 * p)) by (nonlinear_arith)
                requires
                    v <= (4 * rows) * p,
                    p > 0,
            ;
            lemma_multiply_divide_lt((2 * v + p) as int, (2 * p) as int, (4 * rows + 1) as int);
        }
    }
}

/// The top of the graph is above the highest value, and never below one.
pub proof fn law_scale_has_headroom(min: Binary64, max: Binary64)
    requires
        max.finite(),
    ensures
        max.lt(scale_top(Some((min, max)))),
        (Binary64 { bits: ONE_BITS }).le(scale_top(Some((min, max)))),
{
    let zero = Binary64 { bits: 0 };
    let one = Binary64 { bits: ONE_BITS };
    let half = Binary64 { bits: HALF_BITS };
    let quarter = Binary64 { bits: QUARTER_BITS };
    let factor = Binary64 { bits: HEADROOM_BITS };
    let least = Binary64 { bits: LEAST_HEADROOM_BITS };
    assert(zero.magnitude() == 0 && one.magnitude() == ONE_BITS);
    assert(half.magnitude() == HALF_BITS && quarter.magnitude() == QUARTER_BITS);
    assert(factor.magnitude() == HEADROOM_BITS && least.magnitude() == LEAST_HEADROOM_BITS);
    if !max.le(zero) {
        assert(!max.negative() && max.magnitude() > 0);
        let span = max.difference(min).larger(zero);
        let target = max.product(quarter).larger(one);
        let extra = target.difference(span).product(half);
        let base = if span.lt(target) {
            max.sum(extra)
        } else {
            max
        };
        assert(!span.nan() && !span.negative() || span.magnitude() == 0);
        assert(!base.nan() && !base.negative() && base.magnitude() >= max.magnitude()) by {
            if span.lt(target) {
                lemma_gap_is_positive(target, span);
                crate::binary64::law_adding_does_not_shrink(max, extra);
            }
        }
        let scaled = base.product(factor);
        let raised = max.sum(least);
        assert(!scaled.nan() && !scaled.negative());
        assert(!raised.nan());
        if max.magnitude() >= ONE_BITS {
            crate::binary64::lemma_units_of_one();
            lemma_headroom_factor();
            crate::binary64::law_growth_shows(max, base, factor);
        }
    }
}

proof fn lemma_extent(values: Seq<Binary64>, i: int)
    requires
        0 <= i < values.len(),
        forall|j: int| 0 <= j < values.len() ==> (#[trigger] values[j]).finite(),
    ensures
        extent(values) is Some,
        (extent(values)->0).0.finite(),
        (extent(values)->0).1.finite(),
        (extent(values)->0).0.le(values[i]),
        values[i].le((extent(values)->0).1),
    decreases values.len(),
{
    let front = values.drop_last();
    let last = values[values.len() - 1];
    if front.len() > 0 {
        assert forall|j: int| 0 <= j < front.len() implies (#[trigger] front[j]).finite() by {
            assert(values[j].finite());
        }
        lemma_extent(
            front,
            if i < front.len() {
                i
            } else {
                0
            },
        );
        if i < front.len() {
            assert(front[i] == values[i]);
        }
    } else {
        assert(extent(front) is None);
    }
    assert(last.finite());
}

/// A graph has room above every value that it shows.
pub proof fn law_every_value_has_room(values: Seq<Binary64>, i: int)
    requires
        0 <= i < values.len(),
        forall|j: int| 0 <= j < values.len() ==> (#[trigger] values[j]).finite(),
    ensures
        values[i].lt(scale_top(extent(values))),
{
    lemma_extent(values, i);
    let (min, max) = extent(values)->0;
    law_scale_has_headroom(min, max);
}

proof fn lemma_headroom_factor()
    ensures
        4 * crate::binary64::units(HEADROOM_BITS as nat) >= 5 * pow2(1074),
{
    // 1.25 has the bits 0x3ff4_0000_0000_0000.
    let quarter_more: nat = 0x3ff4_0000_0000_0000;
    crate::binary64::lemma_units_of(1022, 0x14_0000_0000_0000);
    crate::binary64::lemma_units_increase(quarter_more, HEADROOM_BITS as nat);
    lemma_pow2_adds(52, 1022);
    lemma2_to64_rest();
    assert(0x14_0000_0000_0000 * pow2(1022) * 4 == 5 * (0x10_0000_0000_0000 * pow2(1022)))
        by (nonlinear_arith);
}

pub proof fn lemma_gap_is_positive(target: Binary64, span: Binary64)
    requires
        span.lt(target),
        span.magnitude() == 0 || !span.negative(),
        !target.negative(),
    ensures
        ({
            let extra = target.difference(span).product(Binary64 { bits: HALF_BITS });
            !extra.nan() && !extra.negative()
        }),
{
    let gap = target.difference(span);
    assert((Binary64 { bits: HALF_BITS }).magnitude() == HALF_BITS);
    if target.finite() {
        if span.magnitude() < target.magnitude() {
            crate::binary64::lemma_units_increase(
                span.magnitude() as nat,
                target.magnitude() as nat,
            );
        }
        assert(span.opposite().magnitude() == span.magnitude());
    }
    assert(!gap.nan() && !gap.negative());
}

/// The text of runs put together.
pub open spec fn run_text(parts: Seq<RunModel>) -> Seq<char>
    decreases parts.len(),
{
    if parts.len() == 0 {
        Seq::empty()
    } else {
        run_text(parts.drop_last()) + parts.last().text
    }
}

/// Cutting a row into runs keeps every character, and neighbours differ in color.
pub proof fn law_runs_keep_the_row(row: Seq<(char, HeatColor)>)
    ensures
        run_text(runs(row)) == Seq::new(row.len(), |i: int| row[i].0),
        forall|i: int|
            0 < i < runs(row).len() ==> (#[trigger] runs(row)[i]).color != runs(row)[i - 1].color,
    decreases row.len(),
{
    if row.len() == 0 {
        assert(run_text(runs(row)) =~= Seq::new(row.len(), |i: int| row[i].0));
    } else {
        let front = row.drop_last();
        law_runs_keep_the_row(front);
        let before = runs(front);
        let after = runs(row);
        let glyph = row.last().0;
        let color = seen_color(row.last());
        if before.len() > 0 && before.last().color == color {
            assert(after.drop_last() =~= before.drop_last());
            assert(run_text(after) =~= run_text(before).push(glyph));
            assert forall|i: int| 0 < i < after.len() implies (#[trigger] after[i]).color != after[i
                - 1].color by {
                assert(before[i].color != before[i - 1].color);
            }
        } else {
            assert(after.drop_last() =~= before);
            assert(run_text(after) =~= run_text(before).push(glyph));
            assert forall|i: int| 0 < i < after.len() implies (#[trigger] after[i]).color != after[i
                - 1].color by {
                if i < before.len() {
                    assert(before[i].color != before[i - 1].color);
                }
            }
        }
        assert(run_text(after) =~= Seq::new(row.len(), |i: int| row[i].0));
    }
}

/// What is drawn in a row has the color of the row, whatever it shows.
pub proof fn law_row_has_one_color(chart: Chart, row: int, width: nat, i: int)
    requires
        0 <= i < runs(chart.row(row, width)).len(),
    ensures
        runs(chart.row(row, width))[i].color is None || runs(chart.row(row, width))[i].color
            == Some(row_color(row, chart.height)),
{
    lemma_run_colors(chart.row(row, width), row_color(row, chart.height));
}

proof fn lemma_run_colors(row: Seq<(char, HeatColor)>, color: HeatColor)
    requires
        forall|i: int| 0 <= i < row.len() ==> (#[trigger] row[i]).1 == color,
    ensures
        forall|i: int|
            0 <= i < runs(row).len() ==> (#[trigger] runs(row)[i]).color is None || runs(
                row,
            )[i].color == Some(color),
    decreases row.len(),
{
    if row.len() > 0 {
        let front = row.drop_last();
        assert forall|i: int| 0 <= i < front.len() implies (#[trigger] front[i]).1 == color by {
            assert(row[i].1 == color);
        }
        lemma_run_colors(front, color);
        assert(row[row.len() - 1].1 == color);
        let before = runs(front);
        let after = runs(row);
        assert forall|i: int| 0 <= i < after.len() implies (#[trigger] after[i]).color is None
            || after[i].color == Some(color) by {
            if i < before.len() && i < after.len() - 1 {
                assert(after[i] == before[i]);
            }
        }
    }
}

/// The lowest row is green, and the top one of several is red.
pub proof fn law_heat_rises(height: nat)
    requires
        1 <= height <= MAX_ROWS,
    ensures
        row_color(height - 1, height) == HeatColor::Green,
        height > 1 ==> row_color(0, height) == HeatColor::Red,
{
    if height > 1 {
        let n: nat = (height - 1) as nat;
        crate::binary64::law_small_whole_is_exact(n);
        crate::binary64::law_small_whole_is_exact(0);
        crate::binary64::lemma_units_of_one();
        lemma_pow2_pos(1074);
        let w = Binary64::whole(n);
        let p: nat = pow2(1074);
        let u: nat = crate::binary64::units(w.magnitude() as nat);
        assert(u > 0) by (nonlinear_arith)
            requires
                u == n * p,
                n > 0,
                p > 0,
        ;
        assert(w.magnitude() > 0);
        assert(u * p == p * u) by (nonlinear_arith);
        crate::binary64::law_rounding_respects_magnitudes(u * p, u, ONE_BITS);
        let zero = Binary64::whole(0);
        assert(0 * p == 0) by (nonlinear_arith);
        assert(crate::binary64::units(zero.magnitude() as nat) == 0);
        if zero.magnitude() > 0 {
            crate::binary64::lemma_units_increase(0, zero.magnitude() as nat);
        }
        assert(0 * u == 0) by (nonlinear_arith);
        crate::binary64::law_rounding_respects_magnitudes(0, u, 0);
    }
}

} // verus!
