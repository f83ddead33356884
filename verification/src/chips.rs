//! Short styled texts, and the chips that are set into a panel's border.
use vstd::prelude::*;

use crate::binary64::Binary64;
use crate::graph::{HeatColor, Run, RunModel};
use crate::layout::Area;

verus! {

/// A color of the palette.
#[derive(Debug, Clone, Copy, PartialEq, Eq, Structural)]
pub enum Paint {
    Fg,
    Accent,
    Muted,
    Heat(HeatColor),
}

impl Paint {
    pub open spec fn parts(self) -> (u8, u8, u8) {
        match self {
            Paint::Fg => (0xab, 0xb2, 0xbf),
            Paint::Accent => (0x61, 0xaf, 0xef),
            Paint::Muted => (0x5c, 0x63, 0x70),
            Paint::Heat(color) => color.parts(),
        }
    }

    /// The red, green and blue part.
    pub fn rgb(self) -> (parts: (u8, u8, u8))
        ensures
            parts == self.parts(),
    {
        match self {
            Paint::Fg => (0xab, 0xb2, 0xbf),
            Paint::Accent => (0x61, 0xaf, 0xef),
            Paint::Muted => (0x5c, 0x63, 0x70),
            Paint::Heat(color) => color.rgb(),
        }
    }
}

/// How a text is drawn; without a color it takes that of what it stands in.
#[derive(Debug, Clone, Copy, PartialEq, Eq, Structural)]
pub struct Tone {
    pub paint: Option<Paint>,
    pub bold: bool,
}

impl Tone {
    pub open spec fn as_is() -> Tone {
        Tone { paint: None, bold: false }
    }

    pub open spec fn of(paint: Paint) -> Tone {
        Tone { paint: Some(paint), bold: false }
    }

    pub open spec fn strong(paint: Paint) -> Tone {
        Tone { paint: Some(paint), bold: true }
    }
}

pub(crate) fn tone_as_is() -> (tone: Tone)
    ensures
        tone == Tone::as_is(),
{
    Tone { paint: None, bold: false }
}

pub(crate) fn tone_of(paint: Paint) -> (tone: Tone)
    ensures
        tone == Tone::of(paint),
{
    Tone { paint: Some(paint), bold: false }
}

pub(crate) fn tone_strong(paint: Paint) -> (tone: Tone)
    ensures
        tone == Tone::strong(paint),
{
    Tone { paint: Some(paint), bold: true }
}

/// A text in one tone.
#[derive(Debug, PartialEq)]
pub struct Piece {
    pub text: String,
    pub tone: Tone,
}

#[verifier::ext_equal]
pub struct PieceModel {
    pub text: Seq<char>,
    pub tone: Tone,
}

impl View for Piece {
    type V = PieceModel;

    open spec fn view(&self) -> PieceModel {
        PieceModel { text: self.text@, tone: self.tone }
    }
}

pub open spec fn a_piece(text: Seq<char>, tone: Tone) -> PieceModel {
    PieceModel { text, tone }
}

pub(crate) fn piece(text: &str, tone: Tone) -> (piece: Piece)
    ensures
        piece@ == a_piece(text@, tone),
{
    Piece { text: text.to_string(), tone }
}

pub(crate) fn piece_of(text: &Vec<char>, tone: Tone) -> (piece: Piece)
    ensures
        piece@ == a_piece(text@, tone),
{
    Piece { text: crate::text::string_of(text), tone }
}

/// A line of one piece.
pub(crate) fn line_of(piece: Piece) -> (line: Vec<Piece>)
    ensures
        crate::lists::models(line@) == seq![piece@],
{
    let line: Vec<Piece> = vec![piece];
    proof {
        assert(crate::lists::models(line@) =~= seq![piece@]);
    }
    line
}

/// The pieces of each line.
pub open spec fn line_models(lines: Seq<Vec<Piece>>) -> Seq<Seq<PieceModel>> {
    Seq::new(lines.len(), |i: int| crate::lists::models(lines[i]@))
}

/// The line of a run of dots.
pub open spec fn run_piece(run: RunModel) -> PieceModel {
    PieceModel {
        text: run.text,
        tone: match run.color {
            Some(color) => Tone::of(Paint::Heat(color)),
            None => Tone::as_is(),
        },
    }
}

/// Rows of dots as lines.
pub open spec fn run_lines(rows: Seq<Seq<RunModel>>) -> Seq<Seq<PieceModel>> {
    Seq::new(
        rows.len(),
        |i: int| Seq::new(rows[i].len(), |j: int| run_piece(rows[i][j])),
    )
}

pub(crate) fn lines_from_runs(rows: &Vec<Vec<Run>>) -> (lines: Vec<Vec<Piece>>)
    ensures
        line_models(lines@) == run_lines(crate::graph::line_models(rows@)),
{
    let ghost all = crate::graph::line_models(rows@);
    let mut lines: Vec<Vec<Piece>> = Vec::new();
    let mut i: usize = 0;
    while i < rows.len()
        invariant
            i <= rows@.len(),
            all == crate::graph::line_models(rows@),
            lines@.len() == i,
            forall|k: int|
                0 <= k < i ==> crate::lists::models((#[trigger] lines@[k])@) == run_lines(all)[k],
        decreases rows@.len() - i,
    {
        let mut line: Vec<Piece> = Vec::new();
        let mut j: usize = 0;
        while j < rows[i].len()
            invariant
                i < rows@.len(),
                j <= rows@[i as int]@.len(),
                line@.len() == j,
                forall|k: int|
                    0 <= k < j ==> (#[trigger] line@[k])@ == run_piece(rows@[i as int]@[k]@),
            decreases rows@[i as int]@.len() - j,
        {
            let tone: Tone = match rows[i][j].color {
                Some(color) => tone_of(Paint::Heat(color)),
                None => tone_as_is(),
            };
            line.push(Piece { text: rows[i][j].text.clone(), tone });
            j = j + 1;
        }
        proof {
            assert(crate::lists::models(line@) =~= run_lines(all)[i as int]);
        }
        lines.push(line);
        i = i + 1;
    }
    proof {
        assert(line_models(lines@) =~= run_lines(all));
    }
    lines
}

pub open spec fn ascii_upper(c: char) -> char {
    if 'a' <= c <= 'z' {
        (c as u32 - 32) as char
    } else {
        c
    }
}

/// Whether a character is a hotkey, in either case.
pub open spec fn is_key(c: char, hotkey: char) -> bool {
    c == crate::decimal::ascii_lower(hotkey) || c == ascii_upper(hotkey)
}

/// The place of the first hotkey in a label, or its length.
pub open spec fn key_at(label: Seq<char>, hotkey: char) -> nat
    decreases label.len(),
{
    if label.len() == 0 || is_key(label[0], hotkey) {
        0
    } else {
        1 + key_at(label.skip(1), hotkey)
    }
}

/// A line of one piece, where there is a text.
pub open spec fn some_piece(text: Seq<char>, tone: Tone) -> Seq<PieceModel> {
    if text.len() == 0 {
        Seq::empty()
    } else {
        seq![PieceModel { text, tone }]
    }
}

/// A label in bold, with the first hotkey in it picked out.
pub open spec fn chip(label: Seq<char>, hotkey: Option<char>) -> Seq<PieceModel> {
    let plain = Tone::strong(Paint::Fg);
    let marked = Tone::strong(Paint::Accent);
    match hotkey {
        Some(key) => {
            let at = key_at(label, key) as int;
            if at >= label.len() {
                seq![PieceModel { text: label, tone: plain }]
            } else {
                some_piece(label.take(at), plain) + seq![
                    PieceModel { text: seq![label[at]], tone: marked },
                ] + some_piece(label.skip(at + 1), plain)
            }
        },
        None => seq![PieceModel { text: label, tone: plain }],
    }
}

/// A label with its hotkey in it, or behind a hotkey that has a name.
pub open spec fn action_chip(label: Seq<char>, hotkey: Seq<char>) -> Seq<PieceModel> {
    if hotkey.len() == 1 {
        chip(label, Some(hotkey[0]))
    } else {
        seq![
            PieceModel { text: hotkey, tone: Tone::strong(Paint::Accent) },
            PieceModel { text: seq![' '] + label, tone: Tone::strong(Paint::Fg) },
        ]
    }
}

fn matches_key(c: char, hotkey: char) -> (b: bool)
    ensures
        b == is_key(c, hotkey),
{
    let lower: char = if 'A' <= hotkey && hotkey <= 'Z' {
        (hotkey as u8 + 32) as char
    } else {
        hotkey
    };
    let upper: char = if 'a' <= hotkey && hotkey <= 'z' {
        (hotkey as u8 - 32) as char
    } else {
        hotkey
    };
    c == lower || c == upper
}

proof fn lemma_key_at(label: Seq<char>, hotkey: char, at: nat)
    requires
        at <= label.len(),
        forall|i: int| 0 <= i < at ==> !is_key(#[trigger] label[i], hotkey),
        at < label.len() ==> is_key(label[at as int], hotkey),
    ensures
        key_at(label, hotkey) == at,
    decreases label.len(),
{
    if at > 0 {
        assert(!is_key(label[0], hotkey));
        let rest = label.skip(1);
        assert forall|i: int| 0 <= i < at - 1 implies !is_key(#[trigger] rest[i], hotkey) by {
            assert(rest[i] == label[i + 1]);
        }
        lemma_key_at(rest, hotkey, (at - 1) as nat);
    }
}

pub fn chip_line(label: &str, hotkey: Option<char>) -> (line: Vec<Piece>)
    ensures
        crate::lists::models(line@) == chip(label@, hotkey),
{
    let key: char = match hotkey {
        Some(key) => key,
        None => {
            return line_of(piece(label, tone_strong(Paint::Fg)));
        },
    };
    let chars: Vec<char> = crate::text::chars_of(label);
    let mut at: usize = 0;
    while at < chars.len() && !matches_key(chars[at], key)
        invariant
            at <= chars@.len(),
            forall|i: int| 0 <= i < at ==> !is_key(#[trigger] chars@[i], key),
        decreases chars@.len() - at,
    {
        at = at + 1;
    }
    proof {
        lemma_key_at(chars@, key, at as nat);
    }
    if at == chars.len() {
        return line_of(piece(label, tone_strong(Paint::Fg)));
    }
    let mut line: Vec<Piece> = Vec::new();
    if at > 0 {
        let front: Vec<char> = crate::text::slice_chars(&chars, 0, at);
        proof {
            assert(front@ =~= chars@.take(at as int));
        }
        line.push(piece_of(&front, tone_strong(Paint::Fg)));
    }
    let middle: Vec<char> = vec![chars[at]];
    line.push(piece_of(&middle, tone_strong(Paint::Accent)));
    if at + 1 < chars.len() {
        let back: Vec<char> = crate::text::slice_chars(&chars, at + 1, chars.len());
        proof {
            assert(back@ =~= chars@.skip(at + 1));
        }
        line.push(piece_of(&back, tone_strong(Paint::Fg)));
    }
    proof {
        assert(middle@ =~= seq![chars@[at as int]]);
        assert(crate::lists::models(line@) =~= chip(label@, hotkey));
    }
    line
}

pub fn action_chip_line(label: &str, hotkey: &str) -> (line: Vec<Piece>)
    ensures
        crate::lists::models(line@) == action_chip(label@, hotkey@),
{
    let keys: Vec<char> = crate::text::chars_of(hotkey);
    if keys.len() == 1 {
        return chip_line(label, Some(keys[0]));
    }
    let mut text: Vec<char> = vec![' '];
    crate::text::append_text(&mut text, label);
    proof {
        assert(text@ =~= seq![' '] + label@);
    }
    let line: Vec<Piece> = vec![
        piece(hotkey, tone_strong(Paint::Accent)),
        piece_of(&text, tone_strong(Paint::Fg)),
    ];
    proof {
        assert(crate::lists::models(line@) =~= action_chip(label@, hotkey@));
    }
    line
}

/// The place of the first ` • ` in a text, or its length.
pub open spec fn bullet_at(s: Seq<char>) -> nat
    decreases s.len(),
{
    if s.len() == 0 {
        0
    } else if s.len() >= 3 && s[0] == ' ' && s[1] == '•' && s[2] == ' ' {
        0
    } else {
        1 + bullet_at(s.skip(1))
    }
}

/// The place of the first blank in a text, or its length.
pub open spec fn blank_at(s: Seq<char>) -> nat
    decreases s.len(),
{
    if s.len() == 0 || s[0] == ' ' {
        0
    } else {
        1 + blank_at(s.skip(1))
    }
}

/// A hint such as `q quit`: the key is picked out, unless it ends in a colon.
pub open spec fn hint(chunk: Seq<char>) -> Seq<PieceModel> {
    let at = blank_at(chunk) as int;
    if at + 1 < chunk.len() && at > 0 && chunk[at - 1] != ':' {
        seq![
            PieceModel { text: chunk.take(at), tone: Tone::strong(Paint::Accent) },
            PieceModel { text: chunk.skip(at), tone: Tone::of(Paint::Muted) },
        ]
    } else {
        seq![PieceModel { text: chunk, tone: Tone::of(Paint::Muted) }]
    }
}

/// Hints with ` • ` between them.
pub open spec fn hints(s: Seq<char>) -> Seq<PieceModel>
    decreases s.len(),
{
    let at = bullet_at(s) as int;
    if at + 3 > s.len() {
        hint(s)
    } else {
        hint(s.take(at)) + seq![
            PieceModel { text: seq![' ', '•', ' '], tone: Tone::of(Paint::Muted) },
        ] + hints(s.skip(at + 3))
    }
}

proof fn lemma_bullet(s: Seq<char>)
    ensures
        bullet_at(s) <= s.len(),
        bullet_at(s) < s.len() ==> bullet_at(s) + 3 <= s.len(),
    decreases s.len(),
{
    if s.len() > 0 {
        lemma_bullet(s.skip(1));
    }
}

fn find_bullet(chars: &Vec<char>, from: usize) -> (at: usize)
    requires
        from <= chars@.len(),
    ensures
        from <= at <= chars@.len(),
        at - from == bullet_at(chars@.skip(from as int)),
        at < chars@.len() ==> at + 3 <= chars@.len(),
{
    let mut at: usize = from;
    let ghost s = chars@.skip(from as int);
    proof {
        lemma_bullet(s);
    }
    while at < chars.len()
        invariant
            from <= at <= chars@.len(),
            s == chars@.skip(from as int),
            bullet_at(s) == (at - from) + bullet_at(chars@.skip(at as int)),
            bullet_at(s) < s.len() ==> bullet_at(s) + 3 <= s.len(),
        decreases chars@.len() - at,
    {
        proof {
            assert(chars@.skip(at as int)[0] == chars@[at as int]);
            assert(chars@.skip(at as int).skip(1) =~= chars@.skip(at + 1));
        }
        if chars.len() - at >= 3 && chars[at] == ' ' && chars[at + 1] == '•' && chars[at + 2]
            == ' ' {
            return at;
        }
        at = at + 1;
    }
    at
}

fn find_blank(chars: &Vec<char>) -> (at: usize)
    ensures
        at <= chars@.len(),
        at == blank_at(chars@),
{
    let mut at: usize = 0;
    proof {
        assert(chars@.skip(0) =~= chars@);
    }
    while at < chars.len()
        invariant
            at <= chars@.len(),
            blank_at(chars@) == at + blank_at(chars@.skip(at as int)),
        decreases chars@.len() - at,
    {
        proof {
            assert(chars@.skip(at as int)[0] == chars@[at as int]);
            assert(chars@.skip(at as int).skip(1) =~= chars@.skip(at + 1));
        }
        if chars[at] == ' ' {
            return at;
        }
        at = at + 1;
    }
    at
}

fn push_hint(line: &mut Vec<Piece>, chunk: &Vec<char>)
    ensures
        crate::lists::models(final(line)@) == crate::lists::models(old(line)@) + hint(chunk@),
{
    let ghost before = crate::lists::models(line@);
    let at: usize = find_blank(chunk);
    if at < chunk.len() && chunk.len() - at > 1 && at > 0 && chunk[at - 1] != ':' {
        let key: Vec<char> = crate::text::slice_chars(chunk, 0, at);
        let rest: Vec<char> = crate::text::slice_chars(chunk, at, chunk.len());
        line.push(piece_of(&key, tone_strong(Paint::Accent)));
        line.push(piece_of(&rest, tone_of(Paint::Muted)));
        proof {
            assert(key@ =~= chunk@.take(at as int));
            assert(rest@ =~= chunk@.skip(at as int));
            assert(crate::lists::models(line@) =~= before + hint(chunk@));
        }
    } else {
        line.push(piece_of(chunk, tone_of(Paint::Muted)));
        proof {
            assert(crate::lists::models(line@) =~= before + hint(chunk@));
        }
    }
}

pub fn hotkey_hint_line(text: &str) -> (line: Vec<Piece>)
    ensures
        crate::lists::models(line@) == hints(text@),
{
    let chars: Vec<char> = crate::text::chars_of(text);
    let mut line: Vec<Piece> = Vec::new();
    let mut from: usize = 0;
    proof {
        assert(chars@.skip(0) =~= chars@);
        assert(crate::lists::models(line@) + hints(chars@) =~= hints(chars@));
    }
    loop
        invariant
            from <= chars@.len(),
            chars@ == text@,
            hints(chars@) == crate::lists::models(line@) + hints(chars@.skip(from as int)),
        decreases chars@.len() - from,
    {
        let ghost rest = chars@.skip(from as int);
        let ghost before = crate::lists::models(line@);
        let at: usize = find_bullet(&chars, from);
        let chunk: Vec<char> = crate::text::slice_chars(&chars, from, at);
        push_hint(&mut line, &chunk);
        if at == chars.len() {
            proof {
                assert(chunk@ =~= rest);
            }
            return line;
        }
        let bullet: Vec<char> = vec![' ', '•', ' '];
        let ghost middle = crate::lists::models(line@);
        line.push(piece_of(&bullet, tone_of(Paint::Muted)));
        proof {
            assert(chunk@ =~= rest.take(at - from));
            assert(bullet@ =~= seq![' ', '•', ' ']);
            assert(rest.skip(at - from + 3) =~= chars@.skip(at + 3));
            let tail = hints(chars@.skip(at + 3));
            assert(crate::lists::models(line@) =~= middle.push(
                a_piece(seq![' ', '•', ' '], Tone::of(Paint::Muted)),
            ));
            assert(before + (hint(chunk@) + seq![
                PieceModel { text: seq![' ', '•', ' '], tone: Tone::of(Paint::Muted) },
            ] + tail) =~= crate::lists::models(line@) + tail);
        }
        from = at + 3;
    }
}

/// A character at a place of the screen.
#[derive(Debug, Clone, Copy, PartialEq, Eq, Structural)]
pub struct Mark {
    pub x: u16,
    pub y: u16,
    pub glyph: char,
    pub tone: Tone,
}

/// How many characters a line has.
pub open spec fn line_width(line: Seq<PieceModel>) -> nat
    decreases line.len(),
{
    if line.len() == 0 {
        0
    } else {
        line_width(line.drop_last()) + line.last().text.len()
    }
}

/// The characters of a line with their tones.
pub open spec fn glyphs(line: Seq<PieceModel>) -> Seq<(char, Tone)>
    decreases line.len(),
{
    if line.len() == 0 {
        Seq::empty()
    } else {
        let last = line.last();
        glyphs(line.drop_last()) + Seq::new(last.text.len(), |i: int| (last.text[i], last.tone))
    }
}

/// What a chip covers: its text and a cap on each side.
pub open spec fn chip_glyphs(line: Seq<PieceModel>, bottom: bool) -> Seq<(char, Tone)> {
    let cap = Tone::of(Paint::Muted);
    let caps = if bottom {
        ('┘', '└')
    } else {
        ('┐', '┌')
    };
    seq![(caps.0, cap)] + glyphs(line) + seq![(caps.1, cap)]
}

/// What chips cover together.
pub open spec fn chips_width(chips: Seq<Seq<PieceModel>>) -> nat
    decreases chips.len(),
{
    if chips.len() == 0 {
        0
    } else {
        chips_width(chips.drop_last()) + line_width(chips.last()) + 2
    }
}

/// The glyphs of the first chips, as many as fit into a width.
pub open spec fn fitting(chips: Seq<Seq<PieceModel>>, room: int, bottom: bool) -> Seq<(char, Tone)>
    decreases chips.len(),
{
    if chips.len() == 0 || line_width(chips[0]) + 2 > room {
        Seq::empty()
    } else {
        chip_glyphs(chips[0], bottom) + fitting(
            chips.skip(1),
            room - (line_width(chips[0]) + 2),
            bottom,
        )
    }
}

pub open spec fn mark(glyph: (char, Tone), x: int, y: u16) -> Mark {
    Mark { x: x as u16, y, glyph: glyph.0, tone: glyph.1 }
}

/// Glyphs side by side from a place on.
pub open spec fn marks(row: Seq<(char, Tone)>, x: int, y: u16) -> Seq<Mark> {
    Seq::new(row.len(), |i: int| mark(row[i], x + i, y))
}

/// Chips in a horizontal border of a panel, from a place on, up to its corner.
pub open spec fn chips_from(
    area: Area,
    y: u16,
    start_x: u16,
    chips: Seq<Seq<PieceModel>>,
) -> Seq<Mark> {
    if y < area.y || y >= area.bottom() {
        Seq::empty()
    } else {
        marks(
            fitting(chips, area.corner() - start_x, y + 1 == area.bottom()),
            start_x as int,
            y,
        )
    }
}

/// Chips in a horizontal border of a panel that end at a place, where there is room for all of
/// them.
pub open spec fn chips_up_to(
    area: Area,
    y: u16,
    end_x: u16,
    chips: Seq<Seq<PieceModel>>,
) -> Seq<Mark> {
    if chips.len() == 0 || area.width == 0 || end_x <= area.x + 1 + chips_width(chips) {
        Seq::empty()
    } else {
        chips_from(area, y, (end_x - chips_width(chips)) as u16, chips)
    }
}

proof fn lemma_glyphs(line: Seq<PieceModel>)
    ensures
        glyphs(line).len() == line_width(line),
    decreases line.len(),
{
    if line.len() > 0 {
        lemma_glyphs(line.drop_last());
    }
}

/// The characters of a line.
fn glyphs_of(line: &Vec<Piece>) -> (out: Vec<(char, Tone)>)
    ensures
        out@ == glyphs(crate::lists::models(line@)),
{
    let ghost all = crate::lists::models(line@);
    let mut out: Vec<(char, Tone)> = Vec::new();
    let mut i: usize = 0;
    proof {
        assert(all.take(0) =~= Seq::empty());
    }
    while i < line.len()
        invariant
            i <= line@.len(),
            all == crate::lists::models(line@),
            out@ == glyphs(all.take(i as int)),
        decreases line@.len() - i,
    {
        let chars: Vec<char> = crate::text::chars_of(line[i].text.as_str());
        let tone: Tone = line[i].tone;
        let ghost before = out@;
        let mut j: usize = 0;
        proof {
            assert(all.take(i + 1).drop_last() =~= all.take(i as int));
            assert(all.take(i + 1).last() == line@[i as int]@);
            assert(before + Seq::new(0, |k: int| (chars@[k], tone)) =~= before);
        }
        while j < chars.len()
            invariant
                j <= chars@.len(),
                out@ == before + Seq::new(j as nat, |k: int| (chars@[k], tone)),
            decreases chars@.len() - j,
        {
            out.push((chars[j], tone));
            proof {
                assert(out@ =~= before + Seq::new((j + 1) as nat, |k: int| (chars@[k], tone)));
            }
            j = j + 1;
        }
        proof {
            let last = line@[i as int]@;
            assert(Seq::new(chars@.len(), |k: int| (chars@[k], tone)) =~= Seq::new(
                last.text.len(),
                |k: int| (last.text[k], last.tone),
            ));
        }
        i = i + 1;
    }
    proof {
        assert(all.take(i as int) =~= all);
    }
    out
}

proof fn lemma_no_marks(row: Seq<(char, Tone)>, x: int, y: u16)
    ensures
        marks(row.take(0), x, y) == Seq::<Mark>::empty(),
{
    assert(marks(row.take(0), x, y) =~= Seq::<Mark>::empty());
}

proof fn lemma_next_mark(row: Seq<(char, Tone)>, n: int, x: int, y: u16)
    requires
        0 <= n < row.len(),
    ensures
        marks(row.take(n + 1), x, y) == marks(row.take(n), x, y).push(mark(row[n], x + n, y)),
{
    assert(marks(row.take(n + 1), x, y) =~= marks(row.take(n), x, y).push(
        mark(row[n], x + n, y),
    ));
}

/// Puts as many chips as fit behind a place.
#[verifier::rlimit(40)]
fn push_chips(
    out: &mut Vec<Mark>,
    chips: &Vec<Vec<Piece>>,
    start_x: u16,
    y: u16,
    corner: u16,
    bottom: bool,
)
    ensures
        final(out)@ == old(out)@ + marks(
            fitting(line_models(chips@), corner - start_x, bottom),
            start_x as int,
            y,
        ),
{
    let ghost all = line_models(chips@);
    let ghost goal = fitting(all, corner - start_x, bottom);
    let cap: Tone = tone_of(Paint::Muted);
    let mut x: u16 = start_x;
    let mut i: usize = 0;
    proof {
        assert(all.skip(0) =~= all);
        assert(goal =~= goal.take(0) + fitting(all, corner - start_x, bottom));
        lemma_no_marks(goal, start_x as int, y);
        assert(out@ =~= out@ + Seq::<Mark>::empty());
    }
    while i < chips.len()
        invariant
            i <= chips@.len(),
            all == line_models(chips@),
            goal == fitting(all, corner - start_x, bottom),
            cap == Tone::of(Paint::Muted),
            start_x <= x,
            x - start_x <= goal.len(),
            goal == goal.take(x - start_x) + fitting(all.skip(i as int), corner - x, bottom),
            out@ == old(out)@ + marks(goal.take(x - start_x), start_x as int, y),
        decreases chips@.len() - i,
    {
        let line: Vec<(char, Tone)> = glyphs_of(&chips[i]);
        let ghost rest = all.skip(i as int);
        let ghost done = x - start_x;
        proof {
            lemma_glyphs(all[i as int]);
            assert(rest[0] == all[i as int]);
            assert(rest.skip(1) =~= all.skip(i + 1));
        }
        if x >= corner || line.len() >= (corner - x) as usize || line.len() + 2 > (corner
            - x) as usize {
            proof {
                assert(goal.take(done) + Seq::<(char, Tone)>::empty() =~= goal.take(done));
            }
            return;
        }
        let (left, right): (char, char) = if bottom {
            ('┘', '└')
        } else {
            ('┐', '┌')
        };
        let ghost covered = chip_glyphs(all[i as int], bottom);
        let ghost tail = fitting(
            rest.skip(1),
            corner - x - (line_width(all[i as int]) + 2),
            bottom,
        );
        proof {
            assert(goal == goal.take(done) + (covered + tail));
            assert(goal.len() == done + covered.len() + tail.len());
            assert forall|k: int| 0 <= k < covered.len() implies #[trigger] goal[done + k]
                == covered[k] by {
                assert((goal.take(done) + (covered + tail))[done + k] == covered[k]);
            }
        }
        out.push(Mark { x, y, glyph: left, tone: cap });
        let mut j: usize = 0;
        proof {
            assert(goal[done + 0] == covered[0]);
            lemma_next_mark(goal, done, start_x as int, y);
            assert(out@ =~= old(out)@ + marks(goal.take(done + 1), start_x as int, y));
        }
        while j < line.len()
            invariant
                j <= line@.len(),
                line@.len() + 2 <= corner - x,
                start_x <= x,
                done == x - start_x,
                line@ == glyphs(all[i as int]),
                covered == chip_glyphs(all[i as int], bottom),
                goal.len() >= done + covered.len(),
                forall|k: int|
                    0 <= k < covered.len() ==> #[trigger] goal[done + k] == covered[k],
                out@ == old(out)@ + marks(goal.take(done + 1 + j), start_x as int, y),
            decreases line@.len() - j,
        {
            out.push(Mark { x: x + 1 + j as u16, y, glyph: line[j].0, tone: line[j].1 });
            proof {
                assert(goal[done + (j + 1)] == covered[j + 1]);
                assert(covered[j + 1] == line@[j as int]);
                lemma_next_mark(goal, done + 1 + j, start_x as int, y);
                assert(out@ =~= old(out)@ + marks(goal.take(done + 2 + j), start_x as int, y));
            }
            j = j + 1;
        }
        out.push(Mark { x: x + 1 + j as u16, y, glyph: right, tone: cap });
        proof {
            let n = line@.len() as int;
            assert(goal[done + (n + 1)] == covered[n + 1]);
            lemma_next_mark(goal, done + 1 + n, start_x as int, y);
            assert(out@ =~= old(out)@ + marks(goal.take(done + 2 + n), start_x as int, y));
            assert(goal =~= goal.take(done + 2 + n) + tail);
        }
        x = x + 2 + j as u16;
        i = i + 1;
    }
    proof {
        assert(goal =~= goal.take(x - start_x));
    }
}

/// Sets chips into a border, from a place on.
pub fn draw_chips_on_border(area: Area, y: u16, start_x: u16, chips: &Vec<Vec<Piece>>) -> (out: Vec<
    Mark,
>)
    requires
        area.fits(),
    ensures
        out@ == chips_from(area, y, start_x, line_models(chips@)),
{
    let mut out: Vec<Mark> = Vec::new();
    let bottom: u16 = area.y + area.height;
    if y < area.y || y >= bottom {
        return out;
    }
    let corner: u16 = area.x + area.width.saturating_sub(1);
    push_chips(&mut out, chips, start_x, y, corner, y as u32 + 1 == bottom as u32);
    proof {
        assert(out@ =~= chips_from(area, y, start_x, line_models(chips@)));
    }
    out
}

/// Adds up without passing the largest number.
fn width_of(chips: &Vec<Vec<Piece>>) -> (width: u64)
    ensures
        width == if chips_width(line_models(chips@)) <= u64::MAX {
            chips_width(line_models(chips@))
        } else {
            u64::MAX as nat
        },
{
    let ghost all = line_models(chips@);
    let mut width: u64 = 0;
    let mut i: usize = 0;
    proof {
        assert(all.take(0) =~= Seq::empty());
    }
    while i < chips.len()
        invariant
            i <= chips@.len(),
            all == line_models(chips@),
            width == if chips_width(all.take(i as int)) <= u64::MAX {
                chips_width(all.take(i as int))
            } else {
                u64::MAX as nat
            },
        decreases chips@.len() - i,
    {
        proof {
            assert(all.take(i + 1).drop_last() =~= all.take(i as int));
            assert(all.take(i + 1).last() == all[i as int]);
            lemma_glyphs(all[i as int]);
        }
        let line: Vec<(char, Tone)> = glyphs_of(&chips[i]);
        width = width.saturating_add(line.len() as u64).saturating_add(2);
        i = i + 1;
    }
    proof {
        assert(all.take(i as int) =~= all);
    }
    width
}

/// Sets chips into a border, up to a place.
pub fn draw_chips_on_border_right(area: Area, y: u16, end_x: u16, chips: &Vec<Vec<Piece>>) -> (out:
    Vec<Mark>)
    requires
        area.fits(),
    ensures
        out@ == chips_up_to(area, y, end_x, line_models(chips@)),
{
    if chips.len() == 0 || area.width == 0 {
        return Vec::new();
    }
    let width: u64 = width_of(chips);
    if end_x as u64 <= width.saturating_add(area.x as u64 + 1) {
        return Vec::new();
    }
    draw_chips_on_border(area, y, end_x - width as u16, chips)
}

/// A power with one digit behind the point.
pub(crate) fn power_text(power: Binary64) -> (text: Vec<char>)
    ensures
        text@ == crate::decimal::fixed_text(power, 1),
{
    crate::decimal::fixed_chars(power, 1)
}

proof fn lemma_fitting(chips: Seq<Seq<PieceModel>>, room: int, bottom: bool)
    ensures
        fitting(chips, room, bottom).len() <= if room > 0 {
            room
        } else {
            0
        },
    decreases chips.len(),
{
    if chips.len() > 0 && line_width(chips[0]) + 2 <= room {
        lemma_glyphs(chips[0]);
        lemma_fitting(chips.skip(1), room - (line_width(chips[0]) + 2), bottom);
    }
}

/// Chips stay between where they start and the corner of their panel, in its rows.
pub proof fn law_chips_stay_in_the_border(
    area: Area,
    y: u16,
    start_x: u16,
    chips: Seq<Seq<PieceModel>>,
    i: int,
)
    requires
        area.fits(),
        0 <= i < chips_from(area, y, start_x, chips).len(),
    ensures
        start_x <= chips_from(area, y, start_x, chips)[i].x < area.corner(),
        area.y <= chips_from(area, y, start_x, chips)[i].y < area.bottom(),
{
    lemma_fitting(chips, area.corner() - start_x, y + 1 == area.bottom());
}

} // verus!
