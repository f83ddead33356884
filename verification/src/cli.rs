//! What the command line asks for, and the rows that are printed once.
use vstd::prelude::*;

use crate::top_parse::{ProcRow, ProcRowModel};

verus! {

pub const DUMP_LIMIT: usize = 10;

/// What the program is asked to do.
#[derive(Debug, Clone, Copy, PartialEq, Eq, Structural)]
pub enum Mode {
    Interactive,
    DumpOnce,
    Help,
    Version,
    Update,
}

/// Whether an argument is there.
pub open spec fn given(args: Seq<Seq<char>>, word: Seq<char>) -> bool {
    args.contains(word)
}

/// What arguments ask for. Printing once goes before all else.
pub open spec fn mode_of(args: Seq<Seq<char>>) -> Mode {
    if given(args, "--dump-once"@) {
        Mode::DumpOnce
    } else if given(args, "--help"@) {
        Mode::Help
    } else if given(args, "--version"@) {
        Mode::Version
    } else if given(args, "update"@) {
        Mode::Update
    } else {
        Mode::Interactive
    }
}

fn has_argument(args: &Vec<String>, word: &str) -> (found: bool)
    ensures
        found == given(crate::lists::models(args@), word@),
{
    let wanted: String = word.to_string();
    let ghost all = crate::lists::models(args@);
    let mut i: usize = 0;
    while i < args.len()
        invariant
            i <= args@.len(),
            all == crate::lists::models(args@),
            wanted@ == word@,
            forall|j: int| 0 <= j < i ==> #[trigger] all[j] != word@,
        decreases args@.len() - i,
    {
        if args[i].eq(&wanted) {
            proof {
                assert(all[i as int] == word@);
            }
            return true;
        }
        i = i + 1;
    }
    false
}

pub fn parse_mode(args: &Vec<String>) -> (mode: Mode)
    ensures
        mode == mode_of(crate::lists::models(args@)),
{
    if has_argument(args, "--dump-once") {
        Mode::DumpOnce
    } else if has_argument(args, "--help") {
        Mode::Help
    } else if has_argument(args, "--version") {
        Mode::Version
    } else if has_argument(args, "update") {
        Mode::Update
    } else {
        Mode::Interactive
    }
}

pub open spec fn draws_more() -> spec_fn(ProcRowModel, ProcRowModel) -> bool {
    |a: ProcRowModel, b: ProcRowModel| b.power_num.lt(a.power_num)
}

/// A text with blanks before it up to a width.
pub open spec fn right_aligned(text: Seq<char>, width: nat) -> Seq<char> {
    if text.len() >= width {
        text
    } else {
        Seq::new((width - text.len()) as nat, |i: int| ' ') + text
    }
}

/// A row in columns.
pub open spec fn dump_line(row: ProcRowModel) -> Seq<char> {
    right_aligned(crate::text::integer_text(row.pid as int), 6) + "  "@ + crate::ui::padded(
        row.process,
        32,
    ) + "  "@ + right_aligned(row.power, 8)
}

/// The rows that draw most, in columns.
pub open spec fn dump(rows: Seq<ProcRowModel>) -> Seq<Seq<char>> {
    let sorted = crate::sort::sorted(rows, draws_more());
    Seq::new(
        if sorted.len() <= DUMP_LIMIT {
            sorted.len()
        } else {
            DUMP_LIMIT as nat
        },
        |i: int| dump_line(sorted[i]),
    )
}

fn align_right(text: &Vec<char>, width: usize) -> (out: Vec<char>)
    ensures
        out@ == right_aligned(text@, width as nat),
{
    let mut out: Vec<char> = Vec::new();
    if text.len() < width {
        let missing: usize = width - text.len();
        while out.len() < missing
            invariant
                out@.len() <= missing,
                out@ == Seq::new(out@.len(), |i: int| ' '),
            decreases missing - out@.len(),
        {
            out.push(' ');
            proof {
                assert(out@ =~= Seq::new(out@.len(), |i: int| ' '));
            }
        }
    }
    let mut i: usize = 0;
    let ghost start = out@;
    while i < text.len()
        invariant
            i <= text@.len(),
            out@ == start + text@.take(i as int),
        decreases text@.len() - i,
    {
        out.push(text[i]);
        proof {
            assert(out@ =~= start + text@.take(i + 1));
        }
        i = i + 1;
    }
    proof {
        assert(text@.take(i as int) =~= text@);
        assert(out@ =~= right_aligned(text@, width as nat));
    }
    out
}

fn line_of_row(row: &ProcRow) -> (line: String)
    ensures
        line@ == dump_line(row@),
{
    let mut text: Vec<char> = align_right(&crate::text::i32_chars(row.pid), 6);
    crate::text::append_text(&mut text, "  ");
    let mut name: Vec<char> = crate::ui::pad(row.process.as_str(), 32);
    text.append(&mut name);
    crate::text::append_text(&mut text, "  ");
    let mut power: Vec<char> = align_right(&crate::text::chars_of(row.power.as_str()), 8);
    text.append(&mut power);
    crate::text::string_of(&text)
}

/// The lines that are printed once: the rows that draw most, the one that draws most first.
pub fn dump_lines(rows: Vec<ProcRow>) -> (lines: Vec<String>)
    ensures
        crate::lists::models(lines@) == dump(crate::lists::models(rows@)),
{
    let mut rows: Vec<ProcRow> = rows;
    let more = |a: &ProcRow, b: &ProcRow| -> (r: bool)
        ensures
            r == b@.power_num.lt(a@.power_num),
    {
        b.power_num.is_below(a.power_num)
    };
    let ghost all = crate::lists::models(rows@);
    crate::sort::sort_by(&mut rows, more, Ghost(draws_more()));
    let ghost sorted = crate::lists::models(rows@);
    let mut lines: Vec<String> = Vec::new();
    let mut i: usize = 0;
    while i < rows.len() && i < DUMP_LIMIT
        invariant
            i <= rows@.len(),
            i <= DUMP_LIMIT,
            sorted == crate::lists::models(rows@),
            lines@.len() == i,
            forall|j: int| 0 <= j < i ==> (#[trigger] lines@[j])@ == dump_line(sorted[j]),
        decreases rows@.len() - i,
    {
        lines.push(line_of_row(&rows[i]));
        i = i + 1;
    }
    proof {
        assert(crate::lists::models(lines@) =~= dump(all));
    }
    lines
}

} // verus!
