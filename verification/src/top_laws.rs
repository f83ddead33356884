//! What holds of reading the output of `top` as a whole.
use vstd::prelude::*;

use crate::binary64::Binary64;
use crate::top_parse::{ProcRowModel, SnapshotModel, TopStreamModel};

verus! {

/// Whether a line of a table is that of a process: it starts with a digit, white space aside.
pub open spec fn starts_with_digit(line: Seq<char>) -> bool {
    let trimmed = crate::text::trimmed(line);
    trimmed.len() > 0 && '0' <= trimmed[0] <= '9'
}

/// Whether a line heads a table: it starts with `PID`, white space aside.
pub open spec fn heads_table(line: Seq<char>) -> bool {
    let trimmed = crate::text::trimmed(line);
    trimmed.len() >= 3 && trimmed[0] == 'P' && trimmed[1] == 'I' && trimmed[2] == 'D'
}

proof fn lemma_heads_table(line: Seq<char>)
    ensures
        heads_table(line) <==> crate::top_parse::is_header(crate::text::trimmed(line)),
        starts_with_digit(line) ==> !heads_table(line),
{
    reveal_strlit("PID");
    let trimmed = crate::text::trimmed(line);
    let header = "PID"@;
    assert(header.len() == 3 && header[0] == 'P' && header[1] == 'I' && header[2] == 'D');
    if heads_table(line) {
        assert(trimmed.take(3) =~= header);
    }
    if crate::top_parse::is_header(trimmed) {
        assert(trimmed.take(3)[0] == trimmed[0] && trimmed.take(3)[1] == trimmed[1]
            && trimmed.take(3)[2] == trimmed[2]);
    }
}

/// In a table, the line of a process that is not excluded puts its row behind the others, however
/// many they are. That of an excluded one changes nothing.
pub proof fn law_tables_take_in_every_process(
    parser: TopStreamModel,
    line: Seq<char>,
    row: ProcRowModel,
)
    requires
        parser.in_table,
        starts_with_digit(line),
        crate::top_parse::parsed_row(crate::text::trimmed(line)) == Some(row),
    ensures
        parser.outcome(line) == Ok::<Option<SnapshotModel>, Seq<char>>(None),
        parser.after(line).in_table,
        parser.after(line).skipped_warmup == parser.skipped_warmup,
        parser.after(line).excluded_pids == parser.excluded_pids,
        !parser.excluded_pids.contains(row.pid) ==> parser.after(line).rows == parser.rows.push(
            row,
        ),
        parser.excluded_pids.contains(row.pid) ==> parser.after(line).rows == parser.rows,
{
    lemma_heads_table(line);
}

/// In a table, a line that starts with a digit but is no row of a process is an error that quotes it,
/// and changes nothing.
pub proof fn law_broken_rows_are_reported(parser: TopStreamModel, line: Seq<char>)
    requires
        parser.in_table,
        starts_with_digit(line),
        crate::top_parse::parsed_row(crate::text::trimmed(line)) is None,
    ensures
        parser.outcome(line) == Err::<Option<SnapshotModel>, Seq<char>>(
            "unable to parse top row: "@ + crate::text::trimmed(line),
        ),
        parser.after(line) == parser,
{
    lemma_heads_table(line);
}

/// In a table, any other line ends it, and a header starts the next one at once. The rows of the
/// table are given with what they draw together, but those of the first table are not.
pub proof fn law_other_lines_end_the_table(parser: TopStreamModel, line: Seq<char>)
    requires
        parser.in_table,
        !starts_with_digit(line),
    ensures
        parser.after(line) == (TopStreamModel {
            excluded_pids: parser.excluded_pids,
            in_table: heads_table(line),
            skipped_warmup: true,
            rows: Seq::empty(),
        }),
        parser.outcome(line) == Ok::<Option<SnapshotModel>, Seq<char>>(
            if parser.skipped_warmup {
                Some(crate::top_parse::snapshot_of(parser.rows))
            } else {
                None
            },
        ),
{
    lemma_heads_table(line);
}

/// Outside a table only a header counts: it starts a table.
pub proof fn law_only_headers_start_tables(parser: TopStreamModel, line: Seq<char>)
    requires
        !parser.in_table,
    ensures
        parser.outcome(line) == Ok::<Option<SnapshotModel>, Seq<char>>(None),
        !heads_table(line) ==> parser.after(line) == parser,
        heads_table(line) ==> parser.after(line) == (TopStreamModel { in_table: true, ..parser }),
{
    lemma_heads_table(line);
}

/// At the end of the output the table that is open is given like any other.
pub proof fn law_the_end_gives_the_open_table(parser: TopStreamModel)
    ensures
        parser.frame() == if parser.in_table && parser.skipped_warmup {
            Some(crate::top_parse::snapshot_of(parser.rows))
        } else {
            None
        },
        !parser.finished().in_table,
        parser.in_table ==> parser.finished().rows == Seq::<ProcRowModel>::empty(),
{
}

/// A snapshot has the rows that it is made of, and its total is that of the rows before the last with
/// what the last one draws.
pub proof fn law_totals_add_up(rows: Seq<ProcRowModel>, row: ProcRowModel)
    ensures
        crate::top_parse::snapshot_of(rows).rows == rows,
        crate::top_parse::snapshot_of(rows.push(row)).total_power
            == crate::top_parse::snapshot_of(rows).total_power.sum(row.power_num),
        crate::top_parse::snapshot_of(Seq::<ProcRowModel>::empty()).total_power.value() == 0,
{
    let all = crate::top_parse::row_powers(rows.push(row));
    assert(all.drop_last() =~= crate::top_parse::row_powers(rows));
    assert(all.last() == row.power_num);
    let none = crate::top_parse::row_powers(Seq::<ProcRowModel>::empty());
    assert(none =~= Seq::empty());
    assert(crate::binary64::total(none).magnitude() == 0);
    assert(crate::binary64::units(0) == 0);
}

/// The reader after some lines.
pub open spec fn after_all(parser: TopStreamModel, lines: Seq<Seq<char>>) -> TopStreamModel
    decreases lines.len(),
{
    if lines.len() == 0 {
        parser
    } else {
        after_all(parser, lines.drop_last()).after(lines.last())
    }
}

/// The rows of processes that are not excluded, in the order of their lines.
pub open spec fn rows_in(lines: Seq<Seq<char>>, excluded: Seq<i32>) -> Seq<ProcRowModel>
    decreases lines.len(),
{
    if lines.len() == 0 {
        Seq::empty()
    } else {
        let before = rows_in(lines.drop_last(), excluded);
        match crate::top_parse::parsed_row(crate::text::trimmed(lines.last())) {
            Some(row) => if excluded.contains(row.pid) {
                before
            } else {
                before.push(row)
            },
            None => before,
        }
    }
}

/// Behind the first table, the line that ends a table gives all of its processes but the excluded
/// ones, in their order.
pub proof fn law_snapshots_hold_the_whole_table(
    parser: TopStreamModel,
    lines: Seq<Seq<char>>,
    end: Seq<char>,
)
    requires
        parser.in_table,
        parser.skipped_warmup,
        parser.rows.len() == 0,
        forall|i: int| 0 <= i < lines.len() ==> starts_with_digit(#[trigger] lines[i]),
        !starts_with_digit(end),
    ensures
        after_all(parser, lines).outcome(end) == Ok::<Option<SnapshotModel>, Seq<char>>(
            Some(
                SnapshotModel {
                    rows: rows_in(lines, parser.excluded_pids),
                    total_power: crate::binary64::total(
                        crate::top_parse::row_powers(rows_in(lines, parser.excluded_pids)),
                    ),
                },
            ),
        ),
{
    lemma_rows_gathered(parser, lines);
    law_other_lines_end_the_table(after_all(parser, lines), end);
}

proof fn lemma_rows_gathered(parser: TopStreamModel, lines: Seq<Seq<char>>)
    requires
        parser.in_table,
        parser.rows.len() == 0,
        forall|i: int| 0 <= i < lines.len() ==> starts_with_digit(#[trigger] lines[i]),
    ensures
        after_all(parser, lines).rows == rows_in(lines, parser.excluded_pids),
        after_all(parser, lines).in_table,
        after_all(parser, lines).skipped_warmup == parser.skipped_warmup,
        after_all(parser, lines).excluded_pids == parser.excluded_pids,
    decreases lines.len(),
{
    if lines.len() == 0 {
        assert(parser.rows =~= Seq::empty());
    } else {
        let front = lines.drop_last();
        assert forall|i: int| 0 <= i < front.len() implies starts_with_digit(
            #[trigger] front[i],
        ) by {
            assert(front[i] == lines[i]);
        }
        lemma_rows_gathered(parser, front);
        let before = after_all(parser, front);
        let line = lines[lines.len() - 1];
        assert(starts_with_digit(line));
        match crate::top_parse::parsed_row(crate::text::trimmed(line)) {
            Some(row) => law_tables_take_in_every_process(before, line, row),
            None => law_broken_rows_are_reported(before, line),
        }
    }
}

/// Of a whole output the last table counts, and of that every process that is not excluded.
pub proof fn law_the_last_table_is_read_whole(
    before: Seq<Seq<char>>,
    header: Seq<char>,
    lines: Seq<Seq<char>>,
    excluded: Seq<i32>,
)
    requires
        heads_table(header),
        forall|i: int| 0 <= i < lines.len() ==> !heads_table(#[trigger] lines[i]),
    ensures
        crate::top_parse::table_after(before.push(header) + lines, excluded).rows == rows_in(
            lines.filter(|line: Seq<char>| starts_with_digit(line)),
            excluded,
        ),
        crate::top_parse::table_after(before.push(header) + lines, excluded).in_table,
    decreases lines.len(),
{
    let digits = |line: Seq<char>| starts_with_digit(line);
    let all = before.push(header) + lines;
    reveal(Seq::filter);
    if lines.len() == 0 {
        assert(all =~= before.push(header));
        assert(all.drop_last() =~= before);
        lemma_heads_table(header);
        assert(lines.filter(digits) =~= Seq::empty());
    } else {
        let front = lines.drop_last();
        let line = lines[lines.len() - 1];
        assert forall|i: int| 0 <= i < front.len() implies !heads_table(#[trigger] front[i]) by {
            assert(front[i] == lines[i]);
        }
        law_the_last_table_is_read_whole(before, header, front, excluded);
        assert(all.drop_last() =~= before.push(header) + front);
        assert(all.last() == line);
        assert(!heads_table(line));
        lemma_heads_table(line);
        if starts_with_digit(line) {
            let kept = lines.filter(digits);
            assert(kept == front.filter(digits).push(line));
            assert(kept.drop_last() =~= front.filter(digits));
        }
    }
}

/// Powers that a machine may draw, from nothing to ten thousand, are taken as they are, and any other
/// counts as none.
pub proof fn law_only_reasonable_powers_count(value: Binary64)
    ensures
        value.finite() && 0 <= value.value() <= (Binary64 { bits: 0x40c3_8800_0000_0000 }).value()
            ==> crate::top_parse::sanitized(value) == value,
        !(value.finite() && 0 <= value.value() <= (Binary64 {
            bits: 0x40c3_8800_0000_0000,
        }).value()) ==> crate::top_parse::sanitized(value) == (Binary64 { bits: 0 }),
{
    let zero = Binary64 { bits: 0 };
    let most = Binary64 { bits: 0x40c3_8800_0000_0000 };
    assert(zero.magnitude() == 0 && most.magnitude() == 0x40c3_8800_0000_0000);
    assert(crate::binary64::units(0) == 0);
    if value.finite() {
        crate::binary64::law_order_is_by_value(zero, value);
        crate::binary64::law_order_is_by_value(value, most);
    }
}

} // verus!
