//! What holds of the process table as a whole.
use vstd::prelude::*;

use crate::app_state::{AppModel, ProcessSort, ProcessTableRowModel};
use crate::top_parse::ProcRowModel;

verus! {

/// Whether two numbers have one place in the order of numbers.
pub open spec fn tied(a: crate::binary64::Binary64, b: crate::binary64::Binary64) -> bool {
    !a.lt(b) && !b.lt(a)
}

/// The table is sorted by current power, by the average or by the peak, the largest on top. Ties go
/// by current power, average and peak, then by name and by number.
pub proof fn law_table_is_sorted_by_what_it_says(app: AppModel, i: int, j: int)
    requires
        crate::app_laws::figures_are_numbers(
            crate::app_state::listed(
                app.snapshot.rows,
                app.history_store,
                app.tick,
                app.filter_text(),
            ),
        ),
        0 <= i < j < app.wanted_rows().len(),
    ensures
        ({
            let a = app.wanted_rows()[i];
            let b = app.wanted_rows()[j];
            let even = match app.process_sort {
                ProcessSort::Current => tied(a.current, b.current),
                ProcessSort::Avg2m => tied(a.avg, b.avg),
                ProcessSort::Peak => tied(a.peak, b.peak),
            };
            &&& app.process_sort == ProcessSort::Current ==> !a.current.lt(b.current)
            &&& app.process_sort == ProcessSort::Avg2m ==> !a.avg.lt(b.avg)
            &&& app.process_sort == ProcessSort::Peak ==> !a.peak.lt(b.peak)
            &&& even ==> !a.current.lt(b.current)
            &&& even && tied(a.current, b.current) ==> !a.avg.lt(b.avg)
            &&& even && tied(a.current, b.current) && tied(a.avg, b.avg) ==> !a.peak.lt(b.peak)
            &&& even && tied(a.current, b.current) && tied(a.avg, b.avg) && tied(a.peak, b.peak)
                ==> {
                &&& !crate::text::text_before(b.key.process, a.key.process)
                &&& a.key.process == b.key.process ==> a.key.pid <= b.key.pid
            }
        }),
{
    let rows = app.wanted_rows();
    crate::app_laws::law_table_shows_what_passes(app);
    let lt = crate::app_state::rows_above(app.process_sort);
    assert(!lt(rows[j], rows[i]));
    assert(!crate::app_state::row_above(app.process_sort, rows[j], rows[i]));
    crate::text::law_text_order_is_total(
        rows[i].key.process,
        rows[j].key.process,
        rows[i].key.process,
    );
}

/// Whether a text stands somewhere within another.
pub open spec fn stands_in(part: Seq<char>, text: Seq<char>) -> bool {
    exists|i: int|
        0 <= i && i + part.len() <= text.len() && #[trigger] text.subrange(
            i,
            i + part.len() as int,
        ) == part
}

/// Whether the table shows a process: where nothing but white space is typed as a filter, or where
/// what is typed stands somewhere in its name, in small letters, or in its number.
pub open spec fn wanted(app: AppModel, row: ProcRowModel) -> bool {
    let typed = crate::text::trimmed(
        match app.process_filter_input {
            Some(input) => input,
            None => app.process_filter_query,
        },
    );
    typed.len() == 0 || crate::text::lowercase(typed).len() == 0 || stands_in(
        crate::text::lowercase(typed),
        row.process_lc,
    ) || stands_in(crate::text::lowercase(typed), crate::text::integer_text(row.pid as int))
}

/// The table shows a process exactly where the filter is blank or stands anywhere in its name or its
/// number, with what it draws now.
pub proof fn law_filter_finds_parts_of_names_and_numbers(app: AppModel)
    ensures
        forall|row: ProcRowModel| #[trigger]
            app.snapshot.rows.contains(row) && wanted(app, row) ==> exists|shown:
                ProcessTableRowModel| #[trigger]
                app.wanted_rows().contains(shown) && shown.key.pid == row.pid
                    && shown.key.process == row.process && shown.current == row.power_num,
        forall|shown: ProcessTableRowModel| #[trigger]
            app.wanted_rows().contains(shown) ==> exists|row: ProcRowModel| #[trigger]
                app.snapshot.rows.contains(row) && wanted(app, row) && shown.key.pid == row.pid
                    && shown.key.process == row.process && shown.current == row.power_num,
{
    let rows = crate::app_state::listed(
        app.snapshot.rows,
        app.history_store,
        app.tick,
        app.filter_text(),
    );
    crate::sort::law_sorting_keeps_items(
        rows,
        crate::app_state::rows_above(app.process_sort),
    );
    crate::app_laws::lemma_listed(
        app.snapshot.rows,
        app.history_store,
        app.tick,
        app.filter_text(),
    );
    assert forall|row: ProcRowModel|
        wanted(app, row) <==> crate::app_state::passes(row, app.filter_text()) by {
        lemma_wanted(app, row);
    }
    assert forall|row: ProcRowModel| #[trigger]
        app.snapshot.rows.contains(row) && wanted(app, row) implies exists|shown:
        ProcessTableRowModel| #[trigger]
        app.wanted_rows().contains(shown) && shown.key.pid == row.pid && shown.key.process
            == row.process && shown.current == row.power_num by {
        let shown = crate::app_state::table_row(row, app.history_store, app.tick);
        assert(app.wanted_rows().contains(shown));
    }
}

proof fn lemma_stands_in(part: Seq<char>, text: Seq<char>)
    ensures
        stands_in(part, text) <==> crate::text::has_part(text, part),
{
    if stands_in(part, text) {
        let i = choose|i: int|
            0 <= i && i + part.len() <= text.len() && #[trigger] text.subrange(
                i,
                i + part.len() as int,
            ) == part;
        assert(text.subrange(i, i + part.len()) == part);
    }
    if crate::text::has_part(text, part) {
        let i = choose|i: int|
            0 <= i <= text.len() - part.len() && #[trigger] text.subrange(i, i + part.len())
                == part;
        assert(text.subrange(i, i + part.len() as int) == part);
    }
}

proof fn lemma_wanted(app: AppModel, row: ProcRowModel)
    ensures
        wanted(app, row) <==> crate::app_state::passes(row, app.filter_text()),
{
    lemma_stands_in(app.filter_text(), row.process_lc);
    lemma_stands_in(app.filter_text(), crate::text::integer_text(row.pid as int));
}

} // verus!
