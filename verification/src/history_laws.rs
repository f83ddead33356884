//! What holds of the recent power of processes and names.
use vstd::prelude::*;

use crate::binary64::Binary64;
use crate::history::{HistoryModel, NameOffenderModel, PidKeyModel, SeriesModel, TimedSample};
use crate::top_parse::ProcRowModel;

verus! {

/// The values of samples.
pub open spec fn values(samples: Seq<TimedSample>) -> Seq<Binary64> {
    Seq::new(samples.len(), |i: int| samples[i].value)
}

proof fn lemma_window(samples: Seq<TimedSample>, min_tick: u64) -> (from: int)
    ensures
        0 <= from <= samples.len(),
        crate::history::window(samples, min_tick) == values(samples.skip(from)),
        forall|i: int| from <= i < samples.len() ==> (#[trigger] samples[i]).tick >= min_tick,
        from > 0 ==> samples[from - 1].tick < min_tick,
    decreases samples.len(),
{
    if samples.len() == 0 || samples.last().tick < min_tick {
        assert(values(samples.skip(samples.len() as int)) =~= Seq::empty());
        samples.len() as int
    } else {
        let front = samples.drop_last();
        let from = lemma_window(front, min_tick);
        assert forall|i: int| from <= i < samples.len() implies (#[trigger] samples[i]).tick
            >= min_tick by {
            if i < front.len() {
                assert(front[i] == samples[i]);
            }
        }
        assert(crate::history::window(samples, min_tick) =~= values(samples.skip(from)));
        from
    }
}

/// A window of some ticks holds the values of the newest samples, as they are and in their order:
/// those less than that many ticks old, back to the first that is older.
pub proof fn law_windows_hold_the_newest_ticks(
    samples: Seq<TimedSample>,
    window_ticks: u64,
    now_tick: u64,
)
    requires
        window_ticks > 0,
    ensures
        exists|from: int|
            0 <= from <= samples.len() && crate::history::window(
                samples,
                crate::history::first_tick(window_ticks, now_tick),
            ) == values(#[trigger] samples.skip(from)) && (forall|i: int|
                from <= i < samples.len() ==> (#[trigger] samples[i]).tick + window_ticks
                    > now_tick) && (from > 0 ==> samples[from - 1].tick + window_ticks
                <= now_tick),
{
    let first = crate::history::first_tick(window_ticks, now_tick);
    let from = lemma_window(samples, first);
    assert forall|i: int| from <= i < samples.len() implies (#[trigger] samples[i]).tick
        + window_ticks > now_tick by {
        assert(samples[i].tick >= first);
    }
    assert(crate::history::window(samples, first) == values(samples.skip(from)));
}

proof fn lemma_exact_sum_split(a: Seq<Binary64>)
    requires
        a.len() > 0,
    ensures
        crate::sum_laws::exact_sum(a) == a[0].value() + crate::sum_laws::exact_sum(a.skip(1)),
    decreases a.len(),
{
    if a.len() == 1 {
        assert(a.skip(1) =~= Seq::empty());
        assert(a.drop_last() =~= Seq::empty());
        assert(crate::sum_laws::exact_sum(a.drop_last()) == 0);
    } else {
        lemma_exact_sum_split(a.drop_last());
        assert(a.drop_last().skip(1) =~= a.skip(1).drop_last());
        assert(a.skip(1).last() == a.last());
    }
}

proof fn lemma_exact_sum_reversed(a: Seq<Binary64>)
    ensures
        crate::sum_laws::exact_sum(a.reverse()) == crate::sum_laws::exact_sum(a),
    decreases a.len(),
{
    if a.len() > 0 {
        let rest = a.skip(1);
        lemma_exact_sum_reversed(rest);
        lemma_exact_sum_split(a);
        assert(a.reverse().drop_last() =~= rest.reverse());
        assert(a.reverse().last() == a[0]);
    } else {
        assert(a.reverse() =~= a);
    }
}

/// An average is the exact one of all values, to one part in a hundred million or half a unit for
/// each.
pub proof fn law_averages_are_of_all_values(a: Seq<Binary64>)
    requires
        a.len() > 0,
        crate::sum_laws::plain(a),
    ensures
        ({
            let average = crate::history::average(a);
            let exact = crate::sum_laws::exact_sum(a);
            &&& average.finite()
            &&& average.value() >= 0
            &&& -(exact + 100_000_000 * a.len()) <= 100_000_000 * (a.len() * average.value()
                - exact) <= exact + 100_000_000 * a.len()
        }),
{
    let back = a.reverse();
    lemma_exact_sum_reversed(a);
    assert forall|i: int| 0 <= i < back.len() implies (#[trigger] back[i]).finite()
        && back[i].value() >= 0 by {
        assert(back[i] == a[a.len() - 1 - i]);
    }
    let zero = Binary64 { bits: 0 };
    assert(zero.magnitude() == 0);
    crate::sum_laws::law_sums_are_close(zero, back);
    let sum = crate::binary64::added_to(zero, back);
    crate::sum_laws::law_quotients_are_close(sum, a.len());
}

/// Nothing known averages to nothing.
pub proof fn law_average_of_none_is_zero()
    ensures
        crate::history::average(Seq::<Binary64>::empty()) == (Binary64 { bits: 0 }),
        crate::history::highest(Seq::<Binary64>::empty()) == (Binary64 { bits: 0 }),
{
    assert(Seq::<Binary64>::empty().reverse() =~= Seq::empty());
}

/// The figures of a process in the table: its power in the snapshot, and the average and the peak of
/// what it drew over the last two minutes, which are sixty ticks.
pub proof fn law_table_figures_are_of_two_minutes(
    row: ProcRowModel,
    history: HistoryModel,
    tick: u64,
)
    ensures
        ({
            let key = PidKeyModel { pid: row.pid, process: row.process };
            let shown = crate::app_state::table_row(row, history, tick);
            let first = if tick >= 59 {
                (tick - 59) as u64
            } else {
                0
            };
            let window = if history.by_pid.contains_key(key) {
                crate::history::window(history.by_pid[key].samples, first)
            } else {
                Seq::empty()
            };
            &&& shown.key == key
            &&& shown.current == row.power_num
            &&& shown.process_lc == row.process_lc
            &&& shown.avg == crate::history::average(window)
            &&& shown.peak == crate::history::highest(window)
        }),
{
    law_average_of_none_is_zero();
}

/// A list without its first items where it has more than a limit.
pub open spec fn last_of<V>(items: Seq<V>, limit: nat) -> Seq<V> {
    if items.len() <= limit {
        items
    } else {
        items.subrange(items.len() - limit, items.len() as int)
    }
}

/// A process that is seen once at a tick has that sample behind those it had, the oldest given up
/// where there are too many. A process that is not seen has a zero there instead.
pub proof fn law_series_grow_by_one_sample(
    history: HistoryModel,
    tick: u64,
    keys: Seq<PidKeyModel>,
    names: Seq<Seq<char>>,
    powers: Seq<Binary64>,
    key: PidKeyModel,
)
    requires
        history.max_samples >= 1,
        keys.len() == powers.len(),
    ensures
        ({
            let after = history.updated(tick, keys, names, powers).by_pid;
            let had = if history.by_pid.contains_key(key) {
                history.by_pid[key].samples
            } else {
                Seq::empty()
            };
            &&& forall|i: int|
                #![trigger keys[i]]
                0 <= i < keys.len() && keys[i] == key && (forall|j: int|
                    0 <= j < keys.len() && j != i ==> #[trigger] keys[j] != key) ==> {
                    &&& after.contains_key(key)
                    &&& after[key].samples == last_of(
                        had.push(TimedSample { tick, value: powers[i] }),
                        history.max_samples,
                    )
                }
            &&& !keys.contains(key) && after.contains_key(key) ==> history.by_pid.contains_key(key)
                && after[key].samples == last_of(
                had.push(TimedSample { tick, value: Binary64 { bits: 0 } }),
                history.max_samples,
            )
        }),
{
    let after = history.updated(tick, keys, names, powers).by_pid;
    let had = if history.by_pid.contains_key(key) {
        history.by_pid[key].samples
    } else {
        Seq::empty()
    };
    assert forall|i: int|
        #![trigger keys[i]]
        0 <= i < keys.len() && keys[i] == key && (forall|j: int|
            0 <= j < keys.len() && j != i ==> #[trigger] keys[j] != key) implies {
        &&& after.contains_key(key)
        &&& after[key].samples == last_of(
            had.push(TimedSample { tick, value: powers[i] }),
            history.max_samples,
        )
    } by {
        lemma_only_power(keys, powers, i);
        let seen = crate::history::powers_of(keys, powers, key);
        assert(seen =~= seq![powers[i]]);
        let start = match history.by_pid.get(key) {
            Some(series) => series,
            None => SeriesModel::unused(),
        };
        assert(seen.drop_last() =~= Seq::empty());
        assert(start.all_pushed(tick, seen.drop_last(), history.max_samples) == start);
        assert(after[key].samples =~= last_of(
            had.push(TimedSample { tick, value: powers[i] }),
            history.max_samples,
        ));
    }
    if !keys.contains(key) && after.contains_key(key) {
        crate::history::lemma_powers_found(keys, powers, key);
        assert(after[key].samples =~= last_of(
            had.push(TimedSample { tick, value: Binary64 { bits: 0 } }),
            history.max_samples,
        ));
    }
}

proof fn lemma_only_power<V>(keys: Seq<V>, powers: Seq<Binary64>, i: int)
    requires
        0 <= i < keys.len(),
        forall|j: int| 0 <= j < keys.len() && j != i ==> #[trigger] keys[j] != keys[i],
    ensures
        crate::history::powers_of(keys, powers, keys[i]) == seq![powers[i]],
    decreases keys.len(),
{
    let front = keys.drop_last();
    if i == keys.len() - 1 {
        assert(!front.contains(keys[i])) by {
            if front.contains(keys[i]) {
                let j = choose|j: int| 0 <= j < front.len() && front[j] == keys[i];
                assert(keys[j] == keys[i]);
            }
        }
        crate::history::lemma_powers_found(front, powers, keys[i]);
        assert(crate::history::powers_of(front, powers, keys[i]) =~= Seq::empty());
        assert(Seq::<Binary64>::empty().push(powers[i]) =~= seq![powers[i]]);
    } else {
        assert(keys[keys.len() - 1] != keys[i]);
        assert(front[i] == keys[i]);
        assert forall|j: int| 0 <= j < front.len() && j != i implies #[trigger] front[j]
            != front[i] by {
            assert(front[j] == keys[j]);
        }
        lemma_only_power(front, powers, i);
    }
}

/// A name has the sum of what its processes draw behind the samples that it had, the oldest given up
/// where there are too many; a name that is not seen has a zero there.
pub proof fn law_names_grow_by_the_sum(
    history: HistoryModel,
    tick: u64,
    keys: Seq<PidKeyModel>,
    names: Seq<Seq<char>>,
    powers: Seq<Binary64>,
    name: Seq<char>,
)
    requires
        history.max_samples >= 1,
    ensures
        ({
            let after = history.updated(tick, keys, names, powers).by_name;
            let had = if history.by_name.contains_key(name) {
                history.by_name[name].samples
            } else {
                Seq::empty()
            };
            let drawn = if names.contains(name) {
                crate::binary64::added_to(
                    Binary64 { bits: 0 },
                    crate::history::powers_of(names, powers, name),
                )
            } else {
                Binary64 { bits: 0 }
            };
            &&& names.contains(name) ==> after.contains_key(name)
            &&& after.contains_key(name) ==> after[name].samples == last_of(
                had.push(TimedSample { tick, value: drawn }),
                history.max_samples,
            )
        }),
{
    let after = history.updated(tick, keys, names, powers).by_name;
    crate::history::lemma_powers_found(names, powers, name);
    let had = if history.by_name.contains_key(name) {
        history.by_name[name].samples
    } else {
        Seq::empty()
    };
    let start = match history.by_name.get(name) {
        Some(series) => series,
        None => SeriesModel::unused(),
    };
    let seen = crate::history::values_of(names, powers, name, true);
    if names.contains(name) {
        assert(seen.drop_last() =~= Seq::empty());
        assert(start.all_pushed(tick, seen.drop_last(), history.max_samples) == start);
        assert(after[name].samples =~= last_of(
            had.push(TimedSample { tick, value: seen.last() }),
            history.max_samples,
        ));
    } else if after.contains_key(name) {
        assert(after[name].samples =~= last_of(
            had.push(TimedSample { tick, value: Binary64 { bits: 0 } }),
            history.max_samples,
        ));
    }
}

/// Of two names, the one that draws more now comes first, else the one with the higher average, else
/// the one that is first by its letters.
pub proof fn law_offenders_are_ranked(a: NameOffenderModel, b: NameOffenderModel)
    requires
        !a.current.nan() && !b.current.nan() && !a.avg.nan() && !b.avg.nan(),
    ensures
        crate::history::offends_more(a, b) <==> b.current.rank() < a.current.rank() || (
        b.current.rank() == a.current.rank() && (b.avg.rank() < a.avg.rank() || (b.avg.rank()
            == a.avg.rank() && crate::text::text_before(a.name, b.name)))),
{
}


/// The names that draw most: as many as are asked for or as there are, each once with its own figures,
/// in their order, and none left out that comes before one of them.
pub proof fn law_offenders_are_the_top_names(
    offenders: Seq<NameOffenderModel>,
    series: Map<Seq<char>, SeriesModel>,
    now_tick: u64,
    avg_ticks: u64,
    peak_ticks: u64,
    limit: nat,
    i: int,
)
    requires
        crate::history::ranks_names(offenders, series, now_tick, avg_ticks, peak_ticks, limit),
        0 <= i < offenders.len(),
        avg_ticks > 0,
        peak_ticks > 0,
    ensures
        offenders.len() == if series.dom().len() <= limit {
            series.dom().len()
        } else {
            limit
        },
        series.contains_key(offenders[i].name),
        ({
            let samples = series[offenders[i].name].samples;
            &&& samples.len() > 0 ==> offenders[i].current == samples.last().value
            &&& offenders[i].avg == crate::history::average(
                crate::history::window(samples, crate::history::first_tick(avg_ticks, now_tick)),
            )
            &&& offenders[i].peak == crate::history::highest(
                crate::history::window(samples, crate::history::first_tick(peak_ticks, now_tick)),
            )
        }),
        forall|j: int|
            0 <= j < offenders.len() && j != i ==> (#[trigger] offenders[j]).name
                != offenders[i].name,
        crate::history::all_numbers(series, now_tick, avg_ticks) ==> forall|j: int|
            i < j < offenders.len() ==> !crate::history::offends_more(
                #[trigger] offenders[j],
                offenders[i],
            ),
{
    assert forall|j: int| 0 <= j < offenders.len() && j != i implies (#[trigger] offenders[j]).name
        != offenders[i].name by {
        if j < i {
            assert(offenders[j].name != offenders[i].name);
        } else {
            assert(offenders[i].name != offenders[j].name);
        }
    }
    if crate::history::all_numbers(series, now_tick, avg_ticks) {
        assert forall|j: int| i < j < offenders.len() implies !crate::history::offends_more(
            #[trigger] offenders[j],
            offenders[i],
        ) by {
            assert(!crate::history::offenders_first()(offenders[j], offenders[i]));
        }
    }
}


/// A refresh is taken in process by process: each with its number, its name and its power.
pub proof fn law_samples_are_taken_in_one_by_one<'a>(
    samples: Seq<crate::history::ProcessSample<'a>>,
    i: int,
)
    requires
        0 <= i < samples.len(),
    ensures
        crate::history::sample_keys(samples).len() == samples.len(),
        crate::history::sample_names(samples).len() == samples.len(),
        crate::history::sample_powers(samples).len() == samples.len(),
        crate::history::sample_keys(samples)[i] == (PidKeyModel {
            pid: samples[i].pid,
            process: samples[i].process@,
        }),
        crate::history::sample_names(samples)[i] == samples[i].process@,
        crate::history::sample_powers(samples)[i] == samples[i].power,
{
}

} // verus!
