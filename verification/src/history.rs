//! The recent power of every process and of every process name.
use std::collections::VecDeque;

use vstd::prelude::*;

use crate::binary64::Binary64;

verus! {

/// What identifies a process: its number, and its exact name, for numbers are used again.
#[derive(Debug, PartialEq, Eq, Hash)]
pub struct PidKey {
    pub pid: i32,
    pub process: String,
}

#[verifier::ext_equal]
pub struct PidKeyModel {
    pub pid: i32,
    pub process: Seq<char>,
}

impl View for PidKey {
    type V = PidKeyModel;

    open spec fn view(&self) -> PidKeyModel {
        PidKeyModel { pid: self.pid, process: self.process@ }
    }
}

impl PidKey {
    pub fn new(pid: i32, process: &str) -> (key: PidKey)
        ensures
            key@ == (PidKeyModel { pid, process: process@ }),
    {
        PidKey { pid, process: process.to_string() }
    }
}

impl Clone for PidKey {
    fn clone(&self) -> (copy: Self)
        ensures
            copy@ == self@,
    {
        PidKey { pid: self.pid, process: self.process.clone() }
    }
}

/// What a series is kept under.
pub trait SeriesKey: View + Sized {
    fn same(&self, other: &Self) -> (b: bool)
        ensures
            b == (self@ == other@),
    ;

    fn duplicate(&self) -> (copy: Self)
        ensures
            copy@ == self@,
    ;
}

impl SeriesKey for PidKey {
    fn same(&self, other: &Self) -> (b: bool) {
        self.pid == other.pid && self.process.eq(&other.process)
    }

    fn duplicate(&self) -> (copy: Self) {
        self.clone()
    }
}

impl SeriesKey for String {
    fn same(&self, other: &Self) -> (b: bool) {
        self.eq(other)
    }

    fn duplicate(&self) -> (copy: Self) {
        self.clone()
    }
}

/// The power of one process at one refresh.
#[derive(Debug, Clone, Copy)]
pub struct ProcessSample<'a> {
    pub pid: i32,
    pub process: &'a str,
    pub power: Binary64,
}

impl<'a> ProcessSample<'a> {
    pub open spec fn key(self) -> PidKeyModel {
        PidKeyModel { pid: self.pid, process: self.process@ }
    }
}

#[derive(Debug, Clone, Copy, PartialEq, Eq, Structural)]
pub struct TimedSample {
    pub tick: u64,
    pub value: Binary64,
}

/// The samples of one key, the oldest first.
#[derive(Debug)]
pub struct Series {
    samples: VecDeque<TimedSample>,
    last_seen_tick: u64,
}

#[verifier::ext_equal]
pub struct SeriesModel {
    pub samples: Seq<TimedSample>,
    pub last_seen_tick: u64,
}

impl View for Series {
    type V = SeriesModel;

    closed spec fn view(&self) -> SeriesModel {
        SeriesModel { samples: self.samples@, last_seen_tick: self.last_seen_tick }
    }
}

/// The values of the newest samples, back to the first that is older than `min_tick`.
pub open spec fn window(samples: Seq<TimedSample>, min_tick: u64) -> Seq<Binary64>
    decreases samples.len(),
{
    if samples.len() == 0 || samples.last().tick < min_tick {
        Seq::empty()
    } else {
        window(samples.drop_last(), min_tick).push(samples.last().value)
    }
}

/// The average of some values, added up from the last; that of none is zero.
pub open spec fn average(values: Seq<Binary64>) -> Binary64 {
    if values.len() == 0 {
        Binary64 { bits: 0 }
    } else {
        crate::binary64::added_to(Binary64 { bits: 0 }, values.reverse()).quotient(
            Binary64::whole(values.len()),
        )
    }
}

/// The largest of zero and some values, from the last.
pub open spec fn highest(values: Seq<Binary64>) -> Binary64 {
    largest(values.reverse())
}

pub open spec fn largest(values: Seq<Binary64>) -> Binary64
    decreases values.len(),
{
    if values.len() == 0 {
        Binary64 { bits: 0 }
    } else {
        largest(values.drop_last()).larger(values.last())
    }
}

impl SeriesModel {
    pub open spec fn unused() -> SeriesModel {
        SeriesModel { samples: Seq::empty(), last_seen_tick: 0 }
    }

    /// The series with one more sample, which the oldest makes room for.
    pub open spec fn pushed(self, tick: u64, value: Binary64, max_samples: nat) -> SeriesModel {
        SeriesModel {
            samples: crate::lists::newest(
                self.samples.push(TimedSample { tick, value }),
                max_samples,
            ),
            ..self
        }
    }

    /// The series with samples of one tick.
    pub open spec fn all_pushed(
        self,
        tick: u64,
        values: Seq<Binary64>,
        max_samples: nat,
    ) -> SeriesModel
        decreases values.len(),
    {
        if values.len() == 0 {
            self
        } else {
            self.all_pushed(tick, values.drop_last(), max_samples).pushed(
                tick,
                values.last(),
                max_samples,
            )
        }
    }

    /// The newest value, or zero.
    pub open spec fn current(self) -> Binary64 {
        if self.samples.len() == 0 {
            Binary64 { bits: 0 }
        } else {
            self.samples.last().value
        }
    }
}

/// What becomes of a series at a tick: it takes in the values seen, or a zero where it was not
/// seen, and is dropped once it has not been seen for too long.
pub open spec fn next_series(
    old_series: Option<SeriesModel>,
    tick: u64,
    values: Seq<Binary64>,
    max_samples: nat,
    stale_after_ticks: u64,
) -> Option<SeriesModel> {
    if values.len() > 0 {
        let start = match old_series {
            Some(series) => series,
            None => SeriesModel::unused(),
        };
        Some(
            SeriesModel {
                last_seen_tick: tick,
                ..start.all_pushed(tick, values, max_samples)
            },
        )
    } else {
        match old_series {
            Some(series) => if tick - series.last_seen_tick <= stale_after_ticks {
                Some(series.pushed(tick, Binary64 { bits: 0 }, max_samples))
            } else {
                None
            },
            None => None,
        }
    }
}

/// The powers that came under a key, in order.
pub open spec fn powers_of<V>(keys: Seq<V>, powers: Seq<Binary64>, key: V) -> Seq<Binary64>
    decreases keys.len(),
{
    if keys.len() == 0 {
        Seq::empty()
    } else if keys.last() == key {
        powers_of(keys.drop_last(), powers, key).push(powers[keys.len() - 1])
    } else {
        powers_of(keys.drop_last(), powers, key)
    }
}

/// What a key takes in: each power that came under it, or their sum.
pub open spec fn values_of<V>(
    keys: Seq<V>,
    powers: Seq<Binary64>,
    key: V,
    summed: bool,
) -> Seq<Binary64> {
    let mine = powers_of(keys, powers, key);
    if summed && mine.len() > 0 {
        seq![crate::binary64::added_to(Binary64 { bits: 0 }, mine)]
    } else {
        mine
    }
}

impl Series {
    fn new() -> (series: Series)
        ensures
            series@ == SeriesModel::unused(),
    {
        let series = Series { samples: VecDeque::new(), last_seen_tick: 0 };
        proof {
            assert(series@.samples =~= Seq::empty());
        }
        series
    }

    fn push(&mut self, tick: u64, value: Binary64, max_samples: usize)
        ensures
            final(self)@ == old(self)@.pushed(tick, value, max_samples as nat),
    {
        self.samples.push_back(TimedSample { tick, value });
        crate::lists::trim_to_capacity(&mut self.samples, max_samples);
    }

    /// Takes in what was seen at a tick; the answer tells whether the series is to be kept.
    fn advance(
        &mut self,
        tick: u64,
        values: &Vec<Binary64>,
        max_samples: usize,
        stale_after_ticks: u64,
    ) -> (keep: bool)
        ensures
            keep == next_series(
                Some(old(self)@),
                tick,
                values@,
                max_samples as nat,
                stale_after_ticks,
            ) is Some,
            keep ==> Some(final(self)@) == next_series(
                Some(old(self)@),
                tick,
                values@,
                max_samples as nat,
                stale_after_ticks,
            ),
    {
        if values.len() == 0 {
            self.push(tick, Binary64::zero(), max_samples);
            return tick.saturating_sub(self.last_seen_tick) <= stale_after_ticks;
        }
        let mut i: usize = 0;
        proof {
            assert(values@.take(0) =~= Seq::empty());
        }
        while i < values.len()
            invariant
                i <= values@.len(),
                self@ == old(self)@.all_pushed(tick, values@.take(i as int), max_samples as nat),
            decreases values@.len() - i,
        {
            proof {
                assert(values@.take(i + 1).drop_last() =~= values@.take(i as int));
            }
            self.push(tick, values[i], max_samples);
            i = i + 1;
        }
        proof {
            assert(values@.take(i as int) =~= values@);
        }
        self.last_seen_tick = tick;
        true
    }

    fn current(&self) -> (value: Binary64)
        ensures
            value == self@.current(),
    {
        if self.samples.len() == 0 {
            Binary64::zero()
        } else {
            self.samples[self.samples.len() - 1].value
        }
    }

    /// How many of the oldest samples lie before the window.
    fn window_start(&self, min_tick: u64) -> (start: usize)
        ensures
            start <= self@.samples.len(),
            window(self@.samples, min_tick) == Seq::new(
                (self@.samples.len() - start) as nat,
                |i: int| self@.samples[start + i].value,
            ),
    {
        let ghost all = self@.samples;
        let mut start: usize = self.samples.len();
        proof {
            assert(all.take(all.len() as int) =~= all);
            assert(window(all, min_tick) + Seq::new(0, |i: int| all[start + i].value) =~= window(
                all,
                min_tick,
            ));
        }
        while start > 0 && self.samples[start - 1].tick >= min_tick
            invariant
                start <= all.len(),
                all == self@.samples,
                window(all, min_tick) == window(all.take(start as int), min_tick) + Seq::new(
                    (all.len() - start) as nat,
                    |i: int| all[start + i].value,
                ),
            decreases start,
        {
            proof {
                let part = all.take(start as int);
                assert(part.drop_last() =~= all.take(start - 1));
                let before = start - 1;
                assert(window(all.take(start - 1), min_tick).push(part.last().value) + Seq::new(
                    (all.len() - start) as nat,
                    |i: int| all[start + i].value,
                ) =~= window(all.take(start - 1), min_tick) + Seq::new(
                    (all.len() - before) as nat,
                    |i: int| all[before + i].value,
                ));
            }
            start = start - 1;
        }
        proof {
            assert(window(all.take(start as int), min_tick) =~= Seq::empty());
            assert(window(all, min_tick) =~= Seq::new(
                (all.len() - start) as nat,
                |i: int| all[start + i].value,
            ));
        }
        start
    }

    fn recent_values_since_tick(&self, min_tick: u64) -> (values: Vec<Binary64>)
        ensures
            values@ == window(self@.samples, min_tick),
    {
        let start: usize = self.window_start(min_tick);
        let mut values: Vec<Binary64> = Vec::new();
        let mut i: usize = start;
        while i < self.samples.len()
            invariant
                start <= i <= self@.samples.len(),
                values@.len() == i - start,
                forall|j: int| 0 <= j < i - start ==> #[trigger] values@[j]
                    == self@.samples[start + j].value,
            decreases self@.samples.len() - i,
        {
            values.push(self.samples[i].value);
            i = i + 1;
        }
        proof {
            assert(values@ =~= window(self@.samples, min_tick));
        }
        values
    }

    fn avg_since_tick(&self, min_tick: u64) -> (avg: Binary64)
        ensures
            avg == average(window(self@.samples, min_tick)),
    {
        let start: usize = self.window_start(min_tick);
        let ghost back = window(self@.samples, min_tick).reverse();
        let mut sum: Binary64 = Binary64::zero();
        let mut i: usize = self.samples.len();
        proof {
            assert(back.take(0) =~= Seq::empty());
        }
        while i > start
            invariant
                start <= i <= self@.samples.len(),
                back.len() == self@.samples.len() - start,
                forall|j: int| 0 <= j < back.len() ==> #[trigger] back[j]
                    == self@.samples[self@.samples.len() - 1 - j].value,
                sum == crate::binary64::added_to(
                    Binary64 { bits: 0 },
                    back.take(self@.samples.len() - i),
                ),
            decreases i,
        {
            i = i - 1;
            proof {
                let done = self@.samples.len() - i;
                assert(back.take(done).drop_last() =~= back.take(done - 1));
                assert(back.take(done).last() == back[done - 1]);
            }
            sum = sum.plus(self.samples[i].value);
        }
        proof {
            assert(back.take(back.len() as int) =~= back);
        }
        let count: usize = self.samples.len() - start;
        if count == 0 {
            Binary64::zero()
        } else {
            sum.over(Binary64::from_whole(count as u64))
        }
    }

    fn peak_since_tick(&self, min_tick: u64) -> (peak: Binary64)
        ensures
            peak == highest(window(self@.samples, min_tick)),
    {
        let start: usize = self.window_start(min_tick);
        let ghost back = window(self@.samples, min_tick).reverse();
        let mut peak: Binary64 = Binary64::zero();
        let mut i: usize = self.samples.len();
        proof {
            assert(back.take(0) =~= Seq::empty());
        }
        while i > start
            invariant
                start <= i <= self@.samples.len(),
                back.len() == self@.samples.len() - start,
                forall|j: int| 0 <= j < back.len() ==> #[trigger] back[j]
                    == self@.samples[self@.samples.len() - 1 - j].value,
                peak == largest(back.take(self@.samples.len() - i)),
            decreases i,
        {
            i = i - 1;
            proof {
                let done = self@.samples.len() - i;
                assert(back.take(done).drop_last() =~= back.take(done - 1));
                assert(back.take(done).last() == back[done - 1]);
            }
            peak = peak.max(self.samples[i].value);
        }
        proof {
            assert(back.take(back.len() as int) =~= back);
        }
        peak
    }
}

#[derive(Debug)]
struct Entry<K> {
    key: K,
    series: Series,
}

/// Series under keys, each key once.
#[derive(Debug)]
pub struct Ledger<K> {
    entries: Vec<Entry<K>>,
}

impl<K: SeriesKey> Ledger<K> {
    pub closed spec fn keys(self) -> Seq<K::V> {
        Seq::new(self.entries@.len(), |i: int| self.entries@[i].key@)
    }

    pub closed spec fn wf(self) -> bool {
        self.keys().no_duplicates()
    }

    closed spec fn series_at(self, i: int) -> SeriesModel {
        self.entries@[i].series@
    }
}

impl<K: SeriesKey> View for Ledger<K> {
    type V = Map<K::V, SeriesModel>;

    closed spec fn view(&self) -> Map<K::V, SeriesModel> {
        Map::new(
            |key: K::V| self.keys().contains(key),
            |key: K::V| self.series_at(self.keys().index_of(key)),
        )
    }
}

/// Series after a tick, given the keys and the powers that were seen.
pub open spec fn advanced<V>(
    series: Map<V, SeriesModel>,
    tick: u64,
    keys: Seq<V>,
    powers: Seq<Binary64>,
    summed: bool,
    max_samples: nat,
    stale_after_ticks: u64,
) -> Map<V, SeriesModel> {
    Map::new(
        |key: V|
            next_series(
                series.get(key),
                tick,
                values_of(keys, powers, key, summed),
                max_samples,
                stale_after_ticks,
            ) is Some,
        |key: V|
            next_series(
                series.get(key),
                tick,
                values_of(keys, powers, key, summed),
                max_samples,
                stale_after_ticks,
            )->0,
    )
}

pub proof fn lemma_powers_found<V>(keys: Seq<V>, powers: Seq<Binary64>, key: V)
    ensures
        powers_of(keys, powers, key).len() > 0 <==> keys.contains(key),
    decreases keys.len(),
{
    if keys.len() > 0 {
        let front = keys.drop_last();
        lemma_powers_found(front, powers, key);
        assert(keys[keys.len() - 1] == keys.last());
        if front.contains(key) {
            let i = choose|i: int| 0 <= i < front.len() && front[i] == key;
            assert(keys[i] == key);
        }
        if keys.contains(key) {
            let i = choose|i: int| 0 <= i < keys.len() && keys[i] == key;
            if i < front.len() {
                assert(front[i] == key);
            }
        }
    }
}

impl<K: SeriesKey> Ledger<K> {
    proof fn lemma_at(self, i: int)
        requires
            self.wf(),
            0 <= i < self.entries@.len(),
        ensures
            self@.get(self.entries@[i].key@) == Some(self.entries@[i].series@),
    {
        let key = self.entries@[i].key@;
        assert(self.keys()[i] == key);
        assert(self.keys().contains(key));
        let j = self.keys().index_of(key);
        assert(self.keys()[j] == key);
    }

    fn new() -> (ledger: Ledger<K>)
        ensures
            ledger.wf(),
            ledger@ == Map::<K::V, SeriesModel>::empty(),
    {
        let ledger = Ledger { entries: Vec::new() };
        proof {
            assert(ledger@ =~= Map::<K::V, SeriesModel>::empty());
        }
        ledger
    }

    /// The place of a key.
    fn find(&self, key: &K) -> (found: Option<usize>)
        requires
            self.wf(),
        ensures
            match found {
                Some(i) => i < self.entries@.len() && self.entries@[i as int].key@ == key@
                    && self@.get(key@) == Some(self.entries@[i as int].series@),
                None => self@.get(key@) is None && !self.keys().contains(key@),
            },
    {
        let mut i: usize = 0;
        while i < self.entries.len()
            invariant
                self.wf(),
                i <= self.entries@.len(),
                forall|j: int| 0 <= j < i ==> (#[trigger] self.entries@[j]).key@ != key@,
            decreases self.entries@.len() - i,
        {
            if self.entries[i].key.same(key) {
                proof {
                    self.lemma_at(i as int);
                }
                return Some(i);
            }
            i = i + 1;
        }
        proof {
            assert forall|j: int| 0 <= j < self.keys().len() implies self.keys()[j] != key@ by {
                assert(self.entries@[j].key@ != key@);
            }
        }
        None
    }

    /// What a key takes in.
    fn collect(keys: &Vec<K>, powers: &Vec<Binary64>, key: &K, summed: bool) -> (values: Vec<
        Binary64,
    >)
        requires
            keys@.len() == powers@.len(),
        ensures
            values@ == values_of(crate::lists::models(keys@), powers@, key@, summed),
    {
        let ghost all = crate::lists::models(keys@);
        let mut mine: Vec<Binary64> = Vec::new();
        let mut sum: Binary64 = Binary64::zero();
        let mut i: usize = 0;
        proof {
            assert(all.take(0) =~= Seq::empty());
        }
        while i < keys.len()
            invariant
                i <= keys@.len() == powers@.len(),
                all == crate::lists::models(keys@),
                mine@ == powers_of(all.take(i as int), powers@, key@),
                sum == crate::binary64::added_to(Binary64 { bits: 0 }, mine@),
            decreases keys@.len() - i,
        {
            proof {
                assert(all.take(i + 1).drop_last() =~= all.take(i as int));
                assert(all.take(i + 1).last() == keys@[i as int]@);
            }
            if keys[i].same(key) {
                let ghost before = mine@;
                mine.push(powers[i]);
                proof {
                    assert(mine@.drop_last() =~= before);
                }
                sum = sum.plus(powers[i]);
            }
            i = i + 1;
        }
        proof {
            assert(all.take(i as int) =~= all);
        }
        if summed && mine.len() > 0 {
            return vec![sum];
        }
        mine
    }

    /// Takes in what was seen at a tick.
    fn advance(
        &mut self,
        tick: u64,
        keys: &Vec<K>,
        powers: &Vec<Binary64>,
        summed: bool,
        max_samples: usize,
        stale_after_ticks: u64,
    )
        requires
            old(self).wf(),
            keys@.len() == powers@.len(),
        ensures
            final(self).wf(),
            final(self)@ == advanced(
                old(self)@,
                tick,
                crate::lists::models(keys@),
                powers@,
                summed,
                max_samples as nat,
                stale_after_ticks,
            ),
    {
        let ghost before = *self;
        let ghost seen = crate::lists::models(keys@);
        let ghost goal = advanced(
            before@,
            tick,
            seen,
            powers@,
            summed,
            max_samples as nat,
            stale_after_ticks,
        );
        let mut result: Ledger<K> = Ledger { entries: Vec::new() };
        let ghost mut done: int = 0;
        proof {
            assert(before.entries@.skip(0) =~= before.entries@);
        }
        while self.entries.len() > 0
            invariant
                before.wf(),
                keys@.len() == powers@.len(),
                seen == crate::lists::models(keys@),
                goal == advanced(
                    before@,
                    tick,
                    seen,
                    powers@,
                    summed,
                    max_samples as nat,
                    stale_after_ticks,
                ),
                0 <= done <= before.entries@.len(),
                self.entries@ == before.entries@.skip(done),
                result.wf(),
                forall|j: int|
                    0 <= j < result.entries@.len() ==> goal.get(
                        (#[trigger] result.entries@[j]).key@,
                    ) == Some(result.entries@[j].series@),
                forall|j: int|
                    0 <= j < result.entries@.len() ==> before.keys().take(done).contains(
                        (#[trigger] result.entries@[j]).key@,
                    ),
                forall|i: int|
                    0 <= i < done && goal.contains_key((#[trigger] before.entries@[i]).key@)
                        ==> result.keys().contains(before.entries@[i].key@),
            decreases self.entries@.len(),
        {
            let ghost left = self.entries@;
            let mut entry: Entry<K> = self.entries.remove(0);
            proof {
                assert(left[0] == before.entries@[done]);
                before.lemma_at(done);
                assert(self.entries@ =~= before.entries@.skip(done + 1));
            }
            let values: Vec<Binary64> = Self::collect(keys, powers, &entry.key, summed);
            let ghost key = entry.key@;
            let ghost shorter = result;
            if entry.series.advance(tick, &values, max_samples, stale_after_ticks) {
                proof {
                    assert(goal.get(key) == Some(entry.series@));
                }
                result.entries.push(entry);
            }
            proof {
                let been = before.keys().take(done);
                let now = before.keys().take(done + 1);
                assert(before.keys()[done] == key);
                assert(now[done] == key);
                assert forall|k: K::V| been.contains(k) implies now.contains(k) && k != key by {
                    let i = choose|i: int| 0 <= i < been.len() && been[i] == k;
                    assert(now[i] == k);
                    assert(before.keys()[i] == k);
                }
                assert forall|j: int| 0 <= j < result.entries@.len() implies goal.get(
                    (#[trigger] result.entries@[j]).key@,
                ) == Some(result.entries@[j].series@) && now.contains(result.entries@[j].key@) by {
                    if j < shorter.entries@.len() {
                        assert(result.entries@[j] == shorter.entries@[j]);
                    }
                }
                assert(result.wf()) by {
                    assert forall|a: int, b: int|
                        0 <= a < result.keys().len() && 0 <= b < result.keys().len() && a
                            != b implies result.keys()[a] != result.keys()[b] by {
                        if a < shorter.entries@.len() {
                            assert(result.entries@[a] == shorter.entries@[a]);
                            assert(shorter.keys()[a] == result.keys()[a]);
                        }
                        if b < shorter.entries@.len() {
                            assert(result.entries@[b] == shorter.entries@[b]);
                            assert(shorter.keys()[b] == result.keys()[b]);
                        }
                    }
                }
                assert forall|i: int|
                    0 <= i < done + 1 && goal.contains_key(
                        (#[trigger] before.entries@[i]).key@,
                    ) implies result.keys().contains(before.entries@[i].key@) by {
                    let k = before.entries@[i].key@;
                    if i < done {
                        assert(shorter.keys().contains(k));
                        let a = choose|a: int|
                            0 <= a < shorter.keys().len() && shorter.keys()[a] == k;
                        assert(result.entries@[a] == shorter.entries@[a]);
                        assert(result.keys()[a] == k);
                    } else {
                        assert(result.keys()[result.keys().len() - 1] == k);
                    }
                }
                done = done + 1;
            }
        }
        proof {
            assert(before.entries@.skip(done).len() == 0);
            assert(done == before.entries@.len());
            assert forall|k: K::V| before.keys().contains(k) && goal.contains_key(
                k,
            ) implies #[trigger] result.keys().contains(k) by {
                let i = choose|i: int| 0 <= i < before.keys().len() && before.keys()[i] == k;
                assert(before.entries@[i].key@ == k);
            }
        }
        let mut i: usize = 0;
        while i < keys.len()
            invariant
                before.wf(),
                i <= keys@.len() == powers@.len(),
                seen == crate::lists::models(keys@),
                goal == advanced(
                    before@,
                    tick,
                    seen,
                    powers@,
                    summed,
                    max_samples as nat,
                    stale_after_ticks,
                ),
                result.wf(),
                forall|j: int|
                    0 <= j < result.entries@.len() ==> goal.get(
                        (#[trigger] result.entries@[j]).key@,
                    ) == Some(result.entries@[j].series@),
                forall|k: K::V|
                    before.keys().contains(k) && goal.contains_key(k)
                        ==> #[trigger] result.keys().contains(k),
                forall|j: int| 0 <= j < i ==> result.keys().contains(#[trigger] seen[j]),
            decreases keys@.len() - i,
        {
            let ghost shorter = result;
            let ghost key = keys@[i as int]@;
            proof {
                assert(seen[i as int] == key);
                assert(seen.contains(key));
                lemma_powers_found(seen, powers@, key);
            }
            if result.find(&keys[i]).is_none() {
                let values: Vec<Binary64> = Self::collect(keys, powers, &keys[i], summed);
                let mut series: Series = Series::new();
                let _ = series.advance(tick, &values, max_samples, stale_after_ticks);
                proof {
                    assert(goal.contains_key(key));
                    assert(!before.keys().contains(key));
                    assert(before@.get(key) is None);
                    assert(goal.get(key) == Some(series@));
                }
                result.entries.push(Entry { key: keys[i].duplicate(), series });
                proof {
                    assert(result.keys()[result.keys().len() - 1] == key);
                    assert forall|a: int| 0 <= a < shorter.entries@.len() implies (
                    #[trigger] result.entries@[a]) == shorter.entries@[a] && result.keys()[a]
                        == shorter.keys()[a] by {}
                    assert(result.wf());
                    assert forall|k: K::V| shorter.keys().contains(
                        k,
                    ) implies #[trigger] result.keys().contains(k) by {
                        let a = choose|a: int|
                            0 <= a < shorter.keys().len() && shorter.keys()[a] == k;
                        assert(result.entries@[a] == shorter.entries@[a]);
                        assert(result.keys()[a] == k);
                    }
                }
            }
            i = i + 1;
        }
        proof {
            assert forall|k: K::V| #[trigger] result@.contains_key(k) <==> goal.contains_key(k) by {
                if result.keys().contains(k) {
                    let a = choose|a: int| 0 <= a < result.keys().len() && result.keys()[a] == k;
                    assert(goal.get(result.entries@[a].key@) is Some);
                }
                if goal.contains_key(k) && !before.keys().contains(k) {
                    lemma_powers_found(seen, powers@, k);
                    let j = choose|j: int| 0 <= j < seen.len() && seen[j] == k;
                    assert(result.keys().contains(seen[j]));
                }
            }
            assert forall|k: K::V| #[trigger] result@.contains_key(k) implies result@[k]
                == goal[k] by {
                let a = result.keys().index_of(k);
                assert(result.keys()[a] == k);
                assert(goal.get(result.entries@[a].key@) == Some(result.entries@[a].series@));
            }
            assert(result@ =~= goal);
        }
        *self = result;
    }
}

/// What a process name draws: now, on average, and at most.
#[derive(Debug)]
pub struct NameOffenderMetrics {
    pub name: String,
    pub current: Binary64,
    pub avg: Binary64,
    pub peak: Binary64,
}

#[verifier::ext_equal]
pub struct NameOffenderModel {
    pub name: Seq<char>,
    pub current: Binary64,
    pub avg: Binary64,
    pub peak: Binary64,
}

impl View for NameOffenderMetrics {
    type V = NameOffenderModel;

    open spec fn view(&self) -> NameOffenderModel {
        NameOffenderModel {
            name: self.name@,
            current: self.current,
            avg: self.avg,
            peak: self.peak,
        }
    }
}

/// Whether one name comes before another: by what it draws now, on average, and by its letters.
pub open spec fn offends_more(a: NameOffenderModel, b: NameOffenderModel) -> bool {
    if b.current.lt(a.current) {
        true
    } else if a.current.lt(b.current) {
        false
    } else if b.avg.lt(a.avg) {
        true
    } else if a.avg.lt(b.avg) {
        false
    } else {
        crate::text::text_before(a.name, b.name)
    }
}

pub open spec fn offenders_first() -> spec_fn(NameOffenderModel, NameOffenderModel) -> bool {
    |a: NameOffenderModel, b: NameOffenderModel| offends_more(a, b)
}

/// The first tick of a window that ends now.
pub open spec fn first_tick(window_ticks: u64, now_tick: u64) -> u64 {
    let back = if window_ticks == 0 {
        0
    } else {
        window_ticks - 1
    };
    if now_tick >= back {
        (now_tick - back) as u64
    } else {
        0
    }
}

fn window_start_tick(window_ticks: u64, now_tick: u64) -> (tick: u64)
    ensures
        tick == first_tick(window_ticks, now_tick),
{
    now_tick.saturating_sub(window_ticks.saturating_sub(1))
}

pub open spec fn offender(
    name: Seq<char>,
    series: SeriesModel,
    now_tick: u64,
    avg_window_ticks: u64,
    peak_window_ticks: u64,
) -> NameOffenderModel {
    NameOffenderModel {
        name,
        current: series.current(),
        avg: average(window(series.samples, first_tick(avg_window_ticks, now_tick))),
        peak: highest(window(series.samples, first_tick(peak_window_ticks, now_tick))),
    }
}

/// Series of processes and of process names, each with a bounded number of samples.
#[derive(Debug)]
pub struct HistoryStore {
    max_samples: usize,
    stale_after_ticks: u64,
    by_pid: Ledger<PidKey>,
    by_name: Ledger<String>,
}

#[verifier::ext_equal]
pub struct HistoryModel {
    pub max_samples: nat,
    pub stale_after_ticks: u64,
    pub by_pid: Map<PidKeyModel, SeriesModel>,
    pub by_name: Map<Seq<char>, SeriesModel>,
}

impl View for HistoryStore {
    type V = HistoryModel;

    closed spec fn view(&self) -> HistoryModel {
        HistoryModel {
            max_samples: self.max_samples as nat,
            stale_after_ticks: self.stale_after_ticks,
            by_pid: self.by_pid@,
            by_name: self.by_name@,
        }
    }
}

pub open spec fn sample_keys(samples: Seq<ProcessSample>) -> Seq<PidKeyModel> {
    Seq::new(samples.len(), |i: int| samples[i].key())
}

pub open spec fn sample_names(samples: Seq<ProcessSample>) -> Seq<Seq<char>> {
    Seq::new(samples.len(), |i: int| samples[i].process@)
}

pub open spec fn sample_powers(samples: Seq<ProcessSample>) -> Seq<Binary64> {
    Seq::new(samples.len(), |i: int| samples[i].power)
}

impl HistoryModel {
    pub open spec fn fresh(max_samples: usize, stale_after_ticks: u64) -> HistoryModel {
        HistoryModel {
            max_samples: if max_samples < 1 {
                1
            } else {
                max_samples as nat
            },
            stale_after_ticks,
            by_pid: Map::empty(),
            by_name: Map::empty(),
        }
    }

    /// The average of a process over the ticks up to now; zero where nothing is known.
    pub open spec fn pid_average(self, key: PidKeyModel, window_ticks: u64, now_tick: u64) -> Binary64 {
        match self.by_pid.get(key) {
            Some(series) => average(window(series.samples, first_tick(window_ticks, now_tick))),
            None => Binary64 { bits: 0 },
        }
    }

    /// The most that a process drew over the ticks up to now; zero where nothing is known.
    pub open spec fn pid_highest(self, key: PidKeyModel, window_ticks: u64, now_tick: u64) -> Binary64 {
        match self.by_pid.get(key) {
            Some(series) => highest(window(series.samples, first_tick(window_ticks, now_tick))),
            None => Binary64 { bits: 0 },
        }
    }

    /// The values of a process over the ticks up to now.
    pub open spec fn pid_window(
        self,
        key: PidKeyModel,
        window_ticks: u64,
        now_tick: u64,
    ) -> Seq<Binary64> {
        match self.by_pid.get(key) {
            Some(series) => window(series.samples, first_tick(window_ticks, now_tick)),
            None => Seq::empty(),
        }
    }

    /// The history after the samples of a tick: a process takes in its own powers, a name the sum
    /// of those under it.
    pub open spec fn updated(
        self,
        tick: u64,
        keys: Seq<PidKeyModel>,
        names: Seq<Seq<char>>,
        powers: Seq<Binary64>,
    ) -> HistoryModel {
        HistoryModel {
            by_pid: advanced(
                self.by_pid,
                tick,
                keys,
                powers,
                false,
                self.max_samples,
                self.stale_after_ticks,
            ),
            by_name: advanced(
                self.by_name,
                tick,
                names,
                powers,
                true,
                self.max_samples,
                self.stale_after_ticks,
            ),
            ..self
        }
    }
}

impl HistoryStore {
    pub closed spec fn wf(self) -> bool {
        self.by_pid.wf() && self.by_name.wf()
    }

    pub fn new(max_samples: usize, stale_after_ticks: u64) -> (store: HistoryStore)
        ensures
            store.wf(),
            store@ == HistoryModel::fresh(max_samples, stale_after_ticks),
    {
        HistoryStore {
            max_samples: if max_samples < 1 {
                1
            } else {
                max_samples
            },
            stale_after_ticks,
            by_pid: Ledger::new(),
            by_name: Ledger::new(),
        }
    }

    /// Takes in the samples of a tick.
    pub fn update<'a>(&mut self, tick: u64, samples: &Vec<ProcessSample<'a>>)
        requires
            old(self).wf(),
        ensures
            final(self).wf(),
            final(self)@ == old(self)@.updated(
                tick,
                sample_keys(samples@),
                sample_names(samples@),
                sample_powers(samples@),
            ),
    {
        let mut keys: Vec<PidKey> = Vec::new();
        let mut names: Vec<String> = Vec::new();
        let mut powers: Vec<Binary64> = Vec::new();
        let mut i: usize = 0;
        while i < samples.len()
            invariant
                i <= samples@.len(),
                keys@.len() == i,
                names@.len() == i,
                powers@.len() == i,
                forall|j: int| 0 <= j < i ==> (#[trigger] keys@[j])@ == samples@[j].key(),
                forall|j: int| 0 <= j < i ==> (#[trigger] names@[j])@ == samples@[j].process@,
                forall|j: int| 0 <= j < i ==> #[trigger] powers@[j] == samples@[j].power,
            decreases samples@.len() - i,
        {
            keys.push(PidKey::new(samples[i].pid, samples[i].process));
            names.push(samples[i].process.to_string());
            powers.push(samples[i].power);
            i = i + 1;
        }
        proof {
            assert(crate::lists::models(keys@) =~= sample_keys(samples@));
            assert(crate::lists::models(names@) =~= sample_names(samples@));
            assert(powers@ =~= sample_powers(samples@));
        }
        self.by_pid.advance(
            tick,
            &keys,
            &powers,
            false,
            self.max_samples,
            self.stale_after_ticks,
        );
        self.by_name.advance(
            tick,
            &names,
            &powers,
            true,
            self.max_samples,
            self.stale_after_ticks,
        );
    }

    pub fn pid_current(&self, key: &PidKey) -> (value: Binary64)
        requires
            self.wf(),
        ensures
            value == match self@.by_pid.get(key@) {
                Some(series) => series.current(),
                None => Binary64 { bits: 0 },
            },
    {
        match self.by_pid.find(key) {
            Some(i) => self.by_pid.entries[i].series.current(),
            None => Binary64::zero(),
        }
    }

    pub fn pid_avg(&self, key: &PidKey, window_ticks: u64, now_tick: u64) -> (value: Binary64)
        requires
            self.wf(),
        ensures
            value == match self@.by_pid.get(key@) {
                Some(series) => average(
                    window(series.samples, first_tick(window_ticks, now_tick)),
                ),
                None => Binary64 { bits: 0 },
            },
    {
        match self.by_pid.find(key) {
            Some(i) => self.by_pid.entries[i].series.avg_since_tick(
                window_start_tick(window_ticks, now_tick),
            ),
            None => Binary64::zero(),
        }
    }

    pub fn pid_peak(&self, key: &PidKey, window_ticks: u64, now_tick: u64) -> (value: Binary64)
        requires
            self.wf(),
        ensures
            value == match self@.by_pid.get(key@) {
                Some(series) => highest(
                    window(series.samples, first_tick(window_ticks, now_tick)),
                ),
                None => Binary64 { bits: 0 },
            },
    {
        match self.by_pid.find(key) {
            Some(i) => self.by_pid.entries[i].series.peak_since_tick(
                window_start_tick(window_ticks, now_tick),
            ),
            None => Binary64::zero(),
        }
    }

    pub fn pid_recent_values(&self, key: &PidKey, window_ticks: u64, now_tick: u64) -> (values: Vec<
        Binary64,
    >)
        requires
            self.wf(),
        ensures
            values@ == match self@.by_pid.get(key@) {
                Some(series) => window(series.samples, first_tick(window_ticks, now_tick)),
                None => Seq::empty(),
            },
    {
        match self.by_pid.find(key) {
            Some(i) => self.by_pid.entries[i].series.recent_values_since_tick(
                window_start_tick(window_ticks, now_tick),
            ),
            None => Vec::new(),
        }
    }

    pub fn name_current(&self, name: &str) -> (value: Binary64)
        requires
            self.wf(),
        ensures
            value == match self@.by_name.get(name@) {
                Some(series) => series.current(),
                None => Binary64 { bits: 0 },
            },
    {
        match self.by_name.find(&name.to_string()) {
            Some(i) => self.by_name.entries[i].series.current(),
            None => Binary64::zero(),
        }
    }

    pub fn name_avg(&self, name: &str, window_ticks: u64, now_tick: u64) -> (value: Binary64)
        requires
            self.wf(),
        ensures
            value == match self@.by_name.get(name@) {
                Some(series) => average(
                    window(series.samples, first_tick(window_ticks, now_tick)),
                ),
                None => Binary64 { bits: 0 },
            },
    {
        match self.by_name.find(&name.to_string()) {
            Some(i) => self.by_name.entries[i].series.avg_since_tick(
                window_start_tick(window_ticks, now_tick),
            ),
            None => Binary64::zero(),
        }
    }

    pub fn name_peak(&self, name: &str, window_ticks: u64, now_tick: u64) -> (value: Binary64)
        requires
            self.wf(),
        ensures
            value == match self@.by_name.get(name@) {
                Some(series) => highest(
                    window(series.samples, first_tick(window_ticks, now_tick)),
                ),
                None => Binary64 { bits: 0 },
            },
    {
        match self.by_name.find(&name.to_string()) {
            Some(i) => self.by_name.entries[i].series.peak_since_tick(
                window_start_tick(window_ticks, now_tick),
            ),
            None => Binary64::zero(),
        }
    }

    pub fn name_recent_values(&self, name: &str, window_ticks: u64, now_tick: u64) -> (values: Vec<
        Binary64,
    >)
        requires
            self.wf(),
        ensures
            values@ == match self@.by_name.get(name@) {
                Some(series) => window(series.samples, first_tick(window_ticks, now_tick)),
                None => Seq::empty(),
            },
    {
        match self.by_name.find(&name.to_string()) {
            Some(i) => self.by_name.entries[i].series.recent_values_since_tick(
                window_start_tick(window_ticks, now_tick),
            ),
            None => Vec::new(),
        }
    }

    /// The names that draw most, the one that draws most first.
    pub fn top_name_offenders(
        &self,
        now_tick: u64,
        avg_window_ticks: u64,
        peak_window_ticks: u64,
        limit: usize,
    ) -> (offenders: Vec<NameOffenderMetrics>)
        requires
            self.wf(),
        ensures
            ranks_names(
                crate::lists::models(offenders@),
                self@.by_name,
                now_tick,
                avg_window_ticks,
                peak_window_ticks,
                limit as nat,
            ),
    {
        let mut offenders: Vec<NameOffenderMetrics> = Vec::new();
        let mut i: usize = 0;
        while i < self.by_name.entries.len()
            invariant
                self.wf(),
                i <= self.by_name.entries@.len(),
                offenders@.len() == i,
                forall|j: int|
                    0 <= j < i ==> (#[trigger] offenders@[j])@ == offender(
                        self.by_name.entries@[j].key@,
                        self.by_name.entries@[j].series@,
                        now_tick,
                        avg_window_ticks,
                        peak_window_ticks,
                    ),
            decreases self.by_name.entries@.len() - i,
        {
            let series: &Series = &self.by_name.entries[i].series;
            offenders.push(
                NameOffenderMetrics {
                    name: self.by_name.entries[i].key.clone(),
                    current: series.current(),
                    avg: series.avg_since_tick(window_start_tick(avg_window_ticks, now_tick)),
                    peak: series.peak_since_tick(window_start_tick(peak_window_ticks, now_tick)),
                },
            );
            i = i + 1;
        }
        let ghost listed = crate::lists::models(offenders@);
        let before = |a: &NameOffenderMetrics, b: &NameOffenderMetrics| -> (r: bool)
            ensures
                r == offends_more(a@, b@),
        {
            if b.current.is_below(a.current) {
                true
            } else if a.current.is_below(b.current) {
                false
            } else if b.avg.is_below(a.avg) {
                true
            } else if a.avg.is_below(b.avg) {
                false
            } else {
                crate::text::is_before(&a.name, &b.name)
            }
        };
        crate::sort::sort_by(&mut offenders, before, Ghost(offenders_first()));
        let ghost ranked = crate::lists::models(offenders@);
        offenders.truncate(limit);
        proof {
            let ledger = self.by_name;
            assert forall|j: int| 0 <= j < listed.len() implies ledger@.contains_key(
                (#[trigger] listed[j]).name,
            ) && listed[j] == offender(
                listed[j].name,
                ledger@[listed[j].name],
                now_tick,
                avg_window_ticks,
                peak_window_ticks,
            ) by {
                ledger.lemma_at(j);
            }
            assert forall|name: Seq<char>| #[trigger] ledger@.contains_key(name) implies exists|
                j: int,
            | 0 <= j < listed.len() && (#[trigger] listed[j]).name == name by {
                let j = choose|j: int| 0 <= j < ledger.keys().len() && ledger.keys()[j] == name;
                assert(listed[j].name == name);
            }
            assert forall|a: int, b: int| 0 <= a < b < listed.len() implies (
            #[trigger] listed[a]).name != (#[trigger] listed[b]).name by {
                assert(ledger.keys()[a] == listed[a].name);
                assert(ledger.keys()[b] == listed[b].name);
            }
            assert(ledger@.dom() =~= ledger.keys().to_set());
            ledger.keys().unique_seq_to_set();
            vstd::seq_lib::seq_to_set_is_finite(ledger.keys());
            assert(crate::lists::models(offenders@) =~= if ranked.len() <= limit {
                ranked
            } else {
                ranked.take(limit as int)
            });
            lemma_ranked(
                listed,
                ledger@,
                now_tick,
                avg_window_ticks,
                peak_window_ticks,
                limit as nat,
            );
        }
        offenders
    }
}

/// Whether a list holds the names that draw most, as many as there are or as are asked for, each
/// once and with its metrics, in order. Where a metric is no number there is no order to speak of,
/// and only the rest holds.
pub open spec fn ranks_names(
    offenders: Seq<NameOffenderModel>,
    series: Map<Seq<char>, SeriesModel>,
    now_tick: u64,
    avg_window_ticks: u64,
    peak_window_ticks: u64,
    limit: nat,
) -> bool {
    &&& series.dom().finite()
    &&& offenders.len() == if series.dom().len() <= limit {
        series.dom().len()
    } else {
        limit
    }
    &&& forall|i: int|
        0 <= i < offenders.len() ==> series.contains_key((#[trigger] offenders[i]).name)
            && offenders[i] == offender(
            offenders[i].name,
            series[offenders[i].name],
            now_tick,
            avg_window_ticks,
            peak_window_ticks,
        )
    &&& forall|i: int, j: int|
        0 <= i < j < offenders.len() ==> (#[trigger] offenders[i]).name != (
        #[trigger] offenders[j]).name
    &&& all_numbers(series, now_tick, avg_window_ticks) ==> {
        &&& crate::sort::in_order(offenders, offenders_first())
        &&& forall|name: Seq<char>, i: int|
            #![trigger series.contains_key(name), offenders[i]]
            series.contains_key(name) && 0 <= i < offenders.len() && (forall|j: int|
                0 <= j < offenders.len() ==> (#[trigger] offenders[j]).name != name)
                ==> !offends_more(
                offender(name, series[name], now_tick, avg_window_ticks, peak_window_ticks),
                offenders[i],
            )
    }
}

/// Whether no name's present power or average is undefined.
pub open spec fn all_numbers(
    series: Map<Seq<char>, SeriesModel>,
    now_tick: u64,
    avg_window_ticks: u64,
) -> bool {
    forall|name: Seq<char>| #[trigger]
        series.contains_key(name) ==> {
            let metrics = offender(name, series[name], now_tick, avg_window_ticks, 0);
            !metrics.current.nan() && !metrics.avg.nan()
        }
}

proof fn lemma_offends_more(a: NameOffenderModel, b: NameOffenderModel, c: NameOffenderModel)
    requires
        !a.current.nan() && !b.current.nan() && !c.current.nan(),
        !a.avg.nan() && !b.avg.nan() && !c.avg.nan(),
    ensures
        offends_more(a, b) ==> !offends_more(b, a),
        offends_more(a, b) && !offends_more(c, b) ==> offends_more(a, c),
{
    crate::text::law_text_order_is_total(a.name, b.name, c.name);
    crate::text::law_text_order_is_total(b.name, c.name, a.name);
    crate::text::law_text_order_is_total(c.name, a.name, b.name);
    crate::text::law_text_order_is_total(c.name, b.name, a.name);
    crate::text::law_text_order_is_total(b.name, a.name, c.name);
    crate::text::law_text_order_is_total(a.name, c.name, b.name);
}

proof fn lemma_ranked(
    listed: Seq<NameOffenderModel>,
    series: Map<Seq<char>, SeriesModel>,
    now_tick: u64,
    avg_window_ticks: u64,
    peak_window_ticks: u64,
    limit: nat,
)
    requires
        series.dom().finite(),
        series.dom().len() == listed.len(),
        forall|j: int|
            0 <= j < listed.len() ==> series.contains_key((#[trigger] listed[j]).name) && listed[j]
                == offender(
                listed[j].name,
                series[listed[j].name],
                now_tick,
                avg_window_ticks,
                peak_window_ticks,
            ),
        forall|name: Seq<char>| #[trigger]
            series.contains_key(name) ==> exists|j: int|
                0 <= j < listed.len() && (#[trigger] listed[j]).name == name,
        forall|a: int, b: int|
            0 <= a < b < listed.len() ==> (#[trigger] listed[a]).name != (#[trigger] listed[b]).name,
    ensures
        ({
            let ranked = crate::sort::sorted(listed, offenders_first());
            ranks_names(
                if ranked.len() <= limit {
                    ranked
                } else {
                    ranked.take(limit as int)
                },
                series,
                now_tick,
                avg_window_ticks,
                peak_window_ticks,
                limit,
            )
        }),
{
    let lt = offenders_first();
    let ranked = crate::sort::sorted(listed, lt);
    crate::sort::law_sorting_keeps_items(listed, lt);
    assert(listed.no_duplicates()) by {
        assert forall|a: int, b: int|
            0 <= a < listed.len() && 0 <= b < listed.len() && a != b implies listed[a]
            != listed[b] by {
            if a < b {
                assert(listed[a].name != listed[b].name);
            } else {
                assert(listed[b].name != listed[a].name);
            }
        }
    }
    listed.lemma_multiset_has_no_duplicates();
    ranked.lemma_multiset_has_no_duplicates_conv();
    assert forall|i: int| 0 <= i < ranked.len() implies series.contains_key(
        (#[trigger] ranked[i]).name,
    ) && ranked[i] == offender(
        ranked[i].name,
        series[ranked[i].name],
        now_tick,
        avg_window_ticks,
        peak_window_ticks,
    ) by {
        assert(ranked.contains(ranked[i]));
        assert(listed.contains(ranked[i]));
    }
    let out = if ranked.len() <= limit {
        ranked
    } else {
        ranked.take(limit as int)
    };
    assert forall|i: int, j: int| 0 <= i < j < out.len() implies (#[trigger] out[i]).name != (
    #[trigger] out[j]).name by {
        assert(out[i] == ranked[i] && out[j] == ranked[j]);
        if ranked[i].name == ranked[j].name {
            assert(ranked[i] == ranked[j]);
        }
    }
    if all_numbers(series, now_tick, avg_window_ticks) {
        assert forall|a: NameOffenderModel| listed.contains(a) implies !a.current.nan()
            && !a.avg.nan() by {
            let j = choose|j: int| 0 <= j < listed.len() && listed[j] == a;
            assert(series.contains_key(listed[j].name));
        }
        assert(crate::sort::orders(listed, lt)) by {
            assert forall|a: NameOffenderModel, b: NameOffenderModel|
                listed.contains(a) && listed.contains(b) && #[trigger] lt(a, b) implies !lt(
                b,
                a,
            ) by {
                lemma_offends_more(a, b, a);
            }
            assert forall|a: NameOffenderModel, b: NameOffenderModel, c: NameOffenderModel|
                listed.contains(a) && listed.contains(b) && listed.contains(c) && #[trigger] lt(
                    a,
                    b,
                ) && !#[trigger] lt(c, b) implies lt(a, c) by {
                lemma_offends_more(a, b, c);
            }
        }
        crate::sort::law_sorting_orders(listed, lt);
        assert(crate::sort::in_order(out, lt)) by {
            assert forall|i: int, j: int| 0 <= i < j < out.len() implies !lt(
                #[trigger] out[j],
                #[trigger] out[i],
            ) by {
                assert(out[i] == ranked[i] && out[j] == ranked[j]);
            }
        }
        assert forall|name: Seq<char>, i: int|
            #![trigger series.contains_key(name), out[i]]
            series.contains_key(name) && 0 <= i < out.len() && (forall|j: int|
                0 <= j < out.len() ==> (#[trigger] out[j]).name != name) implies !offends_more(
            offender(name, series[name], now_tick, avg_window_ticks, peak_window_ticks),
            out[i],
        ) by {
            let j = choose|j: int| 0 <= j < listed.len() && (#[trigger] listed[j]).name == name;
            assert(listed.contains(listed[j]));
            assert(ranked.contains(listed[j]));
            let k = choose|k: int| 0 <= k < ranked.len() && ranked[k] == listed[j];
            if k < out.len() {
                assert(out[k] == ranked[k]);
            }
            assert(out[i] == ranked[i]);
            assert(!lt(ranked[k], ranked[i]));
        }
    }
}

/// No series holds more samples than it may.
pub proof fn law_series_are_bounded(
    history: HistoryModel,
    tick: u64,
    keys: Seq<PidKeyModel>,
    names: Seq<Seq<char>>,
    powers: Seq<Binary64>,
    key: PidKeyModel,
    name: Seq<char>,
)
    ensures
        ({
            let after = history.updated(tick, keys, names, powers);
            &&& after.by_pid.contains_key(key) ==> after.by_pid[key].samples.len()
                <= history.max_samples
            &&& after.by_name.contains_key(name) ==> after.by_name[name].samples.len()
                <= history.max_samples
        }),
{
}

/// A key that is seen at a tick draws now what was seen of it last, whatever else was seen.
pub proof fn law_seen_key_is_current(
    history: HistoryModel,
    tick: u64,
    keys: Seq<PidKeyModel>,
    names: Seq<Seq<char>>,
    powers: Seq<Binary64>,
    i: int,
)
    requires
        history.max_samples >= 1,
        0 <= i < keys.len() == powers.len(),
        forall|j: int| i < j < keys.len() ==> #[trigger] keys[j] != keys[i],
    ensures
        history.updated(tick, keys, names, powers).by_pid.contains_key(keys[i]),
        history.updated(tick, keys, names, powers).by_pid[keys[i]].current() == powers[i],
        history.updated(tick, keys, names, powers).by_pid[keys[i]].last_seen_tick == tick,
{
    lemma_last_power(keys, powers, i);
}

proof fn lemma_last_power<V>(keys: Seq<V>, powers: Seq<Binary64>, i: int)
    requires
        0 <= i < keys.len(),
        forall|j: int| i < j < keys.len() ==> #[trigger] keys[j] != keys[i],
    ensures
        powers_of(keys, powers, keys[i]).len() > 0,
        powers_of(keys, powers, keys[i]).last() == powers[i],
    decreases keys.len(),
{
    if i < keys.len() - 1 {
        assert(keys[keys.len() - 1] != keys[i]);
        lemma_last_power(keys.drop_last(), powers, i);
    }
}

/// A name that is seen at a tick draws now what came under it, added up.
pub proof fn law_name_draws_the_sum(
    history: HistoryModel,
    tick: u64,
    keys: Seq<PidKeyModel>,
    names: Seq<Seq<char>>,
    powers: Seq<Binary64>,
    name: Seq<char>,
)
    requires
        history.max_samples >= 1,
        names.contains(name),
    ensures
        history.updated(tick, keys, names, powers).by_name.contains_key(name),
        history.updated(tick, keys, names, powers).by_name[name].current()
            == crate::binary64::added_to(Binary64 { bits: 0 }, powers_of(names, powers, name)),
{
    lemma_powers_found(names, powers, name);
    let values = values_of(names, powers, name, true);
    assert(values.drop_last() =~= Seq::empty());
    let start = match history.by_name.get(name) {
        Some(series) => series,
        None => SeriesModel::unused(),
    };
    assert(start.all_pushed(tick, values.drop_last(), history.max_samples) == start);
}

/// A key that is not seen at a tick draws nothing now, and is forgotten once it has not been seen
/// for too long.
pub proof fn law_unseen_key_fades(
    history: HistoryModel,
    tick: u64,
    keys: Seq<PidKeyModel>,
    names: Seq<Seq<char>>,
    powers: Seq<Binary64>,
    key: PidKeyModel,
)
    requires
        history.max_samples >= 1,
        !keys.contains(key),
        history.by_pid.contains_key(key),
    ensures
        ({
            let after = history.updated(tick, keys, names, powers).by_pid;
            let seen = history.by_pid[key].last_seen_tick;
            &&& after.contains_key(key) <==> tick - seen <= history.stale_after_ticks
            &&& after.contains_key(key) ==> after[key].current() == (Binary64 { bits: 0 })
                && after[key].last_seen_tick == seen
        }),
{
    lemma_powers_found(keys, powers, key);
}

/// A peak is zero or one of the values, and no value is above it.
pub proof fn law_peak_bounds_window(values: Seq<Binary64>, i: int)
    requires
        0 <= i < values.len(),
        forall|j: int| 0 <= j < values.len() ==> !(#[trigger] values[j]).nan(),
    ensures
        values[i].le(highest(values)),
        highest(values) == (Binary64 { bits: 0 }) || values.contains(highest(values)),
{
    let back = values.reverse();
    assert forall|j: int| 0 <= j < back.len() implies !(#[trigger] back[j]).nan() by {
        assert(back[j] == values[values.len() - 1 - j]);
    }
    lemma_largest(back, values.len() - 1 - i);
    assert(back[values.len() - 1 - i] == values[i]);
    if highest(values) != (Binary64 { bits: 0 }) {
        let j = choose|j: int| 0 <= j < back.len() && back[j] == highest(values);
        assert(values[values.len() - 1 - j] == highest(values));
    }
}

proof fn lemma_largest(values: Seq<Binary64>, i: int)
    requires
        0 <= i < values.len(),
        forall|j: int| 0 <= j < values.len() ==> !(#[trigger] values[j]).nan(),
    ensures
        !largest(values).nan(),
        values[i].le(largest(values)),
        largest(values) == (Binary64 { bits: 0 }) || values.contains(largest(values)),
    decreases values.len(),
{
    let front = values.drop_last();
    let last = values[values.len() - 1];
    if front.len() > 0 {
        assert forall|j: int| 0 <= j < front.len() implies !(#[trigger] front[j]).nan() by {
            assert(front[j] == values[j]);
        }
        lemma_largest(
            front,
            if i < front.len() {
                i
            } else {
                0
            },
        );
        if front.contains(largest(front)) {
            let j = choose|j: int| 0 <= j < front.len() && front[j] == largest(front);
            assert(values[j] == largest(front));
        }
        if i < front.len() {
            assert(front[i] == values[i]);
        }
    } else {
        assert(!(Binary64 { bits: 0 }).nan()) by {
            assert((Binary64 { bits: 0 }).magnitude() == 0);
        }
    }
    assert(largest(values) == last || largest(values) == largest(front));
    assert(values.contains(values[values.len() - 1]));
}

} // verus!
