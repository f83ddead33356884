//! Reading what the system's `top` prints about processes and their power.
use vstd::prelude::*;

use crate::binary64::Binary64;
use crate::persistence::{LiveSnapshot, LiveSnapshotModel};

verus! {

/// The bits of `10_000.0`.
pub const MAX_REASONABLE_POWER_BITS: u64 = 0x40c3_8800_0000_0000;

/// One row of the process table.
#[derive(Debug, PartialEq)]
pub struct ProcRow {
    pub pid: i32,
    pub process: String,
    pub process_lc: String,
    pub power: String,
    pub power_num: Binary64,
}

#[verifier::ext_equal]
pub struct ProcRowModel {
    pub pid: i32,
    pub process: Seq<char>,
    pub process_lc: Seq<char>,
    pub power: Seq<char>,
    pub power_num: Binary64,
}

impl View for ProcRow {
    type V = ProcRowModel;

    open spec fn view(&self) -> ProcRowModel {
        ProcRowModel {
            pid: self.pid,
            process: self.process@,
            process_lc: self.process_lc@,
            power: self.power@,
            power_num: self.power_num,
        }
    }
}

impl Clone for ProcRow {
    fn clone(&self) -> (copy: Self)
        ensures
            copy@ == self@,
    {
        ProcRow {
            pid: self.pid,
            process: self.process.clone(),
            process_lc: self.process_lc.clone(),
            power: self.power.clone(),
            power_num: self.power_num,
        }
    }
}

/// The rows of one refresh and what they draw together.
#[derive(Debug, PartialEq)]
pub struct Snapshot {
    pub rows: Vec<ProcRow>,
    pub total_power: Binary64,
}

#[verifier::ext_equal]
pub struct SnapshotModel {
    pub rows: Seq<ProcRowModel>,
    pub total_power: Binary64,
}

impl View for Snapshot {
    type V = SnapshotModel;

    open spec fn view(&self) -> SnapshotModel {
        SnapshotModel { rows: crate::lists::models(self.rows@), total_power: self.total_power }
    }
}

impl Clone for Snapshot {
    fn clone(&self) -> (copy: Self)
        ensures
            copy@ == self@,
    {
        Snapshot { rows: crate::lists::copy_all(&self.rows), total_power: self.total_power }
    }
}

pub open spec fn row_powers(rows: Seq<ProcRowModel>) -> Seq<Binary64> {
    Seq::new(rows.len(), |i: int| rows[i].power_num)
}

/// Rows with the sum of their powers.
pub open spec fn snapshot_of(rows: Seq<ProcRowModel>) -> SnapshotModel {
    SnapshotModel { rows, total_power: crate::binary64::total(row_powers(rows)) }
}

/// The row of a process that draws some power.
pub open spec fn row_of(pid: i32, process: Seq<char>, power: Binary64) -> ProcRowModel {
    ProcRowModel {
        pid,
        process,
        process_lc: crate::text::lowercase(process),
        power: crate::decimal::fixed_text(power, 1),
        power_num: power,
    }
}

/// The digits and the first point of the first number in a text, without separating commas. What
/// stands before the number is passed over, and what stands behind it ends it.
pub open spec fn number_text(s: Seq<char>, seen_digit: bool, seen_point: bool) -> Seq<char>
    decreases s.len(),
{
    if s.len() == 0 {
        Seq::empty()
    } else if crate::text::is_digit(s[0]) {
        seq![s[0]] + number_text(s.skip(1), true, seen_point)
    } else if s[0] == ',' {
        if seen_digit {
            number_text(s.skip(1), seen_digit, seen_point)
        } else {
            Seq::empty()
        }
    } else if s[0] == '.' && !seen_point {
        seq!['.'] + number_text(s.skip(1), seen_digit, true)
    } else if seen_digit || seen_point {
        Seq::empty()
    } else {
        number_text(s.skip(1), seen_digit, seen_point)
    }
}

/// The number that a column holds, or zero.
pub open spec fn numeric_value(s: Seq<char>) -> Binary64 {
    match crate::decimal::parsed(number_text(crate::text::trimmed(s), false, false)) {
        Some(value) => value,
        None => Binary64 { bits: 0 },
    }
}

/// A power that a machine may draw, and zero for any other.
pub open spec fn sanitized(value: Binary64) -> Binary64 {
    if crate::persistence::reasonable(value, Binary64 { bits: MAX_REASONABLE_POWER_BITS }) {
        value
    } else {
        Binary64 { bits: 0 }
    }
}

/// The row in a line: a number, a name of one or more words, a power.
pub open spec fn parsed_row(line: Seq<char>) -> Option<ProcRowModel> {
    let parts = crate::text::words(line);
    if parts.len() < 3 {
        None
    } else {
        match crate::text::parsed_i32(parts[0]) {
            Some(pid) => Some(
                row_of(
                    pid,
                    crate::text::joined(parts.subrange(1, parts.len() - 1)),
                    sanitized(numeric_value(parts.last())),
                ),
            ),
            None => None,
        }
    }
}

pub fn parse_numeric_value(s: &str) -> (value: Binary64)
    ensures
        value == numeric_value(s@),
{
    let chars: Vec<char> = crate::text::trim_chars(&crate::text::chars_of(s));
    let mut cleaned: Vec<char> = Vec::new();
    let mut seen_digit: bool = false;
    let mut seen_point: bool = false;
    let mut i: usize = 0;
    let ghost goal = number_text(chars@, false, false);
    proof {
        assert(chars@.skip(0) =~= chars@);
        assert(cleaned@ + goal =~= goal);
    }
    while i < chars.len()
        invariant_except_break
            i <= chars@.len(),
            goal == cleaned@ + number_text(chars@.skip(i as int), seen_digit, seen_point),
        ensures
            goal == cleaned@,
        decreases chars@.len() - i,
    {
        let c: char = chars[i];
        let ghost rest = chars@.skip(i as int);
        proof {
            assert(rest[0] == c);
            assert(rest.skip(1) =~= chars@.skip(i + 1));
        }
        i = i + 1;
        if '0' <= c && c <= '9' {
            proof {
                let tail = number_text(rest.skip(1), true, seen_point);
                assert(cleaned@ + (seq![c] + tail) =~= cleaned@.push(c) + tail);
            }
            cleaned.push(c);
            seen_digit = true;
            continue ;
        }
        if c == ',' {
            if seen_digit {
                continue ;
            }
            proof {
                assert(cleaned@ + Seq::<char>::empty() =~= cleaned@);
            }
            break ;
        }
        if c == '.' && !seen_point {
            proof {
                let tail = number_text(rest.skip(1), seen_digit, true);
                assert(cleaned@ + (seq![c] + tail) =~= cleaned@.push(c) + tail);
            }
            cleaned.push(c);
            seen_point = true;
            continue ;
        }
        if seen_digit || seen_point {
            proof {
                assert(cleaned@ + Seq::<char>::empty() =~= cleaned@);
            }
            break ;
        }
    }
    match crate::decimal::parse(&cleaned) {
        Some(value) => value,
        None => Binary64::zero(),
    }
}

pub fn sanitize_power_value(value: Binary64) -> (clean: Binary64)
    ensures
        clean == sanitized(value),
{
    crate::persistence::sanitize_power(value, Binary64::from_bits(MAX_REASONABLE_POWER_BITS))
}

fn make_row(pid: i32, process: String, power: Binary64) -> (row: ProcRow)
    ensures
        row@ == row_of(pid, process@, power),
{
    let process_lc: String = crate::text::to_lowercase(process.as_str());
    let shown: Vec<char> = crate::decimal::fixed_chars(power, 1);
    ProcRow {
        pid,
        process,
        process_lc,
        power: crate::text::string_of(&shown),
        power_num: power,
    }
}

fn parse_row_chars(line: &Vec<char>) -> (row: Option<ProcRow>)
    ensures
        match parsed_row(line@) {
            Some(model) => row is Some && row->0@ == model,
            None => row is None,
        },
{
    let parts: Vec<Vec<char>> = crate::text::words_of(line);
    let ghost words = crate::text::words(line@);
    if parts.len() < 3 {
        return None;
    }
    proof {
        assert(words[0] == parts@[0]@);
        assert(words.last() == parts@[parts@.len() - 1]@);
    }
    match crate::text::parse_i32(&parts[0]) {
        Some(pid) => {
            let last: String = crate::text::string_of(&parts[parts.len() - 1]);
            let power: Binary64 = sanitize_power_value(parse_numeric_value(last.as_str()));
            let name: Vec<char> = crate::text::join_words(&parts, 1, parts.len() - 1);
            Some(make_row(pid, crate::text::string_of(&name), power))
        },
        None => None,
    }
}

/// Reads a row of the process table.
pub fn parse_row(line: &str) -> (row: Option<ProcRow>)
    ensures
        match parsed_row(line@) {
            Some(model) => row is Some && row->0@ == model,
            None => row is None,
        },
{
    let chars: Vec<char> = crate::text::chars_of(line);
    parse_row_chars(&chars)
}

/// Adds up what the rows draw.
pub fn snapshot_from_rows(rows: Vec<ProcRow>) -> (snapshot: Snapshot)
    ensures
        snapshot@ == snapshot_of(crate::lists::models(rows@)),
{
    let ghost all = row_powers(crate::lists::models(rows@));
    let mut total: Binary64 = Binary64::negative_zero();
    let mut i: usize = 0;
    proof {
        assert(all.take(0) =~= Seq::empty());
    }
    while i < rows.len()
        invariant
            i <= rows@.len(),
            all == row_powers(crate::lists::models(rows@)),
            total == crate::binary64::total(all.take(i as int)),
        decreases rows@.len() - i,
    {
        proof {
            assert(all.take(i + 1).drop_last() =~= all.take(i as int));
            assert(all.take(i + 1).last() == rows@[i as int].power_num);
        }
        total = total.plus(rows[i].power_num);
        i = i + 1;
    }
    proof {
        assert(all.take(i as int) =~= all);
    }
    Snapshot { rows, total_power: total }
}

/// The rows of samples that were kept.
pub open spec fn rows_of_live(live: LiveSnapshotModel) -> Seq<ProcRowModel> {
    Seq::new(
        live.samples.len(),
        |i: int| row_of(live.samples[i].pid, live.samples[i].process, live.samples[i].power),
    )
}

pub fn snapshot_from_live_snapshot(live_snapshot: &LiveSnapshot) -> (snapshot: Snapshot)
    ensures
        snapshot@ == snapshot_of(rows_of_live(live_snapshot@)),
{
    let mut rows: Vec<ProcRow> = Vec::new();
    let mut i: usize = 0;
    while i < live_snapshot.samples.len()
        invariant
            i <= live_snapshot.samples@.len(),
            rows@.len() == i,
            forall|j: int|
                0 <= j < i ==> (#[trigger] rows@[j])@ == rows_of_live(live_snapshot@)[j],
        decreases live_snapshot.samples@.len() - i,
    {
        rows.push(
            make_row(
                live_snapshot.samples[i].pid,
                live_snapshot.samples[i].process.clone(),
                live_snapshot.samples[i].power,
            ),
        );
        i = i + 1;
    }
    proof {
        assert(crate::lists::models(rows@) =~= rows_of_live(live_snapshot@));
    }
    snapshot_from_rows(rows)
}

/// What a reader of the endless output knows.
#[derive(Debug)]
pub struct TopStreamParser {
    excluded_pids: Vec<i32>,
    in_table: bool,
    skipped_warmup: bool,
    rows: Vec<ProcRow>,
}

#[verifier::ext_equal]
pub struct TopStreamModel {
    pub excluded_pids: Seq<i32>,
    pub in_table: bool,
    pub skipped_warmup: bool,
    pub rows: Seq<ProcRowModel>,
}

impl View for TopStreamParser {
    type V = TopStreamModel;

    closed spec fn view(&self) -> TopStreamModel {
        TopStreamModel {
            excluded_pids: self.excluded_pids@,
            in_table: self.in_table,
            skipped_warmup: self.skipped_warmup,
            rows: crate::lists::models(self.rows@),
        }
    }
}

/// Whether a line heads a table.
pub open spec fn is_header(trimmed: Seq<char>) -> bool {
    crate::text::starts_with(trimmed, "PID"@)
}

impl TopStreamModel {
    /// The reader at the end of a table.
    pub open spec fn finished(self) -> TopStreamModel {
        if !self.in_table {
            self
        } else {
            TopStreamModel {
                in_table: false,
                skipped_warmup: true,
                rows: Seq::empty(),
                ..self
            }
        }
    }

    /// The rows that the end of a table gives: none for the first table, whose powers mean nothing.
    pub open spec fn frame(self) -> Option<SnapshotModel> {
        if self.in_table && self.skipped_warmup {
            Some(snapshot_of(self.rows))
        } else {
            None
        }
    }

    /// Whether a line ends the table.
    pub open spec fn ends_table(self, trimmed: Seq<char>) -> bool {
        is_header(trimmed) || (self.in_table && (trimmed.len() == 0 || !crate::text::is_digit(
            trimmed[0],
        )))
    }

    /// The reader after a line.
    pub open spec fn after(self, line: Seq<char>) -> TopStreamModel {
        let trimmed = crate::text::trimmed(line);
        if is_header(trimmed) {
            TopStreamModel { in_table: true, ..self.finished() }
        } else if self.ends_table(trimmed) {
            self.finished()
        } else if !self.in_table {
            self
        } else {
            match parsed_row(trimmed) {
                Some(row) => if self.excluded_pids.contains(row.pid) {
                    self
                } else {
                    TopStreamModel { rows: self.rows.push(row), ..self }
                },
                None => self,
            }
        }
    }

    /// What a line gives: the rows of the table that it ends, nothing, or an error where it is in a
    /// table and no row.
    pub open spec fn outcome(self, line: Seq<char>) -> Result<Option<SnapshotModel>, Seq<char>> {
        let trimmed = crate::text::trimmed(line);
        if self.ends_table(trimmed) {
            Ok(self.frame())
        } else if self.in_table && parsed_row(trimmed) is None {
            Err("unable to parse top row: "@ + trimmed)
        } else {
            Ok(None)
        }
    }
}

fn has_pid(pids: &Vec<i32>, pid: i32) -> (found: bool)
    ensures
        found == pids@.contains(pid),
{
    let mut i: usize = 0;
    while i < pids.len()
        invariant
            i <= pids@.len(),
            forall|j: int| 0 <= j < i ==> #[trigger] pids@[j] != pid,
        decreases pids@.len() - i,
    {
        if pids[i] == pid {
            return true;
        }
        i = i + 1;
    }
    false
}

impl TopStreamParser {
    pub fn new(excluded_pids: Vec<i32>) -> (parser: TopStreamParser)
        ensures
            parser@ == (TopStreamModel {
                excluded_pids: excluded_pids@,
                in_table: false,
                skipped_warmup: false,
                rows: Seq::empty(),
            }),
    {
        TopStreamParser {
            excluded_pids,
            in_table: false,
            skipped_warmup: false,
            rows: Vec::new(),
        }
    }

    /// Reads one more line.
    pub fn push_line(&mut self, line: &str) -> (r: Result<Option<Snapshot>, String>)
        ensures
            final(self)@ == old(self)@.after(line@),
            match old(self)@.outcome(line@) {
                Ok(Some(snapshot)) => r matches Ok(Some(s)) && s@ == snapshot,
                Ok(None) => r matches Ok(None),
                Err(message) => r is Err && r->Err_0@ == message,
            },
    {
        let trimmed: Vec<char> = crate::text::trim_chars(&crate::text::chars_of(line));
        if crate::text::starts_with_chars(&trimmed, &crate::text::chars_of("PID")) {
            let finished: Option<Snapshot> = self.finish_frame();
            self.in_table = true;
            return Ok(finished);
        }
        if !self.in_table {
            return Ok(None);
        }
        if trimmed.len() == 0 {
            return Ok(self.finish_frame());
        }
        let first: char = trimmed[0];
        if !('0' <= first && first <= '9') {
            return Ok(self.finish_frame());
        }
        match parse_row_chars(&trimmed) {
            Some(row) => {
                let ghost before = self.rows@;
                if !has_pid(&self.excluded_pids, row.pid) {
                    self.rows.push(row);
                    proof {
                        assert(crate::lists::models(self.rows@) =~= crate::lists::models(
                            before,
                        ).push(row@));
                    }
                }
                Ok(None)
            },
            None => {
                let mut message: Vec<char> = crate::text::chars_of("unable to parse top row: ");
                let mut rest: Vec<char> = trimmed;
                message.append(&mut rest);
                Err(crate::text::string_of(&message))
            },
        }
    }

    /// The rows of the table at the end of the output.
    pub fn finish_stream(&mut self) -> (r: Option<Snapshot>)
        ensures
            final(self)@ == old(self)@.finished(),
            match old(self)@.frame() {
                Some(snapshot) => r is Some && r->0@ == snapshot,
                None => r is None,
            },
    {
        self.finish_frame()
    }

    fn finish_frame(&mut self) -> (r: Option<Snapshot>)
        ensures
            final(self)@ == old(self)@.finished(),
            match old(self)@.frame() {
                Some(snapshot) => r is Some && r->0@ == snapshot,
                None => r is None,
            },
    {
        if !self.in_table {
            return None;
        }
        self.in_table = false;
        let mut rows: Vec<ProcRow> = Vec::new();
        rows.append(&mut self.rows);
        proof {
            assert(crate::lists::models(self.rows@) =~= Seq::empty());
        }
        if !self.skipped_warmup {
            self.skipped_warmup = true;
            return None;
        }
        Some(snapshot_from_rows(rows))
    }
}

/// What is known of the last table of a whole output.
#[verifier::ext_equal]
pub struct TableModel {
    pub in_table: bool,
    pub rows: Seq<ProcRowModel>,
}

impl TableModel {
    pub open spec fn after(self, line: Seq<char>, excluded_pids: Seq<i32>) -> TableModel {
        let trimmed = crate::text::trimmed(line);
        if is_header(trimmed) {
            TableModel { in_table: true, rows: Seq::empty() }
        } else if !self.in_table || trimmed.len() == 0 || !crate::text::is_digit(trimmed[0]) {
            self
        } else {
            match parsed_row(trimmed) {
                Some(row) => if excluded_pids.contains(row.pid) {
                    self
                } else {
                    TableModel { rows: self.rows.push(row), ..self }
                },
                None => self,
            }
        }
    }
}

/// The last table after some lines.
pub open spec fn table_after(lines: Seq<Seq<char>>, excluded_pids: Seq<i32>) -> TableModel
    decreases lines.len(),
{
    if lines.len() == 0 {
        TableModel { in_table: false, rows: Seq::empty() }
    } else {
        table_after(lines.drop_last(), excluded_pids).after(lines.last(), excluded_pids)
    }
}

/// The rows of the last table in a whole output: each header starts over. `top` prints two, and
/// only the second has powers that mean something.
pub fn parse_second_sample_excluding(raw: &str, excluded_pids: &Vec<i32>) -> (rows: Vec<ProcRow>)
    ensures
        crate::lists::models(rows@) == table_after(
            crate::text::lines(raw@),
            excluded_pids@,
        ).rows,
{
    let lines: Vec<Vec<char>> = crate::text::lines_of(&crate::text::chars_of(raw));
    let header: Vec<char> = crate::text::chars_of("PID");
    let ghost all = crate::text::lines(raw@);
    let mut rows: Vec<ProcRow> = Vec::new();
    let mut in_table: bool = false;
    let mut i: usize = 0;
    proof {
        assert(all.take(0) =~= Seq::empty());
        assert(crate::lists::models(rows@) =~= Seq::empty());
    }
    while i < lines.len()
        invariant
            i <= lines@.len(),
            all == crate::lists::models(lines@),
            header@ == "PID"@,
            in_table == table_after(all.take(i as int), excluded_pids@).in_table,
            crate::lists::models(rows@) == table_after(all.take(i as int), excluded_pids@).rows,
        decreases lines@.len() - i,
    {
        let trimmed: Vec<char> = crate::text::trim_chars(&lines[i]);
        proof {
            assert(all.take(i + 1).drop_last() =~= all.take(i as int));
            assert(all.take(i + 1).last() == lines@[i as int]@);
        }
        if crate::text::starts_with_chars(&trimmed, &header) {
            rows = Vec::new();
            in_table = true;
            proof {
                assert(crate::lists::models(rows@) =~= Seq::empty());
            }
        } else if in_table && trimmed.len() > 0 && '0' <= trimmed[0] && trimmed[0] <= '9' {
            match parse_row_chars(&trimmed) {
                Some(row) => {
                    if !has_pid(excluded_pids, row.pid) {
                        let ghost before = rows@;
                        rows.push(row);
                        proof {
                            assert(crate::lists::models(rows@) =~= crate::lists::models(
                                before,
                            ).push(row@));
                        }
                    }
                },
                None => {},
            }
        }
        i = i + 1;
    }
    proof {
        assert(all.take(i as int) =~= all);
    }
    rows
}

/// The rows of the second table in a whole output, and what they draw together.
pub fn second_sample_snapshot(raw: &str, excluded_pids: &Vec<i32>) -> (snapshot: Snapshot)
    ensures
        snapshot@ == snapshot_of(
            table_after(crate::text::lines(raw@), excluded_pids@).rows,
        ),
{
    snapshot_from_rows(parse_second_sample_excluding(raw, excluded_pids))
}

/// What is said of a `top` that failed, given what it complained of.
pub fn command_failure(complaint: &str) -> (message: String)
    ensures
        message@ == "top command failed: "@ + crate::text::trimmed(complaint@),
{
    let mut message: Vec<char> = crate::text::chars_of("top command failed: ");
    let mut rest: Vec<char> = crate::text::trim_chars(&crate::text::chars_of(complaint));
    message.append(&mut rest);
    crate::text::string_of(&message)
}

/// Whether rows are what a reader may hold: none of an excluded process, and each with a
/// reasonable power.
pub open spec fn clean_rows(rows: Seq<ProcRowModel>, excluded_pids: Seq<i32>) -> bool {
    forall|i: int|
        0 <= i < rows.len() ==> !excluded_pids.contains((#[trigger] rows[i]).pid)
            && crate::persistence::reasonable(
            rows[i].power_num,
            Binary64 { bits: MAX_REASONABLE_POWER_BITS },
        )
}

proof fn lemma_row_is_reasonable(line: Seq<char>)
    ensures
        parsed_row(line) matches Some(row) ==> crate::persistence::reasonable(
            row.power_num,
            Binary64 { bits: MAX_REASONABLE_POWER_BITS },
        ),
{
    let zero = Binary64 { bits: 0 };
    let max = Binary64 { bits: MAX_REASONABLE_POWER_BITS };
    assert(zero.magnitude() == 0 && max.magnitude() == MAX_REASONABLE_POWER_BITS);
}

/// No line brings in a row of an excluded process, or one with a power that no machine draws.
pub proof fn law_rows_stay_clean(parser: TopStreamModel, line: Seq<char>)
    requires
        clean_rows(parser.rows, parser.excluded_pids),
    ensures
        clean_rows(parser.after(line).rows, parser.excluded_pids),
        parser.after(line).excluded_pids == parser.excluded_pids,
        parser.outcome(line) matches Ok(Some(snapshot)) ==> clean_rows(
            snapshot.rows,
            parser.excluded_pids,
        ),
{
    lemma_row_is_reasonable(crate::text::trimmed(line));
}

/// The first table gives no rows, and every later one does.
pub proof fn law_only_the_first_table_is_skipped(parser: TopStreamModel, line: Seq<char>)
    ensures
        !parser.skipped_warmup ==> !(parser.outcome(line) matches Ok(Some(_))),
        parser.skipped_warmup && parser.in_table && parser.ends_table(crate::text::trimmed(line))
            ==> parser.outcome(line) == Ok::<_, Seq<char>>(Some(snapshot_of(parser.rows))),
        parser.skipped_warmup ==> parser.after(line).skipped_warmup,
{
}

/// A header starts over: what stood before it does not matter.
pub proof fn law_only_the_last_table_counts(
    before: Seq<Seq<char>>,
    instead: Seq<Seq<char>>,
    header: Seq<char>,
    rest: Seq<Seq<char>>,
    excluded_pids: Seq<i32>,
)
    requires
        is_header(crate::text::trimmed(header)),
    ensures
        table_after(before.push(header) + rest, excluded_pids) == table_after(
            instead.push(header) + rest,
            excluded_pids,
        ),
    decreases rest.len(),
{
    let a = before.push(header) + rest;
    let b = instead.push(header) + rest;
    if rest.len() == 0 {
        assert(a.drop_last() =~= before && b.drop_last() =~= instead);
        assert(a.last() == header && b.last() == header);
    } else {
        let front = rest.drop_last();
        assert(a.drop_last() =~= before.push(header) + front);
        assert(b.drop_last() =~= instead.push(header) + front);
        assert(a.last() == rest.last() && b.last() == rest.last());
        law_only_the_last_table_counts(before, instead, header, front, excluded_pids);
    }
}

/// A table holds no row of an excluded process, and none with a power that no machine draws.
pub proof fn law_table_is_clean(lines: Seq<Seq<char>>, excluded_pids: Seq<i32>)
    ensures
        clean_rows(table_after(lines, excluded_pids).rows, excluded_pids),
    decreases lines.len(),
{
    if lines.len() > 0 {
        law_table_is_clean(lines.drop_last(), excluded_pids);
        lemma_row_is_reasonable(crate::text::trimmed(lines.last()));
    }
}

} // verus!
