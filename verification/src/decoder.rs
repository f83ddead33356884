//! Reading a session cache back.
use std::collections::VecDeque;

use vstd::prelude::*;
use vstd::utf8::*;

use crate::binary64::Binary64;
use crate::codec::{
    DecodeError, DecodeErrorModel, Field, CACHE_VERSION, CACHE_VERSION_V2, MAX_GROUPS_PER_SAMPLE,
    MAX_SNAPSHOT_ROWS, MAX_STRING_BYTES, MAX_TIER_SAMPLES,
};
use crate::persistence::{
    ArchiveState, ArchiveStateModel, GroupPowerSum, GroupPowerSumModel, Interval,
    LiveProcessSample, LiveProcessSampleModel, LiveSnapshot, LiveSnapshotModel, LoadedSessionCache,
    LoadedSessionCacheModel, SessionCache, SessionCacheModel, TierSample, TierSampleModel,
    MAX_LIVE_POWER_POINTS, MAX_LIVE_SNAPSHOTS, MAX_REASONABLE_PERSISTED_POWER_BITS,
};

verus! {

/// What was read and the bytes behind it, or why it could not be read.
pub type Parsed<V> = Result<(V, Seq<u8>), DecodeErrorModel>;

/// The message of the error that `String::from_utf8` gives for bytes that are no UTF-8.
pub uninterp spec fn utf8_error_text(bytes: Seq<u8>) -> Seq<char>;

/// Calls `String::from_utf8`: valid UTF-8 gives the text that it encodes, and other bytes an error
/// whose message depends on them alone.
#[verifier::external_body]
fn text_from_utf8(bytes: Vec<u8>) -> (r: Result<String, String>)
    ensures
        r is Ok <==> valid_utf8(bytes@),
        r matches Ok(text) ==> text@ == decode_utf8(bytes@),
        r matches Err(message) ==> message@ == utf8_error_text(bytes@),
{
    String::from_utf8(bytes).map_err(|err| format!("{}", err))
}

/// The first `n` bytes.
pub open spec fn parse_bytes(s: Seq<u8>, n: nat) -> Parsed<Seq<u8>> {
    if s.len() < n {
        Err(DecodeErrorModel::UnexpectedEnd)
    } else {
        Ok((s.take(n as int), s.skip(n as int)))
    }
}

/// The number in the first `n` bytes.
pub open spec fn parse_number(s: Seq<u8>, n: nat) -> Parsed<nat> {
    match parse_bytes(s, n) {
        Ok((bytes, rest)) => Ok((crate::codec::le_value(bytes), rest)),
        Err(e) => Err(e),
    }
}

pub open spec fn parse_power(s: Seq<u8>) -> Parsed<Binary64> {
    match parse_number(s, 8) {
        Ok((bits, rest)) => Ok((Binary64 { bits: bits as u64 }, rest)),
        Err(e) => Err(e),
    }
}

pub open spec fn parse_bool(s: Seq<u8>) -> Parsed<bool> {
    match parse_number(s, 1) {
        Ok((value, rest)) => if value == 0 {
            Ok((false, rest))
        } else if value == 1 {
            Ok((true, rest))
        } else {
            Err(DecodeErrorModel::InvalidBool(value as u8))
        },
        Err(e) => Err(e),
    }
}

/// A length of at most `max`.
pub open spec fn parse_len(s: Seq<u8>, max: usize, field: Field) -> Parsed<nat> {
    match parse_number(s, 4) {
        Ok((value, rest)) => if value > max {
            Err(DecodeErrorModel::LengthExceedsMax { field, value: value as u32, max })
        } else {
            Ok((value, rest))
        },
        Err(e) => Err(e),
    }
}

/// A text of at most `max` bytes behind their number.
pub open spec fn parse_text(s: Seq<u8>, max: usize) -> Parsed<Seq<char>> {
    match parse_len(s, max, Field::Text) {
        Ok((len, rest)) => match parse_bytes(rest, len) {
            Ok((bytes, rest)) => if valid_utf8(bytes) {
                Ok((decode_utf8(bytes), rest))
            } else {
                Err(DecodeErrorModel::Utf8(utf8_error_text(bytes)))
            },
            Err(e) => Err(e),
        },
        Err(e) => Err(e),
    }
}

/// `n` items one behind the other.
pub open spec fn parse_list<V>(
    s: Seq<u8>,
    n: nat,
    one: spec_fn(Seq<u8>) -> Parsed<V>,
) -> Parsed<Seq<V>>
    decreases n,
{
    if n == 0 {
        Ok((Seq::empty(), s))
    } else {
        match parse_list(s, (n - 1) as nat, one) {
            Ok((items, rest)) => match one(rest) {
                Ok((item, rest)) => Ok((items.push(item), rest)),
                Err(e) => Err(e),
            },
            Err(e) => Err(e),
        }
    }
}

/// Items behind their number, which is at most `max`.
pub open spec fn parse_counted<V>(
    s: Seq<u8>,
    max: usize,
    field: Field,
    one: spec_fn(Seq<u8>) -> Parsed<V>,
) -> Parsed<Seq<V>> {
    match parse_len(s, max, field) {
        Ok((len, rest)) => parse_list(rest, len, one),
        Err(e) => Err(e),
    }
}

pub open spec fn power_parser() -> spec_fn(Seq<u8>) -> Parsed<Binary64> {
    |s: Seq<u8>| parse_power(s)
}

pub open spec fn parse_sample(s: Seq<u8>) -> Parsed<LiveProcessSampleModel> {
    match parse_number(s, 4) {
        Ok((word, rest)) => match parse_text(rest, MAX_STRING_BYTES) {
            Ok((process, rest)) => match parse_power(rest) {
                Ok((power, rest)) => Ok(
                    (
                        LiveProcessSampleModel { pid: crate::codec::signed(word), process, power },
                        rest,
                    ),
                ),
                Err(e) => Err(e),
            },
            Err(e) => Err(e),
        },
        Err(e) => Err(e),
    }
}

pub open spec fn sample_parser() -> spec_fn(Seq<u8>) -> Parsed<LiveProcessSampleModel> {
    |s: Seq<u8>| parse_sample(s)
}

pub open spec fn parse_snapshot(s: Seq<u8>) -> Parsed<LiveSnapshotModel> {
    match parse_number(s, 8) {
        Ok((tick, rest)) => match parse_counted(
            rest,
            MAX_SNAPSHOT_ROWS,
            Field::SnapshotRows,
            sample_parser(),
        ) {
            Ok((samples, rest)) => Ok((LiveSnapshotModel { tick: tick as u64, samples }, rest)),
            Err(e) => Err(e),
        },
        Err(e) => Err(e),
    }
}

pub open spec fn snapshot_parser() -> spec_fn(Seq<u8>) -> Parsed<LiveSnapshotModel> {
    |s: Seq<u8>| parse_snapshot(s)
}

pub open spec fn parse_group(s: Seq<u8>) -> Parsed<GroupPowerSumModel> {
    match parse_text(s, MAX_STRING_BYTES) {
        Ok((name, rest)) => match parse_power(rest) {
            Ok((power_sum, rest)) => Ok((GroupPowerSumModel { name, power_sum }, rest)),
            Err(e) => Err(e),
        },
        Err(e) => Err(e),
    }
}

pub open spec fn group_parser() -> spec_fn(Seq<u8>) -> Parsed<GroupPowerSumModel> {
    |s: Seq<u8>| parse_group(s)
}

/// Whether a gap lies before a bucket, which only the third version says.
pub open spec fn parse_gap(s: Seq<u8>, version: u16) -> Parsed<bool> {
    if version == CACHE_VERSION {
        parse_bool(s)
    } else {
        Ok((false, s))
    }
}

pub open spec fn parse_bucket(s: Seq<u8>, version: u16) -> Parsed<TierSampleModel> {
    match parse_number(s, 8) {
        Ok((start, rest)) => match parse_number(rest, 4) {
            Ok((count, rest)) => match parse_power(rest) {
                Ok((total, rest)) => match parse_counted(
                    rest,
                    MAX_GROUPS_PER_SAMPLE,
                    Field::GroupedSamples,
                    group_parser(),
                ) {
                    Ok((groups, rest)) => match parse_gap(rest, version) {
                        Ok((gap_before, rest)) => Ok(
                            (
                                TierSampleModel {
                                    bucket_start_secs: start as u64,
                                    sample_count: count as u32,
                                    total_power_sum: total,
                                    groups,
                                    processes: Seq::empty(),
                                    gap_before,
                                },
                                rest,
                            ),
                        ),
                        Err(e) => Err(e),
                    },
                    Err(e) => Err(e),
                },
                Err(e) => Err(e),
            },
            Err(e) => Err(e),
        },
        Err(e) => Err(e),
    }
}

pub open spec fn bucket_parser(version: u16) -> spec_fn(Seq<u8>) -> Parsed<TierSampleModel> {
    |s: Seq<u8>| parse_bucket(s, version)
}

pub open spec fn parse_tier(s: Seq<u8>, version: u16) -> Parsed<Seq<TierSampleModel>> {
    parse_counted(s, MAX_TIER_SAMPLES, Field::TierSamples, bucket_parser(version))
}

#[verifier::ext_equal]
pub struct Header {
    pub version: u16,
    pub saved_at_unix_millis: u64,
    pub last_tick: u64,
    pub last_sample_unix_secs: Option<u64>,
}

/// The version behind the magic bytes.
pub open spec fn parse_version(s: Seq<u8>) -> Parsed<u16> {
    match parse_bytes(s, 8) {
        Ok((bytes, rest)) => if bytes != crate::codec::magic() {
            Err(DecodeErrorModel::InvalidMagic)
        } else {
            match parse_number(rest, 2) {
                Ok((version, rest)) => if version != CACHE_VERSION_V2 && version != CACHE_VERSION {
                    Err(DecodeErrorModel::UnsupportedVersion(version as u16))
                } else {
                    Ok((version as u16, rest))
                },
                Err(e) => Err(e),
            }
        },
        Err(e) => Err(e),
    }
}

pub open spec fn parse_header(s: Seq<u8>) -> Parsed<Header> {
    match parse_version(s) {
        Ok((version, rest)) => match parse_number(rest, 8) {
            Ok((saved_at, rest)) => match parse_number(rest, 8) {
                Ok((last_tick, rest)) => match parse_number(rest, 8) {
                    Ok((last_sample, rest)) => Ok(
                        (
                            Header {
                                version,
                                saved_at_unix_millis: saved_at as u64,
                                last_tick: last_tick as u64,
                                last_sample_unix_secs: if last_sample == 0 {
                                    None
                                } else {
                                    Some(last_sample as u64)
                                },
                            },
                            rest,
                        ),
                    ),
                    Err(e) => Err(e),
                },
                Err(e) => Err(e),
            },
            Err(e) => Err(e),
        },
        Err(e) => Err(e),
    }
}

pub open spec fn parse_archive(
    s: Seq<u8>,
    version: u16,
    last_sample_unix_secs: Option<u64>,
) -> Parsed<ArchiveStateModel> {
    match parse_tier(s, version) {
        Ok((raw_2s, rest)) => match parse_tier(rest, version) {
            Ok((agg_10s, rest)) => match parse_tier(rest, version) {
                Ok((agg_60s, rest)) => Ok(
                    (
                        (ArchiveStateModel {
                            raw_2s,
                            agg_10s,
                            agg_60s,
                            last_sample_unix_secs,
                        }).within_bounds(),
                        rest,
                    ),
                ),
                Err(e) => Err(e),
            },
            Err(e) => Err(e),
        },
        Err(e) => Err(e),
    }
}

/// The cache at the front of some bytes. What stands behind it is left alone.
pub open spec fn parse_session(s: Seq<u8>) -> Parsed<SessionCacheModel> {
    match parse_header(s) {
        Ok((header, rest)) => match parse_counted(
            rest,
            MAX_LIVE_POWER_POINTS,
            Field::LivePowerHistory,
            power_parser(),
        ) {
            Ok((powers, rest)) => match parse_counted(
                rest,
                MAX_LIVE_SNAPSHOTS,
                Field::LiveSnapshots,
                snapshot_parser(),
            ) {
                Ok((snapshots, rest)) => match parse_archive(
                    rest,
                    header.version,
                    header.last_sample_unix_secs,
                ) {
                    Ok((archive, rest)) => Ok(
                        (
                            SessionCacheModel {
                                saved_at_unix_millis: header.saved_at_unix_millis,
                                last_tick: header.last_tick,
                                live_power_history: powers,
                                live_snapshots: snapshots,
                                archive,
                            },
                            rest,
                        ),
                    ),
                    Err(e) => Err(e),
                },
                Err(e) => Err(e),
            },
            Err(e) => Err(e),
        },
        Err(e) => Err(e),
    }
}

/// Bytes, and how many of them have been read.
pub struct ByteReader {
    bytes: Vec<u8>,
    at: usize,
}

impl View for ByteReader {
    type V = Seq<u8>;

    /// The bytes that are left.
    closed spec fn view(&self) -> Seq<u8> {
        if self.at <= self.bytes@.len() {
            self.bytes@.skip(self.at as int)
        } else {
            Seq::empty()
        }
    }
}

/// Whether a read gave what stands at the front of the bytes, and left those behind it.
pub open spec fn agrees<T: View>(
    r: Result<T, DecodeError>,
    after: Seq<u8>,
    parsed: Parsed<T::V>,
) -> bool {
    match parsed {
        Ok((value, rest)) => r is Ok && r->Ok_0@ == value && after == rest,
        Err(e) => r is Err && r->Err_0@ == e,
    }
}

impl ByteReader {
    pub fn new(bytes: Vec<u8>) -> (reader: ByteReader)
        ensures
            reader@ == bytes@,
    {
        let reader = ByteReader { bytes, at: 0 };
        proof {
            assert(reader@ =~= bytes@);
        }
        reader
    }

    fn take(&mut self, n: usize) -> (r: Result<Vec<u8>, DecodeError>)
        ensures
            agrees(r, final(self)@, parse_bytes(old(self)@, n as nat)),
    {
        if n == 0 {
            let none: Vec<u8> = Vec::new();
            proof {
                assert(self@.skip(0) =~= self@);
                assert(none@ =~= self@.take(0));
            }
            return Ok(none);
        }
        if self.at > self.bytes.len() || self.bytes.len() - self.at < n {
            return Err(DecodeError::UnexpectedEnd);
        }
        let mut out: Vec<u8> = Vec::new();
        let mut i: usize = 0;
        let ghost left = self@;
        while i < n
            invariant
                i <= n,
                *self == *old(self),
                left == self@,
                self.at + n <= self.bytes.len(),
                out@ == left.take(i as int),
            decreases n - i,
        {
            proof {
                assert(left.take(i + 1) =~= left.take(i as int).push(self.bytes@[self.at + i]));
            }
            out.push(self.bytes[self.at + i]);
            i = i + 1;
        }
        self.at = self.at + n;
        proof {
            assert(self@ =~= left.skip(n as int));
        }
        Ok(out)
    }
}

/// Reads a number of at most eight bytes.
fn read_number(reader: &mut ByteReader, n: usize) -> (r: Result<u64, DecodeError>)
    requires
        n <= 8,
    ensures
        match parse_number(old(reader)@, n as nat) {
            Ok((value, rest)) => r is Ok && r->Ok_0 == value && final(reader)@ == rest && value
                < crate::codec::byte_range(n as nat),
            Err(e) => r is Err && r->Err_0@ == e,
        },
{
    let bytes: Vec<u8> = match reader.take(n) {
        Ok(bytes) => bytes,
        Err(e) => {
            return Err(e);
        },
    };
    let mut value: u64 = 0;
    let mut i: usize = bytes.len();
    proof {
        assert(bytes@.skip(bytes@.len() as int) =~= Seq::empty());
        crate::codec::lemma_le_value_below(bytes@);
    }
    while i > 0
        invariant
            i <= bytes@.len() <= 8,
            value == crate::codec::le_value(bytes@.skip(i as int)),
        decreases i,
    {
        i = i - 1;
        proof {
            let tail = bytes@.skip(i as int);
            assert(tail.skip(1) =~= bytes@.skip(i + 1));
            crate::codec::lemma_le_value_below(tail);
            reveal_with_fuel(crate::codec::byte_range, 9);
            assert(crate::codec::byte_range(tail.len()) <= 0x1_0000_0000_0000_0000);
        }
        value = value * 256 + bytes[i] as u64;
    }
    proof {
        assert(bytes@.skip(0) =~= bytes@);
    }
    Ok(value)
}

fn read_u16(reader: &mut ByteReader) -> (r: Result<u16, DecodeError>)
    ensures
        match parse_number(old(reader)@, 2) {
            Ok((value, rest)) => r is Ok && r->Ok_0 == value && final(reader)@ == rest,
            Err(e) => r is Err && r->Err_0@ == e,
        },
{
    proof {
        crate::codec::lemma_ranges();
    }
    match read_number(reader, 2) {
        Ok(value) => Ok(value as u16),
        Err(e) => Err(e),
    }
}

fn read_u32(reader: &mut ByteReader) -> (r: Result<u32, DecodeError>)
    ensures
        match parse_number(old(reader)@, 4) {
            Ok((value, rest)) => r is Ok && r->Ok_0 == value && final(reader)@ == rest,
            Err(e) => r is Err && r->Err_0@ == e,
        },
{
    proof {
        crate::codec::lemma_ranges();
    }
    match read_number(reader, 4) {
        Ok(value) => Ok(value as u32),
        Err(e) => Err(e),
    }
}

fn read_u64(reader: &mut ByteReader) -> (r: Result<u64, DecodeError>)
    ensures
        match parse_number(old(reader)@, 8) {
            Ok((value, rest)) => r is Ok && r->Ok_0 == value && final(reader)@ == rest,
            Err(e) => r is Err && r->Err_0@ == e,
        },
{
    read_number(reader, 8)
}

fn read_i32(reader: &mut ByteReader) -> (r: Result<i32, DecodeError>)
    ensures
        match parse_number(old(reader)@, 4) {
            Ok((word, rest)) => r is Ok && r->Ok_0 == crate::codec::signed(word) && final(reader)@
                == rest,
            Err(e) => r is Err && r->Err_0@ == e,
        },
{
    match read_u32(reader) {
        Ok(word) => Ok(
            if word < 0x8000_0000 {
                word as i32
            } else {
                (word as i64 - 0x1_0000_0000) as i32
            },
        ),
        Err(e) => Err(e),
    }
}

fn read_f64(reader: &mut ByteReader) -> (r: Result<Binary64, DecodeError>)
    ensures
        agrees(r, final(reader)@, parse_power(old(reader)@)),
{
    match read_u64(reader) {
        Ok(bits) => Ok(Binary64::from_bits(bits)),
        Err(e) => Err(e),
    }
}

/// Reads a byte that is zero or one. Another byte is read too, and refused.
pub fn read_bool(reader: &mut ByteReader) -> (r: Result<bool, DecodeError>)
    ensures
        agrees(r, final(reader)@, parse_bool(old(reader)@)),
        old(reader)@.len() >= 1 ==> final(reader)@ == old(reader)@.skip(1),
{
    proof {
        crate::codec::lemma_ranges();
    }
    match read_number(reader, 1) {
        Ok(value) => if value == 0 {
            Ok(false)
        } else if value == 1 {
            Ok(true)
        } else {
            Err(DecodeError::InvalidBool(value as u8))
        },
        Err(e) => Err(e),
    }
}

/// Reads a length. Its four bytes are read also where it is too large.
pub fn read_len(
    reader: &mut ByteReader,
    max: usize,
    field: Field,
) -> (r: Result<usize, DecodeError>)
    ensures
        match parse_len(old(reader)@, max, field) {
            Ok((len, rest)) => r is Ok && r->Ok_0 == len && len <= max && final(reader)@ == rest,
            Err(e) => r is Err && r->Err_0@ == e,
        },
        old(reader)@.len() >= 4 ==> final(reader)@ == old(reader)@.skip(4),
{
    match read_u32(reader) {
        Ok(value) => if value as u64 > max as u64 {
            Err(DecodeError::LengthExceedsMax { field, value, max })
        } else {
            Ok(value as usize)
        },
        Err(e) => Err(e),
    }
}

/// Reads a text. Where it is too long only its length is read; where its bytes are no UTF-8, they
/// are read too.
pub fn read_string(reader: &mut ByteReader, max_bytes: usize) -> (r: Result<String, DecodeError>)
    ensures
        agrees(r, final(reader)@, parse_text(old(reader)@, max_bytes)),
        r matches Err(DecodeError::LengthExceedsMax { .. }) ==> final(reader)@ == old(
            reader,
        )@.skip(4),
        r matches Err(DecodeError::Utf8(_)) ==> final(reader)@ == old(reader)@.skip(
            4 + (parse_number(old(reader)@, 4)->Ok_0).0 as int,
        ),
{
    let len: usize = match read_len(reader, max_bytes, Field::Text) {
        Ok(len) => len,
        Err(e) => {
            return Err(e);
        },
    };
    let bytes: Vec<u8> = match reader.take(len) {
        Ok(bytes) => bytes,
        Err(e) => {
            return Err(e);
        },
    };
    match text_from_utf8(bytes) {
        Ok(text) => Ok(text),
        Err(message) => Err(DecodeError::Utf8(message)),
    }
}

proof fn lemma_list_fails<V>(
    s: Seq<u8>,
    k: nat,
    n: nat,
    one: spec_fn(Seq<u8>) -> Parsed<V>,
)
    requires
        k <= n,
        parse_list(s, k, one) is Err,
    ensures
        parse_list(s, n, one) == parse_list(s, k, one),
    decreases n,
{
    if k < n {
        lemma_list_fails(s, k, (n - 1) as nat, one);
    }
}

fn read_sample(reader: &mut ByteReader) -> (r: Result<LiveProcessSample, DecodeError>)
    ensures
        agrees(r, final(reader)@, parse_sample(old(reader)@)),
{
    let pid: i32 = match read_i32(reader) {
        Ok(pid) => pid,
        Err(e) => {
            return Err(e);
        },
    };
    let process: String = match read_string(reader, MAX_STRING_BYTES) {
        Ok(process) => process,
        Err(e) => {
            return Err(e);
        },
    };
    match read_f64(reader) {
        Ok(power) => Ok(LiveProcessSample { pid, process, power }),
        Err(e) => Err(e),
    }
}

fn read_powers(reader: &mut ByteReader) -> (r: Result<Vec<Binary64>, DecodeError>)
    ensures
        agrees(
            r,
            final(reader)@,
            parse_counted(
                old(reader)@,
                MAX_LIVE_POWER_POINTS,
                Field::LivePowerHistory,
                power_parser(),
            ),
        ),
{
    let len: usize = match read_len(reader, MAX_LIVE_POWER_POINTS, Field::LivePowerHistory) {
        Ok(len) => len,
        Err(e) => {
            return Err(e);
        },
    };
    let ghost start = reader@;
    let mut items: Vec<Binary64> = Vec::new();
    let mut i: usize = 0;
    while i < len
        invariant
            i <= len,
            match parse_len(old(reader)@, MAX_LIVE_POWER_POINTS, Field::LivePowerHistory) {
                Ok((n, rest)) => n == len && rest == start,
                Err(_) => false,
            },
            parse_list(start, i as nat, power_parser()) == Ok::<_, DecodeErrorModel>(
                (items@, reader@),
            ),
        decreases len - i,
    {
        match read_f64(reader) {
            Ok(item) => items.push(item),
            Err(e) => {
                proof {
                    lemma_list_fails(start, (i + 1) as nat, len as nat, power_parser());
                }
                return Err(e);
            },
        }
        i = i + 1;
    }
    Ok(items)
}

fn read_samples(reader: &mut ByteReader) -> (r: Result<Vec<LiveProcessSample>, DecodeError>)
    ensures
        match parse_counted(
            old(reader)@,
            MAX_SNAPSHOT_ROWS,
            Field::SnapshotRows,
            sample_parser(),
        ) {
            Ok((samples, rest)) => r is Ok && crate::lists::models(r->Ok_0@) == samples && final(reader)@ == rest,
            Err(e) => r is Err && r->Err_0@ == e,
        },
{
    let len: usize = match read_len(reader, MAX_SNAPSHOT_ROWS, Field::SnapshotRows) {
        Ok(len) => len,
        Err(e) => {
            return Err(e);
        },
    };
    let ghost start = reader@;
    let mut items: Vec<LiveProcessSample> = Vec::new();
    let mut i: usize = 0;
    proof {
        assert(crate::lists::models(items@) =~= Seq::empty());
    }
    while i < len
        invariant
            i <= len,
            match parse_len(old(reader)@, MAX_SNAPSHOT_ROWS, Field::SnapshotRows) {
                Ok((n, rest)) => n == len && rest == start,
                Err(_) => false,
            },
            parse_list(start, i as nat, sample_parser()) == Ok::<_, DecodeErrorModel>(
                (crate::lists::models(items@), reader@),
            ),
        decreases len - i,
    {
        let ghost before = crate::lists::models(items@);
        match read_sample(reader) {
            Ok(item) => {
                items.push(item);
                proof {
                    assert(crate::lists::models(items@) =~= before.push(item@));
                }
            },
            Err(e) => {
                proof {
                    lemma_list_fails(start, (i + 1) as nat, len as nat, sample_parser());
                }
                return Err(e);
            },
        }
        i = i + 1;
    }
    Ok(items)
}

fn read_snapshot(reader: &mut ByteReader) -> (r: Result<LiveSnapshot, DecodeError>)
    ensures
        agrees(r, final(reader)@, parse_snapshot(old(reader)@)),
{
    let tick: u64 = match read_u64(reader) {
        Ok(tick) => tick,
        Err(e) => {
            return Err(e);
        },
    };
    match read_samples(reader) {
        Ok(samples) => Ok(LiveSnapshot { tick, samples }),
        Err(e) => Err(e),
    }
}

fn read_snapshots(reader: &mut ByteReader) -> (r: Result<Vec<LiveSnapshot>, DecodeError>)
    ensures
        match parse_counted(
            old(reader)@,
            MAX_LIVE_SNAPSHOTS,
            Field::LiveSnapshots,
            snapshot_parser(),
        ) {
            Ok((snapshots, rest)) => r is Ok && crate::lists::models(r->Ok_0@) == snapshots
                && final(reader)@ == rest,
            Err(e) => r is Err && r->Err_0@ == e,
        },
{
    let len: usize = match read_len(reader, MAX_LIVE_SNAPSHOTS, Field::LiveSnapshots) {
        Ok(len) => len,
        Err(e) => {
            return Err(e);
        },
    };
    let ghost start = reader@;
    let mut items: Vec<LiveSnapshot> = Vec::new();
    let mut i: usize = 0;
    proof {
        assert(crate::lists::models(items@) =~= Seq::empty());
    }
    while i < len
        invariant
            i <= len,
            match parse_len(old(reader)@, MAX_LIVE_SNAPSHOTS, Field::LiveSnapshots) {
                Ok((n, rest)) => n == len && rest == start,
                Err(_) => false,
            },
            parse_list(start, i as nat, snapshot_parser()) == Ok::<_, DecodeErrorModel>(
                (crate::lists::models(items@), reader@),
            ),
        decreases len - i,
    {
        let ghost before = crate::lists::models(items@);
        match read_snapshot(reader) {
            Ok(item) => {
                items.push(item);
                proof {
                    assert(crate::lists::models(items@) =~= before.push(item@));
                }
            },
            Err(e) => {
                proof {
                    lemma_list_fails(start, (i + 1) as nat, len as nat, snapshot_parser());
                }
                return Err(e);
            },
        }
        i = i + 1;
    }
    Ok(items)
}

fn read_group(reader: &mut ByteReader) -> (r: Result<GroupPowerSum, DecodeError>)
    ensures
        agrees(r, final(reader)@, parse_group(old(reader)@)),
{
    let name: String = match read_string(reader, MAX_STRING_BYTES) {
        Ok(name) => name,
        Err(e) => {
            return Err(e);
        },
    };
    match read_f64(reader) {
        Ok(power_sum) => Ok(GroupPowerSum { name, power_sum }),
        Err(e) => Err(e),
    }
}

fn read_groups(reader: &mut ByteReader) -> (r: Result<Vec<GroupPowerSum>, DecodeError>)
    ensures
        match parse_counted(
            old(reader)@,
            MAX_GROUPS_PER_SAMPLE,
            Field::GroupedSamples,
            group_parser(),
        ) {
            Ok((groups, rest)) => r is Ok && crate::lists::models(r->Ok_0@) == groups && final(reader)@ == rest,
            Err(e) => r is Err && r->Err_0@ == e,
        },
{
    let len: usize = match read_len(reader, MAX_GROUPS_PER_SAMPLE, Field::GroupedSamples) {
        Ok(len) => len,
        Err(e) => {
            return Err(e);
        },
    };
    let ghost start = reader@;
    let mut items: Vec<GroupPowerSum> = Vec::new();
    let mut i: usize = 0;
    proof {
        assert(crate::lists::models(items@) =~= Seq::empty());
    }
    while i < len
        invariant
            i <= len,
            match parse_len(old(reader)@, MAX_GROUPS_PER_SAMPLE, Field::GroupedSamples) {
                Ok((n, rest)) => n == len && rest == start,
                Err(_) => false,
            },
            parse_list(start, i as nat, group_parser()) == Ok::<_, DecodeErrorModel>(
                (crate::lists::models(items@), reader@),
            ),
        decreases len - i,
    {
        let ghost before = crate::lists::models(items@);
        match read_group(reader) {
            Ok(item) => {
                items.push(item);
                proof {
                    assert(crate::lists::models(items@) =~= before.push(item@));
                }
            },
            Err(e) => {
                proof {
                    lemma_list_fails(start, (i + 1) as nat, len as nat, group_parser());
                }
                return Err(e);
            },
        }
        i = i + 1;
    }
    Ok(items)
}

fn read_bucket(reader: &mut ByteReader, version: u16) -> (r: Result<TierSample, DecodeError>)
    ensures
        agrees(r, final(reader)@, parse_bucket(old(reader)@, version)),
{
    let bucket_start_secs: u64 = match read_u64(reader) {
        Ok(secs) => secs,
        Err(e) => {
            return Err(e);
        },
    };
    let sample_count: u32 = match read_u32(reader) {
        Ok(count) => count,
        Err(e) => {
            return Err(e);
        },
    };
    let total_power_sum: Binary64 = match read_f64(reader) {
        Ok(sum) => sum,
        Err(e) => {
            return Err(e);
        },
    };
    let groups: Vec<GroupPowerSum> = match read_groups(reader) {
        Ok(groups) => groups,
        Err(e) => {
            return Err(e);
        },
    };
    let gap_before: bool = if version == CACHE_VERSION {
        match read_bool(reader) {
            Ok(gap) => gap,
            Err(e) => {
                return Err(e);
            },
        }
    } else {
        false
    };
    let sample = TierSample {
        bucket_start_secs,
        sample_count,
        total_power_sum,
        groups,
        processes: Vec::new(),
        gap_before,
    };
    proof {
        assert(sample@.processes =~= Seq::empty());
    }
    Ok(sample)
}

fn decode_tier(reader: &mut ByteReader, version: u16) -> (r: Result<
    VecDeque<TierSample>,
    DecodeError,
>)
    ensures
        match parse_tier(old(reader)@, version) {
            Ok((tier, rest)) => r is Ok && crate::lists::models(r->Ok_0@) == tier && final(reader)@
                == rest,
            Err(e) => r is Err && r->Err_0@ == e,
        },
{
    let len: usize = match read_len(reader, MAX_TIER_SAMPLES, Field::TierSamples) {
        Ok(len) => len,
        Err(e) => {
            return Err(e);
        },
    };
    let ghost start = reader@;
    let mut items: VecDeque<TierSample> = VecDeque::new();
    let mut i: usize = 0;
    proof {
        assert(crate::lists::models(items@) =~= Seq::empty());
    }
    while i < len
        invariant
            i <= len,
            match parse_len(old(reader)@, MAX_TIER_SAMPLES, Field::TierSamples) {
                Ok((n, rest)) => n == len && rest == start,
                Err(_) => false,
            },
            parse_list(start, i as nat, bucket_parser(version)) == Ok::<_, DecodeErrorModel>(
                (crate::lists::models(items@), reader@),
            ),
        decreases len - i,
    {
        let ghost before = crate::lists::models(items@);
        match read_bucket(reader, version) {
            Ok(item) => {
                items.push_back(item);
                proof {
                    assert(crate::lists::models(items@) =~= before.push(item@));
                }
            },
            Err(e) => {
                proof {
                    lemma_list_fails(start, (i + 1) as nat, len as nat, bucket_parser(version));
                }
                return Err(e);
            },
        }
        i = i + 1;
    }
    Ok(items)
}

fn read_version(reader: &mut ByteReader) -> (r: Result<u16, DecodeError>)
    ensures
        agrees(r, final(reader)@, parse_version(old(reader)@)),
{
    let bytes: Vec<u8> = match reader.take(8) {
        Ok(bytes) => bytes,
        Err(e) => {
            return Err(e);
        },
    };
    if bytes[0] != 0x45 || bytes[1] != 0x54 || bytes[2] != 0x4f || bytes[3] != 0x50 || bytes[4]
        != 0x43 || bytes[5] != 0x41 || bytes[6] != 0x43 || bytes[7] != 0x48 {
        return Err(DecodeError::InvalidMagic);
    }
    proof {
        assert(bytes@ =~= crate::codec::magic());
    }
    match read_u16(reader) {
        Ok(version) => if version != CACHE_VERSION_V2 && version != CACHE_VERSION {
            Err(DecodeError::UnsupportedVersion(version))
        } else {
            Ok(version)
        },
        Err(e) => Err(e),
    }
}

fn read_archive(
    reader: &mut ByteReader,
    version: u16,
    last_sample_unix_secs: Option<u64>,
) -> (r: Result<ArchiveState, DecodeError>)
    ensures
        agrees(
            r,
            final(reader)@,
            parse_archive(old(reader)@, version, last_sample_unix_secs),
        ),
{
    let raw_2s: VecDeque<TierSample> = match decode_tier(reader, version) {
        Ok(tier) => tier,
        Err(e) => {
            return Err(e);
        },
    };
    let agg_10s: VecDeque<TierSample> = match decode_tier(reader, version) {
        Ok(tier) => tier,
        Err(e) => {
            return Err(e);
        },
    };
    let agg_60s: VecDeque<TierSample> = match decode_tier(reader, version) {
        Ok(tier) => tier,
        Err(e) => {
            return Err(e);
        },
    };
    let mut archive = ArchiveState { raw_2s, agg_10s, agg_60s, last_sample_unix_secs };
    archive.enforce_bounds();
    Ok(archive)
}

/// Reads the cache at the front of some bytes.
pub fn decode_session_cache(bytes: Vec<u8>) -> (r: Result<SessionCache, DecodeError>)
    ensures
        match parse_session(bytes@) {
            Ok((cache, _)) => r is Ok && r->Ok_0@ == cache,
            Err(e) => r is Err && r->Err_0@ == e,
        },
{
    let mut reader = ByteReader::new(bytes);
    let version: u16 = match read_version(&mut reader) {
        Ok(version) => version,
        Err(e) => {
            return Err(e);
        },
    };
    let saved_at_unix_millis: u64 = match read_u64(&mut reader) {
        Ok(millis) => millis,
        Err(e) => {
            return Err(e);
        },
    };
    let last_tick: u64 = match read_u64(&mut reader) {
        Ok(tick) => tick,
        Err(e) => {
            return Err(e);
        },
    };
    let last_sample_unix_secs: Option<u64> = match read_u64(&mut reader) {
        Ok(secs) => if secs == 0 {
            None
        } else {
            Some(secs)
        },
        Err(e) => {
            return Err(e);
        },
    };
    let live_power_history: Vec<Binary64> = match read_powers(&mut reader) {
        Ok(powers) => powers,
        Err(e) => {
            return Err(e);
        },
    };
    let live_snapshots: Vec<LiveSnapshot> = match read_snapshots(&mut reader) {
        Ok(snapshots) => snapshots,
        Err(e) => {
            return Err(e);
        },
    };
    match read_archive(&mut reader, version, last_sample_unix_secs) {
        Ok(archive) => Ok(
            SessionCache {
                saved_at_unix_millis,
                last_tick,
                live_power_history,
                live_snapshots,
                archive,
            },
        ),
        Err(e) => Err(e),
    }
}

/// What a session starts from: a cache without unreasonable powers and within bounds, and whether
/// its live part is recent enough to carry on with.
pub open spec fn loaded(
    cache: SessionCacheModel,
    now_millis: u64,
    refresh_every: Interval,
    live_limit: nat,
) -> LoadedSessionCacheModel {
    let gap_millis = if now_millis >= cache.saved_at_unix_millis {
        (now_millis - cache.saved_at_unix_millis) as u64
    } else {
        0
    };
    LoadedSessionCacheModel {
        cache: cache.sanitized(
            Binary64 { bits: MAX_REASONABLE_PERSISTED_POWER_BITS },
        ).within_bounds(live_limit),
        gap_millis,
        hydrate_live: gap_millis <= crate::persistence::threshold_millis(refresh_every),
    }
}

/// Reads a cache for the start of a session.
pub fn load_session_cache_for_startup(
    bytes: Vec<u8>,
    now_millis: u64,
    refresh_every: Interval,
    live_limit: usize,
) -> (r: Result<LoadedSessionCache, DecodeError>)
    ensures
        match parse_session(bytes@) {
            Ok((cache, _)) => r is Ok && r->Ok_0@ == loaded(
                cache,
                now_millis,
                refresh_every,
                live_limit as nat,
            ),
            Err(e) => r is Err && r->Err_0@ == e,
        },
{
    let mut cache: SessionCache = match decode_session_cache(bytes) {
        Ok(cache) => cache,
        Err(e) => {
            return Err(e);
        },
    };
    cache.sanitize_power_data(Binary64::from_bits(MAX_REASONABLE_PERSISTED_POWER_BITS));
    cache.enforce_bounds(live_limit);
    let gap_millis: u64 = now_millis.saturating_sub(cache.saved_at_unix_millis);
    let hydrate_live: bool = crate::persistence::should_hydrate_live(gap_millis, refresh_every);
    Ok(LoadedSessionCache { cache, gap_millis, hydrate_live })
}

/// Whether a cache is within what a reader accepts.
pub open spec fn readable(cache: SessionCacheModel) -> bool {
    &&& cache.live_power_history.len() <= MAX_LIVE_POWER_POINTS
    &&& cache.live_snapshots.len() <= MAX_LIVE_SNAPSHOTS
    &&& forall|i: int|
        0 <= i < cache.live_snapshots.len() ==> snapshot_readable(
            #[trigger] cache.live_snapshots[i],
        )
    &&& tier_readable(cache.archive.raw_2s)
    &&& tier_readable(cache.archive.agg_10s)
    &&& tier_readable(cache.archive.agg_60s)
}

pub open spec fn text_readable(text: Seq<char>) -> bool {
    encode_utf8(text).len() <= MAX_STRING_BYTES
}

pub open spec fn snapshot_readable(snapshot: LiveSnapshotModel) -> bool {
    snapshot.samples.len() <= MAX_SNAPSHOT_ROWS && forall|i: int|
        0 <= i < snapshot.samples.len() ==> text_readable((#[trigger] snapshot.samples[i]).process)
}

pub open spec fn bucket_readable(sample: TierSampleModel) -> bool {
    sample.groups.len() <= MAX_GROUPS_PER_SAMPLE && forall|i: int|
        0 <= i < sample.groups.len() ==> text_readable((#[trigger] sample.groups[i]).name)
}

pub open spec fn tier_readable(tier: Seq<TierSampleModel>) -> bool {
    tier.len() <= MAX_TIER_SAMPLES && forall|i: int|
        0 <= i < tier.len() ==> bucket_readable(#[trigger] tier[i])
}

/// What the bytes of a bucket hold of it: all but its single processes, and the gap before it only
/// in the third version.
pub open spec fn stored_bucket(version: u16) -> spec_fn(TierSampleModel) -> TierSampleModel {
    |sample: TierSampleModel|
        TierSampleModel {
            processes: Seq::empty(),
            gap_before: version == CACHE_VERSION && sample.gap_before,
            ..sample
        }
}

/// What the bytes of a cache hold of it. A last sample at second zero is taken for none, and tiers
/// are read back within their capacity.
pub open spec fn stored(cache: SessionCacheModel, version: u16) -> SessionCacheModel {
    SessionCacheModel {
        archive: (ArchiveStateModel {
            raw_2s: cache.archive.raw_2s.map_values(stored_bucket(version)),
            agg_10s: cache.archive.agg_10s.map_values(stored_bucket(version)),
            agg_60s: cache.archive.agg_60s.map_values(stored_bucket(version)),
            last_sample_unix_secs: if cache.archive.last_sample_unix_secs == Some(0u64) {
                None
            } else {
                cache.archive.last_sample_unix_secs
            },
        }).within_bounds(),
        ..cache
    }
}

proof fn lemma_number(x: nat, n: nat, rest: Seq<u8>)
    requires
        x < crate::codec::byte_range(n),
    ensures
        parse_number(crate::codec::le_bytes(x, n) + rest, n) == Ok::<_, DecodeErrorModel>(
            (x, rest),
        ),
{
    crate::codec::lemma_le_bytes(x, n);
    let s = crate::codec::le_bytes(x, n) + rest;
    assert(s.take(n as int) =~= crate::codec::le_bytes(x, n));
    assert(s.skip(n as int) =~= rest);
}

/// A length that was written reads back under every limit that it is within, and is refused under a
/// lower one.
pub proof fn law_length_reads_back(len: nat, max: usize, field: Field, rest: Seq<u8>)
    requires
        len <= u32::MAX,
    ensures
        parse_len(crate::codec::le_bytes(len, 4) + rest, max, field) == if len <= max {
            Ok::<(nat, Seq<u8>), DecodeErrorModel>((len, rest))
        } else {
            Err(DecodeErrorModel::LengthExceedsMax { field, value: len as u32, max })
        },
{
    crate::codec::lemma_ranges();
    lemma_number(len, 4, rest);
}

/// A flag that was written reads back.
pub proof fn law_flag_reads_back(flag: bool, rest: Seq<u8>)
    ensures
        parse_bool(crate::codec::bool_bytes(flag) + rest) == Ok::<_, DecodeErrorModel>(
            (flag, rest),
        ),
{
    let s = crate::codec::bool_bytes(flag) + rest;
    assert(s.take(1) =~= crate::codec::bool_bytes(flag));
    assert(s.skip(1) =~= rest);
    reveal_with_fuel(crate::codec::le_value, 2);
}

/// A text that was written reads back, with what stands behind it left unread, under every limit
/// that its bytes are within, and is refused under a lower one.
pub proof fn law_text_reads_back(text: Seq<char>, max: usize, rest: Seq<u8>)
    requires
        crate::codec::text_encodable(text),
    ensures
        parse_text(crate::codec::text_bytes(text) + rest, max) == if encode_utf8(text).len()
            <= max {
            Ok::<(Seq<char>, Seq<u8>), DecodeErrorModel>((text, rest))
        } else {
            Err(
                DecodeErrorModel::LengthExceedsMax {
                    field: Field::Text,
                    value: encode_utf8(text).len() as u32,
                    max,
                },
            )
        },
{
    let bytes = encode_utf8(text);
    law_length_reads_back(bytes.len(), max, Field::Text, bytes + rest);
    assert(crate::codec::text_bytes(text) + rest =~= crate::codec::le_bytes(bytes.len(), 4) + (
    bytes + rest));
    assert((bytes + rest).take(bytes.len() as int) =~= bytes);
    assert((bytes + rest).skip(bytes.len() as int) =~= rest);
    encode_utf8_valid_utf8(text);
    encode_utf8_decode_utf8(text);
}

/// A text whose announced bytes are no UTF-8 is refused.
pub proof fn law_broken_text_is_refused(bytes: Seq<u8>, max: usize, rest: Seq<u8>)
    requires
        bytes.len() <= max,
        bytes.len() <= u32::MAX,
        !valid_utf8(bytes),
    ensures
        parse_text(crate::codec::le_bytes(bytes.len(), 4) + bytes + rest, max) == Err::<
            (Seq<char>, Seq<u8>),
            _,
        >(DecodeErrorModel::Utf8(utf8_error_text(bytes))),
{
    law_length_reads_back(bytes.len(), max, Field::Text, bytes + rest);
    assert(crate::codec::le_bytes(bytes.len(), 4) + bytes + rest =~= crate::codec::le_bytes(
        bytes.len(),
        4,
    ) + (bytes + rest));
    assert((bytes + rest).take(bytes.len() as int) =~= bytes);
}

proof fn lemma_power(power: Binary64, rest: Seq<u8>)
    ensures
        parse_power(crate::codec::le_bytes(power.bits as nat, 8) + rest) == Ok::<
            _,
            DecodeErrorModel,
        >((power, rest)),
{
    crate::codec::lemma_ranges();
    lemma_number(power.bits as nat, 8, rest);
}

proof fn lemma_list<V, W>(
    items: Seq<V>,
    write: spec_fn(V) -> Seq<u8>,
    read: spec_fn(Seq<u8>) -> Parsed<W>,
    kept: spec_fn(V) -> W,
    rest: Seq<u8>,
)
    requires
        forall|i: int, r: Seq<u8>|
            0 <= i < items.len() ==> #[trigger] read(write(items[i]) + r) == Ok::<
                (W, Seq<u8>),
                DecodeErrorModel,
            >((kept(items[i]), r)),
    ensures
        parse_list(crate::codec::list_bytes(items, write) + rest, items.len(), read) == Ok::<
            (Seq<W>, Seq<u8>),
            DecodeErrorModel,
        >((items.map_values(kept), rest)),
    decreases items.len(),
{
    if items.len() == 0 {
        assert(crate::codec::list_bytes(items, write) + rest =~= rest);
        assert(items.map_values(kept) =~= Seq::empty());
    } else {
        let front = items.drop_last();
        let last = items[items.len() - 1];
        assert forall|i: int, r: Seq<u8>| 0 <= i < front.len() implies #[trigger] read(
            write(front[i]) + r,
        ) == Ok::<(W, Seq<u8>), DecodeErrorModel>((kept(front[i]), r)) by {
            assert(read(write(items[i]) + r) == Ok::<(W, Seq<u8>), DecodeErrorModel>(
                (kept(items[i]), r),
            ));
        }
        lemma_list(front, write, read, kept, write(last) + rest);
        assert(crate::codec::list_bytes(items, write) + rest =~= crate::codec::list_bytes(
            front,
            write,
        ) + (write(last) + rest));
        assert(read(write(items[items.len() - 1]) + rest) == Ok::<(W, Seq<u8>), DecodeErrorModel>(
            (kept(last), rest),
        ));
        assert(items.map_values(kept) =~= front.map_values(kept).push(kept(last)));
    }
}

proof fn lemma_counted<V, W>(
    items: Seq<V>,
    max: usize,
    field: Field,
    write: spec_fn(V) -> Seq<u8>,
    read: spec_fn(Seq<u8>) -> Parsed<W>,
    kept: spec_fn(V) -> W,
    rest: Seq<u8>,
)
    requires
        items.len() <= max,
        items.len() <= u32::MAX,
        forall|i: int, r: Seq<u8>|
            0 <= i < items.len() ==> #[trigger] read(write(items[i]) + r) == Ok::<
                (W, Seq<u8>),
                DecodeErrorModel,
            >((kept(items[i]), r)),
    ensures
        parse_counted(
            crate::codec::le_bytes(items.len(), 4) + crate::codec::list_bytes(items, write) + rest,
            max,
            field,
            read,
        ) == Ok::<(Seq<W>, Seq<u8>), DecodeErrorModel>((items.map_values(kept), rest)),
{
    let body = crate::codec::list_bytes(items, write) + rest;
    law_length_reads_back(items.len(), max, field, body);
    assert(crate::codec::le_bytes(items.len(), 4) + crate::codec::list_bytes(items, write) + rest
        =~= crate::codec::le_bytes(items.len(), 4) + body);
    lemma_list(items, write, read, kept, rest);
}

proof fn lemma_sample(sample: LiveProcessSampleModel, rest: Seq<u8>)
    requires
        text_readable(sample.process),
    ensures
        sample_parser()(crate::codec::sample_bytes()(sample) + rest) == Ok::<_, DecodeErrorModel>(
            (sample, rest),
        ),
{
    let word = crate::codec::le_bytes(crate::codec::unsigned(sample.pid), 4);
    let name = crate::codec::text_bytes(sample.process);
    let power = crate::codec::le_bytes(sample.power.bits as nat, 8);
    crate::codec::lemma_ranges();
    assert(crate::codec::sample_bytes()(sample) + rest =~= word + (name + (power + rest)));
    lemma_number(crate::codec::unsigned(sample.pid), 4, name + (power + rest));
    law_text_reads_back(sample.process, MAX_STRING_BYTES, power + rest);
    lemma_power(sample.power, rest);
}

proof fn lemma_snapshot(snapshot: LiveSnapshotModel, rest: Seq<u8>)
    requires
        snapshot_readable(snapshot),
    ensures
        snapshot_parser()(crate::codec::snapshot_bytes()(snapshot) + rest) == Ok::<
            _,
            DecodeErrorModel,
        >((snapshot, rest)),
{
    let tick = crate::codec::le_bytes(snapshot.tick as nat, 8);
    let samples = crate::codec::le_bytes(snapshot.samples.len(), 4) + crate::codec::list_bytes(
        snapshot.samples,
        crate::codec::sample_bytes(),
    );
    let same = |sample: LiveProcessSampleModel| sample;
    crate::codec::lemma_ranges();
    assert(crate::codec::snapshot_bytes()(snapshot) + rest =~= tick + (samples + rest));
    lemma_number(snapshot.tick as nat, 8, samples + rest);
    assert forall|i: int, r: Seq<u8>| 0 <= i < snapshot.samples.len() implies #[trigger] (
    sample_parser())(crate::codec::sample_bytes()(snapshot.samples[i]) + r) == Ok::<
        (LiveProcessSampleModel, Seq<u8>),
        DecodeErrorModel,
    >((same(snapshot.samples[i]), r)) by {
        lemma_sample(snapshot.samples[i], r);
    }
    lemma_counted(
        snapshot.samples,
        MAX_SNAPSHOT_ROWS,
        Field::SnapshotRows,
        crate::codec::sample_bytes(),
        sample_parser(),
        same,
        rest,
    );
    assert(snapshot.samples.map_values(same) =~= snapshot.samples);
}

proof fn lemma_group(group: GroupPowerSumModel, rest: Seq<u8>)
    requires
        text_readable(group.name),
    ensures
        group_parser()(crate::codec::group_bytes()(group) + rest) == Ok::<_, DecodeErrorModel>(
            (group, rest),
        ),
{
    let name = crate::codec::text_bytes(group.name);
    let power = crate::codec::le_bytes(group.power_sum.bits as nat, 8);
    assert(crate::codec::group_bytes()(group) + rest =~= name + (power + rest));
    law_text_reads_back(group.name, MAX_STRING_BYTES, power + rest);
    lemma_power(group.power_sum, rest);
}

proof fn lemma_regroup(
    a: Seq<u8>,
    b: Seq<u8>,
    c: Seq<u8>,
    d: Seq<u8>,
    e: Seq<u8>,
    rest: Seq<u8>,
)
    ensures
        a + b + c + d + e + rest == a + (b + (c + (d + (e + rest)))),
{
    assert(a + b + c + d + e + rest =~= a + (b + (c + (d + (e + rest)))));
}

#[verifier::spinoff_prover]
#[verifier::rlimit(30)]
proof fn lemma_bucket(sample: TierSampleModel, version: u16, rest: Seq<u8>)
    requires
        bucket_readable(sample),
    ensures
        bucket_parser(version)(crate::codec::bucket_bytes(version)(sample) + rest) == Ok::<
            _,
            DecodeErrorModel,
        >((stored_bucket(version)(sample), rest)),
{
    let start = crate::codec::le_bytes(sample.bucket_start_secs as nat, 8);
    let count = crate::codec::le_bytes(sample.sample_count as nat, 4);
    let total = crate::codec::le_bytes(sample.total_power_sum.bits as nat, 8);
    let groups = crate::codec::le_bytes(sample.groups.len(), 4) + crate::codec::list_bytes(
        sample.groups,
        crate::codec::group_bytes(),
    );
    let gap = if version == CACHE_VERSION {
        crate::codec::bool_bytes(sample.gap_before)
    } else {
        Seq::empty()
    };
    let same = |group: GroupPowerSumModel| group;
    crate::codec::lemma_ranges();
    lemma_regroup(start, count, total, groups, gap, rest);
    assert(crate::codec::bucket_bytes(version)(sample) =~= start + count + total + groups + gap);
    lemma_number(sample.bucket_start_secs as nat, 8, count + (total + (groups + (gap + rest))));
    lemma_number(sample.sample_count as nat, 4, total + (groups + (gap + rest)));
    lemma_power(sample.total_power_sum, groups + (gap + rest));
    assert forall|i: int, r: Seq<u8>| 0 <= i < sample.groups.len() implies #[trigger] (
    group_parser())(crate::codec::group_bytes()(sample.groups[i]) + r) == Ok::<
        (GroupPowerSumModel, Seq<u8>),
        DecodeErrorModel,
    >((same(sample.groups[i]), r)) by {
        lemma_group(sample.groups[i], r);
    }
    lemma_counted(
        sample.groups,
        MAX_GROUPS_PER_SAMPLE,
        Field::GroupedSamples,
        crate::codec::group_bytes(),
        group_parser(),
        same,
        gap + rest,
    );
    assert(sample.groups.map_values(same) =~= sample.groups);
    if version == CACHE_VERSION {
        law_flag_reads_back(sample.gap_before, rest);
    } else {
        assert(gap + rest =~= rest);
    }
}

proof fn lemma_tier(tier: Seq<TierSampleModel>, version: u16, rest: Seq<u8>)
    requires
        tier_readable(tier),
    ensures
        parse_tier(crate::codec::tier_bytes(tier, version) + rest, version) == Ok::<
            _,
            DecodeErrorModel,
        >((tier.map_values(stored_bucket(version)), rest)),
{
    assert forall|i: int, r: Seq<u8>| 0 <= i < tier.len() implies #[trigger] (bucket_parser(
        version,
    ))(crate::codec::bucket_bytes(version)(tier[i]) + r) == Ok::<
        (TierSampleModel, Seq<u8>),
        DecodeErrorModel,
    >((stored_bucket(version)(tier[i]), r)) by {
        lemma_bucket(tier[i], version, r);
    }
    lemma_counted(
        tier,
        MAX_TIER_SAMPLES,
        Field::TierSamples,
        crate::codec::bucket_bytes(version),
        bucket_parser(version),
        stored_bucket(version),
        rest,
    );
}

proof fn lemma_header(cache: SessionCacheModel, version: u16, rest: Seq<u8>)
    requires
        version == CACHE_VERSION || version == CACHE_VERSION_V2,
    ensures
        parse_header(crate::codec::header_bytes(cache, version) + rest) == Ok::<
            _,
            DecodeErrorModel,
        >(
            (
                Header {
                    version,
                    saved_at_unix_millis: cache.saved_at_unix_millis,
                    last_tick: cache.last_tick,
                    last_sample_unix_secs: stored(cache, version).archive.last_sample_unix_secs,
                },
                rest,
            ),
        ),
{
    let number = crate::codec::le_bytes(version as nat, 2);
    let saved = crate::codec::le_bytes(cache.saved_at_unix_millis as nat, 8);
    let tick = crate::codec::le_bytes(cache.last_tick as nat, 8);
    let secs: nat = match cache.archive.last_sample_unix_secs {
        Some(secs) => secs as nat,
        None => 0,
    };
    let last = crate::codec::le_bytes(secs, 8);
    let all = crate::codec::header_bytes(cache, version) + rest;
    let magic = crate::codec::magic();
    crate::codec::lemma_ranges();
    assert(all =~= magic + (number + (saved + (tick + (last + rest)))));
    assert(all.take(8) =~= magic);
    assert(all.skip(8) =~= number + (saved + (tick + (last + rest))));
    lemma_number(version as nat, 2, saved + (tick + (last + rest)));
    lemma_number(cache.saved_at_unix_millis as nat, 8, tick + (last + rest));
    lemma_number(cache.last_tick as nat, 8, last + rest);
    lemma_number(secs, 8, rest);
}

proof fn lemma_powers(powers: Seq<Binary64>, rest: Seq<u8>)
    requires
        powers.len() <= MAX_LIVE_POWER_POINTS,
    ensures
        parse_counted(
            crate::codec::le_bytes(powers.len(), 4) + crate::codec::list_bytes(
                powers,
                crate::codec::power_bytes(),
            ) + rest,
            MAX_LIVE_POWER_POINTS,
            Field::LivePowerHistory,
            power_parser(),
        ) == Ok::<_, DecodeErrorModel>((powers, rest)),
{
    let same = |power: Binary64| power;
    assert forall|i: int, r: Seq<u8>| 0 <= i < powers.len() implies #[trigger] (power_parser())(
        crate::codec::power_bytes()(powers[i]) + r,
    ) == Ok::<(Binary64, Seq<u8>), DecodeErrorModel>((same(powers[i]), r)) by {
        lemma_power(powers[i], r);
    }
    lemma_counted(
        powers,
        MAX_LIVE_POWER_POINTS,
        Field::LivePowerHistory,
        crate::codec::power_bytes(),
        power_parser(),
        same,
        rest,
    );
    assert(powers.map_values(same) =~= powers);
}

proof fn lemma_snapshots(snapshots: Seq<LiveSnapshotModel>, rest: Seq<u8>)
    requires
        snapshots.len() <= MAX_LIVE_SNAPSHOTS,
        forall|i: int| 0 <= i < snapshots.len() ==> snapshot_readable(#[trigger] snapshots[i]),
    ensures
        parse_counted(
            crate::codec::le_bytes(snapshots.len(), 4) + crate::codec::list_bytes(
                snapshots,
                crate::codec::snapshot_bytes(),
            ) + rest,
            MAX_LIVE_SNAPSHOTS,
            Field::LiveSnapshots,
            snapshot_parser(),
        ) == Ok::<_, DecodeErrorModel>((snapshots, rest)),
{
    let same = |snapshot: LiveSnapshotModel| snapshot;
    assert forall|i: int, r: Seq<u8>| 0 <= i < snapshots.len() implies #[trigger] (
    snapshot_parser())(crate::codec::snapshot_bytes()(snapshots[i]) + r) == Ok::<
        (LiveSnapshotModel, Seq<u8>),
        DecodeErrorModel,
    >((same(snapshots[i]), r)) by {
        lemma_snapshot(snapshots[i], r);
    }
    lemma_counted(
        snapshots,
        MAX_LIVE_SNAPSHOTS,
        Field::LiveSnapshots,
        crate::codec::snapshot_bytes(),
        snapshot_parser(),
        same,
        rest,
    );
    assert(snapshots.map_values(same) =~= snapshots);
}

proof fn lemma_archive(
    archive: ArchiveStateModel,
    version: u16,
    last_sample_unix_secs: Option<u64>,
    rest: Seq<u8>,
)
    requires
        tier_readable(archive.raw_2s),
        tier_readable(archive.agg_10s),
        tier_readable(archive.agg_60s),
    ensures
        parse_archive(
            crate::codec::archive_bytes(archive, version) + rest,
            version,
            last_sample_unix_secs,
        ) == Ok::<_, DecodeErrorModel>(
            (
                (ArchiveStateModel {
                    raw_2s: archive.raw_2s.map_values(stored_bucket(version)),
                    agg_10s: archive.agg_10s.map_values(stored_bucket(version)),
                    agg_60s: archive.agg_60s.map_values(stored_bucket(version)),
                    last_sample_unix_secs,
                }).within_bounds(),
                rest,
            ),
        ),
{
    let raw = crate::codec::tier_bytes(archive.raw_2s, version);
    let ten = crate::codec::tier_bytes(archive.agg_10s, version);
    let sixty = crate::codec::tier_bytes(archive.agg_60s, version);
    assert(crate::codec::archive_bytes(archive, version) + rest =~= raw + (ten + (sixty + rest)));
    lemma_tier(archive.raw_2s, version, ten + (sixty + rest));
    lemma_tier(archive.agg_10s, version, sixty + rest);
    lemma_tier(archive.agg_60s, version, rest);
}

/// Reading the bytes of a cache gives back what they hold of it, in either version.
pub proof fn law_cache_reads_back(cache: SessionCacheModel, version: u16, rest: Seq<u8>)
    requires
        version == CACHE_VERSION || version == CACHE_VERSION_V2,
        readable(cache),
    ensures
        parse_session(crate::codec::session_bytes(cache, version) + rest) == Ok::<
            _,
            DecodeErrorModel,
        >((stored(cache, version), rest)),
{
    let header = crate::codec::header_bytes(cache, version);
    let powers = crate::codec::le_bytes(cache.live_power_history.len(), 4)
        + crate::codec::list_bytes(cache.live_power_history, crate::codec::power_bytes());
    let snapshots = crate::codec::le_bytes(cache.live_snapshots.len(), 4)
        + crate::codec::list_bytes(cache.live_snapshots, crate::codec::snapshot_bytes());
    let archive = crate::codec::archive_bytes(cache.archive, version);
    assert(crate::codec::session_bytes(cache, version) + rest =~= header + (powers + (snapshots + (
    archive + rest))));
    lemma_header(cache, version, powers + (snapshots + (archive + rest)));
    lemma_powers(cache.live_power_history, snapshots + (archive + rest));
    lemma_snapshots(cache.live_snapshots, archive + rest);
    lemma_archive(
        cache.archive,
        version,
        stored(cache, version).archive.last_sample_unix_secs,
        rest,
    );
}

/// A cache that holds nothing but what the bytes do, within bounds, is read back as it was.
pub proof fn law_plain_cache_reads_back_unchanged(cache: SessionCacheModel)
    requires
        readable(cache),
        cache.archive.bounded(),
        cache.archive.last_sample_unix_secs != Some(0u64),
        forall|i: int|
            0 <= i < cache.archive.raw_2s.len() ==> (
            #[trigger] cache.archive.raw_2s[i]).processes.len() == 0,
        forall|i: int|
            0 <= i < cache.archive.agg_10s.len() ==> (
            #[trigger] cache.archive.agg_10s[i]).processes.len() == 0,
        forall|i: int|
            0 <= i < cache.archive.agg_60s.len() ==> (
            #[trigger] cache.archive.agg_60s[i]).processes.len() == 0,
    ensures
        parse_session(crate::codec::session_bytes(cache, CACHE_VERSION)) == Ok::<
            _,
            DecodeErrorModel,
        >((cache, Seq::<u8>::empty())),
{
    let bytes = crate::codec::session_bytes(cache, CACHE_VERSION);
    law_cache_reads_back(cache, CACHE_VERSION, Seq::empty());
    assert(bytes + Seq::<u8>::empty() =~= bytes);
    lemma_plain_tier(cache.archive.raw_2s);
    lemma_plain_tier(cache.archive.agg_10s);
    lemma_plain_tier(cache.archive.agg_60s);
}

proof fn lemma_plain_tier(tier: Seq<TierSampleModel>)
    requires
        forall|i: int| 0 <= i < tier.len() ==> (#[trigger] tier[i]).processes.len() == 0,
    ensures
        tier.map_values(stored_bucket(CACHE_VERSION)) == tier,
{
    assert forall|i: int| 0 <= i < tier.len() implies tier.map_values(
        stored_bucket(CACHE_VERSION),
    )[i] == tier[i] by {
        assert(tier[i].processes =~= Seq::empty());
    }
    assert(tier.map_values(stored_bucket(CACHE_VERSION)) =~= tier);
}

proof fn lemma_filtered_readable(snapshot: LiveSnapshotModel, max: Binary64)
    requires
        snapshot_readable(snapshot),
    ensures
        snapshot_readable(crate::persistence::sanitized_snapshot(snapshot, max)),
{
    let kept = snapshot.samples.filter(crate::persistence::sample_kept(max));
    snapshot.samples.lemma_filter_len(crate::persistence::sample_kept(max));
    assert forall|i: int| 0 <= i < kept.len() implies text_readable(
        (#[trigger] kept[i]).process,
    ) by {
        assert(kept.contains(kept[i]));
        crate::lists::lemma_filtered(
            snapshot.samples,
            crate::persistence::sample_kept(max),
            kept[i],
        );
        let k = choose|k: int| 0 <= k < snapshot.samples.len() && snapshot.samples[k] == kept[i];
        assert(text_readable(snapshot.samples[k].process));
    }
}

proof fn lemma_sanitized_tier_readable(tier: Seq<TierSampleModel>, max: Binary64)
    requires
        forall|i: int| 0 <= i < tier.len() ==> bucket_readable(#[trigger] tier[i]),
    ensures
        crate::persistence::sanitized_tier(tier, max).len() <= tier.len(),
        forall|i: int|
            0 <= i < crate::persistence::sanitized_tier(tier, max).len() ==> bucket_readable(
                #[trigger] crate::persistence::sanitized_tier(tier, max)[i],
            ),
    decreases tier.len(),
{
    if tier.len() > 0 {
        let front = tier.drop_last();
        assert forall|i: int| 0 <= i < front.len() implies bucket_readable(#[trigger] front[i]) by {
            assert(bucket_readable(tier[i]));
        }
        lemma_sanitized_tier_readable(front, max);
        let last = tier[tier.len() - 1];
        assert(bucket_readable(last));
        let kept = last.groups.filter(crate::persistence::group_kept(last.sample_count, max));
        last.groups.lemma_filter_len(crate::persistence::group_kept(last.sample_count, max));
        assert forall|i: int| 0 <= i < kept.len() implies text_readable(
            (#[trigger] kept[i]).name,
        ) by {
            assert(kept.contains(kept[i]));
            crate::lists::lemma_filtered(
                last.groups,
                crate::persistence::group_kept(last.sample_count, max),
                kept[i],
            );
            let k = choose|k: int| 0 <= k < last.groups.len() && last.groups[k] == kept[i];
            assert(text_readable(last.groups[k].name));
        }
        assert(bucket_readable(crate::persistence::sanitized_bucket(last, max)));
    }
}

/// A cache whose lists and names are no longer than a reader accepts is readable once it is
/// prepared for saving, however much it holds otherwise.
pub proof fn law_saved_caches_are_readable(cache: SessionCacheModel)
    requires
        forall|i: int|
            0 <= i < cache.live_snapshots.len() ==> snapshot_readable(
                #[trigger] cache.live_snapshots[i],
            ),
        forall|i: int|
            0 <= i < cache.archive.raw_2s.len() ==> bucket_readable(
                #[trigger] cache.archive.raw_2s[i],
            ),
        forall|i: int|
            0 <= i < cache.archive.agg_10s.len() ==> bucket_readable(
                #[trigger] cache.archive.agg_10s[i],
            ),
        forall|i: int|
            0 <= i < cache.archive.agg_60s.len() ==> bucket_readable(
                #[trigger] cache.archive.agg_60s[i],
            ),
    ensures
        readable(cache.prepared()),
        cache.prepared().archive.bounded(),
{
    let max = Binary64 { bits: MAX_REASONABLE_PERSISTED_POWER_BITS };
    let powers = crate::lists::newest(cache.live_power_history, MAX_LIVE_POWER_POINTS as nat);
    let snapshots = crate::lists::newest(cache.live_snapshots, MAX_LIVE_SNAPSHOTS as nat);
    let prepared = cache.prepared();
    powers.lemma_filter_len(crate::persistence::power_kept(max));
    assert forall|i: int| 0 <= i < snapshots.len() implies snapshot_readable(
        #[trigger] prepared.live_snapshots[i],
    ) by {
        let k = i + cache.live_snapshots.len() - snapshots.len();
        assert(snapshots[i] == cache.live_snapshots[k]);
        lemma_filtered_readable(snapshots[i], max);
    }
    lemma_sanitized_tier_readable(cache.archive.raw_2s, max);
    lemma_sanitized_tier_readable(cache.archive.agg_10s, max);
    lemma_sanitized_tier_readable(cache.archive.agg_60s, max);
}

/// What is saved is read back as it was prepared, but for what the bytes do not hold.
pub proof fn law_saved_caches_read_back(cache: SessionCacheModel)
    requires
        readable(cache.prepared()),
    ensures
        parse_session(crate::codec::session_bytes(cache.prepared(), CACHE_VERSION)) == Ok::<
            _,
            DecodeErrorModel,
        >((stored(cache.prepared(), CACHE_VERSION), Seq::<u8>::empty())),
        crate::codec::encodable(cache.prepared()),
{
    let bytes = crate::codec::session_bytes(cache.prepared(), CACHE_VERSION);
    law_cache_reads_back(cache.prepared(), CACHE_VERSION, Seq::empty());
    assert(bytes + Seq::<u8>::empty() =~= bytes);
    lemma_readable_is_encodable(cache.prepared());
}

proof fn lemma_readable_is_encodable(cache: SessionCacheModel)
    requires
        readable(cache),
    ensures
        crate::codec::encodable(cache),
{
    assert forall|i: int|
        0 <= i < cache.live_snapshots.len() implies crate::codec::snapshot_encodable(
        #[trigger] cache.live_snapshots[i],
    ) by {
        let snapshot = cache.live_snapshots[i];
        assert(snapshot_readable(snapshot));
        assert forall|j: int| 0 <= j < snapshot.samples.len() implies crate::codec::text_encodable(
            (#[trigger] snapshot.samples[j]).process,
        ) by {
            assert(text_readable(snapshot.samples[j].process));
        }
    }
    lemma_readable_tier_is_encodable(cache.archive.raw_2s);
    lemma_readable_tier_is_encodable(cache.archive.agg_10s);
    lemma_readable_tier_is_encodable(cache.archive.agg_60s);
}

proof fn lemma_readable_tier_is_encodable(tier: Seq<TierSampleModel>)
    requires
        tier_readable(tier),
    ensures
        crate::codec::tier_encodable(tier),
{
    assert forall|i: int| 0 <= i < tier.len() implies crate::codec::bucket_encodable(
        #[trigger] tier[i],
    ) by {
        assert(bucket_readable(tier[i]));
        assert forall|j: int| 0 <= j < tier[i].groups.len() implies crate::codec::text_encodable(
            (#[trigger] tier[i].groups[j]).name,
        ) by {
            assert(text_readable(tier[i].groups[j].name));
        }
    }
}

} // verus!
