//! The bytes of a session cache: numbers with the lowest byte first, texts and lists behind their
//! lengths.
use std::collections::VecDeque;

use vstd::prelude::*;
use vstd::utf8::*;

use crate::binary64::Binary64;
use crate::persistence::{
    ArchiveStateModel, GroupPowerSumModel, LiveProcessSampleModel, LiveSnapshot,
    LiveSnapshotModel, SessionCache, SessionCacheModel, TierSample, TierSampleModel,
};

verus! {

pub const CACHE_VERSION_V2: u16 = 2;

pub const CACHE_VERSION: u16 = 3;

pub const CACHE_FILE_NAME: &'static str = "session-cache.v1.bin";

pub const MAX_SNAPSHOT_ROWS: usize = 65_536;

pub const MAX_TIER_SAMPLES: usize = 16_384;

pub const MAX_GROUPS_PER_SAMPLE: usize = 65_536;

pub const MAX_STRING_BYTES: usize = 4_096;

/// The bytes that a cache starts with: `ETOPCACH`.
pub open spec fn magic() -> Seq<u8> {
    seq![0x45u8, 0x54u8, 0x4fu8, 0x50u8, 0x43u8, 0x41u8, 0x43u8, 0x48u8]
}

/// What a length belongs to.
#[derive(Debug, Clone, Copy, PartialEq, Eq, Structural)]
pub enum Field {
    LivePowerHistory,
    LiveSnapshots,
    SnapshotRows,
    TierSamples,
    GroupedSamples,
    Text,
}

impl Field {
    pub open spec fn name(self) -> Seq<char> {
        match self {
            Field::LivePowerHistory => "live power history"@,
            Field::LiveSnapshots => "live snapshots"@,
            Field::SnapshotRows => "snapshot rows"@,
            Field::TierSamples => "tier samples"@,
            Field::GroupedSamples => "grouped samples"@,
            Field::Text => "string"@,
        }
    }

    pub fn label(self) -> (label: &'static str)
        ensures
            label@ == self.name(),
    {
        match self {
            Field::LivePowerHistory => "live power history",
            Field::LiveSnapshots => "live snapshots",
            Field::SnapshotRows => "snapshot rows",
            Field::TierSamples => "tier samples",
            Field::GroupedSamples => "grouped samples",
            Field::Text => "string",
        }
    }
}

/// Why bytes are no session cache.
#[derive(Debug, PartialEq)]
pub enum DecodeError {
    UnexpectedEnd,
    InvalidMagic,
    UnsupportedVersion(u16),
    LengthExceedsMax { field: Field, value: u32, max: usize },
    Utf8(String),
    InvalidBool(u8),
}

#[verifier::ext_equal]
pub enum DecodeErrorModel {
    UnexpectedEnd,
    InvalidMagic,
    UnsupportedVersion(u16),
    LengthExceedsMax { field: Field, value: u32, max: usize },
    Utf8(Seq<char>),
    InvalidBool(u8),
}

impl View for DecodeError {
    type V = DecodeErrorModel;

    open spec fn view(&self) -> DecodeErrorModel {
        match self {
            DecodeError::UnexpectedEnd => DecodeErrorModel::UnexpectedEnd,
            DecodeError::InvalidMagic => DecodeErrorModel::InvalidMagic,
            DecodeError::UnsupportedVersion(version) => DecodeErrorModel::UnsupportedVersion(
                *version,
            ),
            DecodeError::LengthExceedsMax { field, value, max } => {
                DecodeErrorModel::LengthExceedsMax { field: *field, value: *value, max: *max }
            },
            DecodeError::Utf8(text) => DecodeErrorModel::Utf8(text@),
            DecodeError::InvalidBool(value) => DecodeErrorModel::InvalidBool(*value),
        }
    }
}

impl DecodeErrorModel {
    /// The error in words.
    pub open spec fn words(self) -> Seq<char> {
        match self {
            DecodeErrorModel::UnexpectedEnd => "failed to fill whole buffer"@,
            DecodeErrorModel::InvalidMagic => "invalid cache magic"@,
            DecodeErrorModel::UnsupportedVersion(version) => "unsupported cache version: "@
                + crate::text::decimal_text(version as nat),
            DecodeErrorModel::LengthExceedsMax { field, value, max } => field.name() + " length "@
                + crate::text::decimal_text(value as nat) + " exceeds max "@
                + crate::text::decimal_text(max as nat),
            DecodeErrorModel::Utf8(text) => "utf8 error: "@ + text,
            DecodeErrorModel::InvalidBool(value) => "invalid bool value: "@
                + crate::text::decimal_text(value as nat),
        }
    }
}

impl DecodeError {
    /// The error in words.
    pub fn message(&self) -> (message: String)
        ensures
            message@ == self@.words(),
    {
        let mut out: Vec<char> = Vec::new();
        match self {
            DecodeError::UnexpectedEnd => {
                crate::text::append_text(&mut out, "failed to fill whole buffer");
            },
            DecodeError::InvalidMagic => {
                crate::text::append_text(&mut out, "invalid cache magic");
            },
            DecodeError::UnsupportedVersion(version) => {
                crate::text::append_text(&mut out, "unsupported cache version: ");
                crate::text::append_number(&mut out, *version as u64);
            },
            DecodeError::LengthExceedsMax { field, value, max } => {
                crate::text::append_text(&mut out, field.label());
                crate::text::append_text(&mut out, " length ");
                crate::text::append_number(&mut out, *value as u64);
                crate::text::append_text(&mut out, " exceeds max ");
                crate::text::append_number(&mut out, *max as u64);
            },
            DecodeError::Utf8(text) => {
                crate::text::append_text(&mut out, "utf8 error: ");
                crate::text::append_text(&mut out, text.as_str());
            },
            DecodeError::InvalidBool(value) => {
                crate::text::append_text(&mut out, "invalid bool value: ");
                crate::text::append_number(&mut out, *value as u64);
            },
        }
        proof {
            assert(out@ =~= self@.words());
        }
        crate::text::string_of(&out)
    }
}

/// Why a cache has no bytes: a text or a list is longer than a length can say.
#[derive(Debug, Clone, Copy, PartialEq, Eq, Structural)]
pub struct LengthExceedsU32 {}

impl LengthExceedsU32 {
    pub fn message(&self) -> (message: String)
        ensures
            message@ == "length exceeds u32"@,
    {
        let out: Vec<char> = crate::text::chars_of("length exceeds u32");
        crate::text::string_of(&out)
    }
}

/// The lowest `n` bytes of a number, the lowest first.
pub open spec fn le_bytes(x: nat, n: nat) -> Seq<u8>
    decreases n,
{
    if n == 0 {
        Seq::empty()
    } else {
        seq![(x % 256) as u8] + le_bytes(x / 256, (n - 1) as nat)
    }
}

/// The number that bytes stand for, the lowest first.
pub open spec fn le_value(s: Seq<u8>) -> nat
    decreases s.len(),
{
    if s.len() == 0 {
        0
    } else {
        s[0] as nat + 256 * le_value(s.skip(1))
    }
}

/// How many numbers `n` bytes can stand for.
pub open spec fn byte_range(n: nat) -> nat
    decreases n,
{
    if n == 0 {
        1
    } else {
        256 * byte_range((n - 1) as nat)
    }
}

pub proof fn lemma_le_bytes(x: nat, n: nat)
    requires
        x < byte_range(n),
    ensures
        le_bytes(x, n).len() == n,
        le_value(le_bytes(x, n)) == x,
    decreases n,
{
    if n > 0 {
        lemma_le_bytes(x / 256, (n - 1) as nat);
        assert(le_bytes(x, n).skip(1) =~= le_bytes(x / 256, (n - 1) as nat));
    }
}

pub proof fn lemma_le_value_below(s: Seq<u8>)
    ensures
        le_value(s) < byte_range(s.len()),
    decreases s.len(),
{
    if s.len() > 0 {
        lemma_le_value_below(s.skip(1));
    }
}

pub proof fn lemma_ranges()
    ensures
        byte_range(1) == 0x100,
        byte_range(2) == 0x1_0000,
        byte_range(4) == 0x1_0000_0000,
        byte_range(8) == 0x1_0000_0000_0000_0000,
{
    reveal_with_fuel(byte_range, 9);
}

/// A signed number as an unsigned one with the same bytes.
pub open spec fn unsigned(value: i32) -> nat {
    if value < 0 {
        (value + 0x1_0000_0000) as nat
    } else {
        value as nat
    }
}

pub open spec fn signed(word: nat) -> i32 {
    if word < 0x8000_0000 {
        word as i32
    } else {
        (word - 0x1_0000_0000) as i32
    }
}

/// Puts the lowest bytes of a number behind others.
fn push_le(out: &mut Vec<u8>, x: u64, n: usize)
    ensures
        final(out)@ == old(out)@ + le_bytes(x as nat, n as nat),
{
    let mut rest: u64 = x;
    let mut i: usize = 0;
    while i < n
        invariant
            i <= n,
            old(out)@ + le_bytes(x as nat, n as nat) == out@ + le_bytes(
                rest as nat,
                (n - i) as nat,
            ),
        decreases n - i,
    {
        let ghost before = out@;
        out.push((rest % 256) as u8);
        proof {
            let tail = le_bytes((rest / 256) as nat, (n - i - 1) as nat);
            assert(before + (seq![(rest % 256) as u8] + tail) =~= out@ + tail);
        }
        rest = rest / 256;
        i = i + 1;
    }
    proof {
        assert(out@ + le_bytes(rest as nat, 0) =~= out@);
    }
}

pub fn write_u16(out: &mut Vec<u8>, value: u16)
    ensures
        final(out)@ == old(out)@ + le_bytes(value as nat, 2),
{
    push_le(out, value as u64, 2);
}

pub fn write_u32(out: &mut Vec<u8>, value: u32)
    ensures
        final(out)@ == old(out)@ + le_bytes(value as nat, 4),
{
    push_le(out, value as u64, 4);
}

pub fn write_u64(out: &mut Vec<u8>, value: u64)
    ensures
        final(out)@ == old(out)@ + le_bytes(value as nat, 8),
{
    push_le(out, value, 8);
}

pub fn write_i32(out: &mut Vec<u8>, value: i32)
    ensures
        final(out)@ == old(out)@ + le_bytes(unsigned(value), 4),
{
    let word: i64 = if value < 0 {
        value as i64 + 0x1_0000_0000
    } else {
        value as i64
    };
    push_le(out, word as u64, 4);
}

pub fn write_f64(out: &mut Vec<u8>, value: Binary64)
    ensures
        final(out)@ == old(out)@ + le_bytes(value.bits as nat, 8),
{
    push_le(out, value.bits, 8);
}

pub open spec fn bool_bytes(value: bool) -> Seq<u8> {
    if value {
        seq![1u8]
    } else {
        seq![0u8]
    }
}

pub fn write_bool(out: &mut Vec<u8>, value: bool)
    ensures
        final(out)@ == old(out)@ + bool_bytes(value),
{
    out.push(
        if value {
            1
        } else {
            0
        },
    );
    proof {
        assert(out@ =~= old(out)@ + bool_bytes(value));
    }
}

/// Writes a length. One that four bytes cannot say is refused, and nothing is written.
pub fn write_len(out: &mut Vec<u8>, len: usize) -> (r: Result<(), LengthExceedsU32>)
    ensures
        r is Ok <==> len <= u32::MAX,
        r is Ok ==> final(out)@ == old(out)@ + le_bytes(len as nat, 4),
        r is Err ==> final(out)@ == old(out)@,
{
    if len > 0xffff_ffff {
        return Err(LengthExceedsU32 {  });
    }
    write_u32(out, len as u32);
    Ok(())
}

/// A text behind the number of its bytes.
pub open spec fn text_bytes(text: Seq<char>) -> Seq<u8> {
    le_bytes(encode_utf8(text).len(), 4) + encode_utf8(text)
}

/// Writes a text. One of too many bytes is refused, and nothing is written.
pub fn write_string(out: &mut Vec<u8>, value: &str) -> (r: Result<(), LengthExceedsU32>)
    ensures
        r is Ok <==> encode_utf8(value@).len() <= u32::MAX,
        r is Ok ==> final(out)@ == old(out)@ + text_bytes(value@),
        r is Err ==> final(out)@ == old(out)@,
{
    let bytes: &[u8] = value.as_bytes();
    match write_len(out, bytes.len()) {
        Ok(_) => {},
        Err(e) => {
            return Err(e);
        },
    }
    let ghost start = out@;
    let mut i: usize = 0;
    while i < bytes.len()
        invariant
            i <= bytes@.len(),
            out@ == start + bytes@.take(i as int),
        decreases bytes@.len() - i,
    {
        proof {
            assert(bytes@.take(i + 1) =~= bytes@.take(i as int).push(bytes@[i as int]));
            assert(start + bytes@.take(i + 1) =~= out@.push(bytes@[i as int]));
        }
        out.push(bytes[i]);
        i = i + 1;
    }
    proof {
        assert(bytes@.take(i as int) =~= bytes@);
        assert(out@ =~= old(out)@ + text_bytes(value@));
    }
    Ok(())
}

/// The bytes of items one behind the other.
pub open spec fn list_bytes<V>(items: Seq<V>, one: spec_fn(V) -> Seq<u8>) -> Seq<u8>
    decreases items.len(),
{
    if items.len() == 0 {
        Seq::empty()
    } else {
        list_bytes(items.drop_last(), one) + one(items.last())
    }
}

pub open spec fn power_bytes() -> spec_fn(Binary64) -> Seq<u8> {
    |power: Binary64| le_bytes(power.bits as nat, 8)
}

pub open spec fn sample_bytes() -> spec_fn(LiveProcessSampleModel) -> Seq<u8> {
    |sample: LiveProcessSampleModel|
        le_bytes(unsigned(sample.pid), 4) + text_bytes(sample.process) + le_bytes(
            sample.power.bits as nat,
            8,
        )
}

pub open spec fn snapshot_bytes() -> spec_fn(LiveSnapshotModel) -> Seq<u8> {
    |snapshot: LiveSnapshotModel|
        le_bytes(snapshot.tick as nat, 8) + le_bytes(snapshot.samples.len(), 4) + list_bytes(
            snapshot.samples,
            sample_bytes(),
        )
}

pub open spec fn group_bytes() -> spec_fn(GroupPowerSumModel) -> Seq<u8> {
    |group: GroupPowerSumModel|
        text_bytes(group.name) + le_bytes(group.power_sum.bits as nat, 8)
}

/// A bucket. Only the third version says whether a gap lies before it.
pub open spec fn bucket_bytes(version: u16) -> spec_fn(TierSampleModel) -> Seq<u8> {
    |sample: TierSampleModel|
        le_bytes(sample.bucket_start_secs as nat, 8) + le_bytes(sample.sample_count as nat, 4)
            + le_bytes(sample.total_power_sum.bits as nat, 8) + le_bytes(sample.groups.len(), 4)
            + list_bytes(sample.groups, group_bytes()) + if version == CACHE_VERSION {
            bool_bytes(sample.gap_before)
        } else {
            Seq::empty()
        }
}

pub open spec fn tier_bytes(tier: Seq<TierSampleModel>, version: u16) -> Seq<u8> {
    le_bytes(tier.len(), 4) + list_bytes(tier, bucket_bytes(version))
}

/// What stands before the lists. A session that was never sampled has zero for its last sample.
pub open spec fn header_bytes(cache: SessionCacheModel, version: u16) -> Seq<u8> {
    magic() + le_bytes(version as nat, 2) + le_bytes(cache.saved_at_unix_millis as nat, 8)
        + le_bytes(cache.last_tick as nat, 8) + le_bytes(
        match cache.archive.last_sample_unix_secs {
            Some(secs) => secs as nat,
            None => 0,
        },
        8,
    )
}

pub open spec fn live_bytes(cache: SessionCacheModel) -> Seq<u8> {
    le_bytes(cache.live_power_history.len(), 4) + list_bytes(
        cache.live_power_history,
        power_bytes(),
    ) + le_bytes(cache.live_snapshots.len(), 4) + list_bytes(
        cache.live_snapshots,
        snapshot_bytes(),
    )
}

pub open spec fn archive_bytes(archive: ArchiveStateModel, version: u16) -> Seq<u8> {
    tier_bytes(archive.raw_2s, version) + tier_bytes(archive.agg_10s, version) + tier_bytes(
        archive.agg_60s,
        version,
    )
}

/// The bytes of a cache.
pub open spec fn session_bytes(cache: SessionCacheModel, version: u16) -> Seq<u8> {
    header_bytes(cache, version) + live_bytes(cache) + archive_bytes(cache.archive, version)
}

pub open spec fn text_encodable(text: Seq<char>) -> bool {
    encode_utf8(text).len() <= u32::MAX
}

pub open spec fn snapshot_encodable(snapshot: LiveSnapshotModel) -> bool {
    snapshot.samples.len() <= u32::MAX && forall|i: int|
        0 <= i < snapshot.samples.len() ==> text_encodable((#[trigger] snapshot.samples[i]).process)
}

pub open spec fn bucket_encodable(sample: TierSampleModel) -> bool {
    sample.groups.len() <= u32::MAX && forall|i: int|
        0 <= i < sample.groups.len() ==> text_encodable((#[trigger] sample.groups[i]).name)
}

pub open spec fn tier_encodable(tier: Seq<TierSampleModel>) -> bool {
    tier.len() <= u32::MAX && forall|i: int|
        0 <= i < tier.len() ==> bucket_encodable(#[trigger] tier[i])
}

/// Whether four bytes can say every length in a cache.
pub open spec fn encodable(cache: SessionCacheModel) -> bool {
    &&& cache.live_power_history.len() <= u32::MAX
    &&& cache.live_snapshots.len() <= u32::MAX
    &&& forall|i: int|
        0 <= i < cache.live_snapshots.len() ==> snapshot_encodable(
            #[trigger] cache.live_snapshots[i],
        )
    &&& tier_encodable(cache.archive.raw_2s)
    &&& tier_encodable(cache.archive.agg_10s)
    &&& tier_encodable(cache.archive.agg_60s)
}

proof fn lemma_list_next<V>(items: Seq<V>, i: int, one: spec_fn(V) -> Seq<u8>)
    requires
        0 <= i < items.len(),
    ensures
        list_bytes(items.take(i + 1), one) == list_bytes(items.take(i), one) + one(items[i]),
{
    assert(items.take(i + 1).drop_last() =~= items.take(i));
}

fn encode_snapshot(snapshot: &LiveSnapshot, out: &mut Vec<u8>) -> (r: Result<(), LengthExceedsU32>)
    ensures
        r is Ok <==> snapshot_encodable(snapshot@),
        r is Ok ==> final(out)@ == old(out)@ + snapshot_bytes()(snapshot@),
{
    let ghost all = snapshot@.samples;
    write_u64(out, snapshot.tick);
    match write_len(out, snapshot.samples.len()) {
        Ok(_) => {},
        Err(e) => {
            return Err(e);
        },
    }
    let ghost start = out@;
    let mut i: usize = 0;
    proof {
        assert(all.take(0) =~= Seq::empty());
        assert(start + list_bytes(all.take(0), sample_bytes()) =~= start);
    }
    while i < snapshot.samples.len()
        invariant
            i <= snapshot.samples@.len(),
            all == snapshot@.samples,
            snapshot.samples@.len() <= u32::MAX,
            forall|j: int| 0 <= j < i ==> text_encodable((#[trigger] all[j]).process),
            out@ == start + list_bytes(all.take(i as int), sample_bytes()),
        decreases snapshot.samples@.len() - i,
    {
        proof {
            assert(all[i as int] == snapshot.samples@[i as int]@);
            lemma_list_next(all, i as int, sample_bytes());
        }
        let ghost before = out@;
        write_i32(out, snapshot.samples[i].pid);
        match write_string(out, snapshot.samples[i].process.as_str()) {
            Ok(_) => {},
            Err(e) => {
                return Err(e);
            },
        }
        write_f64(out, snapshot.samples[i].power);
        proof {
            assert(out@ =~= before + sample_bytes()(all[i as int]));
            assert(out@ =~= start + list_bytes(all.take(i + 1), sample_bytes()));
        }
        i = i + 1;
    }
    proof {
        assert(all.take(i as int) =~= all);
        assert(out@ =~= old(out)@ + snapshot_bytes()(snapshot@));
    }
    Ok(())
}

fn encode_bucket(sample: &TierSample, out: &mut Vec<u8>) -> (r: Result<(), LengthExceedsU32>)
    ensures
        r is Ok <==> bucket_encodable(sample@),
        r is Ok ==> final(out)@ == old(out)@ + bucket_bytes(CACHE_VERSION)(sample@),
{
    let ghost all = sample@.groups;
    write_u64(out, sample.bucket_start_secs);
    write_u32(out, sample.sample_count);
    write_f64(out, sample.total_power_sum);
    match write_len(out, sample.groups.len()) {
        Ok(_) => {},
        Err(e) => {
            return Err(e);
        },
    }
    let ghost start = out@;
    let mut i: usize = 0;
    proof {
        assert(all.take(0) =~= Seq::empty());
        assert(start + list_bytes(all.take(0), group_bytes()) =~= start);
    }
    while i < sample.groups.len()
        invariant
            i <= sample.groups@.len(),
            all == sample@.groups,
            sample.groups@.len() <= u32::MAX,
            forall|j: int| 0 <= j < i ==> text_encodable((#[trigger] all[j]).name),
            out@ == start + list_bytes(all.take(i as int), group_bytes()),
        decreases sample.groups@.len() - i,
    {
        proof {
            assert(all[i as int] == sample.groups@[i as int]@);
            lemma_list_next(all, i as int, group_bytes());
        }
        let ghost before = out@;
        match write_string(out, sample.groups[i].name.as_str()) {
            Ok(_) => {},
            Err(e) => {
                return Err(e);
            },
        }
        write_f64(out, sample.groups[i].power_sum);
        proof {
            assert(out@ =~= before + group_bytes()(all[i as int]));
            assert(out@ =~= start + list_bytes(all.take(i + 1), group_bytes()));
        }
        i = i + 1;
    }
    write_bool(out, sample.gap_before);
    proof {
        assert(all.take(i as int) =~= all);
        assert(out@ =~= old(out)@ + bucket_bytes(CACHE_VERSION)(sample@));
    }
    Ok(())
}

fn encode_tier(out: &mut Vec<u8>, tier: &VecDeque<TierSample>) -> (r: Result<(), LengthExceedsU32>)
    ensures
        r is Ok <==> tier_encodable(crate::lists::models(tier@)),
        r is Ok ==> final(out)@ == old(out)@ + tier_bytes(
            crate::lists::models(tier@),
            CACHE_VERSION,
        ),
{
    let ghost all = crate::lists::models(tier@);
    match write_len(out, tier.len()) {
        Ok(_) => {},
        Err(e) => {
            return Err(e);
        },
    }
    let ghost start = out@;
    let mut i: usize = 0;
    proof {
        assert(all.take(0) =~= Seq::empty());
        assert(start + list_bytes(all.take(0), bucket_bytes(CACHE_VERSION)) =~= start);
    }
    while i < tier.len()
        invariant
            i <= tier@.len(),
            all == crate::lists::models(tier@),
            tier@.len() <= u32::MAX,
            forall|j: int| 0 <= j < i ==> bucket_encodable(#[trigger] all[j]),
            out@ == start + list_bytes(all.take(i as int), bucket_bytes(CACHE_VERSION)),
        decreases tier@.len() - i,
    {
        proof {
            assert(all[i as int] == tier@[i as int]@);
            lemma_list_next(all, i as int, bucket_bytes(CACHE_VERSION));
        }
        match encode_bucket(&tier[i], out) {
            Ok(_) => {},
            Err(e) => {
                return Err(e);
            },
        }
        proof {
            assert(out@ =~= start + list_bytes(all.take(i + 1), bucket_bytes(CACHE_VERSION)));
        }
        i = i + 1;
    }
    proof {
        assert(all.take(i as int) =~= all);
        assert(out@ =~= old(out)@ + tier_bytes(all, CACHE_VERSION));
    }
    Ok(())
}

fn encode_live(cache: &SessionCache, out: &mut Vec<u8>) -> (r: Result<(), LengthExceedsU32>)
    ensures
        r is Ok <==> cache@.live_power_history.len() <= u32::MAX && cache@.live_snapshots.len()
            <= u32::MAX && forall|i: int|
            0 <= i < cache@.live_snapshots.len() ==> snapshot_encodable(
                #[trigger] cache@.live_snapshots[i],
            ),
        r is Ok ==> final(out)@ == old(out)@ + live_bytes(cache@),
{
    let ghost powers = cache@.live_power_history;
    let ghost snapshots = cache@.live_snapshots;
    match write_len(out, cache.live_power_history.len()) {
        Ok(_) => {},
        Err(e) => {
            return Err(e);
        },
    }
    let ghost start = out@;
    let mut i: usize = 0;
    proof {
        assert(powers.take(0) =~= Seq::empty());
        assert(start + list_bytes(powers.take(0), power_bytes()) =~= start);
    }
    while i < cache.live_power_history.len()
        invariant
            i <= cache.live_power_history@.len(),
            powers == cache@.live_power_history,
            out@ == start + list_bytes(powers.take(i as int), power_bytes()),
        decreases cache.live_power_history@.len() - i,
    {
        proof {
            lemma_list_next(powers, i as int, power_bytes());
        }
        write_f64(out, cache.live_power_history[i]);
        proof {
            assert(out@ =~= start + list_bytes(powers.take(i + 1), power_bytes()));
        }
        i = i + 1;
    }
    proof {
        assert(powers.take(i as int) =~= powers);
    }
    match write_len(out, cache.live_snapshots.len()) {
        Ok(_) => {},
        Err(e) => {
            return Err(e);
        },
    }
    let ghost middle = out@;
    let mut k: usize = 0;
    proof {
        assert(snapshots.take(0) =~= Seq::empty());
        assert(middle + list_bytes(snapshots.take(0), snapshot_bytes()) =~= middle);
    }
    while k < cache.live_snapshots.len()
        invariant
            k <= cache.live_snapshots@.len(),
            snapshots == cache@.live_snapshots,
            cache.live_snapshots@.len() <= u32::MAX,
            cache.live_power_history@.len() <= u32::MAX,
            forall|j: int| 0 <= j < k ==> snapshot_encodable(#[trigger] snapshots[j]),
            out@ == middle + list_bytes(snapshots.take(k as int), snapshot_bytes()),
        decreases cache.live_snapshots@.len() - k,
    {
        proof {
            assert(snapshots[k as int] == cache.live_snapshots@[k as int]@);
            lemma_list_next(snapshots, k as int, snapshot_bytes());
        }
        match encode_snapshot(&cache.live_snapshots[k], out) {
            Ok(_) => {},
            Err(e) => {
                return Err(e);
            },
        }
        proof {
            assert(out@ =~= middle + list_bytes(snapshots.take(k + 1), snapshot_bytes()));
        }
        k = k + 1;
    }
    proof {
        assert(snapshots.take(k as int) =~= snapshots);
        assert(out@ =~= old(out)@ + live_bytes(cache@));
    }
    Ok(())
}

/// Writes a cache in the newest version. Where a length does not fit, nothing is written.
#[verifier::rlimit(40)]
pub fn encode_session_cache(cache: &SessionCache, out: &mut Vec<u8>) -> (r: Result<
    (),
    LengthExceedsU32,
>)
    ensures
        r is Ok <==> encodable(cache@),
        r is Ok ==> final(out)@ == old(out)@ + session_bytes(cache@, CACHE_VERSION),
        r is Err ==> final(out)@ == old(out)@,
{
    let mut bytes: Vec<u8> = vec![0x45, 0x54, 0x4f, 0x50, 0x43, 0x41, 0x43, 0x48];
    write_u16(&mut bytes, CACHE_VERSION);
    write_u64(&mut bytes, cache.saved_at_unix_millis);
    write_u64(&mut bytes, cache.last_tick);
    let last: u64 = match cache.archive.last_sample_unix_secs {
        Some(secs) => secs,
        None => 0,
    };
    write_u64(&mut bytes, last);
    proof {
        assert(bytes@ =~= header_bytes(cache@, CACHE_VERSION));
    }
    match encode_live(cache, &mut bytes) {
        Ok(_) => {},
        Err(e) => {
            return Err(e);
        },
    }
    match encode_tier(&mut bytes, &cache.archive.raw_2s) {
        Ok(_) => {},
        Err(e) => {
            return Err(e);
        },
    }
    match encode_tier(&mut bytes, &cache.archive.agg_10s) {
        Ok(_) => {},
        Err(e) => {
            return Err(e);
        },
    }
    match encode_tier(&mut bytes, &cache.archive.agg_60s) {
        Ok(_) => {},
        Err(e) => {
            return Err(e);
        },
    }
    proof {
        assert(bytes@ =~= session_bytes(cache@, CACHE_VERSION));
    }
    out.append(&mut bytes);
    Ok(())
}

/// The bytes that a session is saved as: of its cache, once that is prepared for saving.
pub fn save_session_cache(cache: &SessionCache) -> (r: Result<Vec<u8>, LengthExceedsU32>)
    ensures
        r is Ok <==> encodable(cache@.prepared()),
        r matches Ok(bytes) ==> bytes@ == session_bytes(cache@.prepared(), CACHE_VERSION),
{
    let mut prepared: SessionCache = cache.clone();
    prepared.prepare_for_saving();
    let mut bytes: Vec<u8> = Vec::new();
    match encode_session_cache(&prepared, &mut bytes) {
        Ok(_) => {
            proof {
                assert(bytes@ =~= session_bytes(cache@.prepared(), CACHE_VERSION));
            }
            Ok(bytes)
        },
        Err(e) => Err(e),
    }
}

} // verus!
