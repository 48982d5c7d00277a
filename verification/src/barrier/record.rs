//! The record layouts of the barrier state topic.
//!
//! ```text
//! key:
//!   version  i16 = 0
//!   kind     i16               0 group, 1 injection start, 2 cut
//!   group    string
//!   epoch    i64               -1 for kind 0
//!
//! cut value:
//!   version      i16 = 0
//!   triggered_at i64
//!   completed_at i64
//!   status       i8            0 complete, 1 partial
//!   topics       i32 [ topic string | partitions i32 [ partition i32 | offset i64 ] ]
//!   missing      i32 [ topic string | partition i32 ]
//! ```
//!
//! A `string` is an `i16` byte length and then UTF-8 bytes. Every integer is
//! big-endian, and an `i32` count precedes each array.

use vstd::prelude::*;
use vstd::string::StringExecFns;
use vstd::utf8;

use crate::barrier::cut::CutStatus;
use crate::error::{ErrorView, StreamsClientError};
use crate::layout;
use crate::text;
use crate::wire;

verus! {

/// The record version that both the key and the cut value carry.
pub const RECORD_VERSION: i16 = 0;

/// The key kind of a cut record. Kinds `0` and `1` are the group definition and
/// the injection start.
pub const CUT_KIND: i16 = 2;

/// The part of a record that is its key.
pub const KEY_PART: &'static str = "key";

/// The part of a cut record that is its value.
pub const VALUE_PART: &'static str = "cut value";

/// What can be wrong with a record.
#[derive(Debug, Clone, Copy, PartialEq, Eq, Structural)]
pub enum Fault {
    /// The bytes end before the last field does.
    Truncated,
    /// Bytes follow the last field.
    Trailing,
    /// The key carries another version than [`RECORD_VERSION`].
    KeyVersion(i16),
    /// The value carries another version than [`RECORD_VERSION`].
    ValueVersion(i16),
    /// A string has a negative length.
    NegativeString(i16),
    /// A string is not UTF-8.
    NotUtf8,
    /// An array has a negative length.
    NegativeCount(i32),
    /// No status carries the code.
    UnknownStatus(i8),
}

/// The text that describes a fault in one part of a record.
pub open spec fn fault_text(part: Seq<char>, fault: Fault) -> Seq<char> {
    match fault {
        Fault::Truncated => "truncated barrier state "@ + part,
        Fault::Trailing => "trailing bytes in barrier state "@ + part,
        Fault::KeyVersion(version) => "unsupported barrier state key version "@ + text::decimal(
            version as int,
        ),
        Fault::ValueVersion(version) => "unsupported barrier state cut value version "@
            + text::decimal(version as int),
        Fault::NegativeString(length) => "negative string length "@ + text::decimal(length as int)
            + " in barrier state "@ + part,
        Fault::NotUtf8 => "non-UTF-8 string in barrier state "@ + part,
        Fault::NegativeCount(count) => "negative array length "@ + text::decimal(count as int)
            + " in barrier state "@ + part,
        Fault::UnknownStatus(code) => "unknown barrier cut status "@ + text::decimal(code as int),
    }
}

/// The error that reports a fault in one part of a record.
pub open spec fn fault_error(part: Seq<char>, fault: Fault) -> ErrorView {
    ErrorView::BarrierFormat { part, message: fault_text(part, fault) }
}

/// Reports a fault in one part of a record.
pub fn malformed(part: &'static str, fault: Fault) -> (error: StreamsClientError)
    ensures
        error@ == fault_error(part@, fault),
{
    let message = match fault {
        Fault::Truncated => {
            let mut message = String::from_str("truncated barrier state ");
            message.append(part);
            message
        },
        Fault::Trailing => {
            let mut message = String::from_str("trailing bytes in barrier state ");
            message.append(part);
            message
        },
        Fault::KeyVersion(version) => {
            let mut message = String::from_str("unsupported barrier state key version ");
            text::push_decimal(&mut message, version as i64);
            message
        },
        Fault::ValueVersion(version) => {
            let mut message = String::from_str("unsupported barrier state cut value version ");
            text::push_decimal(&mut message, version as i64);
            message
        },
        Fault::NegativeString(length) => {
            let mut message = String::from_str("negative string length ");
            text::push_decimal(&mut message, length as i64);
            message.append(" in barrier state ");
            message.append(part);
            message
        },
        Fault::NotUtf8 => {
            let mut message = String::from_str("non-UTF-8 string in barrier state ");
            message.append(part);
            message
        },
        Fault::NegativeCount(count) => {
            let mut message = String::from_str("negative array length ");
            text::push_decimal(&mut message, count as i64);
            message.append(" in barrier state ");
            message.append(part);
            message
        },
        Fault::UnknownStatus(code) => {
            let mut message = String::from_str("unknown barrier cut status ");
            text::push_decimal(&mut message, code as i64);
            message
        },
    };
    StreamsClientError::BarrierFormat { part, message }
}

/// What reading the front of a record gives.
pub type Read<T> = layout::Parsed<T, Fault>;

/// The first `n` bytes.
pub open spec fn parse_bytes(n: nat, d: Seq<u8>) -> Read<Seq<u8>> {
    if d.len() < n {
        Err(Fault::Truncated)
    } else {
        Ok((d.take(n as int), d.skip(n as int)))
    }
}

/// An `i8`.
pub open spec fn parse_i8(d: Seq<u8>) -> Read<i8> {
    match parse_bytes(1, d) {
        Err(fault) => Err(fault),
        Ok((bytes, rest)) => Ok((wire::be_int(bytes) as i8, rest)),
    }
}

/// An `i16`.
pub open spec fn parse_i16(d: Seq<u8>) -> Read<i16> {
    match parse_bytes(2, d) {
        Err(fault) => Err(fault),
        Ok((bytes, rest)) => Ok((wire::be_int(bytes) as i16, rest)),
    }
}

/// An `i32`.
pub open spec fn parse_i32(d: Seq<u8>) -> Read<i32> {
    match parse_bytes(4, d) {
        Err(fault) => Err(fault),
        Ok((bytes, rest)) => Ok((wire::be_int(bytes) as i32, rest)),
    }
}

/// An `i64`.
pub open spec fn parse_i64(d: Seq<u8>) -> Read<i64> {
    match parse_bytes(8, d) {
        Err(fault) => Err(fault),
        Ok((bytes, rest)) => Ok((wire::be_int(bytes) as i64, rest)),
    }
}

/// A string: a byte length and then UTF-8 bytes.
pub open spec fn parse_string(d: Seq<u8>) -> Read<Seq<char>> {
    match parse_i16(d) {
        Err(fault) => Err(fault),
        Ok((length, rest)) => if length < 0 {
            Err(Fault::NegativeString(length))
        } else {
            match parse_bytes(length as nat, rest) {
                Err(fault) => Err(fault),
                Ok((bytes, rest)) => if utf8::valid_utf8(bytes) {
                    Ok((utf8::decode_utf8(bytes), rest))
                } else {
                    Err(Fault::NotUtf8)
                },
            }
        },
    }
}

/// An array length.
pub open spec fn parse_count(d: Seq<u8>) -> Read<i32> {
    match parse_i32(d) {
        Err(fault) => Err(fault),
        Ok((count, rest)) => if count < 0 {
            Err(Fault::NegativeCount(count))
        } else {
            Ok((count, rest))
        },
    }
}

/// A partition and its marker offset.
pub open spec fn parse_offset(d: Seq<u8>) -> Read<(i32, i64)> {
    match parse_i32(d) {
        Err(fault) => Err(fault),
        Ok((partition, rest)) => match parse_i64(rest) {
            Err(fault) => Err(fault),
            Ok((offset, rest)) => Ok(((partition, offset), rest)),
        },
    }
}

/// The reader of a partition and its marker offset.
pub open spec fn offset_parser() -> spec_fn(Seq<u8>) -> Read<(i32, i64)> {
    |d: Seq<u8>| parse_offset(d)
}

/// A topic and the marker offsets of its partitions.
pub open spec fn parse_topic(d: Seq<u8>) -> Read<(Seq<char>, Seq<(i32, i64)>)> {
    match parse_string(d) {
        Err(fault) => Err(fault),
        Ok((topic, rest)) => match parse_count(rest) {
            Err(fault) => Err(fault),
            Ok((count, rest)) => match layout::parse_run(offset_parser(), count as nat, rest) {
                Err(fault) => Err(fault),
                Ok((offsets, rest)) => Ok(((topic, offsets), rest)),
            },
        },
    }
}

/// The reader of a topic.
pub open spec fn topic_parser() -> spec_fn(Seq<u8>) -> Read<(Seq<char>, Seq<(i32, i64)>)> {
    |d: Seq<u8>| parse_topic(d)
}

/// The array of topics.
pub open spec fn parse_topics(d: Seq<u8>) -> Read<Seq<(Seq<char>, Seq<(i32, i64)>)>> {
    match parse_count(d) {
        Err(fault) => Err(fault),
        Ok((count, rest)) => layout::parse_run(topic_parser(), count as nat, rest),
    }
}

/// A partition that received no marker.
pub open spec fn parse_partition(d: Seq<u8>) -> Read<(Seq<char>, i32)> {
    match parse_string(d) {
        Err(fault) => Err(fault),
        Ok((topic, rest)) => match parse_i32(rest) {
            Err(fault) => Err(fault),
            Ok((partition, rest)) => Ok(((topic, partition), rest)),
        },
    }
}

/// The reader of a partition that received no marker.
pub open spec fn partition_parser() -> spec_fn(Seq<u8>) -> Read<(Seq<char>, i32)> {
    |d: Seq<u8>| parse_partition(d)
}

/// The array of partitions that received no marker.
pub open spec fn parse_missing(d: Seq<u8>) -> Read<Seq<(Seq<char>, i32)>> {
    match parse_count(d) {
        Err(fault) => Err(fault),
        Ok((count, rest)) => layout::parse_run(partition_parser(), count as nat, rest),
    }
}

/// The fields of a key.
#[verifier::ext_equal]
pub struct KeyFields {
    pub kind: i16,
    pub group: Seq<char>,
    pub epoch: i64,
}

/// Reads the fields of a key off the front of the input.
pub open spec fn parse_key_fields(d: Seq<u8>) -> Read<KeyFields> {
    match parse_i16(d) {
        Err(fault) => Err(fault),
        Ok((version, rest)) => if version != RECORD_VERSION {
            Err(Fault::KeyVersion(version))
        } else {
            match parse_i16(rest) {
                Err(fault) => Err(fault),
                Ok((kind, rest)) => match parse_string(rest) {
                    Err(fault) => Err(fault),
                    Ok((group, rest)) => match parse_i64(rest) {
                        Err(fault) => Err(fault),
                        Ok((epoch, rest)) => Ok((KeyFields { kind, group, epoch }, rest)),
                    },
                },
            }
        },
    }
}

/// The fields of a cut value, with its arrays as they stand in the record.
#[verifier::ext_equal]
pub struct CutFields {
    pub triggered_at: i64,
    pub completed_at: i64,
    pub status: CutStatus,
    pub topics: Seq<(Seq<char>, Seq<(i32, i64)>)>,
    pub missing: Seq<(Seq<char>, i32)>,
}

/// A status byte.
pub open spec fn parse_status(d: Seq<u8>) -> Read<CutStatus> {
    match parse_i8(d) {
        Err(fault) => Err(fault),
        Ok((code, rest)) => match CutStatus::of_code(code) {
            None => Err(Fault::UnknownStatus(code)),
            Some(status) => Ok((status, rest)),
        },
    }
}

/// The two arrays of a cut value.
pub open spec fn parse_arrays(d: Seq<u8>) -> Read<
    (Seq<(Seq<char>, Seq<(i32, i64)>)>, Seq<(Seq<char>, i32)>),
> {
    match parse_topics(d) {
        Err(fault) => Err(fault),
        Ok((topics, rest)) => match parse_missing(rest) {
            Err(fault) => Err(fault),
            Ok((missing, rest)) => Ok(((topics, missing), rest)),
        },
    }
}

/// Reads the fields of a cut value off the front of the input.
pub open spec fn parse_cut_fields(d: Seq<u8>) -> Read<CutFields> {
    match parse_i16(d) {
        Err(fault) => Err(fault),
        Ok((version, rest)) => if version != RECORD_VERSION {
            Err(Fault::ValueVersion(version))
        } else {
            match parse_i64(rest) {
                Err(fault) => Err(fault),
                Ok((triggered_at, rest)) => match parse_i64(rest) {
                    Err(fault) => Err(fault),
                    Ok((completed_at, rest)) => match parse_status(rest) {
                        Err(fault) => Err(fault),
                        Ok((status, rest)) => match parse_arrays(rest) {
                            Err(fault) => Err(fault),
                            Ok(((topics, missing), rest)) => Ok(
                                (
                                    CutFields {
                                        triggered_at,
                                        completed_at,
                                        status,
                                        topics,
                                        missing,
                                    },
                                    rest,
                                ),
                            ),
                        },
                    },
                },
            }
        },
    }
}

/// A read that has to use up its input.
pub open spec fn whole<T>(read: Read<T>) -> Result<T, Fault> {
    match read {
        Err(fault) => Err(fault),
        Ok((value, rest)) => if rest.len() > 0 {
            Err(Fault::Trailing)
        } else {
            Ok(value)
        },
    }
}

/// Reads a whole key.
pub open spec fn parse_key(d: Seq<u8>) -> Result<KeyFields, Fault> {
    whole(parse_key_fields(d))
}

/// Reads a whole cut value.
pub open spec fn parse_cut(d: Seq<u8>) -> Result<CutFields, Fault> {
    whole(parse_cut_fields(d))
}

/// What a read of a string leaves unread, whatever comes of it.
pub open spec fn left_by_string(d: Seq<u8>) -> Seq<u8> {
    match parse_i16(d) {
        Err(_) => d,
        Ok((length, rest)) => if length < 0 {
            rest
        } else {
            match parse_bytes(length as nat, rest) {
                Err(_) => rest,
                Ok((_, rest)) => rest,
            }
        },
    }
}

/// What a read of an array length leaves unread, whatever comes of it.
pub open spec fn left_by_count(d: Seq<u8>) -> Seq<u8> {
    match parse_i32(d) {
        Err(_) => d,
        Ok((_, rest)) => rest,
    }
}

/// What a read of a partition and its marker offset leaves unread, whatever
/// comes of it.
pub open spec fn left_by_offset(d: Seq<u8>) -> Seq<u8> {
    match parse_i32(d) {
        Err(_) => d,
        Ok((_, rest)) => match parse_i64(rest) {
            Err(_) => rest,
            Ok((_, rest)) => rest,
        },
    }
}

/// What is left unread of a run of partitions and their marker offsets.
pub open spec fn left_by_offsets(count: nat, d: Seq<u8>) -> Seq<u8> {
    layout::left_by_run(offset_parser(), |d: Seq<u8>| left_by_offset(d), count, d)
}

/// What a read of a topic leaves unread, whatever comes of it.
pub open spec fn left_by_topic(d: Seq<u8>) -> Seq<u8> {
    match parse_string(d) {
        Err(_) => left_by_string(d),
        Ok((_, rest)) => match parse_count(rest) {
            Err(_) => left_by_count(rest),
            Ok((count, rest)) => left_by_offsets(count as nat, rest),
        },
    }
}

/// What a read of the array of topics leaves unread, whatever comes of it.
pub open spec fn left_by_topics(d: Seq<u8>) -> Seq<u8> {
    match parse_count(d) {
        Err(_) => left_by_count(d),
        Ok((count, rest)) => layout::left_by_run(
            topic_parser(),
            |d: Seq<u8>| left_by_topic(d),
            count as nat,
            rest,
        ),
    }
}

/// What a read of a partition that received no marker leaves unread, whatever
/// comes of it.
pub open spec fn left_by_partition(d: Seq<u8>) -> Seq<u8> {
    match parse_string(d) {
        Err(_) => left_by_string(d),
        Ok((_, rest)) => match parse_i32(rest) {
            Err(_) => rest,
            Ok((_, rest)) => rest,
        },
    }
}

/// What a read of the array of partitions that received no marker leaves unread,
/// whatever comes of it.
pub open spec fn left_by_missing(d: Seq<u8>) -> Seq<u8> {
    match parse_count(d) {
        Err(_) => left_by_count(d),
        Ok((count, rest)) => layout::left_by_run(
            partition_parser(),
            |d: Seq<u8>| left_by_partition(d),
            count as nat,
            rest,
        ),
    }
}

/// The bytes of a string.
pub open spec fn write_string(s: Seq<char>) -> Seq<u8> {
    wire::be_int_bytes(utf8::encode_utf8(s).len() as int, 2) + utf8::encode_utf8(s)
}

/// Whether a string is short enough for its length field.
pub open spec fn string_fits(s: Seq<char>) -> bool {
    utf8::encode_utf8(s).len() <= i16::MAX
}

/// The bytes of a partition and its marker offset.
pub open spec fn write_offset(x: (i32, i64)) -> Seq<u8> {
    wire::be_int_bytes(x.0 as int, 4) + wire::be_int_bytes(x.1 as int, 8)
}

/// The writer of a partition and its marker offset.
pub open spec fn offset_writer() -> spec_fn((i32, i64)) -> Seq<u8> {
    |x: (i32, i64)| write_offset(x)
}

/// A partition and its marker offset always fit their fields.
pub open spec fn offset_fits() -> spec_fn((i32, i64)) -> bool {
    |x: (i32, i64)| true
}

/// The bytes of a topic and the marker offsets of its partitions.
pub open spec fn write_topic(x: (Seq<char>, Seq<(i32, i64)>)) -> Seq<u8> {
    write_string(x.0) + (wire::be_int_bytes(x.1.len() as int, 4) + layout::write_run(
        offset_writer(),
        x.1,
    ))
}

/// The writer of a topic.
pub open spec fn topic_writer() -> spec_fn((Seq<char>, Seq<(i32, i64)>)) -> Seq<u8> {
    |x: (Seq<char>, Seq<(i32, i64)>)| write_topic(x)
}

/// Whether a topic is short enough for its length and count fields.
pub open spec fn topic_fits() -> spec_fn((Seq<char>, Seq<(i32, i64)>)) -> bool {
    |x: (Seq<char>, Seq<(i32, i64)>)| string_fits(x.0) && x.1.len() <= i32::MAX
}

/// The bytes of the array of topics.
pub open spec fn write_topics(xs: Seq<(Seq<char>, Seq<(i32, i64)>)>) -> Seq<u8> {
    wire::be_int_bytes(xs.len() as int, 4) + layout::write_run(topic_writer(), xs)
}

/// The bytes of a partition that received no marker.
pub open spec fn write_partition(x: (Seq<char>, i32)) -> Seq<u8> {
    write_string(x.0) + wire::be_int_bytes(x.1 as int, 4)
}

/// The writer of a partition that received no marker.
pub open spec fn partition_writer() -> spec_fn((Seq<char>, i32)) -> Seq<u8> {
    |x: (Seq<char>, i32)| write_partition(x)
}

/// Whether the topic of a partition that received no marker is short enough for
/// its length field.
pub open spec fn partition_fits() -> spec_fn((Seq<char>, i32)) -> bool {
    |x: (Seq<char>, i32)| string_fits(x.0)
}

/// The bytes of the array of partitions that received no marker.
pub open spec fn write_missing(xs: Seq<(Seq<char>, i32)>) -> Seq<u8> {
    wire::be_int_bytes(xs.len() as int, 4) + layout::write_run(partition_writer(), xs)
}

/// The bytes of a key.
pub open spec fn write_key(key: KeyFields) -> Seq<u8> {
    wire::be_int_bytes(RECORD_VERSION as int, 2) + (wire::be_int_bytes(key.kind as int, 2) + (
    write_string(key.group) + wire::be_int_bytes(key.epoch as int, 8)))
}

/// Whether a key is short enough for its length fields.
pub open spec fn key_fits(key: KeyFields) -> bool {
    string_fits(key.group)
}

/// The bytes of a cut value.
pub open spec fn write_cut(cut: CutFields) -> Seq<u8> {
    wire::be_int_bytes(RECORD_VERSION as int, 2) + (wire::be_int_bytes(cut.triggered_at as int, 8)
        + (wire::be_int_bytes(cut.completed_at as int, 8) + (wire::be_int_bytes(
        cut.status.code_of() as int,
        1,
    ) + (write_topics(cut.topics) + write_missing(cut.missing)))))
}

/// Whether a cut value is short enough for its count and length fields.
pub open spec fn cut_fits(cut: CutFields) -> bool {
    &&& cut.topics.len() <= i32::MAX
    &&& forall|i: int| 0 <= i < cut.topics.len() ==> topic_fits()(#[trigger] cut.topics[i])
    &&& cut.missing.len() <= i32::MAX
    &&& forall|i: int| 0 <= i < cut.missing.len() ==> partition_fits()(#[trigger] cut.missing[i])
}

/// A fixed-width field is what its bytes say, and is written as those bytes.
proof fn lemma_int_field(i: int, width: nat, rest: Seq<u8>, d: Seq<u8>)
    ensures
        wire::int_fits(i, width) ==> {
            &&& wire::be_int_bytes(i, width).len() == width
            &&& parse_bytes(width, wire::be_int_bytes(i, width) + rest) == Read::Ok(
                (wire::be_int_bytes(i, width), rest),
            )
            &&& wire::be_int(wire::be_int_bytes(i, width)) == i
        },
        d.len() >= width ==> {
            let bytes = d.take(width as int);
            &&& wire::int_fits(wire::be_int(bytes), width)
            &&& d == wire::be_int_bytes(wire::be_int(bytes), width) + d.skip(width as int)
        },
{
    if wire::int_fits(i, width) {
        wire::lemma_be_int_of_bytes(i, width);
        let bytes = wire::be_int_bytes(i, width);
        assert((bytes + rest).take(width as int) =~= bytes);
        assert((bytes + rest).skip(width as int) =~= rest);
    }
    if d.len() >= width {
        wire::lemma_be_bytes_of_int(d.take(width as int));
        assert(d =~= d.take(width as int) + d.skip(width as int));
    }
}

pub proof fn lemma_i8_layout(v: i8, rest: Seq<u8>, d: Seq<u8>)
    ensures
        parse_i8(wire::be_int_bytes(v as int, 1) + rest) == Read::Ok((v, rest)),
        parse_i8(d) matches Ok((x, after)) ==> d == wire::be_int_bytes(x as int, 1) + after,
{
    wire::lemma_byte_ranges();
    lemma_int_field(v as int, 1, rest, d);
}

pub proof fn lemma_i16_layout(v: i16, rest: Seq<u8>, d: Seq<u8>)
    ensures
        parse_i16(wire::be_int_bytes(v as int, 2) + rest) == Read::Ok((v, rest)),
        parse_i16(d) matches Ok((x, after)) ==> d == wire::be_int_bytes(x as int, 2) + after,
{
    wire::lemma_byte_ranges();
    lemma_int_field(v as int, 2, rest, d);
}

pub proof fn lemma_i32_layout(v: i32, rest: Seq<u8>, d: Seq<u8>)
    ensures
        parse_i32(wire::be_int_bytes(v as int, 4) + rest) == Read::Ok((v, rest)),
        parse_i32(d) matches Ok((x, after)) ==> d == wire::be_int_bytes(x as int, 4) + after,
{
    wire::lemma_byte_ranges();
    lemma_int_field(v as int, 4, rest, d);
}

pub proof fn lemma_i64_layout(v: i64, rest: Seq<u8>, d: Seq<u8>)
    ensures
        parse_i64(wire::be_int_bytes(v as int, 8) + rest) == Read::Ok((v, rest)),
        parse_i64(d) matches Ok((x, after)) ==> d == wire::be_int_bytes(x as int, 8) + after,
{
    wire::lemma_byte_ranges();
    lemma_int_field(v as int, 8, rest, d);
}

pub proof fn lemma_string_layout(s: Seq<char>, rest: Seq<u8>, d: Seq<u8>)
    ensures
        string_fits(s) ==> parse_string(write_string(s) + rest) == Read::Ok((s, rest)),
        parse_string(d) matches Ok((x, after)) ==> string_fits(x) && d == write_string(x) + after,
{
    let bytes = utf8::encode_utf8(s);
    if string_fits(s) {
        assert(write_string(s) + rest =~= wire::be_int_bytes(bytes.len() as int, 2) + (bytes
            + rest));
        lemma_i16_layout(bytes.len() as i16, bytes + rest, d);
        assert((bytes + rest).take(bytes.len() as int) =~= bytes);
        assert((bytes + rest).skip(bytes.len() as int) =~= rest);
        utf8::encode_utf8_valid_utf8(s);
        utf8::encode_utf8_decode_utf8(s);
    }
    if let Ok((x, after)) = parse_string(d) {
        lemma_i16_layout(0, rest, d);
        let (length, middle) = parse_i16(d)->Ok_0;
        let body = middle.take(length as int);
        utf8::decode_utf8_encode_utf8(body);
        assert(middle =~= body + after);
        assert(d =~= write_string(x) + after);
    }
}

proof fn lemma_offset_reads_written(x: (i32, i64), rest: Seq<u8>)
    ensures
        parse_offset(write_offset(x) + rest) == Read::Ok((x, rest)),
{
    let tail = wire::be_int_bytes(x.1 as int, 8);
    lemma_i32_layout(x.0, tail + rest, rest);
    lemma_i64_layout(x.1, rest, rest);
    assert(write_offset(x) + rest =~= wire::be_int_bytes(x.0 as int, 4) + (tail + rest));
}

proof fn lemma_offset_was_written(d: Seq<u8>)
    ensures
        parse_offset(d) matches Ok((x, rest)) ==> d == write_offset(x) + rest,
{
    if let Ok((x, rest)) = parse_offset(d) {
        let (_, middle) = parse_i32(d)->Ok_0;
        lemma_i32_layout(0, d, d);
        lemma_i64_layout(0, d, middle);
        assert(d =~= write_offset(x) + rest);
    }
}

pub proof fn lemma_offset_layout()
    ensures
        layout::one_layout(offset_parser(), offset_writer(), offset_fits()),
{
    assert forall|x: (i32, i64), rest: Seq<u8>| offset_fits()(x) implies #[trigger] offset_parser()(
        offset_writer()(x) + rest,
    ) == Read::Ok((x, rest)) by {
        lemma_offset_reads_written(x, rest);
    }
    assert forall|d: Seq<u8>|
        (#[trigger] offset_parser()(d)) matches Ok((x, rest)) ==> offset_fits()(x) && d
        == offset_writer()(x) + rest by {
        lemma_offset_was_written(d);
    }
}

proof fn lemma_partition_reads_written(x: (Seq<char>, i32), rest: Seq<u8>)
    requires
        partition_fits()(x),
    ensures
        parse_partition(write_partition(x) + rest) == Read::Ok((x, rest)),
{
    let tail = wire::be_int_bytes(x.1 as int, 4);
    lemma_string_layout(x.0, tail + rest, rest);
    lemma_i32_layout(x.1, rest, rest);
    assert(write_partition(x) + rest =~= write_string(x.0) + (tail + rest));
}

proof fn lemma_partition_was_written(d: Seq<u8>)
    ensures
        parse_partition(d) matches Ok((x, rest)) ==> partition_fits()(x) && d == write_partition(x)
            + rest,
{
    if let Ok((x, rest)) = parse_partition(d) {
        let (_, middle) = parse_string(d)->Ok_0;
        lemma_string_layout(x.0, d, d);
        lemma_i32_layout(0, d, middle);
        assert(d =~= write_partition(x) + rest);
    }
}

pub proof fn lemma_partition_layout()
    ensures
        layout::one_layout(partition_parser(), partition_writer(), partition_fits()),
{
    assert forall|x: (Seq<char>, i32), rest: Seq<u8>| partition_fits()(x) implies #[trigger]
    partition_parser()(partition_writer()(x) + rest) == Read::Ok((x, rest)) by {
        lemma_partition_reads_written(x, rest);
    }
    assert forall|d: Seq<u8>|
        (#[trigger] partition_parser()(d)) matches Ok((x, rest)) ==> partition_fits()(x) && d
        == partition_writer()(x) + rest by {
        lemma_partition_was_written(d);
    }
}

proof fn lemma_count_layout(n: int, rest: Seq<u8>, d: Seq<u8>)
    requires
        0 <= n <= i32::MAX,
    ensures
        parse_count(wire::be_int_bytes(n, 4) + rest) == Read::Ok((n as i32, rest)),
        parse_count(d) matches Ok((x, after)) ==> x >= 0 && d == wire::be_int_bytes(x as int, 4)
            + after,
{
    lemma_i32_layout(n as i32, rest, d);
}

proof fn lemma_topic_reads_written(x: (Seq<char>, Seq<(i32, i64)>), rest: Seq<u8>)
    requires
        topic_fits()(x),
    ensures
        parse_topic(write_topic(x) + rest) == Read::Ok((x, rest)),
{
    let count = wire::be_int_bytes(x.1.len() as int, 4);
    let run = layout::write_run(offset_writer(), x.1);
    lemma_offset_layout();
    lemma_string_layout(x.0, count + (run + rest), rest);
    lemma_count_layout(x.1.len() as int, run + rest, rest);
    layout::lemma_run_reads_written(offset_parser(), offset_writer(), offset_fits(), x.1, rest);
    assert(write_topic(x) + rest =~= write_string(x.0) + (count + (run + rest)));
}

proof fn lemma_topic_was_written(d: Seq<u8>)
    ensures
        parse_topic(d) matches Ok((x, rest)) ==> topic_fits()(x) && d == write_topic(x) + rest,
{
    if let Ok((x, rest)) = parse_topic(d) {
        let (_, first) = parse_string(d)->Ok_0;
        let (count, second) = parse_count(first)->Ok_0;
        lemma_offset_layout();
        lemma_string_layout(x.0, d, d);
        lemma_count_layout(0, d, first);
        layout::lemma_run_was_written(
            offset_parser(),
            offset_writer(),
            offset_fits(),
            count as nat,
            second,
        );
        assert(d =~= write_topic(x) + rest);
    }
}

pub proof fn lemma_topic_layout()
    ensures
        layout::one_layout(topic_parser(), topic_writer(), topic_fits()),
{
    assert forall|x: (Seq<char>, Seq<(i32, i64)>), rest: Seq<u8>| topic_fits()(x) implies #[trigger]
    topic_parser()(topic_writer()(x) + rest) == Read::Ok((x, rest)) by {
        lemma_topic_reads_written(x, rest);
    }
    assert forall|d: Seq<u8>|
        (#[trigger] topic_parser()(d)) matches Ok((x, rest)) ==> topic_fits()(x) && d
        == topic_writer()(x) + rest by {
        lemma_topic_was_written(d);
    }
}

proof fn lemma_topics_layout(
    xs: Seq<(Seq<char>, Seq<(i32, i64)>)>,
    rest: Seq<u8>,
    d: Seq<u8>,
)
    ensures
        xs.len() <= i32::MAX && (forall|i: int|
            0 <= i < xs.len() ==> topic_fits()(#[trigger] xs[i])) ==> parse_topics(
            write_topics(xs) + rest,
        ) == Read::Ok((xs, rest)),
        parse_topics(d) matches Ok((ys, after)) ==> {
            &&& ys.len() <= i32::MAX
            &&& forall|i: int| 0 <= i < ys.len() ==> topic_fits()(#[trigger] ys[i])
            &&& d == write_topics(ys) + after
        },
{
    lemma_topic_layout();
    if xs.len() <= i32::MAX && (forall|i: int|
        0 <= i < xs.len() ==> topic_fits()(#[trigger] xs[i])) {
        let run = layout::write_run(topic_writer(), xs);
        lemma_count_layout(xs.len() as int, run + rest, d);
        layout::lemma_run_reads_written(topic_parser(), topic_writer(), topic_fits(), xs, rest);
        assert(write_topics(xs) + rest =~= wire::be_int_bytes(xs.len() as int, 4) + (run + rest));
    }
    if let Ok((ys, after)) = parse_topics(d) {
        lemma_count_layout(0, d, d);
        let (count, middle) = parse_count(d)->Ok_0;
        layout::lemma_run_was_written(
            topic_parser(),
            topic_writer(),
            topic_fits(),
            count as nat,
            middle,
        );
        assert(d =~= write_topics(ys) + after);
    }
}

proof fn lemma_missing_layout(xs: Seq<(Seq<char>, i32)>, rest: Seq<u8>, d: Seq<u8>)
    ensures
        xs.len() <= i32::MAX && (forall|i: int|
            0 <= i < xs.len() ==> partition_fits()(#[trigger] xs[i])) ==> parse_missing(
            write_missing(xs) + rest,
        ) == Read::Ok((xs, rest)),
        parse_missing(d) matches Ok((ys, after)) ==> {
            &&& ys.len() <= i32::MAX
            &&& forall|i: int| 0 <= i < ys.len() ==> partition_fits()(#[trigger] ys[i])
            &&& d == write_missing(ys) + after
        },
{
    lemma_partition_layout();
    if xs.len() <= i32::MAX && (forall|i: int|
        0 <= i < xs.len() ==> partition_fits()(#[trigger] xs[i])) {
        let run = layout::write_run(partition_writer(), xs);
        lemma_count_layout(xs.len() as int, run + rest, d);
        layout::lemma_run_reads_written(
            partition_parser(),
            partition_writer(),
            partition_fits(),
            xs,
            rest,
        );
        assert(write_missing(xs) + rest =~= wire::be_int_bytes(xs.len() as int, 4) + (run + rest));
    }
    if let Ok((ys, after)) = parse_missing(d) {
        lemma_count_layout(0, d, d);
        let (count, middle) = parse_count(d)->Ok_0;
        layout::lemma_run_was_written(
            partition_parser(),
            partition_writer(),
            partition_fits(),
            count as nat,
            middle,
        );
        assert(d =~= write_missing(ys) + after);
    }
}

/// **Keys read back.** Reading the bytes of a key gives the key, and a key that
/// bytes follow is refused for them.
pub proof fn law_key_reads_back(key: KeyFields, extra: Seq<u8>)
    requires
        key_fits(key),
    ensures
        parse_key(write_key(key)) == Ok::<KeyFields, Fault>(key),
        extra.len() > 0 ==> parse_key(write_key(key) + extra) == Err::<KeyFields, Fault>(
            Fault::Trailing,
        ),
{
    lemma_key_front(key, extra);
    lemma_key_front(key, Seq::empty());
    assert(write_key(key) + Seq::<u8>::empty() =~= write_key(key));
}

proof fn lemma_key_front(key: KeyFields, rest: Seq<u8>)
    requires
        key_fits(key),
    ensures
        parse_key_fields(write_key(key) + rest) == Read::Ok((key, rest)),
{
    let version = wire::be_int_bytes(RECORD_VERSION as int, 2);
    let kind = wire::be_int_bytes(key.kind as int, 2);
    let group = write_string(key.group);
    let epoch = wire::be_int_bytes(key.epoch as int, 8);
    lemma_i64_layout(key.epoch, rest, rest);
    lemma_string_layout(key.group, epoch + rest, rest);
    lemma_i16_layout(key.kind, group + (epoch + rest), rest);
    lemma_i16_layout(RECORD_VERSION, kind + (group + (epoch + rest)), rest);
    assert(write_key(key) + rest =~= version + (kind + (group + (epoch + rest))));
}

/// **One byte string per key.** Whatever is accepted as a key is the bytes of
/// the key that it is read as.
pub proof fn law_key_was_written(d: Seq<u8>)
    requires
        parse_key(d) is Ok,
    ensures
        key_fits(parse_key(d)->Ok_0),
        d == write_key(parse_key(d)->Ok_0),
{
    let key = parse_key(d)->Ok_0;
    let (_, after_version) = parse_i16(d)->Ok_0;
    let (_, after_kind) = parse_i16(after_version)->Ok_0;
    let (_, after_group) = parse_string(after_kind)->Ok_0;
    lemma_i16_layout(0, d, d);
    lemma_i16_layout(0, d, after_version);
    lemma_string_layout(key.group, d, after_kind);
    lemma_i64_layout(0, d, after_group);
    assert(d =~= write_key(key));
}

/// **Cut values read back.** Reading the bytes of a cut value gives its fields,
/// and a value that bytes follow is refused for them.
pub proof fn law_cut_reads_back(cut: CutFields, extra: Seq<u8>)
    requires
        cut_fits(cut),
    ensures
        parse_cut(write_cut(cut)) == Ok::<CutFields, Fault>(cut),
        extra.len() > 0 ==> parse_cut(write_cut(cut) + extra) == Err::<CutFields, Fault>(
            Fault::Trailing,
        ),
{
    lemma_cut_front(cut, extra);
    lemma_cut_front(cut, Seq::empty());
    assert(write_cut(cut) + Seq::<u8>::empty() =~= write_cut(cut));
}

proof fn lemma_cut_front(cut: CutFields, rest: Seq<u8>)
    requires
        cut_fits(cut),
    ensures
        parse_cut_fields(write_cut(cut) + rest) == Read::Ok((cut, rest)),
{
    let version = wire::be_int_bytes(RECORD_VERSION as int, 2);
    let triggered = wire::be_int_bytes(cut.triggered_at as int, 8);
    let completed = wire::be_int_bytes(cut.completed_at as int, 8);
    let status = wire::be_int_bytes(cut.status.code_of() as int, 1);
    let topics = write_topics(cut.topics);
    let missing = write_missing(cut.missing);
    let arrays = topics + (missing + rest);
    lemma_missing_layout(cut.missing, rest, rest);
    lemma_topics_layout(cut.topics, missing + rest, rest);
    lemma_i8_layout(cut.status.code_of(), arrays, rest);
    lemma_i64_layout(cut.completed_at, status + arrays, rest);
    lemma_i64_layout(cut.triggered_at, completed + (status + arrays), rest);
    lemma_i16_layout(RECORD_VERSION, triggered + (completed + (status + arrays)), rest);
    assert(write_cut(cut) + rest =~= version + (triggered + (completed + (status + arrays))));
}

/// **One byte string per cut value.** Whatever is accepted as a cut value is the
/// bytes of the fields that it is read as.
pub proof fn law_cut_was_written(d: Seq<u8>)
    requires
        parse_cut(d) is Ok,
    ensures
        cut_fits(parse_cut(d)->Ok_0),
        d == write_cut(parse_cut(d)->Ok_0),
{
    let cut = parse_cut(d)->Ok_0;
    let (_, a) = parse_i16(d)->Ok_0;
    let (_, b) = parse_i64(a)->Ok_0;
    let (_, c) = parse_i64(b)->Ok_0;
    let (_, e) = parse_i8(c)->Ok_0;
    let (_, f) = parse_topics(e)->Ok_0;
    lemma_i16_layout(0, d, d);
    lemma_i64_layout(0, d, a);
    lemma_i64_layout(0, d, b);
    lemma_i8_layout(0, d, c);
    lemma_topics_layout(cut.topics, d, e);
    lemma_missing_layout(cut.missing, d, f);
    assert(d =~= write_cut(cut));
}

proof fn lemma_bytes_shortened(count: nat, d: Seq<u8>, n: int)
    requires
        0 <= n <= d.len(),
    ensures
        layout::shortened(
            parse_bytes(count, d),
            parse_bytes(count, d.take(n)),
            d.len(),
            n,
            Fault::Truncated,
        ),
{
    if count <= n {
        assert(d.take(n).take(count as int) =~= d.take(count as int));
        assert(d.take(n).skip(count as int) =~= d.skip(count as int).take(n - count));
    }
}

proof fn lemma_i8_shortened(d: Seq<u8>, n: int)
    requires
        0 <= n <= d.len(),
    ensures
        layout::shortened(parse_i8(d), parse_i8(d.take(n)), d.len(), n, Fault::Truncated),
{
    lemma_bytes_shortened(1, d, n);
}

proof fn lemma_i16_shortened(d: Seq<u8>, n: int)
    requires
        0 <= n <= d.len(),
    ensures
        layout::shortened(parse_i16(d), parse_i16(d.take(n)), d.len(), n, Fault::Truncated),
{
    lemma_bytes_shortened(2, d, n);
}

proof fn lemma_i32_shortened(d: Seq<u8>, n: int)
    requires
        0 <= n <= d.len(),
    ensures
        layout::shortened(parse_i32(d), parse_i32(d.take(n)), d.len(), n, Fault::Truncated),
{
    lemma_bytes_shortened(4, d, n);
}

proof fn lemma_i64_shortened(d: Seq<u8>, n: int)
    requires
        0 <= n <= d.len(),
    ensures
        layout::shortened(parse_i64(d), parse_i64(d.take(n)), d.len(), n, Fault::Truncated),
{
    lemma_bytes_shortened(8, d, n);
}

proof fn lemma_count_shortened(d: Seq<u8>, n: int)
    requires
        0 <= n <= d.len(),
    ensures
        layout::shortened(parse_count(d), parse_count(d.take(n)), d.len(), n, Fault::Truncated),
{
    lemma_i32_shortened(d, n);
}

proof fn lemma_string_shortened(d: Seq<u8>, n: int)
    requires
        0 <= n <= d.len(),
    ensures
        layout::shortened(parse_string(d), parse_string(d.take(n)), d.len(), n, Fault::Truncated),
{
    lemma_i16_shortened(d, n);
    if let Ok((length, rest)) = parse_i16(d) {
        if length >= 0 && n >= d.len() - rest.len() {
            lemma_bytes_shortened(length as nat, rest, n - (d.len() - rest.len()));
        }
    }
}

proof fn lemma_offset_shortened(d: Seq<u8>, n: int)
    requires
        0 <= n <= d.len(),
    ensures
        layout::shortened(
            offset_parser()(d),
            offset_parser()(d.take(n)),
            d.len(),
            n,
            Fault::Truncated,
        ),
{
    lemma_i32_shortened(d, n);
    if let Ok((_, rest)) = parse_i32(d) {
        if n >= d.len() - rest.len() {
            lemma_i64_shortened(rest, n - (d.len() - rest.len()));
        }
    }
}

proof fn lemma_partition_shortened(d: Seq<u8>, n: int)
    requires
        0 <= n <= d.len(),
    ensures
        layout::shortened(
            partition_parser()(d),
            partition_parser()(d.take(n)),
            d.len(),
            n,
            Fault::Truncated,
        ),
{
    lemma_string_shortened(d, n);
    if let Ok((_, rest)) = parse_string(d) {
        if n >= d.len() - rest.len() {
            lemma_i32_shortened(rest, n - (d.len() - rest.len()));
        }
    }
}

proof fn lemma_topic_shortened(d: Seq<u8>, n: int)
    requires
        0 <= n <= d.len(),
    ensures
        layout::shortened(
            topic_parser()(d),
            topic_parser()(d.take(n)),
            d.len(),
            n,
            Fault::Truncated,
        ),
{
    lemma_string_shortened(d, n);
    if let Ok((_, first)) = parse_string(d) {
        let m = n - (d.len() - first.len());
        lemma_count_shortened(first, if m >= 0 { m } else { 0 });
        if let Ok((count, second)) = parse_count(first) {
            let k = m - (first.len() - second.len());
            assert forall|d: Seq<u8>, n: int| 0 <= n <= d.len() implies #[trigger] layout::shortened(
                offset_parser()(d),
                offset_parser()(d.take(n)),
                d.len(),
                n,
                Fault::Truncated,
            ) by {
                lemma_offset_shortened(d, n);
            }
            layout::lemma_run_shortened(
                offset_parser(),
                count as nat,
                second,
                if k >= 0 { k } else { 0 },
                Fault::Truncated,
            );
        }
    }
}

proof fn lemma_topics_shortened(d: Seq<u8>, n: int)
    requires
        0 <= n <= d.len(),
    ensures
        layout::shortened(parse_topics(d), parse_topics(d.take(n)), d.len(), n, Fault::Truncated),
{
    lemma_count_shortened(d, n);
    if let Ok((count, rest)) = parse_count(d) {
        let m = n - (d.len() - rest.len());
        assert forall|d: Seq<u8>, n: int| 0 <= n <= d.len() implies #[trigger] layout::shortened(
            topic_parser()(d),
            topic_parser()(d.take(n)),
            d.len(),
            n,
            Fault::Truncated,
        ) by {
            lemma_topic_shortened(d, n);
        }
        layout::lemma_run_shortened(
            topic_parser(),
            count as nat,
            rest,
            if m >= 0 { m } else { 0 },
            Fault::Truncated,
        );
    }
}

proof fn lemma_missing_shortened(d: Seq<u8>, n: int)
    requires
        0 <= n <= d.len(),
    ensures
        layout::shortened(parse_missing(d), parse_missing(d.take(n)), d.len(), n, Fault::Truncated),
{
    lemma_count_shortened(d, n);
    if let Ok((count, rest)) = parse_count(d) {
        let m = n - (d.len() - rest.len());
        assert forall|d: Seq<u8>, n: int| 0 <= n <= d.len() implies #[trigger] layout::shortened(
            partition_parser()(d),
            partition_parser()(d.take(n)),
            d.len(),
            n,
            Fault::Truncated,
        ) by {
            lemma_partition_shortened(d, n);
        }
        layout::lemma_run_shortened(
            partition_parser(),
            count as nat,
            rest,
            if m >= 0 { m } else { 0 },
            Fault::Truncated,
        );
    }
}

/// **Short keys are refused.** Every proper prefix of a key is refused as
/// truncated.
pub proof fn law_short_key_is_truncated(d: Seq<u8>, n: int)
    requires
        parse_key(d) is Ok,
        0 <= n < d.len(),
    ensures
        parse_key(d.take(n)) == Err::<KeyFields, Fault>(Fault::Truncated),
{
    let (_, a) = parse_i16(d)->Ok_0;
    let (_, b) = parse_i16(a)->Ok_0;
    let (_, c) = parse_string(b)->Ok_0;
    lemma_i16_shortened(d, n);
    let na = n - (d.len() - a.len());
    if na >= 0 {
        lemma_i16_shortened(a, na);
        let nb = na - (a.len() - b.len());
        if nb >= 0 {
            lemma_string_shortened(b, nb);
            let nc = nb - (b.len() - c.len());
            if nc >= 0 {
                lemma_i64_shortened(c, nc);
            }
        }
    }
}

/// **Short cut values are refused.** Every proper prefix of a cut value is
/// refused as truncated.
pub proof fn law_short_cut_is_truncated(d: Seq<u8>, n: int)
    requires
        parse_cut(d) is Ok,
        0 <= n < d.len(),
    ensures
        parse_cut(d.take(n)) == Err::<CutFields, Fault>(Fault::Truncated),
{
    let (_, a) = parse_i16(d)->Ok_0;
    let (_, b) = parse_i64(a)->Ok_0;
    let (_, c) = parse_i64(b)->Ok_0;
    let (_, e) = parse_i8(c)->Ok_0;
    let (_, f) = parse_topics(e)->Ok_0;
    lemma_i16_shortened(d, n);
    let na = n - (d.len() - a.len());
    if na >= 0 {
        lemma_i64_shortened(a, na);
        let nb = na - (a.len() - b.len());
        if nb >= 0 {
            lemma_i64_shortened(b, nb);
            let nc = nb - (b.len() - c.len());
            if nc >= 0 {
                lemma_i8_shortened(c, nc);
                let ne = nc - (c.len() - e.len());
                if ne >= 0 {
                    lemma_topics_shortened(e, ne);
                    let nf = ne - (e.len() - f.len());
                    if nf >= 0 {
                        lemma_missing_shortened(f, nf);
                    }
                }
            }
        }
    }
}

} // verus!
