//! The records of the barrier state topic, byte by byte.

use vstd::prelude::*;
use vstd::utf8;

use crate::barrier::cut::CutStatus;
use crate::barrier::record;
use crate::barrier::record::{CutFields, Fault, KeyFields};
use crate::laws::numbers;
use crate::layout;
use crate::wire;

verus! {

/// The bytes of a string: how many there are, and then its UTF-8.
pub open spec fn string_bytes(s: Seq<char>) -> Seq<u8> {
    numbers::two(utf8::encode_utf8(s).len() as int) + utf8::encode_utf8(s)
}

/// The bytes of the key of a record.
pub open spec fn key_bytes(kind: i16, group: Seq<char>, epoch: i64) -> Seq<u8> {
    seq![0u8, 0u8] + numbers::two(kind as int) + string_bytes(group) + numbers::eight(epoch as int)
}

/// The bytes of partitions and their marker offsets, one after the other.
pub open spec fn offsets_bytes(offsets: Seq<(i32, i64)>) -> Seq<u8>
    decreases offsets.len(),
{
    if offsets.len() == 0 {
        Seq::empty()
    } else {
        numbers::four(offsets[0].0 as int) + numbers::eight(offsets[0].1 as int) + offsets_bytes(
            offsets.drop_first(),
        )
    }
}

/// The bytes of topics, one after the other.
pub open spec fn topics_bytes(topics: Seq<(Seq<char>, Seq<(i32, i64)>)>) -> Seq<u8>
    decreases topics.len(),
{
    if topics.len() == 0 {
        Seq::empty()
    } else {
        string_bytes(topics[0].0) + numbers::four(topics[0].1.len() as int) + offsets_bytes(
            topics[0].1,
        ) + topics_bytes(topics.drop_first())
    }
}

/// The bytes of partitions that received no marker, one after the other.
pub open spec fn missing_bytes(missing: Seq<(Seq<char>, i32)>) -> Seq<u8>
    decreases missing.len(),
{
    if missing.len() == 0 {
        Seq::empty()
    } else {
        string_bytes(missing[0].0) + numbers::four(missing[0].1 as int) + missing_bytes(
            missing.drop_first(),
        )
    }
}

/// The byte of a status.
pub open spec fn status_byte(status: CutStatus) -> u8 {
    match status {
        CutStatus::Complete => 0,
        CutStatus::Partial => 1,
    }
}

/// The bytes of the value of a cut record.
pub open spec fn cut_bytes(fields: CutFields) -> Seq<u8> {
    seq![0u8, 0u8] + numbers::eight(fields.triggered_at as int) + numbers::eight(
        fields.completed_at as int,
    ) + seq![status_byte(fields.status)] + numbers::four(fields.topics.len() as int) + topics_bytes(
        fields.topics,
    ) + numbers::four(fields.missing.len() as int) + missing_bytes(fields.missing)
}

/// Whether a string has no more bytes than its length field can count.
pub open spec fn countable(s: Seq<char>) -> bool {
    utf8::encode_utf8(s).len() <= 32767
}

/// Whether a topic fits its length and count fields.
pub open spec fn topic_countable(topic: (Seq<char>, Seq<(i32, i64)>)) -> bool {
    countable(topic.0) && topic.1.len() <= 2147483647
}

/// Whether a cut value fits its length and count fields.
pub open spec fn cut_countable(fields: CutFields) -> bool {
    &&& fields.topics.len() <= 2147483647
    &&& forall|i: int| 0 <= i < fields.topics.len() ==> topic_countable(#[trigger] fields.topics[i])
    &&& fields.missing.len() <= 2147483647
    &&& forall|i: int|
        0 <= i < fields.missing.len() ==> countable((#[trigger] fields.missing[i]).0)
}

/// A run starts with its first value.
pub proof fn lemma_run_starts<T>(write: spec_fn(T) -> Seq<u8>, xs: Seq<T>)
    requires
        xs.len() > 0,
    ensures
        layout::write_run(write, xs) == write(xs[0]) + layout::write_run(write, xs.drop_first()),
    decreases xs.len(),
{
    if xs.len() == 1 {
        assert(xs.drop_last() =~= Seq::empty());
        assert(xs.drop_first() =~= Seq::empty());
        assert(layout::write_run(write, Seq::<T>::empty()) =~= Seq::empty());
        assert(layout::write_run(write, xs) =~= write(xs[0]));
        assert(write(xs[0]) + Seq::<u8>::empty() =~= write(xs[0]));
    } else {
        lemma_run_starts(write, xs.drop_last());
        assert(xs.drop_last().drop_first() =~= xs.drop_first().drop_last());
        assert(layout::write_run(write, xs) =~= write(xs[0]) + layout::write_run(
            write,
            xs.drop_first(),
        ));
    }
}

pub proof fn lemma_string_bytes(s: Seq<char>)
    requires
        countable(s),
    ensures
        record::write_string(s) == string_bytes(s),
{
    numbers::law_numbers_are_written_big_endian(utf8::encode_utf8(s).len() as int);
}

pub proof fn lemma_offsets_bytes(offsets: Seq<(i32, i64)>)
    ensures
        layout::write_run(record::offset_writer(), offsets) == offsets_bytes(offsets),
    decreases offsets.len(),
{
    if offsets.len() > 0 {
        lemma_run_starts(record::offset_writer(), offsets);
        lemma_offsets_bytes(offsets.drop_first());
        numbers::law_numbers_are_written_big_endian(offsets[0].0 as int);
        numbers::law_numbers_are_written_big_endian(offsets[0].1 as int);
        assert(record::offset_writer()(offsets[0]) == numbers::four(offsets[0].0 as int)
            + numbers::eight(offsets[0].1 as int));
    }
}

pub proof fn lemma_topics_bytes(topics: Seq<(Seq<char>, Seq<(i32, i64)>)>)
    requires
        forall|i: int| 0 <= i < topics.len() ==> topic_countable(#[trigger] topics[i]),
    ensures
        layout::write_run(record::topic_writer(), topics) == topics_bytes(topics),
    decreases topics.len(),
{
    if topics.len() > 0 {
        let rest = topics.drop_first();
        assert forall|i: int| 0 <= i < rest.len() implies topic_countable(#[trigger] rest[i]) by {
            assert(rest[i] == topics[i + 1]);
        }
        assert(topic_countable(topics[0]));
        lemma_run_starts(record::topic_writer(), topics);
        lemma_topics_bytes(rest);
        lemma_string_bytes(topics[0].0);
        lemma_offsets_bytes(topics[0].1);
        numbers::law_numbers_are_written_big_endian(topics[0].1.len() as int);
        assert(record::topic_writer()(topics[0]) =~= string_bytes(topics[0].0) + numbers::four(
            topics[0].1.len() as int,
        ) + offsets_bytes(topics[0].1));
    }
}

pub proof fn lemma_missing_bytes(missing: Seq<(Seq<char>, i32)>)
    requires
        forall|i: int| 0 <= i < missing.len() ==> countable((#[trigger] missing[i]).0),
    ensures
        layout::write_run(record::partition_writer(), missing) == missing_bytes(missing),
    decreases missing.len(),
{
    if missing.len() > 0 {
        let rest = missing.drop_first();
        assert forall|i: int| 0 <= i < rest.len() implies countable((#[trigger] rest[i]).0) by {
            assert(rest[i] == missing[i + 1]);
        }
        assert(countable(missing[0].0));
        lemma_run_starts(record::partition_writer(), missing);
        lemma_missing_bytes(rest);
        lemma_string_bytes(missing[0].0);
        numbers::law_numbers_are_written_big_endian(missing[0].1 as int);
        assert(record::partition_writer()(missing[0]) =~= string_bytes(missing[0].0)
            + numbers::four(missing[0].1 as int));
    }
}

/// **A key is its version, its kind, its group, and its epoch**, in this order,
/// and every group of at most `32767` bytes has one.
pub proof fn law_key_is_its_fields(kind: i16, group: Seq<char>, epoch: i64)
    ensures
        record::key_fits(KeyFields { kind, group, epoch }) <==> utf8::encode_utf8(group).len()
            <= 32767,
        utf8::encode_utf8(group).len() <= 32767 ==> record::write_key(
            KeyFields { kind, group, epoch },
        ) == key_bytes(kind, group, epoch),
        utf8::encode_utf8(group).len() <= 32767 ==> record::parse_key(
            key_bytes(kind, group, epoch),
        ) == Ok::<KeyFields, Fault>(KeyFields { kind, group, epoch }),
{
    let key = KeyFields { kind, group, epoch };
    if countable(group) {
        numbers::law_numbers_are_written_big_endian(0);
        numbers::law_numbers_are_written_big_endian(kind as int);
        numbers::law_numbers_are_written_big_endian(epoch as int);
        lemma_string_bytes(group);
        assert(record::write_key(key) =~= key_bytes(kind, group, epoch));
        record::law_key_reads_back(key, Seq::empty());
    }
}

proof fn lemma_cut_fits(fields: CutFields)
    ensures
        record::cut_fits(fields) <==> cut_countable(fields),
{
    if record::cut_fits(fields) {
        assert forall|i: int| 0 <= i < fields.topics.len() implies topic_countable(
            #[trigger] fields.topics[i],
        ) by {
            assert(record::topic_fits()(fields.topics[i]));
        }
        assert forall|i: int| 0 <= i < fields.missing.len() implies countable(
            (#[trigger] fields.missing[i]).0,
        ) by {
            assert(record::partition_fits()(fields.missing[i]));
        }
    }
    if cut_countable(fields) {
        assert forall|i: int| 0 <= i < fields.topics.len() implies record::topic_fits()(
            #[trigger] fields.topics[i],
        ) by {
            assert(topic_countable(fields.topics[i]));
        }
        assert forall|i: int| 0 <= i < fields.missing.len() implies record::partition_fits()(
            #[trigger] fields.missing[i],
        ) by {
            assert(countable(fields.missing[i].0));
        }
    }
}

/// The fields of a value follow each other, however they are grouped.
proof fn lemma_fields_follow(
    a: Seq<u8>,
    b: Seq<u8>,
    c: Seq<u8>,
    d: Seq<u8>,
    e: Seq<u8>,
    f: Seq<u8>,
    g: Seq<u8>,
    h: Seq<u8>,
)
    ensures
        a + (b + (c + (d + ((e + f) + (g + h))))) == a + b + c + d + e + f + g + h,
{
    assert(a + (b + (c + (d + ((e + f) + (g + h))))) =~= a + b + c + d + e + f + g + h);
}

/// **A cut value is its version, its two times, its status, its topics, and its
/// missing partitions**, in this order, each array behind its length. A value
/// whose strings and arrays can be counted always has one.
pub proof fn law_cut_is_its_fields(fields: CutFields)
    ensures
        record::cut_fits(fields) <==> cut_countable(fields),
        cut_countable(fields) ==> record::write_cut(fields) == cut_bytes(fields),
        cut_countable(fields) ==> record::parse_cut(cut_bytes(fields)) == Ok::<CutFields, Fault>(
            fields,
        ),
{
    lemma_cut_fits(fields);
    if cut_countable(fields) {
        assert(wire::be_int_bytes(0, 2) == seq![0u8, 0u8]) by {
            numbers::law_numbers_are_written_big_endian(0);
            assert(numbers::two(0) =~= seq![0u8, 0u8]);
        }
        assert(wire::be_int_bytes(fields.status.code_of() as int, 1) == seq![
            status_byte(fields.status),
        ]) by {
            numbers::law_numbers_are_written_big_endian(fields.status.code_of() as int);
        }
        numbers::law_numbers_are_written_big_endian(fields.triggered_at as int);
        numbers::law_numbers_are_written_big_endian(fields.completed_at as int);
        numbers::law_numbers_are_written_big_endian(fields.topics.len() as int);
        numbers::law_numbers_are_written_big_endian(fields.missing.len() as int);
        lemma_topics_bytes(fields.topics);
        lemma_missing_bytes(fields.missing);
        lemma_fields_follow(
            seq![0u8, 0u8],
            numbers::eight(fields.triggered_at as int),
            numbers::eight(fields.completed_at as int),
            seq![status_byte(fields.status)],
            numbers::four(fields.topics.len() as int),
            topics_bytes(fields.topics),
            numbers::four(fields.missing.len() as int),
            missing_bytes(fields.missing),
        );
        record::law_cut_reads_back(fields, Seq::empty());
    }
}

} // verus!
