//! Which input is refused for which fault.

use vstd::prelude::*;
use vstd::utf8;

use crate::barrier::cut::CutStatus;
use crate::barrier::record;
use crate::barrier::record::{CutFields, Fault, KeyFields, Read};
use crate::error::StreamsClientError;
use crate::laws::numbers;
use crate::laws::records;
use crate::laws::snapshots;
use crate::layout;
use crate::store::container;
use crate::store::container::SnapshotFault;
use crate::store::snapshot;

verus! {

proof fn lemma_i16_is_read(d: Seq<u8>)
    ensures
        d.len() < 2 ==> record::parse_i16(d) == Err::<(i16, Seq<u8>), Fault>(Fault::Truncated),
        d.len() >= 2 ==> record::parse_i16(d) == Ok::<(i16, Seq<u8>), Fault>(
            (numbers::i16_at(d, 0) as i16, d.skip(2)),
        ),
        d.len() >= 2 ==> -32768 <= numbers::i16_at(d, 0) < 32768,
{
    if d.len() >= 2 {
        numbers::law_numbers_are_read_big_endian(d.take(2));
        assert(numbers::i16_at(d.take(2), 0) == numbers::i16_at(d, 0));
    }
}

proof fn lemma_u32_range(d: Seq<u8>, i: int)
    ensures
        0 <= numbers::u32_at(d, i) < 4294967296,
{
}

proof fn lemma_i32_is_read(d: Seq<u8>)
    ensures
        d.len() < 4 ==> record::parse_i32(d) == Err::<(i32, Seq<u8>), Fault>(Fault::Truncated),
        d.len() >= 4 ==> record::parse_i32(d) == Ok::<(i32, Seq<u8>), Fault>(
            (numbers::i32_at(d, 0) as i32, d.skip(4)),
        ),
        d.len() >= 4 ==> -2147483648 <= numbers::i32_at(d, 0) < 2147483648,
{
    lemma_u32_range(d, 0);
    if d.len() >= 4 {
        numbers::law_numbers_are_read_big_endian(d.take(4));
        assert(numbers::u32_at(d.take(4), 0) == numbers::u32_at(d, 0));
    }
}

proof fn lemma_i64_is_read(d: Seq<u8>)
    ensures
        d.len() < 8 ==> record::parse_i64(d) == Err::<(i64, Seq<u8>), Fault>(Fault::Truncated),
        d.len() >= 8 ==> record::parse_i64(d) == Ok::<(i64, Seq<u8>), Fault>(
            (numbers::i64_at(d, 0) as i64, d.skip(8)),
        ),
        d.len() >= 8 ==> i64::MIN <= numbers::i64_at(d, 0) <= i64::MAX,
{
    lemma_u32_range(d, 0);
    lemma_u32_range(d, 4);
    if d.len() >= 8 {
        numbers::law_numbers_are_read_big_endian(d.take(8));
        assert(numbers::u32_at(d.take(8), 0) == numbers::u32_at(d, 0));
        assert(numbers::u32_at(d.take(8), 4) == numbers::u32_at(d, 4));
    }
}

/// **A string is a length and then that many bytes of UTF-8.** It is refused
/// when the length or the bytes are cut short, when the length is negative, and
/// when the bytes are not UTF-8.
pub proof fn law_string_is_read(d: Seq<u8>)
    ensures
        record::parse_string(d) == (if d.len() < 2 {
            Err::<(Seq<char>, Seq<u8>), Fault>(Fault::Truncated)
        } else {
            let n = numbers::i16_at(d, 0);
            if n < 0 {
                Err::<(Seq<char>, Seq<u8>), Fault>(Fault::NegativeString(n as i16))
            } else if d.len() < 2 + n {
                Err::<(Seq<char>, Seq<u8>), Fault>(Fault::Truncated)
            } else if !utf8::valid_utf8(d.subrange(2, 2 + n)) {
                Err::<(Seq<char>, Seq<u8>), Fault>(Fault::NotUtf8)
            } else {
                Ok::<(Seq<char>, Seq<u8>), Fault>(
                    (utf8::decode_utf8(d.subrange(2, 2 + n)), d.skip(2 + n)),
                )
            }
        }),
{
    lemma_i16_is_read(d);
    if d.len() >= 2 {
        let n = numbers::i16_at(d, 0);
        if n >= 0 && d.len() >= 2 + n {
            assert(d.skip(2).take(n) =~= d.subrange(2, 2 + n));
            assert(d.skip(2).skip(n) =~= d.skip(2 + n));
        }
    }
}

/// **A key is read field by field, and refused at the first that is wrong.**
pub proof fn law_key_is_read(d: Seq<u8>)
    ensures
        record::parse_key(d) == (if d.len() < 2 {
            Err::<KeyFields, Fault>(Fault::Truncated)
        } else if numbers::i16_at(d, 0) != 0 {
            Err::<KeyFields, Fault>(Fault::KeyVersion(numbers::i16_at(d, 0) as i16))
        } else if d.len() < 6 {
            Err::<KeyFields, Fault>(Fault::Truncated)
        } else {
            let n = numbers::i16_at(d, 4);
            if n < 0 {
                Err::<KeyFields, Fault>(Fault::NegativeString(n as i16))
            } else if d.len() < 6 + n {
                Err::<KeyFields, Fault>(Fault::Truncated)
            } else if !utf8::valid_utf8(d.subrange(6, 6 + n)) {
                Err::<KeyFields, Fault>(Fault::NotUtf8)
            } else if d.len() < 14 + n {
                Err::<KeyFields, Fault>(Fault::Truncated)
            } else if d.len() > 14 + n {
                Err::<KeyFields, Fault>(Fault::Trailing)
            } else {
                Ok::<KeyFields, Fault>(
                    KeyFields {
                        kind: numbers::i16_at(d, 2) as i16,
                        group: utf8::decode_utf8(d.subrange(6, 6 + n)),
                        epoch: numbers::i64_at(d, 6 + n) as i64,
                    },
                )
            }
        }),
{
    lemma_i16_is_read(d);
    if d.len() >= 2 && numbers::i16_at(d, 0) == 0 {
        let a = d.skip(2);
        lemma_i16_is_read(a);
        if d.len() >= 4 {
            let b = a.skip(2);
            assert(b =~= d.skip(4));
            law_string_is_read(b);
            assert(numbers::i16_at(a, 0) == numbers::i16_at(d, 2));
            if d.len() >= 6 {
                let n = numbers::i16_at(d, 4);
                assert(numbers::i16_at(b, 0) == n);
                if n >= 0 && d.len() >= 6 + n {
                    let c = b.skip(2 + n);
                    assert(b.subrange(2, 2 + n) =~= d.subrange(6, 6 + n));
                    assert(c =~= d.skip(6 + n));
                    lemma_i64_is_read(c);
                    if d.len() >= 14 + n {
                        assert(numbers::u32_at(c, 0) == numbers::u32_at(d, 6 + n));
                        assert(numbers::u32_at(c, 4) == numbers::u32_at(d, 6 + n + 4));
                        assert(numbers::i64_at(c, 0) == numbers::i64_at(d, 6 + n));
                        assert(c.skip(8).len() == d.len() - 14 - n);
                    }
                }
            }
        }
    }
}

/// **A cut value is read field by field, and refused at the first that is
/// wrong.** What is wrong with an array is reported as it is found.
pub proof fn law_cut_value_is_read(d: Seq<u8>)
    ensures
        d.len() < 2 ==> record::parse_cut(d) == Err::<CutFields, Fault>(Fault::Truncated),
        d.len() >= 2 && numbers::i16_at(d, 0) != 0 ==> record::parse_cut(d) == Err::<
            CutFields,
            Fault,
        >(Fault::ValueVersion(numbers::i16_at(d, 0) as i16)),
        2 <= d.len() < 19 && numbers::i16_at(d, 0) == 0 ==> record::parse_cut(d) == Err::<
            CutFields,
            Fault,
        >(Fault::Truncated),
        d.len() >= 19 && numbers::i16_at(d, 0) == 0 && d[18] > 1 ==> record::parse_cut(d) == Err::<
            CutFields,
            Fault,
        >(Fault::UnknownStatus((if d[18] < 128 { d[18] as int } else { d[18] - 256 }) as i8)),
        d.len() >= 19 && numbers::i16_at(d, 0) == 0 && d[18] <= 1 ==> (record::parse_topics(
            d.skip(19),
        ) matches Err(fault) ==> record::parse_cut(d) == Err::<CutFields, Fault>(fault)),
        d.len() >= 19 && numbers::i16_at(d, 0) == 0 && d[18] <= 1 ==> (record::parse_topics(
            d.skip(19),
        ) matches Ok((topics, rest)) ==> match record::parse_missing(rest) {
            Err(fault) => record::parse_cut(d) == Err::<CutFields, Fault>(fault),
            Ok((missing, after)) => if after.len() > 0 {
                record::parse_cut(d) == Err::<CutFields, Fault>(Fault::Trailing)
            } else {
                record::parse_cut(d) == Ok::<CutFields, Fault>(
                    CutFields {
                        triggered_at: numbers::i64_at(d, 2) as i64,
                        completed_at: numbers::i64_at(d, 10) as i64,
                        status: if d[18] == 0 {
                            CutStatus::Complete
                        } else {
                            CutStatus::Partial
                        },
                        topics,
                        missing,
                    },
                )
            },
        }),
{
    lemma_i16_is_read(d);
    if d.len() >= 2 && numbers::i16_at(d, 0) == 0 {
        let a = d.skip(2);
        lemma_i64_is_read(a);
        if d.len() >= 10 {
            assert(numbers::u32_at(a, 0) == numbers::u32_at(d, 2));
            assert(numbers::u32_at(a, 4) == numbers::u32_at(d, 6));
            assert(numbers::i64_at(a, 0) == numbers::i64_at(d, 2));
            let b = a.skip(8);
            assert(b =~= d.skip(10));
            lemma_i64_is_read(b);
            if d.len() >= 18 {
                assert(numbers::u32_at(b, 0) == numbers::u32_at(d, 10));
                assert(numbers::u32_at(b, 4) == numbers::u32_at(d, 14));
                assert(numbers::i64_at(b, 0) == numbers::i64_at(d, 10));
                let c = b.skip(8);
                assert(c =~= d.skip(18));
                if d.len() >= 19 {
                    numbers::law_numbers_are_read_big_endian(c.take(1));
                    assert(c.take(1)[0] == d[18]);
                    assert(c.skip(1) =~= d.skip(19));
                }
            }
        }
    }
}

/// **An array behind a negative length, or behind one that is cut short, is
/// refused.**
pub proof fn law_array_lengths_are_checked(d: Seq<u8>)
    ensures
        d.len() < 4 ==> record::parse_topics(d) == Read::<
            Seq<(Seq<char>, Seq<(i32, i64)>)>,
        >::Err(Fault::Truncated),
        d.len() < 4 ==> record::parse_missing(d) == Read::<Seq<(Seq<char>, i32)>>::Err(
            Fault::Truncated,
        ),
        d.len() >= 4 && numbers::i32_at(d, 0) < 0 ==> record::parse_topics(d) == Read::<
            Seq<(Seq<char>, Seq<(i32, i64)>)>,
        >::Err(Fault::NegativeCount(numbers::i32_at(d, 0) as i32)),
        d.len() >= 4 && numbers::i32_at(d, 0) < 0 ==> record::parse_missing(d) == Read::<
            Seq<(Seq<char>, i32)>,
        >::Err(Fault::NegativeCount(numbers::i32_at(d, 0) as i32)),
{
    lemma_i32_is_read(d);
}

/// **The first faulty topic decides.** Behind topics that are well formed, the
/// fault of the next one is reported, whatever follows it.
pub proof fn law_first_faulty_topic_is_reported(
    good: Seq<(Seq<char>, Seq<(i32, i64)>)>,
    n: int,
    rest: Seq<u8>,
)
    requires
        good.len() < n <= 2147483647,
        forall|i: int| 0 <= i < good.len() ==> records::topic_countable(#[trigger] good[i]),
        record::parse_topic(rest) is Err,
    ensures
        record::parse_topics(numbers::four(n) + (records::topics_bytes(good) + rest)) == Read::<
            Seq<(Seq<char>, Seq<(i32, i64)>)>,
        >::Err(record::parse_topic(rest)->Err_0),
{
    let d = records::topics_bytes(good) + rest;
    records::lemma_topics_bytes(good);
    record::lemma_topic_layout();
    assert forall|i: int| 0 <= i < good.len() implies record::topic_fits()(#[trigger] good[i]) by {
        assert(records::topic_countable(good[i]));
    }
    layout::lemma_run_meets_fault(
        record::topic_parser(),
        record::topic_writer(),
        record::topic_fits(),
        good,
        n as nat,
        rest,
    );
    numbers::law_numbers_are_written_big_endian(n);
    record::lemma_i32_layout(n as i32, d, d);
}

/// **The first faulty missing partition decides.**
pub proof fn law_first_faulty_partition_is_reported(
    good: Seq<(Seq<char>, i32)>,
    n: int,
    rest: Seq<u8>,
)
    requires
        good.len() < n <= 2147483647,
        forall|i: int| 0 <= i < good.len() ==> records::countable((#[trigger] good[i]).0),
        record::parse_partition(rest) is Err,
    ensures
        record::parse_missing(numbers::four(n) + (records::missing_bytes(good) + rest)) == Read::<
            Seq<(Seq<char>, i32)>,
        >::Err(record::parse_partition(rest)->Err_0),
{
    let d = records::missing_bytes(good) + rest;
    records::lemma_missing_bytes(good);
    record::lemma_partition_layout();
    assert forall|i: int| 0 <= i < good.len() implies record::partition_fits()(
        #[trigger] good[i],
    ) by {
        assert(records::countable(good[i].0));
    }
    layout::lemma_run_meets_fault(
        record::partition_parser(),
        record::partition_writer(),
        record::partition_fits(),
        good,
        n as nat,
        rest,
    );
    numbers::law_numbers_are_written_big_endian(n);
    record::lemma_i32_layout(n as i32, d, d);
}

/// **A topic is refused for its name, its length, or a marker offset that is cut
/// short**, and a missing partition for its name or a number that is.
pub proof fn law_faults_of_a_topic(
    d: Seq<u8>,
    name: Seq<char>,
    good: Seq<(i32, i64)>,
    n: int,
    rest: Seq<u8>,
)
    requires
        records::countable(name),
        good.len() < n <= 2147483647,
        rest.len() < 12,
    ensures
        record::parse_string(d) matches Err(fault) ==> record::parse_topic(d) == Read::<
            (Seq<char>, Seq<(i32, i64)>),
        >::Err(fault),
        record::parse_string(d) matches Err(fault) ==> record::parse_partition(d) == Read::<
            (Seq<char>, i32),
        >::Err(fault),
        d.len() < 4 ==> record::parse_topic(records::string_bytes(name) + d) == Read::<
            (Seq<char>, Seq<(i32, i64)>),
        >::Err(Fault::Truncated),
        d.len() < 4 ==> record::parse_partition(records::string_bytes(name) + d) == Read::<
            (Seq<char>, i32),
        >::Err(Fault::Truncated),
        d.len() >= 4 && numbers::i32_at(d, 0) < 0 ==> record::parse_topic(
            records::string_bytes(name) + d,
        ) == Read::<(Seq<char>, Seq<(i32, i64)>)>::Err(
            Fault::NegativeCount(numbers::i32_at(d, 0) as i32),
        ),
        record::parse_topic(
            records::string_bytes(name) + (numbers::four(n) + (records::offsets_bytes(good)
                + rest)),
        ) == Read::<(Seq<char>, Seq<(i32, i64)>)>::Err(Fault::Truncated),
{
    let run = records::offsets_bytes(good) + rest;
    records::lemma_string_bytes(name);
    record::lemma_string_layout(name, d, d);
    lemma_i32_is_read(d);
    records::lemma_offsets_bytes(good);
    record::lemma_offset_layout();
    lemma_i32_is_read(rest);
    if rest.len() >= 4 {
        lemma_i64_is_read(rest.skip(4));
    }
    assert(record::offset_parser()(rest) == Read::<(i32, i64)>::Err(Fault::Truncated));
    layout::lemma_run_meets_fault(
        record::offset_parser(),
        record::offset_writer(),
        record::offset_fits(),
        good,
        n as nat,
        rest,
    );
    numbers::law_numbers_are_written_big_endian(n);
    record::lemma_i32_layout(n as i32, run, run);
    record::lemma_string_layout(name, numbers::four(n) + run, d);
}

/// **A length and its bytes are read off the front.** Where the bytes are cut
/// short, only the length is used up.
pub proof fn law_sized_bytes_are_read(d: Seq<u8>)
    ensures
        container::parse_sized(d) == (if d.len() < 4 {
            Err::<(Seq<u8>, Seq<u8>), SnapshotFault>(SnapshotFault::Truncated)
        } else if d.len() < 4 + numbers::u32_at(d, 0) {
            Err::<(Seq<u8>, Seq<u8>), SnapshotFault>(SnapshotFault::Truncated)
        } else {
            Ok::<(Seq<u8>, Seq<u8>), SnapshotFault>(
                (d.subrange(4, 4 + numbers::u32_at(d, 0)), d.skip(4 + numbers::u32_at(d, 0))),
            )
        }),
        d.len() < 4 ==> container::left_by_sized(d) == d,
        4 <= d.len() < 4 + numbers::u32_at(d, 0) ==> container::left_by_sized(d) == d.skip(4),
{
    snapshots::law_snapshot_fields_are_read(d);
    lemma_u32_range(d, 0);
    if d.len() >= 4 {
        let n = numbers::u32_at(d, 0);
        if d.len() >= 4 + n {
            assert(d.skip(4).take(n) =~= d.subrange(4, 4 + n));
            assert(d.skip(4).skip(n) =~= d.skip(4 + n));
        }
    }
}

/// **A store payload starts with the version `1`.** Another version is named,
/// and used up.
pub proof fn law_store_version_is_checked(d: Seq<u8>)
    ensures
        container::parse_store_version(d) == (if d.len() < 4 {
            Err::<((), Seq<u8>), SnapshotFault>(SnapshotFault::Truncated)
        } else if numbers::u32_at(d, 0) != 1 {
            Err::<((), Seq<u8>), SnapshotFault>(
                SnapshotFault::StoreVersion(numbers::u32_at(d, 0) as u32),
            )
        } else {
            Ok::<((), Seq<u8>), SnapshotFault>(((), d.skip(4)))
        }),
        container::left_by_store_version(d) == (if d.len() < 4 {
            d
        } else {
            d.skip(4)
        }),
        container::parse_store_version(d) matches Err(fault) ==> container::parse_payload(d)
            == Err::<Seq<(Seq<u8>, Seq<u8>)>, SnapshotFault>(fault),
        d.len() >= 4 && numbers::u32_at(d, 0) == 1 && d.len() < 8 ==> container::parse_payload(d)
            == Err::<Seq<(Seq<u8>, Seq<u8>)>, SnapshotFault>(SnapshotFault::Truncated),
{
    snapshots::law_snapshot_fields_are_read(d);
    lemma_u32_range(d, 0);
    if d.len() >= 4 {
        snapshots::law_snapshot_fields_are_read(d.skip(4));
    }
}

/// **A container starts with the version `1` and a count.**
pub proof fn law_container_front_is_checked(d: Seq<u8>)
    ensures
        d.len() < 4 ==> container::parse_container(d) == Err::<
            Seq<(Seq<char>, Seq<u8>)>,
            SnapshotFault,
        >(SnapshotFault::Truncated),
        d.len() >= 4 && numbers::u32_at(d, 0) != 1 ==> container::parse_container(d) == Err::<
            Seq<(Seq<char>, Seq<u8>)>,
            SnapshotFault,
        >(SnapshotFault::ContainerVersion(numbers::u32_at(d, 0) as u32)),
        4 <= d.len() < 8 && numbers::u32_at(d, 0) == 1 ==> container::parse_container(d) == Err::<
            Seq<(Seq<char>, Seq<u8>)>,
            SnapshotFault,
        >(SnapshotFault::Truncated),
{
    snapshots::law_snapshot_fields_are_read(d);
    lemma_u32_range(d, 0);
    if d.len() >= 4 {
        snapshots::law_snapshot_fields_are_read(d.skip(4));
    }
}

/// Whether bytes end inside a length or inside what it counts.
pub open spec fn cut_short(d: Seq<u8>) -> bool {
    d.len() < 4 || d.len() < 4 + numbers::u32_at(d, 0)
}

/// **An entry is refused for a name or a payload that is cut short, and for a
/// name that is not UTF-8**, whichever comes first. A pair is refused for a key
/// or a value that is cut short.
pub proof fn law_faults_of_an_entry(d: Seq<u8>, first: Seq<u8>)
    requires
        first.len() <= 4294967295,
    ensures
        cut_short(d) ==> container::parse_entry(d) == Err::<
            ((Seq<char>, Seq<u8>), Seq<u8>),
            SnapshotFault,
        >(SnapshotFault::Truncated),
        !utf8::valid_utf8(first) ==> container::parse_entry(snapshots::sized_bytes(first) + d)
            == Err::<((Seq<char>, Seq<u8>), Seq<u8>), SnapshotFault>(SnapshotFault::NotUtf8),
        utf8::valid_utf8(first) && cut_short(d) ==> container::parse_entry(
            snapshots::sized_bytes(first) + d,
        ) == Err::<((Seq<char>, Seq<u8>), Seq<u8>), SnapshotFault>(SnapshotFault::Truncated),
        cut_short(d) ==> container::parse_pair(d) == Err::<
            ((Seq<u8>, Seq<u8>), Seq<u8>),
            SnapshotFault,
        >(SnapshotFault::Truncated),
        cut_short(d) ==> container::parse_pair(snapshots::sized_bytes(first) + d) == Err::<
            ((Seq<u8>, Seq<u8>), Seq<u8>),
            SnapshotFault,
        >(SnapshotFault::Truncated),
        !cut_short(d) && utf8::valid_utf8(first) ==> container::parse_entry(
            snapshots::sized_bytes(first) + d,
        ) is Ok,
        !cut_short(d) ==> container::parse_pair(snapshots::sized_bytes(first) + d) is Ok,
{
    law_sized_bytes_are_read(d);
    snapshots::law_sized_bytes_are_written(first);
    container::lemma_sized_layout(first, d, d);
}

/// **The first faulty entry decides.** Behind entries that are well formed, the
/// fault of the next one is reported, whatever follows it.
pub proof fn law_first_faulty_entry_is_reported(
    good: Seq<(Seq<char>, Seq<u8>)>,
    n: int,
    rest: Seq<u8>,
)
    requires
        snapshots::entries_countable(good),
        good.len() < n <= 4294967295,
        container::parse_entry(rest) is Err,
    ensures
        container::parse_container(
            seq![0u8, 0u8, 0u8, 1u8] + (numbers::four(n) + (snapshots::entries_bytes(good)
                + rest)),
        ) == Err::<Seq<(Seq<char>, Seq<u8>)>, SnapshotFault>(container::parse_entry(rest)->Err_0),
{
    let run = snapshots::entries_bytes(good) + rest;
    snapshots::law_container_is_its_entries(good, Seq::empty());
    snapshots::lemma_entries_bytes(good);
    snapshots::lemma_version_bytes();
    container::lemma_entry_layout();
    assert forall|i: int| 0 <= i < good.len() implies container::entry_fits()(
        #[trigger] good[i],
    ) by {}
    layout::lemma_run_meets_fault(
        container::entry_parser(),
        container::entry_writer(),
        container::entry_fits(),
        good,
        n as nat,
        rest,
    );
    numbers::law_numbers_are_written_big_endian(n);
    container::lemma_u32_layout(n as u32, run, run);
    container::lemma_u32_layout(1, numbers::four(n) + run, run);
}

/// **The first faulty pair decides.**
pub proof fn law_first_faulty_pair_is_reported(
    good: Seq<(Seq<u8>, Seq<u8>)>,
    n: int,
    rest: Seq<u8>,
)
    requires
        snapshots::pairs_countable(good),
        good.len() < n <= 4294967295,
        container::parse_pair(rest) is Err,
    ensures
        container::parse_pairs(numbers::four(n) + (snapshots::pairs_bytes(good) + rest)) == Err::<
            (Seq<(Seq<u8>, Seq<u8>)>, Seq<u8>),
            SnapshotFault,
        >(container::parse_pair(rest)->Err_0),
        container::parse_payload(
            seq![0u8, 0u8, 0u8, 1u8] + (numbers::four(n) + (snapshots::pairs_bytes(good) + rest)),
        ) == Err::<Seq<(Seq<u8>, Seq<u8>)>, SnapshotFault>(container::parse_pair(rest)->Err_0),
{
    let run = snapshots::pairs_bytes(good) + rest;
    snapshots::law_payload_is_its_pairs(good, Seq::empty());
    snapshots::lemma_pairs_bytes(good);
    snapshots::lemma_version_bytes();
    container::lemma_pair_layout();
    assert forall|i: int| 0 <= i < good.len() implies container::pair_fits()(#[trigger] good[i]) by {
    }
    layout::lemma_run_meets_fault(
        container::pair_parser(),
        container::pair_writer(),
        container::pair_fits(),
        good,
        n as nat,
        rest,
    );
    numbers::law_numbers_are_written_big_endian(n);
    container::lemma_u32_layout(n as u32, run, run);
    container::lemma_u32_layout(1, numbers::four(n) + run, run);
}

/// **A run of pairs that is cut short leaves what its fault leaves.** Where its
/// count is cut short, nothing is used up. Otherwise the good pairs are, and of
/// the faulty one what was read of its key and its value.
pub proof fn law_short_run_of_pairs_leaves_the_rest(
    d: Seq<u8>,
    good: Seq<(Seq<u8>, Seq<u8>)>,
    n: int,
    rest: Seq<u8>,
)
    requires
        snapshots::pairs_countable(good),
        good.len() < n <= 4294967295,
        container::parse_pair(rest) is Err,
    ensures
        d.len() < 4 ==> container::left_by_pairs(d) == d,
        container::left_by_pairs(numbers::four(n) + (snapshots::pairs_bytes(good) + rest)) == (
        match container::parse_sized(rest) {
            Err(_) => container::left_by_sized(rest),
            Ok((_, after)) => container::left_by_sized(after),
        }),
{
    let run = snapshots::pairs_bytes(good) + rest;
    let left = |d: Seq<u8>| container::left_by_pair(d);
    snapshots::law_payload_is_its_pairs(good, Seq::empty());
    snapshots::lemma_pairs_bytes(good);
    container::lemma_pair_layout();
    assert forall|i: int| 0 <= i < good.len() implies container::pair_fits()(#[trigger] good[i]) by {
    }
    layout::lemma_run_reads_written(
        container::pair_parser(),
        container::pair_writer(),
        container::pair_fits(),
        good,
        rest,
    );
    let m = (good.len() + 1) as nat;
    assert(layout::left_by_run(container::pair_parser(), left, m, run) == left(rest));
    assert(layout::parse_run(container::pair_parser(), m, run) is Err);
    layout::lemma_run_leaves(container::pair_parser(), left, m, n as nat, run);
    numbers::law_numbers_are_written_big_endian(n);
    container::lemma_u32_layout(n as u32, run, run);
}

/// **A reader of snapshots answers with what it read.** It gives the value and
/// leaves the rest, or it reports the fault.
pub proof fn law_reader_answers_with_what_it_read<T>(
    value: T,
    after: Seq<u8>,
    fault: SnapshotFault,
    answer: Result<T, StreamsClientError>,
    rest: Seq<u8>,
    left: Seq<u8>,
)
    ensures
        snapshot::answers(Ok((value, after)), answer, rest, left) <==> answer == Ok::<
            T,
            StreamsClientError,
        >(value) && rest == after,
        snapshot::answers::<T>(Err(fault), answer, rest, left) <==> (answer matches Err(error)
            && error@ == container::fault_error(fault) && rest == left),
{
}

/// **A run of pairs is read off the front**, and what follows it stays.
pub proof fn law_pairs_are_read_off_the_front(pairs: Seq<(Seq<u8>, Seq<u8>)>, rest: Seq<u8>)
    requires
        snapshots::pairs_countable(pairs),
    ensures
        container::parse_pairs(
            numbers::four(pairs.len() as int) + (snapshots::pairs_bytes(pairs) + rest),
        ) == Ok::<(Seq<(Seq<u8>, Seq<u8>)>, Seq<u8>), SnapshotFault>((pairs, rest)),
{
    let n = pairs.len() as int;
    let run = snapshots::pairs_bytes(pairs) + rest;
    snapshots::law_payload_is_its_pairs(pairs, Seq::empty());
    snapshots::lemma_pairs_bytes(pairs);
    container::lemma_pair_layout();
    assert forall|i: int| 0 <= i < pairs.len() implies container::pair_fits()(
        #[trigger] pairs[i],
    ) by {}
    layout::lemma_run_reads_written(
        container::pair_parser(),
        container::pair_writer(),
        container::pair_fits(),
        pairs,
        rest,
    );
    numbers::law_numbers_are_written_big_endian(n);
    container::lemma_u32_layout(n as u32, run, run);
}

} // verus!
