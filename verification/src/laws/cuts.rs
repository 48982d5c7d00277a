//! What the bytes of a record make of the cuts that are held.

use vstd::prelude::*;

use crate::barrier::align::Barrier;
use crate::barrier::cut;
use crate::barrier::cut::{BarrierCut, BarrierKey, CutStatus, CutView};
use crate::barrier::held;
use crate::barrier::held::{CutsView, FetchedRec, RecordView};
use crate::barrier::record;
use crate::barrier::record::{CutFields, KeyFields};
use crate::buffer;
use crate::error::{ErrorView, StreamsClientError};
use crate::laws::records;
use crate::position::{Position, TopicPartition};

verus! {

/// **A cut is what its record lists, field by field.** The group and the epoch
/// are those of the key. The times and the status are those of the value, so the
/// cut is complete exactly when the status byte is `0`. A partial cut misses
/// exactly the partitions that the value lists as missing, and a complete cut
/// misses none.
pub proof fn law_cut_is_what_its_record_lists(
    group: Seq<char>,
    epoch: i64,
    fields: CutFields,
    p: (Seq<char>, i32),
)
    requires
        records::countable(group),
        records::cut_countable(fields),
    ensures
        cut::decoded(
            records::key_bytes(2, group, epoch),
            Some(records::cut_bytes(fields)),
        ) matches Ok(Some(cut)) && {
            &&& cut.group == group
            &&& cut.epoch == epoch
            &&& cut.triggered_at == fields.triggered_at
            &&& cut.completed_at == fields.completed_at
            &&& cut.status == fields.status
            &&& cut.status == CutStatus::Complete <==> records::cut_bytes(fields)[18] == 0
            &&& cut.status == CutStatus::Partial <==> records::cut_bytes(fields)[18] == 1
            &&& cut.is_complete() <==> fields.status == CutStatus::Complete
            &&& fields.status == CutStatus::Partial ==> (cut.missing.contains(p) <==> exists|i: int|
                0 <= i < fields.missing.len() && #[trigger] fields.missing[i] == p)
            &&& fields.status == CutStatus::Complete ==> !cut.missing.contains(p)
        },
        cut::decoded(
            record::write_key(KeyFields { kind: 2, group, epoch }),
            Some(record::write_cut(fields)),
        ) == cut::decoded(
            records::key_bytes(2, group, epoch),
            Some(records::cut_bytes(fields)),
        ),
{
    records::law_key_is_its_fields(2, group, epoch);
    records::law_cut_is_its_fields(fields);
    if fields.missing.contains(p) {
        let i = choose|i: int| 0 <= i < fields.missing.len() && fields.missing[i] == p;
        assert(fields.missing[i] == p);
    }
    lemma_status_byte(fields);
}

proof fn lemma_status_byte(fields: CutFields)
    ensures
        records::cut_bytes(fields)[18] == records::status_byte(fields.status),
{
}

/// **A cut has the offsets that its record lists.** It names a topic exactly when
/// the record lists the topic, and a partition exactly when some listing of its
/// topic lists the partition.
pub proof fn law_cut_names_the_listed_partitions(
    group: Seq<char>,
    epoch: i64,
    fields: CutFields,
    topic: Seq<char>,
    partition: i32,
)
    requires
        records::countable(group),
        records::cut_countable(fields),
    ensures
        cut::decoded(
            records::key_bytes(2, group, epoch),
            Some(records::cut_bytes(fields)),
        ) matches Ok(Some(cut)) && {
            &&& cut.offsets.dom().contains(topic) <==> exists|i: int|
                0 <= i < fields.topics.len() && (#[trigger] fields.topics[i]).0 == topic
            &&& (cut.offsets.dom().contains(topic) && cut.offsets[topic].dom().contains(partition))
                <==> exists|i: int, j: int|
                0 <= i < fields.topics.len() && 0 <= j < fields.topics[i].1.len()
                    && fields.topics[i].0 == topic && (#[trigger] fields.topics[i].1[j]).0
                    == partition
        },
{
    records::law_key_is_its_fields(2, group, epoch);
    records::law_cut_is_its_fields(fields);
    cut::law_cut_names_what_is_listed(fields.topics, (topic, partition));
}

/// **The last listing of a partition gives its offset.**
pub proof fn law_last_listing_gives_the_offset(
    group: Seq<char>,
    epoch: i64,
    fields: CutFields,
    i: int,
    j: int,
)
    requires
        records::countable(group),
        records::cut_countable(fields),
        0 <= i < fields.topics.len(),
        0 <= j < fields.topics[i].1.len(),
        forall|k: int|
            j < k < fields.topics[i].1.len() ==> (#[trigger] fields.topics[i].1[k]).0
                != fields.topics[i].1[j].0,
        forall|t: int, k: int|
            i < t < fields.topics.len() && 0 <= k < fields.topics[t].1.len() && fields.topics[t].0
                == fields.topics[i].0 ==> (#[trigger] fields.topics[t].1[k]).0
                != fields.topics[i].1[j].0,
    ensures
        cut::decoded(
            records::key_bytes(2, group, epoch),
            Some(records::cut_bytes(fields)),
        ) matches Ok(Some(cut)) && {
            &&& cut.offsets.dom().contains(fields.topics[i].0)
            &&& cut.offsets[fields.topics[i].0].dom().contains(fields.topics[i].1[j].0)
            &&& cut.offsets[fields.topics[i].0][fields.topics[i].1[j].0] == fields.topics[i].1[j].1
        },
{
    records::law_key_is_its_fields(2, group, epoch);
    records::law_cut_is_its_fields(fields);
    cut::law_cut_has_the_last_listed_offset(fields.topics, i, j);
}

/// **A record of another kind, or without a value, carries no cut**, whatever
/// else it holds.
pub proof fn law_only_cut_records_carry_cuts(
    kind: i16,
    group: Seq<char>,
    epoch: i64,
    value: Option<Seq<u8>>,
)
    requires
        records::countable(group),
        kind != 2 || value is None,
    ensures
        cut::decoded(records::key_bytes(kind, group, epoch), value) == Ok::<
            Option<CutView>,
            ErrorView,
        >(None),
{
    records::law_key_is_its_fields(kind, group, epoch);
}

/// **A record that is refused says what is wrong with which part of it.**
pub proof fn law_refused_record_names_its_fault(key: Seq<u8>, value: Seq<u8>)
    ensures
        record::parse_key(key) matches Err(fault) ==> cut::decoded(key, Some(value)) == Err::<
            Option<CutView>,
            ErrorView,
        >(
            ErrorView::BarrierFormat { part: "key"@, message: record::fault_text("key"@, fault) },
        ),
        record::parse_key(key) matches Err(fault) ==> cut::decoded(key, None) == Err::<
            Option<CutView>,
            ErrorView,
        >(
            ErrorView::BarrierFormat { part: "key"@, message: record::fault_text("key"@, fault) },
        ),
        record::parse_key(key) matches Ok(fields) ==> fields.kind == 2 ==> (record::parse_cut(
            value,
        ) matches Err(fault) ==> cut::decoded(key, Some(value)) == Err::<
            Option<CutView>,
            ErrorView,
        >(
            ErrorView::BarrierFormat {
                part: "cut value"@,
                message: record::fault_text("cut value"@, fault),
            },
        )),
{
}

/// Whether bytes are those of a key of some kind.
pub open spec fn is_key(key: Seq<u8>, kind: i16) -> bool {
    exists|group: Seq<char>, epoch: i64|
        records::countable(group) && key == #[trigger] records::key_bytes(kind, group, epoch)
}

/// Whether bytes are those of a cut value.
pub open spec fn is_cut_value(value: Seq<u8>) -> bool {
    exists|fields: CutFields|
        records::cut_countable(fields) && value == #[trigger] records::cut_bytes(fields)
}

/// Whether a record is laid out as the format says: it has no key, or a key of
/// another kind, or the key of a cut and a value that is absent, empty, or that
/// of a cut.
pub open spec fn well_formed(record: RecordView) -> bool {
    match record.key {
        None => true,
        Some(key) => {
            ||| exists|kind: i16| kind != 2 && #[trigger] is_key(key, kind)
            ||| is_key(key, 2) && match record.value {
                None => true,
                Some(value) => value.len() == 0 || is_cut_value(value),
            }
        },
    }
}

proof fn lemma_key_is_read(key: Seq<u8>)
    ensures
        record::parse_key(key) matches Ok(fields) ==> is_key(key, fields.kind),
        forall|kind: i16| #[trigger]
            is_key(key, kind) ==> record::parse_key(key) is Ok && record::parse_key(key)->Ok_0.kind
                == kind,
{
    if let Ok(fields) = record::parse_key(key) {
        record::law_key_was_written(key);
        records::law_key_is_its_fields(fields.kind, fields.group, fields.epoch);
        assert(key == records::key_bytes(fields.kind, fields.group, fields.epoch));
    }
    assert forall|kind: i16| #[trigger] is_key(key, kind) implies record::parse_key(key) is Ok
        && record::parse_key(key)->Ok_0.kind == kind by {
        let (group, epoch) = choose|group: Seq<char>, epoch: i64|
            records::countable(group) && key == #[trigger] records::key_bytes(kind, group, epoch);
        records::law_key_is_its_fields(kind, group, epoch);
    }
}

proof fn lemma_value_is_read(value: Seq<u8>)
    ensures
        record::parse_cut(value) is Ok <==> is_cut_value(value),
{
    if let Ok(fields) = record::parse_cut(value) {
        record::law_cut_was_written(value);
        records::law_cut_is_its_fields(fields);
        assert(value == records::cut_bytes(fields));
    }
    if is_cut_value(value) {
        let fields = choose|fields: CutFields|
            records::cut_countable(fields) && value == #[trigger] records::cut_bytes(fields);
        records::law_cut_is_its_fields(fields);
    }
}

/// **A record is applied exactly when it is well formed**, whatever its offset
/// and its timestamp are, and whatever is held.
pub proof fn law_well_formed_records_are_applied(cuts: CutsView, record: RecordView)
    ensures
        held::accepted(cuts, record) is Ok <==> well_formed(record),
        held::matches_layout(record) <==> well_formed(record),
{
    held::lemma_layout_decides(cuts, record);
    if let Some(key) = record.key {
        lemma_key_is_read(key);
        if let Ok(fields) = record::parse_key(key) {
            assert(is_key(key, fields.kind));
        }
        if let Some(value) = record.value {
            lemma_value_is_read(value);
        }
    }
}

/// **Only the key and the value of a record count.** Two records with the same
/// key and the same value are taken alike.
pub proof fn law_only_key_and_value_count(cuts: CutsView, a: RecordView, b: RecordView)
    requires
        a.key == b.key,
        a.value == b.value,
    ensures
        held::accepted(cuts, a) == held::accepted(cuts, b),
        held::matches_layout(a) == held::matches_layout(b),
        held::about(a) == held::about(b),
        held::published(a) == held::published(b),
{
    reveal(held::matches_layout);
}

/// **A record without a key, or of another kind than a cut, changes nothing.**
pub proof fn law_other_records_change_nothing(
    cuts: CutsView,
    record: RecordView,
    kind: i16,
    group: Seq<char>,
    epoch: i64,
)
    requires
        records::countable(group),
        record.key is None || (kind != 2 && record.key == Some(
            records::key_bytes(kind, group, epoch),
        )),
    ensures
        held::accepted(cuts, record) == Ok::<CutsView, ErrorView>(cuts),
        held::about(record) is None,
        held::published(record) is None,
{
    records::law_key_is_its_fields(kind, group, epoch);
}

/// **A tombstone, an empty value, and a partial cut drop their cut**, and touch
/// no other.
pub proof fn law_withdrawn_cuts_are_dropped(
    cuts: CutsView,
    record: RecordView,
    group: Seq<char>,
    epoch: i64,
    fields: CutFields,
    g: Seq<char>,
    e: i64,
)
    requires
        records::countable(group),
        record.key == Some(records::key_bytes(2, group, epoch)),
        record.value matches Some(value) ==> value.len() == 0 || (records::cut_countable(fields)
            && fields.status == CutStatus::Partial && value == records::cut_bytes(fields)),
    ensures
        held::accepted(cuts, record) matches Ok(after) && {
            &&& (after.dom().contains(g) && after[g].dom().contains(e)) <==> (cuts.dom().contains(g)
                && cuts[g].dom().contains(e) && !(g == group && e == epoch))
            &&& after.dom().contains(g) && after[g].dom().contains(e) ==> after[g][e] == cuts[g][e]
        },
        held::about(record) == Some((group, epoch)),
        held::published(record) is None,
{
    records::law_key_is_its_fields(2, group, epoch);
    records::law_cut_is_its_fields(fields);
}

/// **A complete cut is held as it was published**, under its own group and
/// epoch, and touches no other.
pub proof fn law_complete_cuts_are_held(
    cuts: CutsView,
    record: RecordView,
    group: Seq<char>,
    epoch: i64,
    fields: CutFields,
    g: Seq<char>,
    e: i64,
)
    requires
        records::countable(group),
        records::cut_countable(fields),
        fields.status == CutStatus::Complete,
        record.key == Some(records::key_bytes(2, group, epoch)),
        record.value == Some(records::cut_bytes(fields)),
    ensures
        held::accepted(cuts, record) matches Ok(after) && {
            &&& (after.dom().contains(g) && after[g].dom().contains(e)) <==> ((cuts.dom().contains(
                g,
            ) && cuts[g].dom().contains(e)) || (g == group && e == epoch))
            &&& cuts.dom().contains(g) && cuts[g].dom().contains(e) && !(g == group && e == epoch)
                ==> after[g][e] == cuts[g][e]
            &&& cut::decoded(record.key->Some_0, record.value) == Ok::<Option<CutView>, ErrorView>(
                Some(after[group][epoch]),
            )
        },
        held::about(record) == Some((group, epoch)),
        held::published(record) matches Some(cut) && cut::decoded(
            record.key->Some_0,
            record.value,
        ) == Ok::<Option<CutView>, ErrorView>(Some(cut)),
{
    records::law_key_is_its_fields(2, group, epoch);
    records::law_cut_is_its_fields(fields);
    assert(records::cut_bytes(fields).len() >= 19);
}

/// **A record that is refused says why.** The error names the key where the key
/// is at fault, and the value otherwise.
pub proof fn law_refused_records_say_why(cuts: CutsView, record: RecordView)
    requires
        !well_formed(record),
    ensures
        record.key is Some,
        record::parse_key(record.key->Some_0) matches Err(fault) ==> held::accepted(cuts, record)
            == Err::<CutsView, ErrorView>(
            ErrorView::BarrierFormat { part: "key"@, message: record::fault_text("key"@, fault) },
        ),
        record::parse_key(record.key->Some_0) is Ok ==> record.value is Some && (
        record::parse_cut(record.value->Some_0) matches Err(fault) && held::accepted(cuts, record)
            == Err::<CutsView, ErrorView>(
            ErrorView::BarrierFormat {
                part: "cut value"@,
                message: record::fault_text("cut value"@, fault),
            },
        )),
{
    law_well_formed_records_are_applied(cuts, record);
}

/// **A group and an epoch that no record is about stay as they were.**
pub proof fn law_cuts_without_a_record_stay(
    cuts: CutsView,
    records: Seq<RecordView>,
    group: Seq<char>,
    epoch: i64,
)
    requires
        forall|i: int|
            0 <= i < records.len() ==> held::about(#[trigger] records[i]) != Some((group, epoch)),
    ensures
        ({
            let after = held::accepted_all(cuts, records).0;
            &&& (after.dom().contains(group) && after[group].dom().contains(epoch)) <==> (
            cuts.dom().contains(group) && cuts[group].dom().contains(epoch))
            &&& cuts.dom().contains(group) && cuts[group].dom().contains(epoch)
                ==> after[group][epoch] == cuts[group][epoch]
        }),
    decreases records.len(),
{
    if records.len() > 0 {
        let head = records.drop_last();
        assert forall|i: int| 0 <= i < head.len() implies held::about(#[trigger] head[i]) != Some(
            (group, epoch),
        ) by {
            assert(head[i] == records[i]);
        }
        law_cuts_without_a_record_stay(cuts, head, group, epoch);
        assert(held::about(records[records.len() - 1]) != Some((group, epoch)));
        let before = held::accepted_all(cuts, head).0;
        if held::accepted(before, records.last()) is Ok {
            held::law_record_decides_its_own_cut(before, records.last(), group, epoch);
        }
    }
}

/// **The first record that is not well formed stops a run.** The records in
/// front of it stay applied, and those behind it are not looked at. A run of well
/// formed records is applied to the end.
pub proof fn law_first_malformed_record_stops_a_run(
    cuts: CutsView,
    records: Seq<RecordView>,
    n: int,
)
    requires
        0 <= n <= records.len(),
        forall|i: int| 0 <= i < n ==> well_formed(#[trigger] records[i]),
        n < records.len() ==> !well_formed(records[n]),
    ensures
        held::accepted_all(cuts, records.take(n)).1 is None,
        held::accepted_all(cuts, records).0 == held::accepted_all(cuts, records.take(n)).0,
        n == records.len() ==> held::accepted_all(cuts, records).1 is None,
        n < records.len() ==> (held::accepted(cuts, records[n]) matches Err(error)
            && held::accepted_all(cuts, records).1 == Some(error)),
        records.len() == 0 ==> held::accepted_all(cuts, records).0 == cuts,
        n == records.len() && n > 0 ==> held::accepted(
            held::accepted_all(cuts, records.drop_last()).0,
            records.last(),
        ) == Ok::<CutsView, ErrorView>(held::accepted_all(cuts, records).0),
    decreases records.len(),
{
    if records.len() > 0 {
        let head = records.drop_last();
        let before = held::accepted_all(cuts, head).0;
        if n == records.len() {
            law_first_malformed_record_stops_a_run(cuts, head, n - 1);
            assert(head.take(n - 1) =~= head);
            assert(records.take(n) =~= records);
            assert(well_formed(records[n - 1]));
            law_well_formed_records_are_applied(before, records.last());
        } else {
            law_first_malformed_record_stops_a_run(cuts, head, n);
            assert(head.take(n) =~= records.take(n));
            law_well_formed_records_are_applied(cuts, records[n]);
            law_well_formed_records_are_applied(before, records[n]);
            law_refused_records_say_why(cuts, records[n]);
            law_refused_records_say_why(before, records[n]);
            if n == records.len() - 1 {
                assert(head.take(n) =~= head);
            }
        }
    } else {
        assert(records.take(n) =~= records);
    }
}

/// **A cut has the fields of its key and of its value**, whatever kind the key
/// is of.
pub proof fn law_cut_has_the_fields_of_its_key_and_value(
    key: KeyFields,
    fields: CutFields,
    topic: Seq<char>,
    partition: i32,
)
    ensures
        ({
            let cut = cut::cut_of(key, fields);
            &&& cut.group == key.group
            &&& cut.epoch == key.epoch
            &&& cut.triggered_at == fields.triggered_at
            &&& cut.completed_at == fields.completed_at
            &&& cut.status == fields.status
            &&& fields.status == CutStatus::Complete ==> !cut.missing.contains((topic, partition))
            &&& fields.status == CutStatus::Partial ==> (cut.missing.contains((topic, partition))
                <==> exists|i: int|
                0 <= i < fields.missing.len() && #[trigger] fields.missing[i] == (topic, partition))
            &&& cut.offsets.dom().contains(topic) <==> exists|i: int|
                0 <= i < fields.topics.len() && (#[trigger] fields.topics[i]).0 == topic
            &&& (cut.offsets.dom().contains(topic) && cut.offsets[topic].dom().contains(partition))
                <==> exists|i: int, j: int|
                0 <= i < fields.topics.len() && 0 <= j < fields.topics[i].1.len()
                    && fields.topics[i].0 == topic && (#[trigger] fields.topics[i].1[j]).0
                    == partition
            &&& cut.offsets == cut::cut_of(
                KeyFields { kind: 2, group: Seq::empty(), epoch: 0 },
                fields,
            ).offsets
        }),
{
    let p = (topic, partition);
    if fields.missing.contains(p) {
        let i = choose|i: int| 0 <= i < fields.missing.len() && fields.missing[i] == p;
        assert(fields.missing[i] == p);
    }
    cut::law_cut_names_what_is_listed(fields.topics, p);
}

/// **What a fetched record, a key, a cut, and a barrier say is what their fields
/// hold.**
pub proof fn law_values_say_what_they_hold(
    fetched: FetchedRec,
    key: BarrierKey,
    cut: BarrierCut,
    barrier: Barrier,
    i: int,
)
    ensures
        fetched@.offset == fetched.offset,
        fetched@.timestamp == fetched.timestamp,
        fetched.key is None <==> fetched@.key is None,
        fetched.value is None <==> fetched@.value is None,
        fetched.key matches Some(key) ==> fetched@.key == Some(buffer::contents(key)),
        fetched.value matches Some(value) ==> fetched@.value == Some(buffer::contents(value)),
        key@.kind == key.kind,
        key@.group == key.group@,
        key@.epoch == key.epoch,
        cut@.group == cut.group@,
        cut@.epoch == cut.epoch,
        cut@.triggered_at == cut.triggered_at,
        cut@.completed_at == cut.completed_at,
        cut@.status == cut.status,
        cut@.offsets == cut.offsets@,
        cut@.missing == cut.missing@,
        barrier@.cut == barrier.cut@,
        barrier@.offsets == barrier.offsets@,
        barrier@.tasks.len() == barrier.tasks@.len(),
        0 <= i < barrier.tasks@.len() ==> barrier@.tasks[i] == barrier.tasks@[i]@,
{
}

/// **What a position, a partition, and an error say is what they hold.**
pub proof fn law_places_and_errors_say_what_they_hold(
    position: Position,
    partition: TopicPartition,
    topic: Seq<char>,
    part: &'static str,
    message: String,
)
    ensures
        position@.dom().contains(topic) <==> position.0@.dom().contains(topic),
        position.0@.dom().contains(topic) ==> position@[topic] == position.0@[topic]@,
        partition@ == (partition.topic@, partition.partition),
        (StreamsClientError::BarrierFormat { part, message })@ == (ErrorView::BarrierFormat {
            part: part@,
            message: message@,
        }),
        StreamsClientError::Snapshot(message)@ == ErrorView::Snapshot(message@),
{
}

/// **A partition reaches a cut at its marker offset**, and at once where the cut
/// does not name it.
pub proof fn law_cut_is_reached_at_its_marker(
    cut: CutView,
    topic: Seq<char>,
    partition: i32,
    position: i64,
)
    ensures
        cut.is_complete() <==> cut.status == CutStatus::Complete,
        cut.is_reached((topic, partition), position) <==> (!(cut.offsets.dom().contains(topic)
            && cut.offsets[topic].dom().contains(partition))
            || cut.offsets[topic][partition] as int <= position as int),
{
}

/// **The status codes are `0` for complete and `1` for partial**, and no other.
pub proof fn law_statuses_have_their_codes(code: i8)
    ensures
        CutStatus::Complete.code_of() == 0,
        CutStatus::Partial.code_of() == 1,
        CutStatus::of_code(0) == Some(CutStatus::Complete),
        CutStatus::of_code(1) == Some(CutStatus::Partial),
        code != 0 && code != 1 ==> CutStatus::of_code(code) is None,
{
}

/// **The barrier state topic has its name, its record version, and its kind of
/// cut records.**
pub proof fn law_topic_has_its_constants()
    ensures
        cut::BARRIER_STATE_TOPIC@ == "__barrier_state"@,
        record::RECORD_VERSION == 0,
        record::CUT_KIND == 2,
{
}

} // verus!
