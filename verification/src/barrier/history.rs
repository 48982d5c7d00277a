//! What holds of a reader over any number of reads.

use vstd::prelude::*;

use crate::barrier::held;
use crate::barrier::held::RecordView;
use crate::barrier::reader;
use crate::barrier::reader::{CutAction, IsolationLevel, ReaderView};

verus! {

/// What a reader is told.
pub enum ReadEvent {
    /// To start a read.
    Started,
    /// The partitions of the topic, in ascending order.
    Listed(Seq<i32>),
    /// The records that it asked for.
    Fetched(Seq<RecordView>),
}

/// What a reader knows after it was told something.
pub open spec fn told(reader: ReaderView, event: ReadEvent) -> ReaderView {
    match event {
        ReadEvent::Started => match reader.partitions {
            None => ReaderView { fetching: None, ..reader },
            Some(partitions) => reader::turned_to(reader, partitions, 0).0,
        },
        ReadEvent::Listed(list) => reader::turned_to(
            ReaderView { partitions: Some(list), ..reader },
            list,
            0,
        ).0,
        ReadEvent::Fetched(records) => match reader.fetching {
            None => reader,
            Some((index, offset)) => reader::took_in(
                reader,
                reader.partitions->Some_0,
                index,
                offset,
                records,
            ).0,
        },
    }
}

/// What a reader needs next once it was told something, or `None` when what it
/// was told is answered with an error.
pub open spec fn needed(reader: ReaderView, event: ReadEvent) -> Option<CutAction> {
    match event {
        ReadEvent::Started => match reader.partitions {
            None => Some(CutAction::ListPartitions),
            Some(partitions) => Some(reader::turned_to(reader, partitions, 0).1),
        },
        ReadEvent::Listed(list) => Some(
            reader::turned_to(ReaderView { partitions: Some(list), ..reader }, list, 0).1,
        ),
        ReadEvent::Fetched(records) => match reader.fetching {
            None => None,
            Some((index, offset)) => match reader::took_in(
                reader,
                reader.partitions->Some_0,
                index,
                offset,
                records,
            ).1 {
                Ok(action) => Some(action),
                Err(_) => None,
            },
        },
    }
}

/// What a reader knows after it was told one thing after another.
pub open spec fn told_all(reader: ReaderView, events: Seq<ReadEvent>) -> ReaderView
    decreases events.len(),
{
    if events.len() == 0 {
        reader
    } else {
        told(told_all(reader, events.drop_last()), events.last())
    }
}

/// The partition that a reader asks for, if it asks for one.
pub open spec fn asks_for(reader: ReaderView) -> Option<i32> {
    match reader.fetching {
        None => None,
        Some((index, _)) => Some(reader.partitions->Some_0[index]),
    }
}

/// The offset that is noted for a partition, or `0` when none is.
pub open spec fn noted(reader: ReaderView, partition: i32) -> i64 {
    if reader.offsets.dom().contains(partition) {
        reader.offsets[partition]
    } else {
        0
    }
}

/// The records that a reader was brought of a partition.
pub open spec fn brought(
    reader: ReaderView,
    events: Seq<ReadEvent>,
    partition: i32,
) -> Seq<RecordView>
    decreases events.len(),
{
    if events.len() == 0 {
        Seq::empty()
    } else {
        let before = brought(reader, events.drop_last(), partition);
        match events.last() {
            ReadEvent::Fetched(records) => if asks_for(told_all(reader, events.drop_last()))
                == Some(partition) {
                before + records
            } else {
                before
            },
            _ => before,
        }
    }
}

/// Whether every read went well: a read starts only when the one before it is
/// over, partitions are listed only while they are unknown, records come only
/// when they were asked for, and all of them match the layout.
pub open spec fn went_well(reader: ReaderView, events: Seq<ReadEvent>) -> bool
    decreases events.len(),
{
    events.len() > 0 ==> {
        let before = told_all(reader, events.drop_last());
        &&& went_well(reader, events.drop_last())
        &&& match events.last() {
            ReadEvent::Started => before.fetching is None,
            ReadEvent::Listed(list) => before.fetching is None && before.partitions is None,
            ReadEvent::Fetched(records) => {
                &&& before.fetching is Some
                &&& held::accepted_all(before.cuts, records).1 is None
                &&& forall|i: int|
                    0 <= i < records.len() ==> (#[trigger] records[i]).offset < i64::MAX
            },
        }
    }
}

/// Whether the partition that is being read is one of the list.
pub open spec fn in_list(reader: ReaderView) -> bool {
    reader.fetching matches Some((index, _)) ==> (reader.partitions matches Some(partitions)
        && 0 <= index < partitions.len())
}

/// Two runs of records move the next offset as one run does.
proof fn lemma_offset_after_joined(offset: i64, a: Seq<RecordView>, b: Seq<RecordView>)
    ensures
        reader::offset_after(offset, a + b) == reader::offset_after(
            reader::offset_after(offset, a),
            b,
        ),
    decreases b.len(),
{
    if b.len() == 0 {
        assert(a + b =~= a);
    } else {
        assert((a + b).drop_last() =~= a + b.drop_last());
        assert((a + b).last() == b.last());
        lemma_offset_after_joined(offset, a, b.drop_last());
    }
}

/// **The next offset is one past the highest.** After records, the next offset
/// to fetch is past every one of them and not behind where it was, and it is
/// where it was or one past some record.
pub proof fn law_next_offset_is_one_past_the_highest(offset: i64, records: Seq<RecordView>)
    requires
        forall|i: int| 0 <= i < records.len() ==> (#[trigger] records[i]).offset < i64::MAX,
    ensures
        reader::offset_after(offset, records) >= offset,
        forall|i: int|
            0 <= i < records.len() ==> reader::offset_after(offset, records) >= (
            #[trigger] records[i]).offset + 1,
        reader::offset_after(offset, records) == offset || exists|i: int|
            0 <= i < records.len() && reader::offset_after(offset, records) == (
            #[trigger] records[i]).offset + 1,
    decreases records.len(),
{
    if records.len() > 0 {
        let head = records.drop_last();
        let last = records.len() - 1;
        assert forall|i: int| 0 <= i < head.len() implies (#[trigger] head[i]).offset
            < i64::MAX by {
            assert(head[i] == records[i]);
        }
        law_next_offset_is_one_past_the_highest(offset, head);
        assert(records[last].offset < i64::MAX);
        let before = reader::offset_after(offset, head);
        assert forall|i: int| 0 <= i < records.len() implies reader::offset_after(offset, records)
            >= (#[trigger] records[i]).offset + 1 by {
            if i < last {
                assert(before >= head[i].offset + 1);
            }
        }
        if reader::offset_after(offset, records) != offset {
            if reader::offset_after(offset, records) == before {
                let i = choose|i: int|
                    0 <= i < head.len() && before == (#[trigger] head[i]).offset + 1;
                assert(before == records[i].offset + 1);
            } else {
                assert(reader::offset_after(offset, records) == records[last].offset + 1);
            }
        }
    }
}

/// **Every fetch asks for what is next.** Over any number of reads that went
/// well, each fetch of a partition asks from one past the highest offset that
/// was brought of it so far, and from where it stood before when nothing was: for
/// a new reader, from `0`. What is noted for every other partition is its next
/// offset too, so a later read resumes there.
///
/// The partitions are listed at most once, and stay as they were listed.
pub proof fn law_every_fetch_asks_for_what_is_next(
    reader: ReaderView,
    events: Seq<ReadEvent>,
    partition: i32,
)
    requires
        reader.fetching is None,
        went_well(reader, events),
    ensures
        ({
            let after = told_all(reader, events);
            let next = reader::offset_after(
                noted(reader, partition),
                brought(reader, events, partition),
            );
            &&& in_list(after)
            &&& if asks_for(after) == Some(partition) {
                after.fetching->Some_0.1 == next
            } else {
                noted(after, partition) == next
            }
        }),
        told_all(reader, events).topic == reader.topic,
        reader.partitions is Some ==> told_all(reader, events).partitions == reader.partitions,
        forall|i: int|
            0 <= i < events.len() && #[trigger] events[i] is Listed ==> told_all(
                reader,
                events,
            ).partitions == Some(events[i]->Listed_0),
        forall|i: int, j: int|
            0 <= i < j < events.len() ==> !(#[trigger] events[i] is Listed
                && #[trigger] events[j] is Listed),
    decreases events.len(),
{
    if events.len() > 0 {
        let heads = events.drop_last();
        let last = events.len() - 1;
        law_every_fetch_asks_for_what_is_next(reader, heads, partition);
        let before = told_all(reader, heads);
        assert forall|i: int| 0 <= i < events.len() && #[trigger] events[i] is Listed implies told_all(
            reader,
            events,
        ).partitions == Some(events[i]->Listed_0) by {
            if i < last {
                assert(heads[i] == events[i]);
                assert(before.partitions == Some(heads[i]->Listed_0));
            }
        }
        assert forall|i: int, j: int| 0 <= i < j < events.len() implies !(
        #[trigger] events[i] is Listed && #[trigger] events[j] is Listed) by {
            assert(heads[i] == events[i]);
            if j < last {
                assert(heads[j] == events[j]);
            }
        }
        if let ReadEvent::Fetched(records) = events.last() {
            let (index, offset) = before.fetching->Some_0;
            let partitions = before.partitions->Some_0;
            lemma_offset_after_joined(
                noted(reader, partition),
                brought(reader, heads, partition),
                records,
            );
            reader::lemma_offset_never_falls(offset, records);
        }
    }
}

/// **What a reader asks for.** Over any number of reads that went well, whatever
/// the reader was told last, it needs the list of partitions only while none was
/// given, and otherwise a fetch or nothing. Every fetch is of the same topic and
/// of uncommitted records, and asks from one past the highest offset that was
/// brought of its partition so far.
pub proof fn law_what_a_reader_asks_for(reader: ReaderView, events: Seq<ReadEvent>)
    requires
        reader.fetching is None,
        events.len() > 0,
        went_well(reader, events),
    ensures
        ({
            let after = told_all(reader, events);
            &&& after.topic == reader.topic
            &&& match needed(told_all(reader, events.drop_last()), events.last()) {
                Some(CutAction::ListPartitions) => {
                    &&& events.last() is Started
                    &&& after.partitions is None
                    &&& after.fetching is None
                    &&& forall|i: int| 0 <= i < events.len() ==> !(#[trigger] events[i] is Listed)
                },
                Some(CutAction::Fetch { partition, offset, isolation }) => {
                    &&& asks_for(after) == Some(partition)
                    &&& offset == reader::offset_after(
                        noted(reader, partition),
                        brought(reader, events, partition),
                    )
                    &&& isolation == IsolationLevel::ReadUncommitted
                },
                Some(CutAction::CaughtUp) => after.fetching is None && after.partitions is Some,
                None => false,
            }
        }),
{
    let before = told_all(reader, events.drop_last());
    let after = told_all(reader, events);
    law_every_fetch_asks_for_what_is_next(reader, events.drop_last(), 0);
    law_every_fetch_asks_for_what_is_next(reader, events, 0);
    if let Some(CutAction::Fetch { partition, .. }) = needed(before, events.last()) {
        law_every_fetch_asks_for_what_is_next(reader, events, partition);
    }
}

/// Whether events are those of one read: the first starts it, and none starts
/// another.
pub open spec fn one_read(events: Seq<ReadEvent>) -> bool {
    &&& events.len() > 0
    &&& events[0] is Started
    &&& forall|i: int| 0 < i < events.len() ==> !(#[trigger] events[i] is Started)
}

/// Whether a read has not turned to a partition before the place it is at.
pub open spec fn first_visit(reader: ReaderView, partition: i32) -> bool {
    reader.fetching matches Some((index, _)) ==> forall|i: int|
        0 <= i < index ==> #[trigger] reader.partitions->Some_0[i] != partition
}

/// During a read, what is noted for a partition changes only when the read
/// leaves it.
proof fn lemma_noted_until_left(reader: ReaderView, events: Seq<ReadEvent>, partition: i32)
    requires
        reader.fetching is None,
        went_well(reader, events),
        one_read(events),
    ensures
        ({
            let after = told_all(reader, events);
            (after.fetching is Some || after.partitions is None) && first_visit(after, partition)
                ==> noted(after, partition) == noted(reader, partition)
        }),
    decreases events.len(),
{
    let heads = events.drop_last();
    let before = told_all(reader, heads);
    law_every_fetch_asks_for_what_is_next(reader, heads, partition);
    if events.len() == 1 {
        assert(heads =~= Seq::empty());
        assert(events.last() == events[0]);
    } else {
        assert forall|i: int| 0 < i < heads.len() implies !(#[trigger] heads[i] is Started) by {
            assert(heads[i] == events[i]);
        }
        assert(heads[0] == events[0]);
        lemma_noted_until_left(reader, heads, partition);
        assert(!(events[events.len() - 1] is Started));
        let after = told_all(reader, events);
        if let ReadEvent::Fetched(records) = events.last() {
            let (index, offset) = before.fetching->Some_0;
            let partitions = before.partitions->Some_0;
            reader::lemma_offset_never_falls(offset, records);
            if after.fetching is Some && first_visit(after, partition) {
                assert(first_visit(before, partition)) by {
                    assert forall|i: int| 0 <= i < index implies #[trigger] partitions[i]
                        != partition by {
                        assert(after.partitions->Some_0[i] != partition);
                    }
                }
                let (place, _) = after.fetching->Some_0;
                if place > index {
                    assert(after.partitions->Some_0[index] != partition);
                }
            }
        }
    }
}

/// What a reader knows after the read that it is in failed: because a fetch
/// failed, or because it was brought records that do not match the layout.
pub open spec fn after_failure(reader: ReaderView, malformed: Option<Seq<RecordView>>) -> ReaderView {
    match malformed {
        None => ReaderView { fetching: None, ..reader },
        Some(records) => told(reader, ReadEvent::Fetched(records)),
    }
}

/// **A failed read loses nothing.** When a fetch of a partition fails, or brings
/// a record that does not match the layout, the read is over and no later
/// partition is asked for. What was noted for the partition before the read
/// still is. What is noted for every other partition is what is next for it. So
/// the next read asks for the one from the same offset again, and for those
/// before it from behind the records that they brought.
pub proof fn law_failed_read_loses_nothing(
    reader: ReaderView,
    events: Seq<ReadEvent>,
    malformed: Option<Seq<RecordView>>,
    other: i32,
)
    requires
        reader.fetching is None,
        went_well(reader, events),
        one_read(events),
        told_all(reader, events).fetching is Some,
        malformed matches Some(records) ==> held::accepted_all(
            told_all(reader, events).cuts,
            records,
        ).1 is Some,
    ensures
        ({
            let during = told_all(reader, events);
            let failed = after_failure(during, malformed);
            let partition = asks_for(during)->Some_0;
            let (index, offset) = during.fetching->Some_0;
            &&& failed.fetching is None
            &&& failed.partitions == during.partitions
            // A reader whose fetch failed is told nothing until the next read starts.
            &&& told(during, ReadEvent::Started) == told(
                ReaderView { fetching: None, ..during },
                ReadEvent::Started,
            )
            // Records that do not match the layout are answered with an error.
            &&& malformed matches Some(records) ==> reader::took_in(
                during,
                during.partitions->Some_0,
                index,
                offset,
                records,
            ).1 is Err
            &&& first_visit(during, partition) ==> noted(failed, partition) == noted(
                reader,
                partition,
            )
            &&& other != partition ==> noted(failed, other) == reader::offset_after(
                noted(reader, other),
                brought(reader, events, other),
            )
        }),
{
    let during = told_all(reader, events);
    let partition = asks_for(during)->Some_0;
    law_every_fetch_asks_for_what_is_next(reader, events, other);
    lemma_noted_until_left(reader, events, partition);
}

/// **The read after a failed one starts over.** In the read after a failed one,
/// a fetch of a partition of which nothing was brought yet asks for what was
/// noted for it when the failed read ended. Together with what a failed read
/// leaves noted, no record is skipped.
pub proof fn law_next_read_asks_for_what_was_noted(
    failed: ReaderView,
    events: Seq<ReadEvent>,
    partition: i32,
)
    requires
        failed.fetching is None,
        went_well(failed, events),
        brought(failed, events, partition).len() == 0,
        asks_for(told_all(failed, events)) == Some(partition),
    ensures
        told_all(failed, events).fetching->Some_0.1 == noted(failed, partition),
{
    law_every_fetch_asks_for_what_is_next(failed, events, partition);
}

} // verus!
