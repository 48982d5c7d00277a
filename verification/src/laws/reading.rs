//! What a reader asks for, and what it answers.

use vstd::prelude::*;

use crate::barrier::held;
use crate::barrier::held::{CutsView, FetchedRec, RecordView};
use crate::barrier::history;
use crate::barrier::reader;
use crate::barrier::reader::{CutAction, IsolationLevel, ReaderView};
use crate::error::ErrorView;
use crate::laws::cuts;

verus! {

/// **The cuts above a bound are the held ones whose epoch is larger**, for every
/// bound. So a higher bound leaves out exactly the epochs up to it.
pub proof fn law_cuts_above_a_bound(
    cuts: CutsView,
    group: Seq<char>,
    bound: int,
    higher: int,
    e: i64,
)
    ensures
        reader::epochs_after(cuts, group, bound).contains(e) <==> cuts.dom().contains(group)
            && cuts[group].dom().contains(e) && e as int > bound,
        held::held(cuts, group, e) <==> cuts.dom().contains(group) && cuts[group].dom().contains(e),
        bound <= higher ==> (reader::epochs_after(cuts, group, higher).contains(e) <==> (
        reader::epochs_after(cuts, group, bound).contains(e) && e as int > higher)),
{
}

/// **A reader turns to each partition of the list in turn.** It fetches from the
/// offset that is noted, or from `0`, and notes where it starts. Behind the last
/// partition it needs nothing more. Nothing else changes.
pub proof fn law_reader_turns_to_a_partition(
    before: ReaderView,
    partitions: Seq<i32>,
    index: int,
    q: i32,
)
    requires
        0 <= index,
    ensures
        ({
            let (after, action) = reader::turned_to(before, partitions, index);
            &&& after.topic == before.topic
            &&& after.partitions == before.partitions
            &&& after.cuts == before.cuts
            &&& index < partitions.len() ==> {
                let p = partitions[index];
                &&& after.offsets.dom().contains(p)
                &&& after.fetching == Some((index, after.offsets[p]))
                &&& action == (CutAction::Fetch {
                    partition: p,
                    offset: after.offsets[p],
                    isolation: IsolationLevel::ReadUncommitted,
                })
                &&& before.offsets.dom().contains(p) ==> after.offsets[p] == before.offsets[p]
                &&& !before.offsets.dom().contains(p) ==> after.offsets[p] == 0
                &&& q != p ==> (after.offsets.dom().contains(q) <==> before.offsets.dom().contains(
                    q,
                ))
                &&& q != p && before.offsets.dom().contains(q) ==> after.offsets[q]
                    == before.offsets[q]
            }
            &&& index >= partitions.len() ==> {
                &&& action == CutAction::CaughtUp
                &&& after.fetching is None
                &&& after.offsets == before.offsets
            }
        }),
{
}

/// **A batch that cannot be read ends the read.** The records in front of the
/// malformed one stay applied, its fault is the answer, and every noted offset
/// stays.
pub proof fn law_malformed_batch_ends_the_read(
    before: ReaderView,
    partitions: Seq<i32>,
    index: int,
    offset: i64,
    records: Seq<RecordView>,
    n: int,
)
    requires
        0 <= n < records.len(),
        forall|i: int| 0 <= i < n ==> cuts::well_formed(#[trigger] records[i]),
        !cuts::well_formed(records[n]),
    ensures
        ({
            let (after, answer) = reader::took_in(before, partitions, index, offset, records);
            &&& after.topic == before.topic
            &&& after.partitions == before.partitions
            &&& after.offsets == before.offsets
            &&& after.fetching is None
            &&& after.cuts == held::accepted_all(before.cuts, records.take(n)).0
            &&& held::accepted(before.cuts, records[n]) matches Err(error) && answer == Err::<
                CutAction,
                ErrorView,
            >(error)
        }),
{
    cuts::law_first_malformed_record_stops_a_run(before.cuts, records, n);
}

/// **A batch that moves the offset is followed by a fetch behind it.** The next
/// fetch of the partition starts one past the highest offset of the batch, and
/// no offset is noted yet.
pub proof fn law_batch_is_followed_by_the_next(
    before: ReaderView,
    partitions: Seq<i32>,
    index: int,
    offset: i64,
    records: Seq<RecordView>,
    top: int,
)
    requires
        0 <= top < records.len(),
        offset <= records[top].offset < i64::MAX,
        forall|i: int| 0 <= i < records.len() ==> cuts::well_formed(#[trigger] records[i]),
        forall|i: int|
            0 <= i < records.len() ==> (#[trigger] records[i]).offset <= records[top].offset,
    ensures
        ({
            let (after, answer) = reader::took_in(before, partitions, index, offset, records);
            &&& after.topic == before.topic
            &&& after.partitions == before.partitions
            &&& after.offsets == before.offsets
            &&& after.cuts == held::accepted_all(before.cuts, records).0
            &&& after.fetching == Some((index, (records[top].offset + 1) as i64))
            &&& answer == Ok::<CutAction, ErrorView>(
                CutAction::Fetch {
                    partition: partitions[index],
                    offset: (records[top].offset + 1) as i64,
                    isolation: IsolationLevel::ReadUncommitted,
                },
            )
        }),
{
    cuts::law_first_malformed_record_stops_a_run(before.cuts, records, records.len() as int);
    history::law_next_offset_is_one_past_the_highest(offset, records);
    assert(reader::offset_after(offset, records) >= records[top].offset + 1);
    if reader::offset_after(offset, records) != records[top].offset + 1 {
        let i = choose|i: int|
            0 <= i < records.len() && reader::offset_after(offset, records) == (
            #[trigger] records[i]).offset + 1;
        assert(records[i].offset <= records[top].offset);
    }
}

/// **A batch that moves nothing ends the partition.** The offset is noted, and
/// the reader turns to the partition behind it on the list.
pub proof fn law_batch_that_moves_nothing_ends_the_partition(
    before: ReaderView,
    partitions: Seq<i32>,
    index: int,
    offset: i64,
    records: Seq<RecordView>,
    q: i32,
)
    requires
        0 <= index < partitions.len(),
        forall|i: int| 0 <= i < records.len() ==> cuts::well_formed(#[trigger] records[i]),
        forall|i: int| 0 <= i < records.len() ==> (#[trigger] records[i]).offset < offset,
    ensures
        ({
            let (after, answer) = reader::took_in(before, partitions, index, offset, records);
            let p = partitions[index];
            let next = partitions[index + 1];
            let last = index + 1 == partitions.len();
            let resumed = if next == p {
                offset
            } else if before.offsets.dom().contains(next) {
                before.offsets[next]
            } else {
                0
            };
            &&& after.topic == before.topic
            &&& after.partitions == before.partitions
            &&& after.cuts == held::accepted_all(before.cuts, records).0
            &&& after.offsets.dom().contains(p)
            &&& after.offsets[p] == offset
            &&& q != p && (last || q != next) ==> (after.offsets.dom().contains(q)
                <==> before.offsets.dom().contains(q))
            &&& q != p && before.offsets.dom().contains(q) ==> after.offsets[q]
                == before.offsets[q]
            &&& last ==> after.fetching is None && answer == Ok::<CutAction, ErrorView>(
                CutAction::CaughtUp,
            )
            &&& !last ==> {
                &&& after.fetching == Some((index + 1, resumed))
                &&& after.offsets.dom().contains(next)
                &&& after.offsets[next] == resumed
                &&& answer == Ok::<CutAction, ErrorView>(
                    CutAction::Fetch {
                        partition: next,
                        offset: resumed,
                        isolation: IsolationLevel::ReadUncommitted,
                    },
                )
            }
        }),
{
    cuts::law_first_malformed_record_stops_a_run(before.cuts, records, records.len() as int);
    assert forall|i: int| 0 <= i < records.len() implies (#[trigger] records[i]).offset
        < i64::MAX by {
        assert(records[i].offset < offset);
    }
    history::law_next_offset_is_one_past_the_highest(offset, records);
    if reader::offset_after(offset, records) != offset {
        let i = choose|i: int|
            0 <= i < records.len() && reader::offset_after(offset, records) == (
            #[trigger] records[i]).offset + 1;
        assert(records[i].offset < offset);
    }
}

/// **A batch can be taken in exactly when an offset follows each record that is
/// applied**: each one that is well formed, as all in front of it are.
pub proof fn law_batches_that_can_be_taken_in(records: Seq<RecordView>)
    ensures
        reader::can_be_followed(records) <==> forall|i: int|
            0 <= i < records.len() && (forall|j: int|
                0 <= j <= i ==> cuts::well_formed(#[trigger] records[j])) ==> (
            #[trigger] records[i]).offset < i64::MAX,
{
    assert forall|i: int| 0 <= i < records.len() implies (#[trigger] reader::match_up_to(
        records,
        i + 1,
    ) <==> forall|j: int| 0 <= j <= i ==> cuts::well_formed(#[trigger] records[j])) by {
        if reader::match_up_to(records, i + 1) {
            assert forall|j: int| 0 <= j <= i implies cuts::well_formed(#[trigger] records[j]) by {
                cuts::law_well_formed_records_are_applied(Map::empty(), records[j]);
                assert(held::matches_layout(records[j]));
            }
        }
        if forall|j: int| 0 <= j <= i ==> cuts::well_formed(#[trigger] records[j]) {
            assert forall|j: int| 0 <= j < i + 1 implies held::matches_layout(
                #[trigger] records[j],
            ) by {
                cuts::law_well_formed_records_are_applied(Map::empty(), records[j]);
                assert(cuts::well_formed(records[j]));
            }
        }
    }
    if reader::can_be_followed(records) {
        assert forall|i: int|
            0 <= i < records.len() && (forall|j: int|
                0 <= j <= i ==> cuts::well_formed(#[trigger] records[j])) implies (
        #[trigger] records[i]).offset < i64::MAX by {
            assert(reader::match_up_to(records, i + 1));
        }
    }
    if forall|i: int|
        0 <= i < records.len() && (forall|j: int|
            0 <= j <= i ==> cuts::well_formed(#[trigger] records[j])) ==> (
        #[trigger] records[i]).offset < i64::MAX {
        assert forall|i: int|
            0 <= i < records.len() && reader::match_up_to(records, i + 1) implies (
        #[trigger] records[i]).offset < i64::MAX by {
            assert(forall|j: int| 0 <= j <= i ==> cuts::well_formed(#[trigger] records[j]));
        }
    }
}

/// **Partitions are read in ascending order, and records are taken as they
/// are.**
pub proof fn law_lists_are_taken_in_order(list: Seq<i32>, fetched: Seq<FetchedRec>, i: int, j: int)
    requires
        0 <= i <= j,
    ensures
        reader::ascends(list) && j < list.len() ==> list[i] as int <= list[j] as int,
        reader::record_views(fetched).len() == fetched.len(),
        j < fetched.len() ==> reader::record_views(fetched)[j] == fetched[j]@,
{
}

} // verus!
