//! Reads published cuts from the internal `__barrier_state` topic.
//!
//! Fetching is asynchronous and belongs to the program around the library. A
//! [`CutReader`] says what to fetch next and takes in what came of it.

use vstd::prelude::*;
use vstd::string::StringExecFns;

use crate::barrier::cut::{BarrierCut, BARRIER_STATE_TOPIC};
use crate::barrier::held;
use crate::barrier::held::{CutsView, FetchedRec, HeldCuts, RecordView};
use crate::barrier::history;
use crate::collections::OrderedMap;
use crate::error::{ErrorView, StreamsClientError};

verus! {

/// Which records a fetch may return.
#[derive(Debug, Clone, Copy, PartialEq, Eq, Structural)]
pub enum IsolationLevel {
    /// Every record.
    ReadUncommitted,
    /// Only records of committed transactions.
    ReadCommitted,
}

/// What a reader needs next.
#[derive(Debug, Clone, Copy, PartialEq, Eq, Structural)]
pub enum CutAction {
    /// List the partitions of the topic.
    ListPartitions,
    /// Fetch the records of one partition from an offset on.
    Fetch {
        /// The partition.
        partition: i32,
        /// The first offset to fetch.
        offset: i64,
        /// Which records to fetch.
        isolation: IsolationLevel,
    },
    /// Nothing: every partition is read up to its end.
    CaughtUp,
}

/// Where in a read a reader is: the place of the partition in the list of
/// partitions, and the next offset to fetch.
#[derive(Debug, Clone, Copy)]
struct Fetching {
    index: usize,
    offset: i64,
}

/// Reads the cuts a barrier coordinator published to `__barrier_state`.
///
/// The reader asks for a manual read of every partition of the topic, so it
/// joins no consumer group. The first read starts at offset `0` of each
/// partition. A later read continues where the previous one stopped, so it costs
/// one fetch per partition of the records the coordinator published since.
///
/// The reader keeps complete cuts only. A partial cut names partitions that
/// never received the epoch's marker, so a task that waited for one would wait
/// forever. That is why the coordinator publishes partial cuts at all: a reader
/// skips the epoch instead of stalling on markers that never arrive.
#[derive(Debug)]
pub struct CutReader<F> {
    fetcher: F,
    topic: String,
    /// The partitions of the topic, discovered on the first read.
    partitions: Option<Vec<i32>>,
    /// The next offset to read in each partition.
    offsets: OrderedMap<i32, i64>,
    /// Complete cuts, as barrier group to epoch to cut.
    cuts: HeldCuts,
    fetching: Option<Fetching>,
}

/// What a reader knows.
#[verifier::ext_equal]
pub struct ReaderView {
    /// The topic it reads.
    pub topic: Seq<char>,
    /// The partitions of the topic, once they are listed.
    pub partitions: Option<Seq<i32>>,
    /// The next offset to read in each partition.
    pub offsets: Map<i32, i64>,
    /// The complete cuts.
    pub cuts: CutsView,
    /// The place of the partition that is being read, and the next offset to
    /// fetch.
    pub fetching: Option<(int, i64)>,
}

/// What a reader knows, and what it needs next, once it turns to the partition
/// at a place of the list.
pub open spec fn turned_to(reader: ReaderView, partitions: Seq<i32>, index: int) -> (
    ReaderView,
    CutAction,
) {
    if index < partitions.len() {
        let partition = partitions[index];
        let offset = if reader.offsets.dom().contains(partition) {
            reader.offsets[partition]
        } else {
            0
        };
        (
            ReaderView {
                offsets: reader.offsets.insert(partition, offset),
                fetching: Some((index, offset)),
                ..reader
            },
            CutAction::Fetch { partition, offset, isolation: IsolationLevel::ReadUncommitted },
        )
    } else {
        (ReaderView { fetching: None, ..reader }, CutAction::CaughtUp)
    }
}

/// The next offset to fetch after records.
pub open spec fn offset_after(offset: i64, records: Seq<RecordView>) -> i64
    decreases records.len(),
{
    if records.len() == 0 {
        offset
    } else {
        let before = offset_after(offset, records.drop_last());
        if records.last().offset + 1 > before {
            (records.last().offset + 1) as i64
        } else {
            before
        }
    }
}

/// What a reader knows, and what it answers, once it took in the records that
/// it asked for.
///
/// A record that does not match the layout ends the read. The records before it
/// stay applied, and the partition is read again from where the previous read
/// left it. Otherwise the reader goes on behind the last record. When no record
/// moved the offset, the partition is read up to its end.
pub open spec fn took_in(
    reader: ReaderView,
    partitions: Seq<i32>,
    index: int,
    offset: i64,
    records: Seq<RecordView>,
) -> (ReaderView, Result<CutAction, ErrorView>) {
    let (cuts, failure) = held::accepted_all(reader.cuts, records);
    let next = offset_after(offset, records);
    match failure {
        Some(error) => (ReaderView { cuts, fetching: None, ..reader }, Err(error)),
        None => if next > offset {
            (
                ReaderView { cuts, fetching: Some((index, next)), ..reader },
                Ok(
                    CutAction::Fetch {
                        partition: partitions[index],
                        offset: next,
                        isolation: IsolationLevel::ReadUncommitted,
                    },
                ),
            )
        } else {
            let done = ReaderView {
                cuts,
                offsets: reader.offsets.insert(partitions[index], offset),
                ..reader
            };
            let (after, action) = turned_to(done, partitions, index + 1);
            (after, Ok(action))
        },
    }
}

/// Whether the first `n` records all match the layout.
pub open spec fn match_up_to(records: Seq<RecordView>, n: int) -> bool {
    forall|i: int| 0 <= i < n ==> held::matches_layout(#[trigger] records[i])
}

/// Whether an offset follows each record that a reader applies: each one that
/// matches the layout, as all before it do.
pub open spec fn can_be_followed(records: Seq<RecordView>) -> bool {
    forall|i: int|
        0 <= i < records.len() && match_up_to(records, i + 1) ==> (#[trigger] records[i]).offset
            < i64::MAX
}

/// Whether a batch can be handed to [`CutReader::batch_fetched`]: an offset
/// follows each record in front of the first one that does not match the layout.
#[must_use]
pub fn offsets_can_follow(records: &[FetchedRec]) -> (follow: bool)
    ensures
        follow == can_be_followed(record_views(records@)),
{
    let ghost views = record_views(records@);
    let mut cuts = HeldCuts::new();
    let mut i: usize = 0;
    while i < records.len()
        invariant
            i <= records@.len(),
            views == record_views(records@),
            match_up_to(views, i as int),
            forall|j: int| 0 <= j < i ==> (#[trigger] views[j]).offset < i64::MAX,
        decreases records@.len() - i,
    {
        let ghost before = cuts@;
        let accepted = cuts.accept(&records[i]);
        proof {
            held::lemma_layout_decides(before, views[i as int]);
        }
        if accepted.is_err() {
            assert forall|j: int| 0 <= j < views.len() && match_up_to(views, j + 1) implies (
            #[trigger] views[j]).offset < i64::MAX by {
                if j >= i {
                    assert(held::matches_layout(views[i as int]));
                }
            }
            return true;
        }
        assert(match_up_to(views, i + 1));
        if records[i].offset == i64::MAX {
            assert(views[i as int].offset == i64::MAX);
            return false;
        }
        i = i + 1;
    }
    true
}

/// Applies records to the cuts held so far, and gives the next offset to fetch.
/// The first record that does not match the layout ends it.
fn apply(cuts: &mut HeldCuts, first: i64, records: &[FetchedRec]) -> (next: Result<
    i64,
    StreamsClientError,
>)
    requires
        can_be_followed(record_views(records@)),
    ensures
        ({
            let (after, failure) = held::accepted_all(old(cuts)@, record_views(records@));
            &&& final(cuts)@ == after
            &&& match failure {
                None => next matches Ok(offset) && offset == offset_after(
                    first,
                    record_views(records@),
                ) && offset >= first,
                Some(expected) => next matches Err(error) && error@ == expected,
            }
        }),
{
    let ghost views = record_views(records@);
    let ghost start = cuts@;
    let mut offset: i64 = first;
    let mut i: usize = 0;
    assert(views.take(0) =~= Seq::empty());
    while i < records.len()
        invariant
            i <= records@.len(),
            views == record_views(records@),
            start == old(cuts)@,
            can_be_followed(views),
            match_up_to(views, i as int),
            held::accepted_all(start, views.take(i as int)) == (cuts@, None::<ErrorView>),
            offset == offset_after(first, views.take(i as int)),
            offset >= first,
        decreases records@.len() - i,
    {
        proof {
            assert(views.take(i + 1).drop_last() =~= views.take(i as int));
            assert(views.take(i + 1).last() == views[i as int]);
            held::lemma_layout_decides(cuts@, views[i as int]);
        }
        if let Err(error) = cuts.accept(&records[i]) {
            proof {
                lemma_failure_stays(start, views, i + 1);
            }
            return Err(error);
        }
        assert(match_up_to(views, i + 1));
        assert(views[i as int].offset < i64::MAX);
        let next: i64 = records[i].offset + 1;
        if next > offset {
            offset = next;
        }
        i = i + 1;
    }
    assert(views.take(i as int) =~= views);
    Ok(offset)
}

/// The epochs above one, of the cuts of a group.
pub open spec fn epochs_after(cuts: CutsView, group: Seq<char>, epoch: int) -> Set<i64> {
    Set::new(|e: i64| held::held(cuts, group, e) && e > epoch)
}

/// Whether a list is in ascending order.
pub open spec fn ascends(list: Seq<i32>) -> bool {
    forall|i: int, j: int| 0 <= i <= j < list.len() ==> list[i] <= list[j]
}

/// `<[i32]>::sort_unstable` puts the numbers in ascending order and keeps each
/// of them.
#[verifier::external_body]
fn sort(list: &mut Vec<i32>)
    ensures
        ascends(final(list)@),
        final(list)@.to_multiset() == old(list)@.to_multiset(),
{
    list.sort_unstable()
}

/// Records taken by what they say.
pub open spec fn record_views(records: Seq<FetchedRec>) -> Seq<RecordView> {
    Seq::new(records.len(), |i: int| records[i]@)
}

impl<F> View for CutReader<F> {
    type V = ReaderView;

    closed spec fn view(&self) -> ReaderView {
        ReaderView {
            topic: self.topic@,
            partitions: match self.partitions {
                Some(partitions) => Some(partitions@),
                None => None,
            },
            offsets: self.offsets@,
            cuts: self.cuts@,
            fetching: match self.fetching {
                Some(fetching) => Some((fetching.index as int, fetching.offset)),
                None => None,
            },
        }
    }
}

impl<F> CutReader<F> {
    /// Whoever fetches for the reader.
    pub closed spec fn fetches_with(&self) -> F {
        self.fetcher
    }

    #[verifier::type_invariant]
    spec fn in_range(&self) -> bool {
        self.fetching matches Some(fetching) ==> (self.partitions matches Some(partitions)
            && fetching.index < partitions@.len())
    }

    /// Creates a reader over the `__barrier_state` topic.
    #[must_use]
    pub fn new(fetcher: F) -> (reader: Self)
        ensures
            reader.fetches_with() == fetcher,
            reader@ == (ReaderView {
                topic: BARRIER_STATE_TOPIC@,
                partitions: None,
                offsets: Map::empty(),
                cuts: Map::empty(),
                fetching: None,
            }),
    {
        CutReader::with_topic(fetcher, BARRIER_STATE_TOPIC)
    }

    /// Creates a reader over another topic than `__barrier_state`.
    #[must_use]
    pub fn with_topic(fetcher: F, topic: &str) -> (reader: Self)
        ensures
            reader.fetches_with() == fetcher,
            reader@ == (ReaderView {
                topic: topic@,
                partitions: None,
                offsets: Map::empty(),
                cuts: Map::empty(),
                fetching: None,
            }),
    {
        CutReader {
            fetcher,
            topic: String::from_str(topic),
            partitions: None,
            offsets: OrderedMap::new(),
            cuts: HeldCuts::new(),
            fetching: None,
        }
    }

    /// Whoever fetches for the reader.
    #[must_use]
    pub fn fetcher(&self) -> (fetcher: &F)
        ensures
            *fetcher == self.fetches_with(),
    {
        &self.fetcher
    }

    /// The topic that the reader reads.
    #[must_use]
    pub fn topic(&self) -> (topic: &str)
        ensures
            topic@ == self@.topic,
    {
        self.topic.as_str()
    }

    /// Starts a read of every partition of the topic up to its end.
    ///
    /// The first read needs the list of partitions. A later one resumes at the
    /// offset the previous one left.
    pub fn start_refresh(&mut self) -> (action: CutAction)
        ensures
            final(self).fetches_with() == old(self).fetches_with(),
            match old(self)@.partitions {
                None => action == CutAction::ListPartitions && final(self)@ == (ReaderView {
                    fetching: None,
                    ..old(self)@
                }),
                Some(partitions) => (final(self)@, action) == turned_to(
                    old(self)@,
                    partitions,
                    0,
                ),
            },
            final(self)@ == history::told(old(self)@, history::ReadEvent::Started),
            history::needed(old(self)@, history::ReadEvent::Started) == Some(action),
    {
        self.fetching = None;
        if self.partitions.is_none() {
            return CutAction::ListPartitions;
        }
        self.turn_to(0)
    }

    /// Takes in the partitions of the topic.
    pub fn partitions_listed(&mut self, partitions: Vec<i32>) -> (action: CutAction)
        ensures
            final(self).fetches_with() == old(self).fetches_with(),
            final(self)@.partitions matches Some(list) && {
                &&& ascends(list)
                &&& list.to_multiset() == partitions@.to_multiset()
                &&& (final(self)@, action) == turned_to(
                    (ReaderView { partitions: Some(list), ..old(self)@ }),
                    list,
                    0,
                )
                &&& final(self)@ == history::told(
                    old(self)@,
                    history::ReadEvent::Listed(list),
                )
                &&& history::needed(old(self)@, history::ReadEvent::Listed(list)) == Some(action)
            },
    {
        let mut list = partitions;
        sort(&mut list);
        self.fetching = None;
        self.partitions = Some(list);
        self.turn_to(0)
    }

    /// Turns to the partition at a place of the list.
    fn turn_to(&mut self, index: usize) -> (action: CutAction)
        requires
            old(self)@.partitions is Some,
            old(self)@.fetching is None,
        ensures
            final(self).fetches_with() == old(self).fetches_with(),
            (final(self)@, action) == turned_to(
                old(self)@,
                old(self)@.partitions->Some_0,
                index as int,
            ),
    {
        let partitions = self.partitions.as_ref().unwrap();
        if index >= partitions.len() {
            return CutAction::CaughtUp;
        }
        let partition: i32 = partitions[index];
        let ghost before = self.offsets@;
        let known: Option<i64> = match self.offsets.get(&partition) {
            Some(offset) => Some(*offset),
            None => None,
        };
        let offset: i64 = match known {
            Some(offset) => offset,
            None => {
                self.set_offset(partition, 0);
                0
            },
        };
        self.fetching = Some(Fetching { index, offset });
        assert(self.offsets@ =~= before.insert(partition, offset));
        CutAction::Fetch { partition, offset, isolation: IsolationLevel::ReadUncommitted }
    }

    /// Notes the next offset to read in a partition.
    fn set_offset(&mut self, partition: i32, offset: i64)
        requires
            old(self)@.fetching is None,
        ensures
            final(self).fetches_with() == old(self).fetches_with(),
            final(self)@ == (ReaderView {
                offsets: old(self)@.offsets.insert(partition, offset),
                ..old(self)@
            }),
            final(self).partitions == old(self).partitions,
    {
        let mut offsets: OrderedMap<i32, i64> = OrderedMap::new();
        std::mem::swap(&mut offsets, &mut self.offsets);
        offsets.insert(partition, offset);
        self.offsets = offsets;
    }

    /// Takes in the records that were fetched, and says what is needed next.
    ///
    /// The read of the partition goes on until a fetch brings no record that
    /// moves the offset, so a fetcher that replays one batch cannot make it
    /// spin.
    ///
    /// # Errors
    ///
    /// Returns [`StreamsClientError::BarrierFormat`] when a record does not
    /// match the layout.
    pub fn batch_fetched(&mut self, records: &[FetchedRec]) -> (action: Result<
        CutAction,
        StreamsClientError,
    >)
        requires
            old(self)@.fetching is Some,
            can_be_followed(record_views(records@)),
        ensures
            final(self).fetches_with() == old(self).fetches_with(),
            ({
                let (index, offset) = old(self)@.fetching->Some_0;
                let (after, answer) = took_in(
                    old(self)@,
                    old(self)@.partitions->Some_0,
                    index,
                    offset,
                    record_views(records@),
                );
                &&& final(self)@ == after
                &&& match answer {
                    Ok(expected) => action == Ok::<CutAction, StreamsClientError>(expected),
                    Err(expected) => action matches Err(error) && error@ == expected,
                }
            }),
            final(self)@ == history::told(
                old(self)@,
                history::ReadEvent::Fetched(record_views(records@)),
            ),
            history::needed(
                old(self)@,
                history::ReadEvent::Fetched(record_views(records@)),
            ) == (match action {
                Ok(action) => Some(action),
                Err(_) => None,
            }),
    {
        proof {
            use_type_invariant(&*self);
        }
        let fetching = self.fetching.unwrap();
        let index: usize = fetching.index;
        let first: i64 = fetching.offset;
        self.fetching = None;
        let partitions = self.partitions.as_ref().unwrap();
        let count: usize = partitions.len();
        let partition: i32 = partitions[index];
        let behind: usize = index + 1;
        let mut cuts = HeldCuts::new();
        std::mem::swap(&mut cuts, &mut self.cuts);
        let applied = apply(&mut cuts, first, records);
        self.cuts = cuts;
        let offset: i64 = match applied {
            Ok(offset) => offset,
            Err(error) => return Err(error),
        };
        if offset > first {
            self.fetching = Some(Fetching { index, offset });
            return Ok(
                CutAction::Fetch { partition, offset, isolation: IsolationLevel::ReadUncommitted },
            );
        }
        self.set_offset(partition, offset);
        Ok(self.turn_to(behind))
    }

    /// The complete cut of a barrier group with the highest epoch, of those read
    /// so far.
    ///
    /// The result is `None` when the topic holds no complete cut of that group.
    #[must_use]
    pub fn latest_complete_cut(&self, group: &str) -> (latest: Option<BarrierCut>)
        ensures
            match latest {
                Some(cut) => {
                    &&& held::held(self@.cuts, group@, cut@.epoch)
                    &&& cut@ == self@.cuts[group@][cut@.epoch]
                    &&& forall|epoch: i64| #[trigger]
                        held::held(self@.cuts, group@, epoch) ==> epoch <= cut@.epoch
                    &&& cut@.is_complete()
                    &&& cut@.group == group@
                },
                None => forall|epoch: i64| !held::held(self@.cuts, group@, epoch),
            },
    {
        self.cuts.latest(group)
    }

    /// The complete cuts of a barrier group above `epoch`, oldest first, of
    /// those read so far.
    ///
    /// Pass `-1` to get every complete cut. Partial cuts are left out.
    #[must_use]
    pub fn complete_cuts_after(&self, group: &str, epoch: i64) -> (cuts: Vec<BarrierCut>)
        ensures
            forall|i: int, j: int|
                0 <= i < j < cuts@.len() ==> (#[trigger] cuts@[i])@.epoch < (#[trigger] cuts@[j])@.epoch,
            forall|i: int|
                0 <= i < cuts@.len() ==> {
                    let cut = (#[trigger] cuts@[i])@;
                    &&& epochs_after(self@.cuts, group@, epoch as int).contains(cut.epoch)
                    &&& cut == self@.cuts[group@][cut.epoch]
                    &&& cut.is_complete()
                    &&& cut.group == group@
                },
            forall|e: i64| #[trigger]
                epochs_after(self@.cuts, group@, epoch as int).contains(e) ==> exists|i: int|
                    0 <= i < cuts@.len() && (#[trigger] cuts@[i])@.epoch == e,
            forall|i: int|
                0 <= i < cuts@.len() ==> {
                    let found = (#[trigger] cuts@[i])@.epoch;
                    &&& self@.cuts.dom().contains(group@)
                    &&& self@.cuts[group@].dom().contains(found)
                    &&& found > epoch
                },
            forall|e: i64|
                self@.cuts.dom().contains(group@) && #[trigger] self@.cuts[group@].dom().contains(e)
                    && e > epoch ==> exists|i: int|
                    0 <= i < cuts@.len() && (#[trigger] cuts@[i])@.epoch == e,
    {
        if epoch == i64::MAX {
            // No epoch lies above the largest one.
            return Vec::new();
        }
        let cuts = self.cuts.from_epoch(group, epoch + 1);
        assert forall|e: i64| #[trigger]
            epochs_after(self@.cuts, group@, epoch as int).contains(e) implies exists|i: int|
            0 <= i < cuts@.len() && (#[trigger] cuts@[i])@.epoch == e by {
            assert(held::held(self@.cuts, group@, e) && e >= epoch + 1);
        }
        assert forall|e: i64|
            self@.cuts.dom().contains(group@) && #[trigger] self@.cuts[group@].dom().contains(e) && e
                > epoch implies exists|i: int|
            0 <= i < cuts@.len() && (#[trigger] cuts@[i])@.epoch == e by {
            assert(epochs_after(self@.cuts, group@, epoch as int).contains(e));
        }
        cuts
    }

    /// The complete cut of one epoch, or `None` when the records read so far
    /// hold no such cut.
    #[must_use]
    pub fn complete_cut_at(&self, group: &str, epoch: i64) -> (found: Option<BarrierCut>)
        ensures
            match found {
                Some(cut) => {
                    &&& held::held(self@.cuts, group@, epoch)
                    &&& cut@ == self@.cuts[group@][epoch]
                    &&& cut@.is_complete()
                    &&& cut@.group == group@
                    &&& cut@.epoch == epoch
                },
                None => !held::held(self@.cuts, group@, epoch),
            },
    {
        self.cuts.at(group, epoch)
    }
}

/// A run of records that stops stays stopped when it is made longer.
proof fn lemma_failure_stays(cuts: CutsView, records: Seq<RecordView>, n: int)
    requires
        0 <= n <= records.len(),
        held::accepted_all(cuts, records.take(n)).1 is Some,
    ensures
        held::accepted_all(cuts, records) == held::accepted_all(cuts, records.take(n)),
    decreases records.len(),
{
    if n < records.len() {
        assert(records.drop_last().take(n) =~= records.take(n));
        lemma_failure_stays(cuts, records.drop_last(), n);
    } else {
        assert(records.take(n) =~= records);
    }
}

/// No record moves the next offset to fetch back.
pub proof fn lemma_offset_never_falls(offset: i64, records: Seq<RecordView>)
    requires
        forall|i: int| 0 <= i < records.len() ==> (#[trigger] records[i]).offset < i64::MAX,
    ensures
        offset_after(offset, records) >= offset,
    decreases records.len(),
{
    if records.len() > 0 {
        assert forall|i: int| 0 <= i < records.drop_last().len() implies (
        #[trigger] records.drop_last()[i]).offset < i64::MAX by {
            assert(records.drop_last()[i] == records[i]);
        }
        lemma_offset_never_falls(offset, records.drop_last());
        assert(records[records.len() - 1].offset < i64::MAX);
    }
}

/// Whether a read only ever goes forward: the partition that is being read is
/// one of the list, and its next fetch is not behind what was noted for it.
pub open spec fn goes_forward(reader: ReaderView) -> bool {
    reader.fetching matches Some((index, offset)) ==> {
        &&& reader.partitions matches Some(partitions) && 0 <= index < partitions.len() && {
            &&& reader.offsets.dom().contains(partitions[index])
            &&& reader.offsets[partitions[index]] <= offset
        }
    }
}

/// Whether no noted offset falls from one state of a reader to another.
pub open spec fn offsets_rise(before: ReaderView, after: ReaderView) -> bool {
    forall|partition: i32| #[trigger]
        before.offsets.dom().contains(partition) ==> after.offsets.dom().contains(partition)
            && after.offsets[partition] >= before.offsets[partition]
}

/// **A read goes forward.** After a batch that moves the offset, the reader
/// fetches the same partition behind it. After any other batch it turns to the
/// next partition, or has read the last one. No noted offset falls.
pub proof fn law_read_goes_forward(reader: ReaderView, records: Seq<RecordView>)
    requires
        reader.fetching is Some,
        goes_forward(reader),
        can_be_followed(records),
    ensures
        ({
            let partitions = reader.partitions->Some_0;
            let (index, offset) = reader.fetching->Some_0;
            let (after, answer) = took_in(reader, partitions, index, offset, records);
            &&& goes_forward(after)
            &&& offsets_rise(reader, after)
            &&& answer matches Ok(action) ==> match action {
                CutAction::Fetch { partition, offset: next, isolation } => after.fetching matches Some(
                    (place, fetch),
                ) && {
                    &&& isolation == IsolationLevel::ReadUncommitted
                    &&& 0 <= place < partitions.len()
                    &&& partition == partitions[place]
                    &&& fetch == next
                    &&& if offset_after(offset, records) > offset {
                        place == index && next == offset_after(offset, records)
                    } else {
                        place == index + 1
                    }
                },
                CutAction::CaughtUp => {
                    &&& after.fetching is None
                    &&& index + 1 == partitions.len()
                    &&& offset_after(offset, records) == offset
                },
                CutAction::ListPartitions => false,
            }
        }),
{
    let (index, offset) = reader.fetching->Some_0;
    if held::accepted_all(reader.cuts, records).1 is None {
        held::lemma_accepted_records_match(reader.cuts, records);
        assert forall|i: int| 0 <= i < records.len() implies (#[trigger] records[i]).offset
            < i64::MAX by {
            assert(match_up_to(records, i + 1));
        }
        lemma_offset_never_falls(offset, records);
    }
}

/// **A replayed batch cannot spin.** When no record stands at the offset that
/// was fetched or behind it, the reader notes the offset and leaves the
/// partition.
pub proof fn law_replayed_batch_ends_the_partition(reader: ReaderView, records: Seq<RecordView>)
    requires
        reader.fetching is Some,
        goes_forward(reader),
        held::accepted_all(reader.cuts, records).1 is None,
        forall|i: int|
            0 <= i < records.len() ==> (#[trigger] records[i]).offset
                < reader.fetching->Some_0.1,
    ensures
        ({
            let partitions = reader.partitions->Some_0;
            let (index, offset) = reader.fetching->Some_0;
            let (after, answer) = took_in(reader, partitions, index, offset, records);
            &&& answer is Ok
            &&& after.offsets.dom().contains(partitions[index])
            &&& after.offsets[partitions[index]] == offset
            &&& after.fetching matches Some((place, _)) ==> place > index
        }),
{
    let (index, offset) = reader.fetching->Some_0;
    lemma_no_progress(offset, records);
}

proof fn lemma_no_progress(offset: i64, records: Seq<RecordView>)
    requires
        forall|i: int| 0 <= i < records.len() ==> (#[trigger] records[i]).offset < offset,
    ensures
        offset_after(offset, records) == offset,
    decreases records.len(),
{
    if records.len() > 0 {
        assert forall|i: int| 0 <= i < records.drop_last().len() implies (
        #[trigger] records.drop_last()[i]).offset < offset by {
            assert(records.drop_last()[i] == records[i]);
        }
        lemma_no_progress(offset, records.drop_last());
        assert(records[records.len() - 1].offset < offset);
    }
}

/// **A failed read is read again.** A record that does not match the layout
/// leaves every noted offset as it was, so the next read fetches the partition
/// from the same place.
pub proof fn law_failed_read_is_read_again(reader: ReaderView, records: Seq<RecordView>)
    requires
        reader.fetching is Some,
        held::accepted_all(reader.cuts, records).1 is Some,
    ensures
        ({
            let (index, offset) = reader.fetching->Some_0;
            let (after, answer) = took_in(
                reader,
                reader.partitions->Some_0,
                index,
                offset,
                records,
            );
            &&& answer is Err
            &&& after.offsets == reader.offsets
            &&& after.fetching is None
        }),
{
}

/// **A later read resumes.** A read starts each partition at the offset that was
/// noted for it, and at `0` when none was.
pub proof fn law_read_resumes_at_the_noted_offset(
    reader: ReaderView,
    partitions: Seq<i32>,
    index: int,
)
    requires
        0 <= index < partitions.len(),
    ensures
        turned_to(reader, partitions, index).1 == (CutAction::Fetch {
            partition: partitions[index],
            offset: if reader.offsets.dom().contains(partitions[index]) {
                reader.offsets[partitions[index]]
            } else {
                0
            },
            isolation: IsolationLevel::ReadUncommitted,
        }),
        turned_to(reader, partitions, index).0.cuts == reader.cuts,
        reader.partitions == Some(partitions) ==> goes_forward(
            turned_to(reader, partitions, index).0,
        ),
{
}

/// What a reader knows once it took in batch after batch, as long as it asked
/// for one.
pub open spec fn read_on(reader: ReaderView, batches: Seq<Seq<RecordView>>) -> ReaderView
    decreases batches.len(),
{
    if batches.len() == 0 {
        reader
    } else {
        let before = read_on(reader, batches.drop_last());
        match before.fetching {
            None => before,
            Some((index, offset)) => took_in(
                before,
                before.partitions->Some_0,
                index,
                offset,
                batches.last(),
            ).0,
        }
    }
}

/// The records of batch after batch.
pub open spec fn joined(batches: Seq<Seq<RecordView>>) -> Seq<RecordView>
    decreases batches.len(),
{
    if batches.len() == 0 {
        Seq::empty()
    } else {
        joined(batches.drop_last()) + batches.last()
    }
}

/// Whether every partition up to the one that is being read has an offset noted
/// for it, or every partition of the list once the read is over.
pub open spec fn covers(reader: ReaderView, partitions: Seq<i32>) -> bool {
    let upto = match reader.fetching {
        Some((index, _)) => index + 1,
        None => partitions.len() as int,
    };
    forall|i: int|
        0 <= i < upto && i < partitions.len() ==> reader.offsets.dom().contains(
            #[trigger] partitions[i],
        )
}

/// **A read covers the topic.** A read that starts at the first partition, and
/// whose records all match the layout, holds what all of its records together
/// make of the cuts. Once it is over, every partition has been read. No noted
/// offset falls.
#[verifier::spinoff_prover]
#[verifier::rlimit(30)]
pub proof fn law_read_covers_the_topic(
    reader: ReaderView,
    partitions: Seq<i32>,
    batches: Seq<Seq<RecordView>>,
)
    requires
        reader.partitions == Some(partitions),
        held::accepted_all(reader.cuts, joined(batches)).1 is None,
        forall|i: int|
            0 <= i < joined(batches).len() ==> (#[trigger] joined(batches)[i]).offset < i64::MAX,
        forall|n: int|
            0 <= n < batches.len() ==> (#[trigger] read_on(
                turned_to(reader, partitions, 0).0,
                batches.take(n),
            )).fetching is Some,
    ensures
        ({
            let after = read_on(turned_to(reader, partitions, 0).0, batches);
            &&& after.partitions == Some(partitions)
            &&& after.cuts == held::accepted_all(reader.cuts, joined(batches)).0
            &&& covers(after, partitions)
            &&& goes_forward(after)
            &&& offsets_rise(reader, after)
        }),
    decreases batches.len(),
{
    let start = turned_to(reader, partitions, 0).0;
    if batches.len() > 0 {
        let heads = batches.drop_last();
        let last = batches.last();
        let all = joined(batches);
        assert(all.take(joined(heads).len() as int) =~= joined(heads));
        assert(held::accepted_all(reader.cuts, joined(heads)).1 is None) by {
            if held::accepted_all(reader.cuts, joined(heads)).1 is Some {
                lemma_failure_stays(reader.cuts, all, joined(heads).len() as int);
            }
        }
        assert forall|i: int| 0 <= i < joined(heads).len() implies (
        #[trigger] joined(heads)[i]).offset < i64::MAX by {
            assert(joined(heads)[i] == all[i]);
        }
        assert forall|n: int| 0 <= n < heads.len() implies (#[trigger] read_on(
            start,
            heads.take(n),
        )).fetching is Some by {
            assert(heads.take(n) =~= batches.take(n));
            assert(read_on(start, batches.take(n)).fetching is Some);
        }
        law_read_covers_the_topic(reader, partitions, heads);
        let before = read_on(start, heads);
        assert(heads =~= batches.take(batches.len() - 1));
        assert(read_on(start, batches.take(batches.len() - 1)).fetching is Some);
        assert forall|i: int| 0 <= i < last.len() implies (#[trigger] last[i]).offset < i64::MAX by {
            assert(last[i] == all[joined(heads).len() + i]);
        }
        held::law_reading_resumes(reader.cuts, joined(heads), last);
        law_read_goes_forward(before, last);
        lemma_batch_covers(before, partitions, last);
    }
}

/// A batch keeps a read covering what it passed.
proof fn lemma_batch_covers(reader: ReaderView, partitions: Seq<i32>, records: Seq<RecordView>)
    requires
        reader.partitions == Some(partitions),
        reader.fetching is Some,
        goes_forward(reader),
        covers(reader, partitions),
        held::accepted_all(reader.cuts, records).1 is None,
        forall|i: int| 0 <= i < records.len() ==> (#[trigger] records[i]).offset < i64::MAX,
    ensures
        ({
            let (index, offset) = reader.fetching->Some_0;
            covers(took_in(reader, partitions, index, offset, records).0, partitions)
        }),
{
    let (index, offset) = reader.fetching->Some_0;
    let after = took_in(reader, partitions, index, offset, records).0;
    lemma_offset_never_falls(offset, records);
    assert forall|i: int|
        0 <= i < partitions.len() && (after.fetching matches Some((place, _)) ==> i < place
            + 1) implies after.offsets.dom().contains(#[trigger] partitions[i]) by {
        if i <= index {
            assert(reader.offsets.dom().contains(partitions[i]));
        }
    }
}

/// **`-1` asks for every cut.** When no epoch of a group is negative, the epochs
/// above `-1` are all the epochs that are held.
pub proof fn law_minus_one_asks_for_every_cut(cuts: CutsView, group: Seq<char>)
    requires
        cuts.dom().contains(group),
        forall|epoch: i64| #[trigger] held::held(cuts, group, epoch) ==> epoch >= 0,
    ensures
        epochs_after(cuts, group, -1) == cuts[group].dom(),
{
    assert forall|epoch: i64|
        epochs_after(cuts, group, -1).contains(epoch) <==> cuts[group].dom().contains(epoch) by {
        if cuts[group].dom().contains(epoch) {
            assert(held::held(cuts, group, epoch));
        }
    }
    assert(epochs_after(cuts, group, -1) =~= cuts[group].dom());
}

} // verus!
