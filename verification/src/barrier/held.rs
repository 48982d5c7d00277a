//! The complete cuts that were read, by barrier group and epoch.

use bytes::Bytes;
use vstd::prelude::*;
use vstd::string::StringExecFns;

use crate::barrier::cut;
use crate::barrier::cut::{BarrierCut, CutView};
use crate::barrier::record;
use crate::barrier::record::{CUT_KIND, KEY_PART, VALUE_PART};
use crate::buffer;
use crate::collections::ordered_map;
use crate::collections::{OrderedKey, OrderedMap};
use crate::error::{ErrorView, StreamsClientError};

verus! {

/// One record that was fetched from a topic.
#[derive(Debug, PartialEq, Eq)]
pub struct FetchedRec {
    /// The offset of the record in its partition.
    pub offset: i64,
    /// The key, if the record has one.
    pub key: Option<Bytes>,
    /// The value, or `None` for a tombstone.
    pub value: Option<Bytes>,
    /// The timestamp of the record, in milliseconds since the Unix epoch.
    pub timestamp: i64,
}

/// What a fetched record says.
pub struct RecordView {
    pub offset: i64,
    pub key: Option<Seq<u8>>,
    pub value: Option<Seq<u8>>,
    pub timestamp: i64,
}

/// The contents of a byte string that may be absent.
pub open spec fn optional_contents(b: Option<Bytes>) -> Option<Seq<u8>> {
    match b {
        Some(b) => Some(buffer::contents(b)),
        None => None,
    }
}

impl View for FetchedRec {
    type V = RecordView;

    open spec fn view(&self) -> RecordView {
        RecordView {
            offset: self.offset,
            key: optional_contents(self.key),
            value: optional_contents(self.value),
            timestamp: self.timestamp,
        }
    }
}

/// Complete cuts, as barrier group to epoch to cut.
pub type CutsView = Map<Seq<char>, Map<i64, CutView>>;

/// Whether cuts hold one of a group at an epoch.
pub open spec fn held(cuts: CutsView, group: Seq<char>, epoch: i64) -> bool {
    cuts.dom().contains(group) && cuts[group].dom().contains(epoch)
}

/// Cuts without the one of a group at an epoch.
pub open spec fn without(cuts: CutsView, group: Seq<char>, epoch: i64) -> CutsView {
    if cuts.dom().contains(group) {
        cuts.insert(group, cuts[group].remove(epoch))
    } else {
        cuts
    }
}

/// Cuts with one more, under its own group and epoch.
pub open spec fn with(cuts: CutsView, cut: CutView) -> CutsView {
    let of_group = if cuts.dom().contains(cut.group) {
        cuts[cut.group]
    } else {
        Map::empty()
    };
    cuts.insert(cut.group, of_group.insert(cut.epoch, cut))
}

/// What a record of the barrier state topic makes of the cuts held so far.
///
/// A record without a key, or of another kind than a cut, changes nothing. A
/// tombstone and a partial cut both drop the epoch. An empty value is a
/// tombstone.
pub open spec fn accepted(cuts: CutsView, record: RecordView) -> Result<CutsView, ErrorView> {
    match record.key {
        None => Ok(cuts),
        Some(key) => match record::parse_key(key) {
            Err(fault) => Err(record::fault_error(KEY_PART@, fault)),
            Ok(key) => if key.kind != CUT_KIND {
                Ok(cuts)
            } else {
                match record.value {
                    None => Ok(without(cuts, key.group, key.epoch)),
                    Some(value) => if value.len() == 0 {
                        Ok(without(cuts, key.group, key.epoch))
                    } else {
                        match record::parse_cut(value) {
                            Err(fault) => Err(record::fault_error(VALUE_PART@, fault)),
                            Ok(fields) => {
                                let cut = cut::cut_of(key, fields);
                                if cut.is_complete() {
                                    Ok(with(cuts, cut))
                                } else {
                                    Ok(without(cuts, key.group, key.epoch))
                                }
                            },
                        }
                    },
                }
            },
        },
    }
}

/// Whether every cut is complete, misses no partition, and stands under its own
/// group and epoch.
pub open spec fn well_kept(cuts: CutsView) -> bool {
    forall|group: Seq<char>, epoch: i64| #[trigger]
        held(cuts, group, epoch) ==> {
            let cut = cuts[group][epoch];
            &&& cut.is_complete()
            &&& cut.missing == Set::<(Seq<char>, i32)>::empty()
            &&& cut.group == group
            &&& cut.epoch == epoch
        }
}

/// The cuts of one group, each taken by what it says.
pub open spec fn cut_views(cuts: Map<i64, BarrierCut>) -> Map<i64, CutView> {
    cuts.map_values(|cut: BarrierCut| cut@)
}

/// The cuts of every group, each taken by what it says.
pub open spec fn group_views(groups: Map<Seq<char>, OrderedMap<i64, BarrierCut>>) -> CutsView {
    groups.map_values(|cuts: OrderedMap<i64, BarrierCut>| cut_views(cuts@))
}

/// The complete cuts that were read from the barrier state topic.
#[derive(Debug)]
pub struct HeldCuts {
    groups: OrderedMap<String, OrderedMap<i64, BarrierCut>>,
}

impl View for HeldCuts {
    type V = CutsView;

    closed spec fn view(&self) -> CutsView {
        group_views(self.groups@)
    }
}

impl HeldCuts {
    #[verifier::type_invariant]
    spec fn kept(&self) -> bool {
        well_kept(group_views(self.groups@))
    }

    /// No cut.
    pub fn new() -> (cuts: Self)
        ensures
            cuts@ == Map::<Seq<char>, Map<i64, CutView>>::empty(),
    {
        let groups: OrderedMap<String, OrderedMap<i64, BarrierCut>> = OrderedMap::new();
        assert(group_views(groups@) =~= Map::<Seq<char>, Map<i64, CutView>>::empty());
        HeldCuts { groups }
    }

    /// Drops the cut of a group at an epoch.
    pub fn forget(&mut self, group: &str, epoch: i64)
        ensures
            final(self)@ == without(old(self)@, group@, epoch),
    {
        proof {
            use_type_invariant(&*self);
        }
        let ghost before = self@;
        let mut groups: OrderedMap<String, OrderedMap<i64, BarrierCut>> = OrderedMap::new();
        assert(group_views(groups@) =~= Map::<Seq<char>, Map<i64, CutView>>::empty());
        std::mem::swap(&mut groups, &mut self.groups);
        let taken = groups.remove(group);
        if let Some(mut by_epoch) = taken {
            let ghost all = cut_views(by_epoch@);
            by_epoch.remove(&epoch);
            assert(cut_views(by_epoch@) =~= all.remove(epoch));
            groups.insert(String::from_str(group), by_epoch);
            assert(group_views(groups@) =~= before.insert(group@, all.remove(epoch)));
        } else {
            assert(group_views(groups@) =~= before);
        }
        proof {
            lemma_without_keeps(before, group@, epoch);
        }
        self.groups = groups;
    }

    /// Holds a complete cut under its own group and epoch.
    fn adopt(&mut self, cut: BarrierCut)
        requires
            cut@.is_complete(),
            cut@.missing == Set::<(Seq<char>, i32)>::empty(),
        ensures
            final(self)@ == with(old(self)@, cut@),
    {
        proof {
            use_type_invariant(&*self);
        }
        let ghost before = self@;
        let ghost added = cut@;
        let mut groups: OrderedMap<String, OrderedMap<i64, BarrierCut>> = OrderedMap::new();
        assert(group_views(groups@) =~= Map::<Seq<char>, Map<i64, CutView>>::empty());
        std::mem::swap(&mut groups, &mut self.groups);
        let group = cut.group.clone();
        let mut by_epoch: OrderedMap<i64, BarrierCut> = match groups.remove(group.as_str()) {
            Some(by_epoch) => by_epoch,
            None => OrderedMap::new(),
        };
        let ghost all = cut_views(by_epoch@);
        by_epoch.insert(cut.epoch, cut);
        assert(cut_views(by_epoch@) =~= all.insert(added.epoch, added));
        groups.insert(group, by_epoch);
        proof {
            assert(all =~= if before.dom().contains(added.group) {
                before[added.group]
            } else {
                Map::empty()
            });
            assert(group_views(groups@) =~= with(before, added));
            lemma_with_keeps(before, added);
        }
        self.groups = groups;
    }

    /// Applies one record of the barrier state topic.
    ///
    /// A record of another kind is skipped. A tombstone and a partial cut both
    /// drop the epoch, so neither can be adopted later.
    ///
    /// # Errors
    ///
    /// Returns [`StreamsClientError::BarrierFormat`] when the record does not
    /// match the layout. The cuts are then as they were.
    pub fn accept(&mut self, record: &FetchedRec) -> (done: Result<(), StreamsClientError>)
        ensures
            match accepted(old(self)@, record@) {
                Ok(cuts) => done is Ok && final(self)@ == cuts,
                Err(expected) => done matches Err(error) && error@ == expected && final(self)@
                    == old(self)@,
            },
    {
        let key = match &record.key {
            // A record with no key carries no barrier state.
            None => return Ok(()),
            Some(key) => match cut::decode_key(buffer::as_slice(key)) {
                Ok(key) => key,
                Err(error) => return Err(error),
            },
        };
        if !key.is_cut() {
            return Ok(());
        }
        let value = match &record.value {
            None => {
                self.forget(key.group.as_str(), key.epoch);
                return Ok(());
            },
            Some(value) => buffer::as_slice(value),
        };
        if value.len() == 0 {
            self.forget(key.group.as_str(), key.epoch);
            return Ok(());
        }
        let cut = match cut::decode_cut_value(&key, value) {
            Ok(cut) => cut,
            Err(error) => return Err(error),
        };
        if cut.complete() {
            self.adopt(cut);
        } else {
            self.forget(key.group.as_str(), key.epoch);
        }
        Ok(())
    }

    /// The cut of a group with the highest epoch.
    pub fn latest(&self, group: &str) -> (latest: Option<BarrierCut>)
        ensures
            match latest {
                Some(cut) => {
                    &&& held(self@, group@, cut@.epoch)
                    &&& cut@ == self@[group@][cut@.epoch]
                    &&& forall|epoch: i64| #[trigger] held(self@, group@, epoch) ==> epoch
                        <= cut@.epoch
                    &&& cut@.is_complete()
                    &&& cut@.group == group@
                },
                None => forall|epoch: i64| !held(self@, group@, epoch),
            },
    {
        proof {
            use_type_invariant(self);
        }
        let by_epoch = match self.groups.get(group) {
            None => return None,
            Some(by_epoch) => by_epoch,
        };
        let count: usize = by_epoch.len();
        let ghost entries = by_epoch.entries();
        proof {
            ordered_map::lemma_ascending_distinct::<i64, BarrierCut>(entries);
            ordered_map::lemma_map_of_dom(entries);
            ordered_map::lemma_map_of_index(entries);
        }
        if count == 0 {
            return None;
        }
        let cut = by_epoch.value_at(count - 1).clone();
        proof {
            let last = count - 1;
            assert(entries[last].0 == entries[last].0);
            assert(held(self@, group@, entries[last].0));
            assert forall|epoch: i64| #[trigger] held(self@, group@, epoch) implies epoch
                <= cut@.epoch by {
                let i = choose|i: int| 0 <= i < entries.len() && #[trigger] entries[i].0 == epoch;
                if i < last {
                    assert(i64::precedes(entries[i].0, entries[last].0));
                }
            }
        }
        Some(cut)
    }

    /// The cut of a group at an epoch.
    pub fn at(&self, group: &str, epoch: i64) -> (found: Option<BarrierCut>)
        ensures
            match found {
                Some(cut) => {
                    &&& held(self@, group@, epoch)
                    &&& cut@ == self@[group@][epoch]
                    &&& cut@.is_complete()
                    &&& cut@.group == group@
                    &&& cut@.epoch == epoch
                },
                None => !held(self@, group@, epoch),
            },
    {
        proof {
            use_type_invariant(self);
        }
        match self.groups.get(group) {
            None => None,
            Some(by_epoch) => match by_epoch.get(&epoch) {
                None => None,
                Some(cut) => {
                    assert(held(self@, group@, epoch));
                    Some(cut.clone())
                },
            },
        }
    }

    /// The cuts of a group from `first` on, in epoch order.
    pub fn from_epoch(&self, group: &str, first: i64) -> (cuts: Vec<BarrierCut>)
        ensures
            forall|i: int, j: int|
                0 <= i < j < cuts@.len() ==> (#[trigger] cuts@[i])@.epoch < (#[trigger] cuts@[j])@.epoch,
            forall|i: int|
                0 <= i < cuts@.len() ==> {
                    let cut = (#[trigger] cuts@[i])@;
                    &&& held(self@, group@, cut.epoch)
                    &&& cut == self@[group@][cut.epoch]
                    &&& cut.epoch >= first
                    &&& cut.is_complete()
                    &&& cut.group == group@
                },
            forall|epoch: i64| #[trigger]
                held(self@, group@, epoch) && epoch >= first ==> exists|i: int|
                    0 <= i < cuts@.len() && (#[trigger] cuts@[i])@.epoch == epoch,
    {
        proof {
            use_type_invariant(self);
        }
        let mut found: Vec<BarrierCut> = Vec::new();
        let by_epoch = match self.groups.get(group) {
            None => return found,
            Some(by_epoch) => by_epoch,
        };
        let start: usize = by_epoch.lower_bound(&first);
        let count: usize = by_epoch.len();
        let ghost entries = by_epoch.entries();
        proof {
            ordered_map::lemma_ascending_distinct::<i64, BarrierCut>(entries);
            ordered_map::lemma_map_of_dom(entries);
            ordered_map::lemma_map_of_index(entries);
        }
        let mut i: usize = start;
        while i < count
            invariant
                start <= i <= count,
                count == entries.len(),
                entries == by_epoch.entries(),
                found@.len() == i - start,
                forall|j: int|
                    0 <= j < found@.len() ==> (#[trigger] found@[j])@ == entries[start + j].1@,
            decreases count - i,
        {
            found.push(by_epoch.value_at(i).clone());
            i = i + 1;
        }
        proof {
            assert forall|j: int| 0 <= j < found@.len() implies {
                let cut = (#[trigger] found@[j])@;
                &&& cut.epoch == entries[start + j].0
                &&& held(self@, group@, cut.epoch)
                &&& cut == self@[group@][cut.epoch]
                &&& cut.epoch >= first
                &&& cut.is_complete()
                &&& cut.group == group@
            } by {
                let k = start + j;
                assert(found@[j]@ == entries[k].1@);
                assert(held(self@, group@, entries[k].0));
                assert(!i64::precedes(entries[k].0, first));
            }
            assert forall|a: int, b: int| 0 <= a < b < found@.len() implies (#[trigger] found@[a])@.epoch
                < (#[trigger] found@[b])@.epoch by {
                assert(i64::precedes(entries[start + a].0, entries[start + b].0));
            }
            assert forall|epoch: i64| #[trigger]
                held(self@, group@, epoch) && epoch >= first implies exists|j: int|
                0 <= j < found@.len() && (#[trigger] found@[j])@.epoch == epoch by {
                let k = choose|k: int| 0 <= k < entries.len() && #[trigger] entries[k].0 == epoch;
                if k < start {
                    assert(i64::precedes(entries[k].0, first));
                }
                assert(found@[k - start]@.epoch == epoch);
            }
        }
        found
    }
}

proof fn lemma_without_keeps(cuts: CutsView, group: Seq<char>, epoch: i64)
    requires
        well_kept(cuts),
    ensures
        well_kept(without(cuts, group, epoch)),
{
    let after = without(cuts, group, epoch);
    assert forall|g: Seq<char>, e: i64| #[trigger] held(after, g, e) implies {
        let cut = after[g][e];
        &&& cut.is_complete()
        &&& cut.missing == Set::<(Seq<char>, i32)>::empty()
        &&& cut.group == g
        &&& cut.epoch == e
    } by {
        assert(held(cuts, g, e));
    }
}

proof fn lemma_with_keeps(cuts: CutsView, cut: CutView)
    requires
        well_kept(cuts),
        cut.is_complete(),
        cut.missing == Set::<(Seq<char>, i32)>::empty(),
    ensures
        well_kept(with(cuts, cut)),
{
    let after = with(cuts, cut);
    assert forall|g: Seq<char>, e: i64| #[trigger] held(after, g, e) implies {
        let held_cut = after[g][e];
        &&& held_cut.is_complete()
        &&& held_cut.missing == Set::<(Seq<char>, i32)>::empty()
        &&& held_cut.group == g
        &&& held_cut.epoch == e
    } by {
        if g == cut.group && e == cut.epoch {
        } else {
            assert(held(cuts, g, e));
        }
    }
}

/// What a run of records makes of the cuts held so far, and what stopped it.
///
/// A record that does not match the layout stops the run. The records before it
/// stay applied.
pub open spec fn accepted_all(cuts: CutsView, records: Seq<RecordView>) -> (
    CutsView,
    Option<ErrorView>,
)
    decreases records.len(),
{
    if records.len() == 0 {
        (cuts, None)
    } else {
        let (before, failure) = accepted_all(cuts, records.drop_last());
        match failure {
            Some(error) => (before, Some(error)),
            None => match accepted(before, records.last()) {
                Ok(after) => (after, None),
                Err(error) => (before, Some(error)),
            },
        }
    }
}

/// Whether a record matches the layout, as far as a reader looks at it.
#[verifier::opaque]
pub open spec fn matches_layout(record: RecordView) -> bool {
    accepted(Map::empty(), record) is Ok
}

/// Whether a record is accepted does not depend on the cuts held so far.
pub proof fn lemma_layout_decides(cuts: CutsView, record: RecordView)
    ensures
        accepted(cuts, record) is Ok <==> matches_layout(record),
{
    reveal(matches_layout);
}

/// Records that are all accepted all match the layout.
pub proof fn lemma_accepted_records_match(cuts: CutsView, records: Seq<RecordView>)
    requires
        accepted_all(cuts, records).1 is None,
    ensures
        forall|i: int| 0 <= i < records.len() ==> matches_layout(#[trigger] records[i]),
    decreases records.len(),
{
    if records.len() > 0 {
        let head = records.drop_last();
        lemma_accepted_records_match(cuts, head);
        lemma_layout_decides(accepted_all(cuts, head).0, records.last());
        assert forall|i: int| 0 <= i < records.len() implies matches_layout(
            #[trigger] records[i],
        ) by {
            if i < head.len() {
                assert(head[i] == records[i]);
            }
        }
    }
}

/// The group and the epoch whose cut a record is about, if it is about one.
pub open spec fn about(record: RecordView) -> Option<(Seq<char>, i64)> {
    match record.key {
        None => None,
        Some(key) => match record::parse_key(key) {
            Err(_) => None,
            Ok(key) => if key.kind == CUT_KIND {
                Some((key.group, key.epoch))
            } else {
                None
            },
        },
    }
}

/// The complete cut that a record publishes, if it publishes one.
pub open spec fn published(record: RecordView) -> Option<CutView> {
    match (record.key, record.value) {
        (Some(key), Some(value)) => match (record::parse_key(key), record::parse_cut(value)) {
            (Ok(key), Ok(fields)) => if key.kind == CUT_KIND && cut::cut_of(
                key,
                fields,
            ).is_complete() {
                Some(cut::cut_of(key, fields))
            } else {
                None
            },
            _ => None,
        },
        _ => None,
    }
}

/// **A reader adopts what decodes.** The cut that a record publishes is the one
/// that its key and value decode to, when that one is complete.
pub proof fn law_published_cuts_are_decoded_ones(record: RecordView, cut: CutView)
    ensures
        published(record) == Some(cut) <==> cut.is_complete() && (record.key matches Some(key)
            && record.value matches Some(value) && cut::decoded(key, Some(value)) == Ok::<
            Option<CutView>,
            ErrorView,
        >(Some(cut))),
{
}

/// **Only complete cuts are held**, each without a missing partition and under
/// its own group and epoch.
pub proof fn law_held_cuts_are_complete(cuts: CutsView, records: Seq<RecordView>)
    requires
        well_kept(cuts),
    ensures
        well_kept(accepted_all(cuts, records).0),
    decreases records.len(),
{
    if records.len() > 0 {
        law_held_cuts_are_complete(cuts, records.drop_last());
        let before = accepted_all(cuts, records.drop_last()).0;
        if let Some((group, epoch)) = about(records.last()) {
            lemma_without_keeps(before, group, epoch);
        }
        if let Some(cut) = published(records.last()) {
            lemma_with_keeps(before, cut);
        }
    }
}

/// **A record decides its own cut and no other.** After a record about a group
/// and an epoch, a cut is held there exactly when the record publishes a
/// complete one, and it is that cut. A tombstone and a partial cut leave none.
/// Every other group and epoch is as it was.
pub proof fn law_record_decides_its_own_cut(
    cuts: CutsView,
    record: RecordView,
    group: Seq<char>,
    epoch: i64,
)
    requires
        accepted(cuts, record) is Ok,
    ensures
        accepted(cuts, record) matches Ok(after) && if about(record) == Some((group, epoch)) {
            match published(record) {
                Some(cut) => held(after, group, epoch) && after[group][epoch] == cut,
                None => !held(after, group, epoch),
            }
        } else {
            &&& held(after, group, epoch) <==> held(cuts, group, epoch)
            &&& held(cuts, group, epoch) ==> after[group][epoch] == cuts[group][epoch]
        },
{
    lemma_empty_value_is_no_cut();
}

/// No cut value is empty, so an empty value is never taken for one.
proof fn lemma_empty_value_is_no_cut()
    ensures
        forall|d: Seq<u8>| d.len() == 0 ==> (#[trigger] record::parse_cut(d)) is Err,
{
}

/// **The last record decides.** After a run of records, what is held of a group
/// and an epoch is what the last record about them says, whatever came before
/// it.
pub proof fn law_last_record_decides(
    cuts: CutsView,
    records: Seq<RecordView>,
    i: int,
    group: Seq<char>,
    epoch: i64,
)
    requires
        accepted_all(cuts, records).1 is None,
        0 <= i < records.len(),
        about(records[i]) == Some((group, epoch)),
        forall|j: int| i < j < records.len() ==> about(#[trigger] records[j]) != Some((group, epoch)),
    ensures
        match published(records[i]) {
            Some(cut) => held(accepted_all(cuts, records).0, group, epoch) && accepted_all(
                cuts,
                records,
            ).0[group][epoch] == cut,
            None => !held(accepted_all(cuts, records).0, group, epoch),
        },
    decreases records.len(),
{
    let head = records.drop_last();
    let before = accepted_all(cuts, head).0;
    law_record_decides_its_own_cut(before, records.last(), group, epoch);
    if i < records.len() - 1 {
        assert(head[i] == records[i]);
        assert forall|j: int| i < j < head.len() implies about(#[trigger] head[j]) != Some(
            (group, epoch),
        ) by {
            assert(head[j] == records[j]);
        }
        law_last_record_decides(cuts, head, i, group, epoch);
        assert(about(records[records.len() - 1]) != Some((group, epoch)));
    }
}

/// **A later read continues an earlier one.** Reading records in two runs holds
/// what reading them in one run holds.
pub proof fn law_reading_resumes(
    cuts: CutsView,
    first: Seq<RecordView>,
    second: Seq<RecordView>,
)
    requires
        accepted_all(cuts, first).1 is None,
    ensures
        accepted_all(cuts, first + second) == accepted_all(accepted_all(cuts, first).0, second),
    decreases second.len(),
{
    if second.len() == 0 {
        assert(first + second =~= first);
    } else {
        law_reading_resumes(cuts, first, second.drop_last());
        assert((first + second).drop_last() =~= first + second.drop_last());
        assert((first + second).last() == second.last());
    }
}

} // verus!
