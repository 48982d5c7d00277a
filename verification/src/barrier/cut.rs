//! The decoded cut of a barrier group.

use vstd::prelude::*;
use vstd::slice::slice_to_vec;

use crate::barrier::record;
use crate::barrier::record::{
    CutFields, Fault, KeyFields, CUT_KIND, KEY_PART, RECORD_VERSION, VALUE_PART,
};
use crate::collections::ordered_map;
use crate::collections::{OrderedMap, OrderedSet};
use crate::error::{ErrorView, StreamsClientError};
use crate::layout;
use crate::position;
use crate::position::{Position, TopicPartition};
use crate::text;
use crate::wire;

verus! {

/// The internal topic a broker publishes barrier state to.
pub const BARRIER_STATE_TOPIC: &'static str = "__barrier_state";

/// Whether the coordinator reached every partition of a barrier group.
///
/// The coordinator publishes both outcomes. A complete cut names a marker
/// offset for every partition of the group. A partial cut leaves partitions
/// out, and those partitions never receive that epoch's marker, so a task that
/// waits for one waits forever. Only a complete cut is alignable.
#[derive(Debug, Clone, Copy, PartialEq, Eq, Hash, PartialOrd, Ord, Structural)]
pub enum CutStatus {
    /// Every partition of the barrier group received the epoch's marker.
    Complete,
    /// One or more partitions never received the epoch's marker.
    Partial,
}

impl CutStatus {
    /// The wire code of a status.
    pub open spec fn code_of(self) -> i8 {
        match self {
            CutStatus::Complete => 0,
            CutStatus::Partial => 1,
        }
    }

    /// The status that carries a wire code.
    pub open spec fn of_code(code: i8) -> Option<CutStatus> {
        if code == 0 {
            Some(CutStatus::Complete)
        } else if code == 1 {
            Some(CutStatus::Partial)
        } else {
            None
        }
    }

    /// The wire code the coordinator writes for this status.
    #[must_use]
    pub fn code(self) -> (code: i8)
        ensures
            code == self.code_of(),
    {
        match self {
            CutStatus::Complete => 0,
            CutStatus::Partial => 1,
        }
    }

    /// Maps a wire code onto a status.
    ///
    /// # Errors
    ///
    /// Returns [`StreamsClientError::BarrierFormat`] when no status carries the
    /// code.
    pub fn from_code(code: i8) -> (status: Result<CutStatus, StreamsClientError>)
        ensures
            match CutStatus::of_code(code) {
                Some(expected) => status == Ok::<CutStatus, StreamsClientError>(expected),
                None => status matches Err(error) && error@ == record::fault_error(
                    VALUE_PART@,
                    Fault::UnknownStatus(code),
                ),
            },
    {
        match code {
            0 => Ok(CutStatus::Complete),
            1 => Ok(CutStatus::Partial),
            other => Err(record::malformed(VALUE_PART, Fault::UnknownStatus(other))),
        }
    }
}

/// One epoch's cut across every partition of a barrier group.
///
/// A cut names an exact position in every input at once: the offset of the
/// epoch's marker in each partition. The marker is a control record, so no
/// consumer receives it and the cut offset never holds a data record. The
/// records before the cut of a partition are exactly the records with a lower
/// offset.
#[derive(Debug, PartialEq, Eq)]
pub struct BarrierCut {
    /// The barrier group the coordinator injected markers for.
    pub group: String,
    /// The epoch that names this cut inside the group. A coordinator never
    /// reuses one.
    pub epoch: i64,
    /// The time the injection started, in milliseconds since the Unix epoch.
    pub triggered_at: i64,
    /// The time the coordinator published the cut, in milliseconds since the
    /// Unix epoch.
    pub completed_at: i64,
    /// Whether every partition received the epoch's marker.
    pub status: CutStatus,
    /// The marker offset of every partition that received one, as topic to
    /// partition to offset.
    pub offsets: Position,
    /// The partitions that never received the epoch's marker. It is empty for a
    /// complete cut.
    pub missing: OrderedSet<TopicPartition>,
}

/// What a cut says.
#[verifier::ext_equal]
pub struct CutView {
    pub group: Seq<char>,
    pub epoch: i64,
    pub triggered_at: i64,
    pub completed_at: i64,
    pub status: CutStatus,
    pub offsets: Map<Seq<char>, Map<i32, i64>>,
    pub missing: Set<(Seq<char>, i32)>,
}

impl View for BarrierCut {
    type V = CutView;

    open spec fn view(&self) -> CutView {
        CutView {
            group: self.group@,
            epoch: self.epoch,
            triggered_at: self.triggered_at,
            completed_at: self.completed_at,
            status: self.status,
            offsets: self.offsets@,
            missing: self.missing@,
        }
    }
}

impl Clone for BarrierCut {
    fn clone(&self) -> (copy: Self)
        ensures
            copy@ == self@,
    {
        BarrierCut {
            group: self.group.clone(),
            epoch: self.epoch,
            triggered_at: self.triggered_at,
            completed_at: self.completed_at,
            status: self.status,
            offsets: self.offsets.clone(),
            missing: self.missing.clone(),
        }
    }
}

impl CutView {
    /// Whether every partition of the group received the epoch's marker.
    pub open spec fn is_complete(self) -> bool {
        self.status == CutStatus::Complete
    }

    /// Whether a partition delivered everything below the cut, when `position`
    /// is the next offset that is read from it.
    pub open spec fn is_reached(self, p: (Seq<char>, i32), position: i64) -> bool {
        position::names(self.offsets, p) ==> position >= self.offsets[p.0][p.1]
    }
}

impl BarrierCut {
    /// Whether every partition of the group received the epoch's marker.
    ///
    /// A runner aligns on a complete cut only.
    #[must_use]
    pub fn complete(&self) -> (complete: bool)
        ensures
            complete == self@.is_complete(),
    {
        match self.status {
            CutStatus::Complete => true,
            CutStatus::Partial => false,
        }
    }

    /// The marker offset of one partition, or `None` when the cut does not name
    /// it.
    #[must_use]
    pub fn offset(&self, topic: &str, partition: i32) -> (offset: Option<i64>)
        ensures
            offset == position::offset_in(self@.offsets, (topic@, partition)),
    {
        self.offsets.offset(topic, partition)
    }

    /// Whether a partition delivered everything below the cut.
    ///
    /// `position` is the next offset the task reads. A partition the cut does
    /// not name holds nothing back, so it always reports `true`.
    #[must_use]
    pub fn reached(&self, topic: &str, partition: i32, position: i64) -> (reached: bool)
        ensures
            reached == self@.is_reached((topic@, partition), position),
    {
        match self.offset(topic, partition) {
            None => true,
            Some(offset) => position >= offset,
        }
    }

    /// Every partition the cut names, in topic and then partition order.
    #[must_use]
    pub fn partitions(&self) -> (partitions: Vec<TopicPartition>)
        ensures
            forall|i: int, j: int|
                0 <= i < j < partitions@.len() ==> position::partition_before(
                    (#[trigger] partitions@[i])@,
                    (#[trigger] partitions@[j])@,
                ),
            forall|i: int|
                0 <= i < partitions@.len() ==> position::names(
                    self@.offsets,
                    (#[trigger] partitions@[i])@,
                ),
            forall|p: (Seq<char>, i32)| #[trigger]
                position::names(self@.offsets, p) ==> exists|i: int|
                    0 <= i < partitions@.len() && (#[trigger] partitions@[i])@ == p,
    {
        self.offsets.partitions()
    }
}

/// A decoded key of the barrier state topic.
#[derive(Debug, PartialEq, Eq)]
pub struct BarrierKey {
    /// The kind of record that the key names.
    pub kind: i16,
    /// The barrier group.
    pub group: String,
    /// The epoch, or `-1` for a group definition.
    pub epoch: i64,
}

impl View for BarrierKey {
    type V = KeyFields;

    open spec fn view(&self) -> KeyFields {
        KeyFields { kind: self.kind, group: self.group@, epoch: self.epoch }
    }
}

impl BarrierKey {
    /// Whether this key names a cut record.
    pub fn is_cut(&self) -> (cut: bool)
        ensures
            cut == (self.kind == CUT_KIND),
    {
        self.kind == CUT_KIND
    }
}

/// The offsets that an array of topics lists. A topic that is listed again adds
/// to its partitions, and a partition that is listed again takes the last
/// offset.
pub open spec fn listed_offsets(topics: Seq<(Seq<char>, Seq<(i32, i64)>)>) -> Map<
    Seq<char>,
    Map<i32, i64>,
>
    decreases topics.len(),
{
    if topics.len() == 0 {
        Map::empty()
    } else {
        let before = listed_offsets(topics.drop_last());
        let (topic, offsets) = topics.last();
        let held = if before.dom().contains(topic) {
            before[topic]
        } else {
            Map::empty()
        };
        before.insert(topic, held.union_prefer_right(ordered_map::map_of(offsets)))
    }
}

/// The cut that the fields of a key and of a cut value describe. A complete cut
/// misses no partition, whatever its record lists.
pub open spec fn cut_of(key: KeyFields, fields: CutFields) -> CutView {
    CutView {
        group: key.group,
        epoch: key.epoch,
        triggered_at: fields.triggered_at,
        completed_at: fields.completed_at,
        status: fields.status,
        offsets: listed_offsets(fields.topics),
        missing: if fields.status == CutStatus::Complete {
            Set::empty()
        } else {
            fields.missing.to_set()
        },
    }
}

/// What a record of the barrier state topic decodes to.
pub open spec fn decoded(key: Seq<u8>, value: Option<Seq<u8>>) -> Result<Option<CutView>, ErrorView> {
    match record::parse_key(key) {
        Err(fault) => Err(record::fault_error(KEY_PART@, fault)),
        Ok(key) => if key.kind != CUT_KIND {
            Ok(None)
        } else {
            match value {
                None => Ok(None),
                Some(value) => match record::parse_cut(value) {
                    Err(fault) => Err(record::fault_error(VALUE_PART@, fault)),
                    Ok(fields) => Ok(Some(cut_of(key, fields))),
                },
            }
        },
    }
}

/// Decodes one record of [`BARRIER_STATE_TOPIC`] into a cut.
///
/// The result is `None` for a record that carries no cut: a group definition, an
/// injection start, and a tombstone of any kind.
///
/// # Errors
///
/// Returns [`StreamsClientError::BarrierFormat`] when the key or the value does
/// not match the layout. The `part` field names which of the two failed.
pub fn decode_barrier_cut(key: &[u8], value: Option<&[u8]>) -> (cut: Result<
    Option<BarrierCut>,
    StreamsClientError,
>)
    ensures
        match decoded(
            key@,
            match value {
                Some(value) => Some(value@),
                None => None,
            },
        ) {
            Ok(None) => cut matches Ok(None),
            Ok(Some(expected)) => cut matches Ok(Some(cut)) && cut@ == expected,
            Err(expected) => cut matches Err(error) && error@ == expected,
        },
{
    let key = match decode_key(key) {
        Ok(key) => key,
        Err(error) => return Err(error),
    };
    if !key.is_cut() {
        return Ok(None);
    }
    match value {
        None => Ok(None),
        Some(value) => match decode_cut_value(&key, value) {
            Ok(cut) => Ok(Some(cut)),
            Err(error) => Err(error),
        },
    }
}

/// Decodes the key of any barrier state record.
///
/// # Errors
///
/// Returns [`StreamsClientError::BarrierFormat`] when the key does not match the
/// layout.
pub fn decode_key(data: &[u8]) -> (key: Result<BarrierKey, StreamsClientError>)
    ensures
        match record::parse_key(data@) {
            Ok(expected) => key matches Ok(key) && key@ == expected,
            Err(fault) => key matches Err(error) && error@ == record::fault_error(
                KEY_PART@,
                fault,
            ),
        },
{
    let mut reader = Reader::new(data, KEY_PART);
    let version: i16 = match reader.i16() {
        Ok(version) => version,
        Err(error) => return Err(error),
    };
    if version != RECORD_VERSION {
        return Err(record::malformed(KEY_PART, Fault::KeyVersion(version)));
    }
    let kind: i16 = match reader.i16() {
        Ok(kind) => kind,
        Err(error) => return Err(error),
    };
    let group = match reader.string() {
        Ok(group) => group,
        Err(error) => return Err(error),
    };
    let epoch: i64 = match reader.i64() {
        Ok(epoch) => epoch,
        Err(error) => return Err(error),
    };
    match reader.finish() {
        Ok(()) => Ok(BarrierKey { kind, group, epoch }),
        Err(error) => Err(error),
    }
}

/// Decodes the value of a cut record, with the group and the epoch taken from
/// the key.
///
/// # Errors
///
/// Returns [`StreamsClientError::BarrierFormat`] when the value does not match
/// the layout.
pub fn decode_cut_value(key: &BarrierKey, data: &[u8]) -> (cut: Result<
    BarrierCut,
    StreamsClientError,
>)
    ensures
        match record::parse_cut(data@) {
            Ok(fields) => cut matches Ok(cut) && cut@ == cut_of(key@, fields),
            Err(fault) => cut matches Err(error) && error@ == record::fault_error(
                VALUE_PART@,
                fault,
            ),
        },
{
    let mut reader = Reader::new(data, VALUE_PART);
    let version: i16 = match reader.i16() {
        Ok(version) => version,
        Err(error) => return Err(error),
    };
    if version != RECORD_VERSION {
        return Err(record::malformed(VALUE_PART, Fault::ValueVersion(version)));
    }
    let triggered_at: i64 = match reader.i64() {
        Ok(triggered_at) => triggered_at,
        Err(error) => return Err(error),
    };
    let completed_at: i64 = match reader.i64() {
        Ok(completed_at) => completed_at,
        Err(error) => return Err(error),
    };
    let code: i8 = match reader.i8() {
        Ok(code) => code,
        Err(error) => return Err(error),
    };
    let status = match CutStatus::from_code(code) {
        Ok(status) => status,
        Err(error) => return Err(error),
    };
    let offsets = match reader.cut_offsets() {
        Ok(offsets) => offsets,
        Err(error) => return Err(error),
    };
    let listed = match reader.missing_partitions() {
        Ok(listed) => listed,
        Err(error) => return Err(error),
    };
    let missing: OrderedSet<TopicPartition> = match status {
        CutStatus::Complete => OrderedSet::new(),
        CutStatus::Partial => listed,
    };
    match reader.finish() {
        Ok(()) => Ok(
            BarrierCut {
                group: key.group.clone(),
                epoch: key.epoch,
                triggered_at,
                completed_at,
                status,
                offsets,
                missing,
            },
        ),
        Err(error) => Err(error),
    }
}

/// Whether a reader answered as the layout says: with the value, leaving the
/// rest, or with the fault, leaving `left`.
spec fn answers<T>(
    read: record::Read<T>,
    answer: Result<T, StreamsClientError>,
    rest: Seq<u8>,
    part: Seq<char>,
    left: Seq<u8>,
) -> bool {
    match read {
        Ok((value, after)) => answer == Ok::<T, StreamsClientError>(value) && rest == after,
        Err(fault) => answer matches Err(error) && error@ == record::fault_error(part, fault)
            && rest == left,
    }
}

/// Reads the big-endian layout of the barrier state topic.
///
/// Every integer is signed, and a string is an `i16` byte length and then UTF-8
/// bytes.
struct Reader<'a> {
    data: &'a [u8],
    part: &'static str,
}

impl<'a> Reader<'a> {
    fn new(data: &'a [u8], part: &'static str) -> (reader: Self)
        ensures
            reader.data@ == data@,
            reader.part == part,
    {
        Reader { data, part }
    }

    fn truncated(&self) -> (error: StreamsClientError)
        ensures
            error@ == record::fault_error(self.part@, Fault::Truncated),
    {
        record::malformed(self.part, Fault::Truncated)
    }

    /// Fails when bytes remain after the last field.
    fn finish(&self) -> (end: Result<(), StreamsClientError>)
        ensures
            if self.data@.len() == 0 {
                end is Ok
            } else {
                end matches Err(error) && error@ == record::fault_error(
                    self.part@,
                    Fault::Trailing,
                )
            },
    {
        if self.data.len() == 0 {
            return Ok(());
        }
        Err(record::malformed(self.part, Fault::Trailing))
    }

    fn take(&mut self, count: usize) -> (taken: Result<&'a [u8], StreamsClientError>)
        ensures
            final(self).part == old(self).part,
            match record::parse_bytes(count as nat, old(self).data@) {
                Ok((head, rest)) => taken matches Ok(bytes) && bytes@ == head && final(self).data@
                    == rest,
                Err(fault) => taken matches Err(error) && error@ == record::fault_error(
                    old(self).part@,
                    fault,
                ) && final(self).data@ == old(self).data@,
            },
    {
        if count > self.data.len() {
            return Err(self.truncated());
        }
        let (head, rest) = self.data.split_at(count);
        self.data = rest;
        assert(head@ =~= old(self).data@.take(count as int));
        assert(rest@ =~= old(self).data@.skip(count as int));
        Ok(head)
    }

    fn i8(&mut self) -> (read: Result<i8, StreamsClientError>)
        ensures
            final(self).part == old(self).part,
            answers(
                record::parse_i8(old(self).data@),
                read,
                final(self).data@,
                old(self).part@,
                old(self).data@,
            ),
    {
        match self.take(1) {
            Ok(bytes) => Ok(wire::read_i8(bytes)),
            Err(error) => Err(error),
        }
    }

    fn i16(&mut self) -> (read: Result<i16, StreamsClientError>)
        ensures
            final(self).part == old(self).part,
            answers(
                record::parse_i16(old(self).data@),
                read,
                final(self).data@,
                old(self).part@,
                old(self).data@,
            ),
    {
        match self.take(2) {
            Ok(bytes) => Ok(wire::read_i16(bytes)),
            Err(error) => Err(error),
        }
    }

    fn i32(&mut self) -> (read: Result<i32, StreamsClientError>)
        ensures
            final(self).part == old(self).part,
            answers(
                record::parse_i32(old(self).data@),
                read,
                final(self).data@,
                old(self).part@,
                old(self).data@,
            ),
    {
        match self.take(4) {
            Ok(bytes) => Ok(wire::read_i32(bytes)),
            Err(error) => Err(error),
        }
    }

    fn i64(&mut self) -> (read: Result<i64, StreamsClientError>)
        ensures
            final(self).part == old(self).part,
            answers(
                record::parse_i64(old(self).data@),
                read,
                final(self).data@,
                old(self).part@,
                old(self).data@,
            ),
    {
        match self.take(8) {
            Ok(bytes) => Ok(wire::read_i64(bytes)),
            Err(error) => Err(error),
        }
    }

    fn string(&mut self) -> (read: Result<String, StreamsClientError>)
        ensures
            final(self).part == old(self).part,
            match record::parse_string(old(self).data@) {
                Ok((text, rest)) => read matches Ok(string) && string@ == text && final(self).data@
                    == rest,
                Err(fault) => read matches Err(error) && error@ == record::fault_error(
                    old(self).part@,
                    fault,
                ) && final(self).data@ == record::left_by_string(old(self).data@),
            },
    {
        let length: i16 = match self.i16() {
            Ok(length) => length,
            Err(error) => return Err(error),
        };
        if length < 0 {
            return Err(record::malformed(self.part, Fault::NegativeString(length)));
        }
        let bytes = match self.take(length as usize) {
            Ok(bytes) => bytes,
            Err(error) => return Err(error),
        };
        match text::utf8_text(slice_to_vec(bytes)) {
            Some(string) => Ok(string),
            None => Err(record::malformed(self.part, Fault::NotUtf8)),
        }
    }

    /// Reads an `i32` array length.
    ///
    /// A negative length is malformed. A length past the remaining bytes fails
    /// on the first entry, so no bogus count allocates.
    fn count(&mut self) -> (read: Result<i32, StreamsClientError>)
        ensures
            final(self).part == old(self).part,
            answers(
                record::parse_count(old(self).data@),
                read,
                final(self).data@,
                old(self).part@,
                record::left_by_count(old(self).data@),
            ),
            read matches Ok(count) ==> count >= 0,
    {
        let count: i32 = match self.i32() {
            Ok(count) => count,
            Err(error) => return Err(error),
        };
        if count < 0 {
            return Err(record::malformed(self.part, Fault::NegativeCount(count)));
        }
        Ok(count)
    }

    /// Reads partitions and their offsets into `entry`.
    fn partition_offsets(
        &mut self,
        count: i32,
        entry: &mut OrderedMap<i32, i64>,
    ) -> (read: Result<(), StreamsClientError>)
        requires
            count >= 0,
        ensures
            final(self).part == old(self).part,
            match layout::parse_run(record::offset_parser(), count as nat, old(self).data@) {
                Ok((listed, rest)) => read is Ok && final(self).data@ == rest && final(entry)@
                    == old(entry)@.union_prefer_right(ordered_map::map_of(listed)),
                Err(fault) => read matches Err(error) && error@ == record::fault_error(
                    old(self).part@,
                    fault,
                ) && final(self).data@ == record::left_by_offsets(count as nat, old(self).data@),
            },
    {
        let ghost start = self.data@;
        let ghost held = entry@;
        let ghost mut listed: Seq<(i32, i64)> = Seq::empty();
        let mut i: i32 = 0;
        assert(entry@ =~= held.union_prefer_right(ordered_map::map_of(listed)));
        while i < count
            invariant
                0 <= i <= count,
                self.part == old(self).part,
                start == old(self).data@,
                held == old(entry)@,
                layout::parse_run(record::offset_parser(), i as nat, start) == record::Read::Ok(
                    (listed, self.data@),
                ),
                entry@ == held.union_prefer_right(ordered_map::map_of(listed)),
            decreases count - i,
        {
            let ghost here = self.data@;
            proof {
                assert(record::offset_parser()(here) == record::parse_offset(here));
                layout::lemma_run_stops(
                    record::offset_parser(),
                    (i + 1) as nat,
                    count as nat,
                    start,
                );
                layout::lemma_run_leaves(
                    record::offset_parser(),
                    |d: Seq<u8>| record::left_by_offset(d),
                    (i + 1) as nat,
                    count as nat,
                    start,
                );
            }
            let partition: i32 = match self.i32() {
                Ok(partition) => partition,
                Err(error) => return Err(error),
            };
            let offset: i64 = match self.i64() {
                Ok(offset) => offset,
                Err(error) => return Err(error),
            };
            entry.insert(partition, offset);
            proof {
                let longer = listed.push((partition, offset));
                assert(longer.drop_last() =~= listed);
                assert(entry@ =~= held.union_prefer_right(ordered_map::map_of(longer)));
                listed = longer;
            }
            i = i + 1;
        }
        Ok(())
    }

    fn cut_offsets(&mut self) -> (read: Result<Position, StreamsClientError>)
        ensures
            final(self).part == old(self).part,
            match record::parse_topics(old(self).data@) {
                Ok((topics, rest)) => read matches Ok(offsets) && offsets@ == listed_offsets(topics)
                    && final(self).data@ == rest,
                Err(fault) => read matches Err(error) && error@ == record::fault_error(
                    old(self).part@,
                    fault,
                ) && final(self).data@ == record::left_by_topics(old(self).data@),
            },
    {
        let count: i32 = match self.count() {
            Ok(count) => count,
            Err(error) => return Err(error),
        };
        let ghost start = self.data@;
        let ghost mut topics: Seq<(Seq<char>, Seq<(i32, i64)>)> = Seq::empty();
        let mut offsets = Position::new();
        let mut i: i32 = 0;
        while i < count
            invariant
                0 <= i <= count,
                self.part == old(self).part,
                record::parse_topics(old(self).data@) == layout::parse_run(
                    record::topic_parser(),
                    count as nat,
                    start,
                ),
                record::left_by_topics(old(self).data@) == layout::left_by_run(
                    record::topic_parser(),
                    |d: Seq<u8>| record::left_by_topic(d),
                    count as nat,
                    start,
                ),
                layout::parse_run(record::topic_parser(), i as nat, start) == record::Read::Ok(
                    (topics, self.data@),
                ),
                offsets@ == listed_offsets(topics),
            decreases count - i,
        {
            let ghost here = self.data@;
            proof {
                assert(record::topic_parser()(here) == record::parse_topic(here));
                layout::lemma_run_stops(
                    record::topic_parser(),
                    (i + 1) as nat,
                    count as nat,
                    start,
                );
                layout::lemma_run_leaves(
                    record::topic_parser(),
                    |d: Seq<u8>| record::left_by_topic(d),
                    (i + 1) as nat,
                    count as nat,
                    start,
                );
            }
            let topic = match self.string() {
                Ok(topic) => topic,
                Err(error) => return Err(error),
            };
            let partitions: i32 = match self.count() {
                Ok(partitions) => partitions,
                Err(error) => return Err(error),
            };
            let ghost name = topic@;
            let ghost before = offsets@;
            let mut entry: OrderedMap<i32, i64> = match offsets.0.remove(topic.as_str()) {
                Some(held) => held,
                None => OrderedMap::new(),
            };
            if let Err(error) = self.partition_offsets(partitions, &mut entry) {
                return Err(error);
            }
            let ghost listed = record::parse_topic(here)->Ok_0.0.1;
            let ghost filled = entry@;
            offsets.0.insert(topic, entry);
            proof {
                let longer = topics.push((name, listed));
                assert(longer.drop_last() =~= topics);
                assert(offsets@ =~= before.insert(name, filled));
                topics = longer;
            }
            i = i + 1;
        }
        Ok(offsets)
    }

    fn missing_partitions(&mut self) -> (read: Result<
        OrderedSet<TopicPartition>,
        StreamsClientError,
    >)
        ensures
            final(self).part == old(self).part,
            match record::parse_missing(old(self).data@) {
                Ok((listed, rest)) => read matches Ok(missing) && missing@ == listed.to_set()
                    && final(self).data@ == rest,
                Err(fault) => read matches Err(error) && error@ == record::fault_error(
                    old(self).part@,
                    fault,
                ) && final(self).data@ == record::left_by_missing(old(self).data@),
            },
    {
        let count: i32 = match self.count() {
            Ok(count) => count,
            Err(error) => return Err(error),
        };
        let ghost start = self.data@;
        let ghost mut listed: Seq<(Seq<char>, i32)> = Seq::empty();
        let mut missing: OrderedSet<TopicPartition> = OrderedSet::new();
        assert(missing@ =~= listed.to_set());
        let mut i: i32 = 0;
        while i < count
            invariant
                0 <= i <= count,
                self.part == old(self).part,
                record::parse_missing(old(self).data@) == layout::parse_run(
                    record::partition_parser(),
                    count as nat,
                    start,
                ),
                record::left_by_missing(old(self).data@) == layout::left_by_run(
                    record::partition_parser(),
                    |d: Seq<u8>| record::left_by_partition(d),
                    count as nat,
                    start,
                ),
                layout::parse_run(record::partition_parser(), i as nat, start) == record::Read::Ok(
                    (listed, self.data@),
                ),
                missing@ == listed.to_set(),
            decreases count - i,
        {
            let ghost here = self.data@;
            proof {
                assert(record::partition_parser()(here) == record::parse_partition(here));
                layout::lemma_run_stops(
                    record::partition_parser(),
                    (i + 1) as nat,
                    count as nat,
                    start,
                );
                layout::lemma_run_leaves(
                    record::partition_parser(),
                    |d: Seq<u8>| record::left_by_partition(d),
                    (i + 1) as nat,
                    count as nat,
                    start,
                );
            }
            let topic = match self.string() {
                Ok(topic) => topic,
                Err(error) => return Err(error),
            };
            let partition: i32 = match self.i32() {
                Ok(partition) => partition,
                Err(error) => return Err(error),
            };
            let ghost next = (topic@, partition);
            missing.insert(TopicPartition { topic, partition });
            proof {
                lemma_push_to_set(listed, next);
                listed = listed.push(next);
            }
            i = i + 1;
        }
        Ok(missing)
    }
}

proof fn lemma_push_to_set<A>(s: Seq<A>, x: A)
    ensures
        s.push(x).to_set() == s.to_set().insert(x),
{
    assert forall|y: A| s.push(x).to_set().contains(y) <==> s.to_set().insert(x).contains(y) by {
        if s.contains(y) {
            let i = choose|i: int| 0 <= i < s.len() && s[i] == y;
            assert(s.push(x)[i] == y);
        }
        if y == x {
            assert(s.push(x)[s.len() as int] == y);
        }
        if s.push(x).contains(y) && y != x {
            let i = choose|i: int| 0 <= i < s.push(x).len() && s.push(x)[i] == y;
            assert(s[i] == y);
        }
    }
    assert(s.push(x).to_set() =~= s.to_set().insert(x));
}

/// **Status codes round trip.** Each status has one code, and each code has at
/// most one status.
pub proof fn law_status_codes_round_trip(status: CutStatus, code: i8)
    ensures
        CutStatus::of_code(status.code_of()) == Some(status),
        CutStatus::of_code(code) matches Some(s) ==> s.code_of() == code,
{
}

/// **Published cuts decode.** A record that is laid out as the format says
/// decodes to the cut that its fields describe, and a record of another kind, or
/// without a value, carries no cut.
pub proof fn law_published_cut_decodes(key: KeyFields, fields: CutFields)
    requires
        record::key_fits(key),
        record::cut_fits(fields),
    ensures
        decoded(record::write_key(key), Some(record::write_cut(fields))) == (if key.kind
            == CUT_KIND {
            Ok::<Option<CutView>, ErrorView>(Some(cut_of(key, fields)))
        } else {
            Ok::<Option<CutView>, ErrorView>(None)
        }),
        decoded(record::write_key(key), None) == Ok::<Option<CutView>, ErrorView>(None),
{
    record::law_key_reads_back(key, Seq::empty());
    record::law_cut_reads_back(fields, Seq::empty());
}

/// **Other kinds carry no cut.** A record of another kind than a cut decodes to
/// nothing, whatever its value holds.
pub proof fn law_other_kinds_carry_no_cut(key: KeyFields, value: Option<Seq<u8>>)
    requires
        record::key_fits(key),
        key.kind != CUT_KIND,
    ensures
        decoded(record::write_key(key), value) == Ok::<Option<CutView>, ErrorView>(None),
{
    record::law_key_reads_back(key, Seq::empty());
}

/// **A complete cut misses no partition.**
pub proof fn law_complete_cut_misses_nothing(
    key: KeyFields,
    fields: CutFields,
    key_bytes: Seq<u8>,
    value: Option<Seq<u8>>,
)
    ensures
        cut_of(key, fields).is_complete() ==> cut_of(key, fields).missing == Set::<
            (Seq<char>, i32),
        >::empty(),
        decoded(key_bytes, value) matches Ok(Some(cut)) ==> cut.is_complete() ==> cut.missing
            == Set::<(Seq<char>, i32)>::empty(),
{
}

/// **A cut is named by its key.** The group and the epoch of a decoded cut
/// determine the key bytes it was published under, and its other fields are
/// those of the value bytes.
pub proof fn law_cut_is_named_by_its_key(key: Seq<u8>, value: Seq<u8>)
    requires
        decoded(key, Some(value)) matches Ok(Some(_)),
    ensures
        decoded(key, Some(value)) matches Ok(Some(cut)) && key == record::write_key(
            KeyFields { kind: CUT_KIND, group: cut.group, epoch: cut.epoch },
        ) && exists|fields: CutFields|
            record::cut_fits(fields) && value == #[trigger] record::write_cut(fields) && cut
                == cut_of(
                KeyFields { kind: CUT_KIND, group: cut.group, epoch: cut.epoch },
                fields,
            ),
{
    record::law_key_was_written(key);
    record::law_cut_was_written(value);
    let fields = record::parse_cut(value)->Ok_0;
    assert(value == record::write_cut(fields));
}

/// **An error names its part.** A malformed key is reported as the key, whatever
/// the value holds. A malformed value is reported as the value, and only under a
/// well-formed key of a cut.
pub proof fn law_error_names_its_part(key: Seq<u8>, value: Option<Seq<u8>>)
    requires
        decoded(key, value) is Err,
    ensures
        record::parse_key(key) is Err ==> (decoded(key, value)->Err_0 matches ErrorView::BarrierFormat {
            part,
            ..
        } && part == KEY_PART@),
        record::parse_key(key) matches Ok(k) ==> k.kind == CUT_KIND && value is Some && (decoded(
            key,
            value,
        )->Err_0 matches ErrorView::BarrierFormat { part, .. } && part == VALUE_PART@),
{
}

/// Whether a task delivered a record, when `position` is the next offset it
/// reads.
pub open spec fn delivered(position: i64, offset: i64) -> bool {
    offset < position
}

/// **A cut, once reached, stays reached.** A partition reaches the cut exactly
/// at its marker offset, which is when everything with a lower offset is
/// delivered. It stays past the cut, and a partition that the cut does not name
/// holds nothing back.
pub proof fn law_reached_from_the_marker_on(cut: CutView, p: (Seq<char>, i32), a: i64, b: i64)
    ensures
        position::offset_in(cut.offsets, p) matches Some(offset) ==> (cut.is_reached(p, a) <==> (
        forall|below: i64| below < offset ==> #[trigger] delivered(a, below))),
        a <= b && cut.is_reached(p, a) ==> cut.is_reached(p, b),
        position::offset_in(cut.offsets, p) matches Some(offset) ==> (cut.is_reached(p, a) <==> a
            >= offset),
        position::offset_in(cut.offsets, p) is None ==> cut.is_reached(p, a),
{
    if let Some(offset) = position::offset_in(cut.offsets, p) {
        if forall|below: i64| below < offset ==> #[trigger] delivered(a, below) {
            assert(!delivered(a, a));
        }
    }
}

/// **A cut names what its record lists.** The decoded offsets name a partition
/// exactly when some listed topic lists it.
pub proof fn law_cut_names_what_is_listed(
    topics: Seq<(Seq<char>, Seq<(i32, i64)>)>,
    p: (Seq<char>, i32),
)
    ensures
        position::names(listed_offsets(topics), p) <==> exists|i: int, j: int|
            0 <= i < topics.len() && 0 <= j < topics[i].1.len() && topics[i].0 == p.0 && (
            #[trigger] topics[i].1[j]).0 == p.1,
        listed_offsets(topics).dom().contains(p.0) <==> exists|i: int|
            0 <= i < topics.len() && (#[trigger] topics[i]).0 == p.0,
    decreases topics.len(),
{
    if topics.len() > 0 {
        let head = topics.drop_last();
        let last = topics.len() - 1;
        law_cut_names_what_is_listed(head, p);
        ordered_map::lemma_map_of_dom(topics[last].1);
        if position::names(listed_offsets(head), p) {
            let (i, j) = choose|i: int, j: int|
                0 <= i < head.len() && 0 <= j < head[i].1.len() && head[i].0 == p.0 && (
                #[trigger] head[i].1[j]).0 == p.1;
            assert(topics[i].1[j].0 == p.1);
        }
        if listed_offsets(head).dom().contains(p.0) {
            let i = choose|i: int| 0 <= i < head.len() && (#[trigger] head[i]).0 == p.0;
            assert(topics[i].0 == p.0);
        }
        if topics[last].0 == p.0 && ordered_map::map_of(topics[last].1).dom().contains(p.1) {
            let j = choose|j: int|
                0 <= j < topics[last].1.len() && #[trigger] topics[last].1[j].0 == p.1;
            assert(topics[last].1[j].0 == p.1);
        }
        if exists|i: int, j: int|
            0 <= i < topics.len() && 0 <= j < topics[i].1.len() && topics[i].0 == p.0 && (
            #[trigger] topics[i].1[j]).0 == p.1 {
            let (i, j) = choose|i: int, j: int|
                0 <= i < topics.len() && 0 <= j < topics[i].1.len() && topics[i].0 == p.0 && (
                #[trigger] topics[i].1[j]).0 == p.1;
            if i < last {
                assert(head[i].1[j].0 == p.1);
            } else {
                assert(ordered_map::map_of(topics[last].1).dom().contains(p.1));
            }
        }
        if exists|i: int| 0 <= i < topics.len() && (#[trigger] topics[i]).0 == p.0 {
            let i = choose|i: int| 0 <= i < topics.len() && (#[trigger] topics[i]).0 == p.0;
            if i < last {
                assert(head[i].0 == p.0);
            }
        }
    }
}

/// **A cut has the last offset that its record lists.** The decoded offset of a
/// partition is the one that is listed for it last: in the last listing of its
/// topic that has it, and last there.
pub proof fn law_cut_has_the_last_listed_offset(
    topics: Seq<(Seq<char>, Seq<(i32, i64)>)>,
    i: int,
    j: int,
)
    requires
        0 <= i < topics.len(),
        0 <= j < topics[i].1.len(),
        forall|k: int| j < k < topics[i].1.len() ==> (#[trigger] topics[i].1[k]).0 != topics[i].1[j].0,
        forall|t: int, k: int|
            i < t < topics.len() && 0 <= k < topics[t].1.len() && topics[t].0 == topics[i].0 ==> (
            #[trigger] topics[t].1[k]).0 != topics[i].1[j].0,
    ensures
        position::offset_in(listed_offsets(topics), (topics[i].0, topics[i].1[j].0)) == Some(
            topics[i].1[j].1,
        ),
    decreases topics.len(),
{
    let head = topics.drop_last();
    let last = topics.len() - 1;
    let (topic, offsets) = topics[last];
    let p = (topics[i].0, topics[i].1[j].0);
    if i < last {
        assert(head[i] == topics[i]);
        assert forall|t: int, k: int|
            i < t < head.len() && 0 <= k < head[t].1.len() && head[t].0 == head[i].0 implies (
        #[trigger] head[t].1[k]).0 != head[i].1[j].0 by {
            assert(topics[t].1[k].0 != p.1);
        }
        law_cut_has_the_last_listed_offset(head, i, j);
        ordered_map::lemma_map_of_dom(offsets);
        if topic == p.0 && ordered_map::map_of(offsets).dom().contains(p.1) {
            let k = choose|k: int| 0 <= k < offsets.len() && #[trigger] offsets[k].0 == p.1;
            assert(topics[last].1[k].0 != p.1);
        }
    } else {
        ordered_map::lemma_map_of_last(offsets, j);
    }
}

} // verus!
