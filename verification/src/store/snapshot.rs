//! Encoding and decoding of barrier snapshots.
//!
//! A task snapshots every store it owns when a barrier fires. The result is a
//! map from store name to opaque payload bytes, and a container holds it. The
//! cut identity is not in the container. It is the storage key, which is the
//! task, the barrier group, and the epoch.

use bytes::{Bytes, BytesMut};
use vstd::prelude::*;
use vstd::slice::slice_to_vec;

use crate::buffer;
use crate::collections::ordered_map;
use crate::collections::{OrderedKey, OrderedMap};
use crate::error::StreamsClientError;
use crate::layout;
use crate::store::container;
use crate::store::container::{SnapshotFault, SNAPSHOT_CONTAINER_VERSION, STORE_PAYLOAD_VERSION};
use crate::text;
use crate::wire;

verus! {

/// Every store of one task at one cut, as store name to payload bytes.
///
/// The map is ordered by the UTF-8 bytes of the name, which is the order the
/// container needs.
pub type TaskSnapshot = OrderedMap<String, Bytes>;

/// Entries with each payload taken by its bytes.
pub open spec fn plain_entries(entries: Seq<(Seq<char>, Bytes)>) -> Seq<(Seq<char>, Seq<u8>)> {
    Seq::new(entries.len(), |i: int| (entries[i].0, buffer::contents(entries[i].1)))
}

/// What a task snapshot holds, as store name to the bytes of the payload.
pub open spec fn snapshot_of(snapshot: TaskSnapshot) -> Map<Seq<char>, Seq<u8>> {
    snapshot@.map_values(|payload: Bytes| buffer::contents(payload))
}

/// Key-value pairs with each side taken by its bytes.
pub open spec fn plain_pairs(pairs: Seq<(Bytes, Bytes)>) -> Seq<(Seq<u8>, Seq<u8>)> {
    Seq::new(
        pairs.len(),
        |i: int| (buffer::contents(pairs[i].0), buffer::contents(pairs[i].1)),
    )
}

/// The plain entries of a map build the plain map.
proof fn lemma_plain_map(entries: Seq<(Seq<char>, Bytes)>)
    ensures
        ordered_map::map_of(plain_entries(entries)) == ordered_map::map_of(entries).map_values(
            |payload: Bytes| buffer::contents(payload),
        ),
    decreases entries.len(),
{
    let plain = plain_entries(entries);
    if entries.len() > 0 {
        lemma_plain_map(entries.drop_last());
        assert(plain.drop_last() =~= plain_entries(entries.drop_last()));
        assert(ordered_map::map_of(plain) =~= ordered_map::map_of(entries).map_values(
            |payload: Bytes| buffer::contents(payload),
        ));
    } else {
        assert(ordered_map::map_of(plain) =~= ordered_map::map_of(entries).map_values(
            |payload: Bytes| buffer::contents(payload),
        ));
    }
}

/// The entries of a task snapshot are its listing.
pub proof fn lemma_snapshot_listing(snapshot: TaskSnapshot)
    requires
        ordered_map::ascending::<String, Bytes>(snapshot.entries()),
    ensures
        container::lists(plain_entries(snapshot.entries()), snapshot_of(snapshot)),
        container::listing(snapshot_of(snapshot)) == plain_entries(snapshot.entries()),
        snapshot_of(snapshot).dom().finite(),
{
    let entries = snapshot.entries();
    let plain = plain_entries(entries);
    lemma_plain_map(entries);
    assert forall|i: int, j: int| 0 <= i < j < plain.len() implies #[trigger] String::precedes(
        plain[i].0,
        plain[j].0,
    ) by {
        assert(String::precedes(entries[i].0, entries[j].0));
    }
    container::law_listing_is_unique(plain, snapshot_of(snapshot));
    ordered_map::lemma_map_of_dom(plain);
}

/// Whether a reader answered as the layout says: with the value, leaving the
/// rest, or with the fault, leaving `left`.
pub open spec fn answers<T>(
    read: container::Read<T>,
    answer: Result<T, StreamsClientError>,
    rest: Seq<u8>,
    left: Seq<u8>,
) -> bool {
    match read {
        Ok((value, after)) => answer == Ok::<T, StreamsClientError>(value) && rest == after,
        Err(fault) => answer matches Err(error) && error@ == container::fault_error(fault) && rest
            == left,
    }
}

/// Reads big-endian fields off a snapshot buffer and reports a short reason
/// when the buffer runs out.
///
/// Every store that writes its own payload decodes it with this reader, so a
/// truncated snapshot always reports the same way.
pub struct SnapshotReader<'a> {
    data: &'a [u8],
}

impl<'a> View for SnapshotReader<'a> {
    type V = Seq<u8>;

    /// The bytes that are still to be read.
    closed spec fn view(&self) -> Seq<u8> {
        self.data@
    }
}

impl<'a> SnapshotReader<'a> {
    /// A reader at the start of `data`.
    pub fn new(data: &'a [u8]) -> (reader: Self)
        ensures
            reader@ == data@,
    {
        SnapshotReader { data }
    }

    /// Whether every byte is read.
    pub fn is_empty(&self) -> (empty: bool)
        ensures
            empty == (self@.len() == 0),
    {
        self.data.len() == 0
    }

    fn take(&mut self, count: usize) -> (taken: Result<&'a [u8], StreamsClientError>)
        ensures
            match container::parse_bytes(count as nat, old(self)@) {
                Ok((head, rest)) => taken matches Ok(bytes) && bytes@ == head && final(self)@
                    == rest,
                Err(fault) => taken matches Err(error) && error@ == container::fault_error(fault)
                    && final(self)@ == old(self)@,
            },
    {
        if count > self.data.len() {
            return Err(truncated());
        }
        let (head, rest) = self.data.split_at(count);
        self.data = rest;
        assert(head@ =~= old(self)@.take(count as int));
        assert(rest@ =~= old(self)@.skip(count as int));
        Ok(head)
    }

    /// Reads one byte.
    pub fn u8(&mut self) -> (read: Result<u8, StreamsClientError>)
        ensures
            answers(container::parse_u8(old(self)@), read, final(self)@, old(self)@),
    {
        match self.take(1) {
            Ok(bytes) => Ok(bytes[0]),
            Err(error) => Err(error),
        }
    }

    /// Reads a `u32`.
    pub fn u32(&mut self) -> (read: Result<u32, StreamsClientError>)
        ensures
            answers(container::parse_u32(old(self)@), read, final(self)@, old(self)@),
    {
        match self.take(4) {
            Ok(bytes) => Ok(wire::read_u32(bytes)),
            Err(error) => Err(error),
        }
    }

    /// Reads a `u64`.
    pub fn u64(&mut self) -> (read: Result<u64, StreamsClientError>)
        ensures
            answers(container::parse_u64(old(self)@), read, final(self)@, old(self)@),
    {
        match self.take(8) {
            Ok(bytes) => Ok(wire::read_nat(bytes)),
            Err(error) => Err(error),
        }
    }

    /// Reads an `i64`.
    pub fn i64(&mut self) -> (read: Result<i64, StreamsClientError>)
        ensures
            answers(container::parse_i64(old(self)@), read, final(self)@, old(self)@),
    {
        match self.take(8) {
            Ok(bytes) => Ok(wire::read_i64(bytes)),
            Err(error) => Err(error),
        }
    }

    /// Reads a `u32` length and then that many bytes.
    pub fn sized(&mut self) -> (read: Result<Bytes, StreamsClientError>)
        ensures
            match container::parse_sized(old(self)@) {
                Ok((body, rest)) => read matches Ok(bytes) && buffer::contents(bytes) == body
                    && final(self)@ == rest,
                Err(fault) => read matches Err(error) && error@ == container::fault_error(fault)
                    && final(self)@ == container::left_by_sized(old(self)@),
            },
    {
        let length: u32 = match self.u32() {
            Ok(length) => length,
            Err(error) => return Err(error),
        };
        match self.take(length as usize) {
            Ok(bytes) => Ok(Bytes::copy_from_slice(bytes)),
            Err(error) => Err(error),
        }
    }

    /// Fails when bytes remain after the last field.
    pub fn finish(&self) -> (end: Result<(), StreamsClientError>)
        ensures
            if self@.len() == 0 {
                end is Ok
            } else {
                end matches Err(error) && error@ == container::fault_error(SnapshotFault::Trailing)
            },
    {
        if self.is_empty() {
            return Ok(());
        }
        Err(container::malformed(SnapshotFault::Trailing))
    }

    /// Checks the leading version field of a store's own payload.
    pub fn store_version(&mut self) -> (checked: Result<(), StreamsClientError>)
        ensures
            answers(
                container::parse_store_version(old(self)@),
                checked,
                final(self)@,
                container::left_by_store_version(old(self)@),
            ),
    {
        let version: u32 = match self.u32() {
            Ok(version) => version,
            Err(error) => return Err(error),
        };
        if version == STORE_PAYLOAD_VERSION {
            return Ok(());
        }
        Err(container::malformed(SnapshotFault::StoreVersion(version)))
    }
}

fn truncated() -> (error: StreamsClientError)
    ensures
        error@ == container::fault_error(SnapshotFault::Truncated),
{
    container::malformed(SnapshotFault::Truncated)
}

/// Writes a `u32` length and then the bytes.
pub fn put_sized(buffer: &mut BytesMut, value: &[u8])
    requires
        value@.len() <= u32::MAX,
        buffer::written(*old(buffer)).len() + container::write_sized(value@).len()
            <= buffer::limit(*old(buffer)),
    ensures
        buffer::written(*final(buffer)) == buffer::written(*old(buffer)) + container::write_sized(
            value@,
        ),
        buffer::limit(*final(buffer)) == buffer::limit(*old(buffer)),
{
    proof {
        wire::lemma_be_bytes_len(value@.len(), 4);
    }
    buffer::put_u32(buffer, value.len() as u32);
    buffer.extend_from_slice(value);
    assert(buffer::written(*buffer) =~= buffer::written(*old(buffer)) + container::write_sized(
        value@,
    ));
}

/// Starts a store's own payload with the payload version.
pub fn store_payload() -> (buffer: BytesMut)
    ensures
        buffer::written(buffer) == wire::be_bytes(STORE_PAYLOAD_VERSION as nat, 4),
        buffer::limit(buffer) == isize::MAX as nat / 2,
{
    let mut buffer = BytesMut::new();
    buffer::put_u32(&mut buffer, STORE_PAYLOAD_VERSION);
    assert(buffer::written(buffer) =~= wire::be_bytes(STORE_PAYLOAD_VERSION as nat, 4));
    buffer
}

/// Whether a snapshot has a container: its counts and lengths fit their fields,
/// and a buffer can hold the bytes.
pub open spec fn has_container(snapshot: Map<Seq<char>, Seq<u8>>) -> bool {
    &&& container::entries_fit(container::listing(snapshot))
    &&& container::container_of(snapshot).len() <= isize::MAX as nat / 2
}

/// Encodes a task snapshot into its container bytes.
///
/// The entries come out in ascending byte order of the store name, so the same
/// snapshot always gives the same bytes.
#[must_use]
pub fn encode_snapshot(snapshot: &TaskSnapshot) -> (data: Bytes)
    requires
        has_container(snapshot_of(*snapshot)),
    ensures
        buffer::contents(data) == container::container_of(snapshot_of(*snapshot)),
        snapshot_of(*snapshot).dom().finite(),
{
    let count: usize = snapshot.len();
    let ghost entries = plain_entries(snapshot.entries());
    let ghost bytes = container::write_container(entries);
    let ghost version = wire::be_bytes(SNAPSHOT_CONTAINER_VERSION as nat, 4);
    let ghost counted = wire::be_bytes(entries.len(), 4);
    let ghost front = version + counted;
    proof {
        lemma_snapshot_listing(*snapshot);
        wire::lemma_be_bytes_len(SNAPSHOT_CONTAINER_VERSION as nat, 4);
        wire::lemma_be_bytes_len(entries.len(), 4);
        assert(bytes =~= front + layout::write_run(container::entry_writer(), entries));
    }
    let mut buffer = BytesMut::new();
    buffer::put_u32(&mut buffer, SNAPSHOT_CONTAINER_VERSION);
    buffer::put_u32(&mut buffer, count as u32);
    let mut i: usize = 0;
    assert(entries.take(0) =~= Seq::empty());
    assert(buffer::written(buffer) =~= front + layout::write_run(
        container::entry_writer(),
        entries.take(0),
    ));
    while i < count
        invariant
            i <= count,
            count == entries.len(),
            entries == plain_entries(snapshot.entries()),
            front.len() == 8,
            container::entries_fit(entries),
            8 + layout::write_run(container::entry_writer(), entries).len() <= isize::MAX as nat
                / 2,
            buffer::limit(buffer) == isize::MAX as nat / 2,
            buffer::written(buffer) == front + layout::write_run(
                container::entry_writer(),
                entries.take(i as int),
            ),
        decreases count - i,
    {
        let name = snapshot.key_at(i);
        let value = snapshot.value_at(i);
        let ghost before = buffer::written(buffer);
        proof {
            assert(container::entry_fits()(entries[i as int]));
            layout::lemma_write_run_step(container::entry_writer(), entries, i as int);
            layout::lemma_write_run_front(container::entry_writer(), entries, i + 1);
        }
        put_sized(&mut buffer, name.as_str().as_bytes());
        put_sized(&mut buffer, buffer::as_slice(value));
        assert(buffer::written(buffer) =~= before + container::write_entry(entries[i as int]));
        i = i + 1;
        assert(buffer::written(buffer) =~= front + layout::write_run(
            container::entry_writer(),
            entries.take(i as int),
        ));
    }
    assert(entries.take(count as int) =~= entries);
    buffer.freeze()
}

/// Whether [`encode_snapshot`] can encode a task snapshot.
#[must_use]
pub fn fits_container(snapshot: &TaskSnapshot) -> (fits: bool)
    ensures
        fits == has_container(snapshot_of(*snapshot)),
{
    let count: usize = snapshot.len();
    let ghost entries = plain_entries(snapshot.entries());
    proof {
        lemma_snapshot_listing(*snapshot);
        wire::lemma_be_bytes_len(SNAPSHOT_CONTAINER_VERSION as nat, 4);
        wire::lemma_be_bytes_len(entries.len(), 4);
    }
    if count as u64 > u32::MAX as u64 {
        return false;
    }
    let mut left: usize = isize::MAX as usize / 2 - 8;
    let mut i: usize = 0;
    assert(entries.take(0) =~= Seq::empty());
    while i < count
        invariant
            i <= count,
            count <= u32::MAX,
            count == entries.len(),
            entries == plain_entries(snapshot.entries()),
            container::listing(snapshot_of(*snapshot)) == entries,
            container::container_of(snapshot_of(*snapshot)).len() == 8 + layout::write_run(
                container::entry_writer(),
                entries,
            ).len(),
            8 + layout::write_run(container::entry_writer(), entries.take(i as int)).len() + left
                == isize::MAX as nat / 2,
            forall|j: int| 0 <= j < i ==> container::entry_fits()(#[trigger] entries[j]),
        decreases count - i,
    {
        let name: usize = snapshot.key_at(i).as_str().as_bytes().len();
        let value: usize = buffer::as_slice(snapshot.value_at(i)).len();
        proof {
            layout::lemma_write_run_step(container::entry_writer(), entries, i as int);
            layout::lemma_write_run_front(container::entry_writer(), entries, i + 1);
            wire::lemma_be_bytes_len(name as nat, 4);
            wire::lemma_be_bytes_len(value as nat, 4);
        }
        if name as u64 > u32::MAX as u64 || value as u64 > u32::MAX as u64 {
            assert(!container::entry_fits()(entries[i as int]));
            return false;
        }
        if left < 8 || left - 8 < name || left - 8 - name < value {
            return false;
        }
        left = left - 8 - name - value;
        i = i + 1;
    }
    assert(entries.take(count as int) =~= entries);
    true
}

/// Decodes container bytes back into a task snapshot.
///
/// # Errors
///
/// Returns [`StreamsClientError::Snapshot`] when the version is not
/// [`SNAPSHOT_CONTAINER_VERSION`], when a length runs past the end of the
/// buffer, when a name is not UTF-8, or when bytes remain after the last entry.
pub fn decode_snapshot(data: &[u8]) -> (snapshot: Result<TaskSnapshot, StreamsClientError>)
    ensures
        match container::parse_container(data@) {
            Ok(entries) => snapshot matches Ok(snapshot) && snapshot_of(snapshot)
                == ordered_map::map_of(entries),
            Err(fault) => snapshot matches Err(error) && error@ == container::fault_error(fault),
        },
{
    let mut reader = SnapshotReader::new(data);
    let version: u32 = match reader.u32() {
        Ok(version) => version,
        Err(error) => return Err(error),
    };
    if version != SNAPSHOT_CONTAINER_VERSION {
        return Err(container::malformed(SnapshotFault::ContainerVersion(version)));
    }
    let count: u32 = match reader.u32() {
        Ok(count) => count,
        Err(error) => return Err(error),
    };
    let ghost start = reader@;
    let ghost mut entries: Seq<(Seq<char>, Seq<u8>)> = Seq::empty();
    let mut snapshot: TaskSnapshot = OrderedMap::new();
    assert(snapshot_of(snapshot) =~= ordered_map::map_of(entries));
    let mut i: u32 = 0;
    while i < count
        invariant
            i <= count,
            container::parse_container_fields(data@) == layout::parse_run(
                container::entry_parser(),
                count as nat,
                start,
            ),
            layout::parse_run(container::entry_parser(), i as nat, start) == container::Read::Ok(
                (entries, reader@),
            ),
            snapshot_of(snapshot) == ordered_map::map_of(entries),
        decreases count - i,
    {
        let ghost here = reader@;
        proof {
            assert(container::entry_parser()(here) == container::parse_entry(here));
            layout::lemma_run_stops(
                container::entry_parser(),
                (i + 1) as nat,
                count as nat,
                start,
            );
        }
        let name = match reader.sized() {
            Ok(name) => name,
            Err(error) => return Err(error),
        };
        let name = match text::utf8_text(slice_to_vec(buffer::as_slice(&name))) {
            Some(name) => name,
            None => return Err(container::malformed(SnapshotFault::NotUtf8)),
        };
        let value = match reader.sized() {
            Ok(value) => value,
            Err(error) => return Err(error),
        };
        let ghost next = (name@, buffer::contents(value));
        let ghost before = snapshot_of(snapshot);
        snapshot.insert(name, value);
        proof {
            let longer = entries.push(next);
            assert(longer.drop_last() =~= entries);
            assert(snapshot_of(snapshot) =~= before.insert(next.0, next.1));
            entries = longer;
        }
        i = i + 1;
    }
    match reader.finish() {
        Ok(()) => Ok(snapshot),
        Err(error) => Err(error),
    }
}

/// Whether pairs have a payload: their counts and lengths fit their fields, and
/// a buffer can hold the bytes.
pub open spec fn has_payload(pairs: Seq<(Seq<u8>, Seq<u8>)>) -> bool {
    &&& container::pairs_fit(pairs)
    &&& container::write_payload(pairs).len() <= isize::MAX as nat / 2
}

/// Whether [`encode_byte_entries`] can encode the entries of a store.
#[must_use]
pub fn fits_payload(entries: &[(Bytes, Bytes)]) -> (fits: bool)
    ensures
        fits == has_payload(plain_pairs(entries@)),
{
    let ghost pairs = plain_pairs(entries@);
    proof {
        wire::lemma_be_bytes_len(STORE_PAYLOAD_VERSION as nat, 4);
        wire::lemma_be_bytes_len(pairs.len(), 4);
    }
    if entries.len() as u64 > u32::MAX as u64 {
        return false;
    }
    let mut left: usize = isize::MAX as usize / 2 - 8;
    let mut i: usize = 0;
    assert(pairs.take(0) =~= Seq::empty());
    while i < entries.len()
        invariant
            i <= entries@.len() <= u32::MAX,
            pairs == plain_pairs(entries@),
            container::write_payload(pairs).len() == 8 + layout::write_run(
                container::pair_writer(),
                pairs,
            ).len(),
            8 + layout::write_run(container::pair_writer(), pairs.take(i as int)).len() + left
                == isize::MAX as nat / 2,
            forall|j: int| 0 <= j < i ==> container::pair_fits()(#[trigger] pairs[j]),
        decreases entries@.len() - i,
    {
        let key: usize = buffer::as_slice(&entries[i].0).len();
        let value: usize = buffer::as_slice(&entries[i].1).len();
        proof {
            layout::lemma_write_run_step(container::pair_writer(), pairs, i as int);
            layout::lemma_write_run_front(container::pair_writer(), pairs, i + 1);
            wire::lemma_be_bytes_len(key as nat, 4);
            wire::lemma_be_bytes_len(value as nat, 4);
        }
        if key as u64 > u32::MAX as u64 || value as u64 > u32::MAX as u64 {
            assert(!container::pair_fits()(pairs[i as int]));
            return false;
        }
        if left < 8 || left - 8 < key || left - 8 - key < value {
            return false;
        }
        left = left - 8 - key - value;
        i = i + 1;
    }
    assert(pairs.take(i as int) =~= pairs);
    true
}

/// Encodes the entries of a byte-backed store as one entry payload.
///
/// The layout is a `u32` version of `1`, a `u32` entry count, and then per
/// entry a `u32` key length, the key, a `u32` value length, and the value.
pub fn encode_byte_entries(entries: &[(Bytes, Bytes)]) -> (data: Bytes)
    requires
        has_payload(plain_pairs(entries@)),
    ensures
        buffer::contents(data) == container::write_payload(plain_pairs(entries@)),
{
    let mut buffer = store_payload();
    proof {
        wire::lemma_be_bytes_len(STORE_PAYLOAD_VERSION as nat, 4);
    }
    put_byte_entries(&mut buffer, entries);
    buffer.freeze()
}

/// Writes a count-prefixed run of key-value entries into a store payload.
///
/// A store that also carries scalars writes them first and then calls this
/// function, so every byte-backed store shares one entry layout.
pub fn put_byte_entries(buffer: &mut BytesMut, entries: &[(Bytes, Bytes)])
    requires
        container::pairs_fit(plain_pairs(entries@)),
        buffer::written(*old(buffer)).len() + container::write_pairs(plain_pairs(entries@)).len()
            <= buffer::limit(*old(buffer)),
    ensures
        buffer::written(*final(buffer)) == buffer::written(*old(buffer)) + container::write_pairs(
            plain_pairs(entries@),
        ),
        buffer::limit(*final(buffer)) == buffer::limit(*old(buffer)),
{
    let ghost pairs = plain_pairs(entries@);
    let ghost counted = wire::be_bytes(pairs.len(), 4);
    let ghost front = buffer::written(*buffer) + counted;
    proof {
        wire::lemma_be_bytes_len(pairs.len(), 4);
    }
    buffer::put_u32(buffer, entries.len() as u32);
    let mut i: usize = 0;
    assert(pairs.take(0) =~= Seq::empty());
    assert(buffer::written(*buffer) =~= front + layout::write_run(
        container::pair_writer(),
        pairs.take(0),
    ));
    while i < entries.len()
        invariant
            i <= entries@.len(),
            pairs == plain_pairs(entries@),
            container::pairs_fit(pairs),
            front.len() + layout::write_run(container::pair_writer(), pairs).len()
                <= buffer::limit(*buffer),
            buffer::limit(*buffer) == buffer::limit(*old(buffer)),
            buffer::written(*buffer) == front + layout::write_run(
                container::pair_writer(),
                pairs.take(i as int),
            ),
        decreases entries@.len() - i,
    {
        let ghost before = buffer::written(*buffer);
        proof {
            assert(container::pair_fits()(pairs[i as int]));
            layout::lemma_write_run_step(container::pair_writer(), pairs, i as int);
            layout::lemma_write_run_front(container::pair_writer(), pairs, i + 1);
        }
        put_sized(buffer, buffer::as_slice(&entries[i].0));
        put_sized(buffer, buffer::as_slice(&entries[i].1));
        assert(buffer::written(*buffer) =~= before + container::write_pair(pairs[i as int]));
        i = i + 1;
        assert(buffer::written(*buffer) =~= front + layout::write_run(
            container::pair_writer(),
            pairs.take(i as int),
        ));
    }
    assert(pairs.take(i as int) =~= pairs);
    assert(buffer::written(*buffer) =~= buffer::written(*old(buffer)) + container::write_pairs(
        pairs,
    ));
}

/// Decodes the payload that [`encode_byte_entries`] wrote.
///
/// # Errors
///
/// Returns [`StreamsClientError::Snapshot`] when the payload does not match the
/// layout.
pub fn decode_byte_entries(data: &[u8]) -> (entries: Result<
    Vec<(Bytes, Bytes)>,
    StreamsClientError,
>)
    ensures
        match container::parse_payload(data@) {
            Ok(pairs) => entries matches Ok(entries) && plain_pairs(entries@) == pairs,
            Err(fault) => entries matches Err(error) && error@ == container::fault_error(fault),
        },
{
    let mut reader = SnapshotReader::new(data);
    if let Err(error) = reader.store_version() {
        return Err(error);
    }
    let entries = match read_byte_entries(&mut reader) {
        Ok(entries) => entries,
        Err(error) => return Err(error),
    };
    match reader.finish() {
        Ok(()) => Ok(entries),
        Err(error) => Err(error),
    }
}

/// Reads a count-prefixed run of key-value entries out of a store payload.
///
/// # Errors
///
/// Returns [`StreamsClientError::Snapshot`] when the payload runs out.
pub fn read_byte_entries(reader: &mut SnapshotReader<'_>) -> (entries: Result<
    Vec<(Bytes, Bytes)>,
    StreamsClientError,
>)
    ensures
        match container::parse_pairs(old(reader)@) {
            Ok((pairs, rest)) => entries matches Ok(entries) && plain_pairs(entries@) == pairs
                && final(reader)@ == rest,
            Err(fault) => entries matches Err(error) && error@ == container::fault_error(fault)
                && final(reader)@ == container::left_by_pairs(old(reader)@),
        },
{
    let count: u32 = match reader.u32() {
        Ok(count) => count,
        Err(error) => return Err(error),
    };
    let ghost start = reader@;
    let mut entries: Vec<(Bytes, Bytes)> = Vec::new();
    assert(plain_pairs(entries@) =~= Seq::empty());
    let mut i: u32 = 0;
    while i < count
        invariant
            i <= count,
            container::left_by_pairs(old(reader)@) == layout::left_by_run(
                container::pair_parser(),
                |d: Seq<u8>| container::left_by_pair(d),
                count as nat,
                start,
            ),
            container::parse_pairs(old(reader)@) == layout::parse_run(
                container::pair_parser(),
                count as nat,
                start,
            ),
            layout::parse_run(container::pair_parser(), i as nat, start) == container::Read::Ok(
                (plain_pairs(entries@), reader@),
            ),
        decreases count - i,
    {
        let ghost here = reader@;
        let ghost before = plain_pairs(entries@);
        proof {
            assert(container::pair_parser()(here) == container::parse_pair(here));
            layout::lemma_run_stops(
                container::pair_parser(),
                (i + 1) as nat,
                count as nat,
                start,
            );
            layout::lemma_run_leaves(
                container::pair_parser(),
                |d: Seq<u8>| container::left_by_pair(d),
                (i + 1) as nat,
                count as nat,
                start,
            );
        }
        let key = match reader.sized() {
            Ok(key) => key,
            Err(error) => return Err(error),
        };
        let value = match reader.sized() {
            Ok(value) => value,
            Err(error) => return Err(error),
        };
        let ghost next = (buffer::contents(key), buffer::contents(value));
        entries.push((key, value));
        assert(plain_pairs(entries@) =~= before.push(next));
        i = i + 1;
    }
    Ok(entries)
}

} // verus!
