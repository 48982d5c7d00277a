//! The byte layouts of a snapshot.
//!
//! A task snapshot is a map from store name to payload bytes. Its container is:
//!
//! ```text
//! version u32 = 1
//! count   u32
//! entries count x [ name_len u32 | name UTF-8 | value_len u32 | value bytes ]
//! ```
//!
//! The entries are in ascending byte order of the name, so one snapshot always
//! encodes to one byte string. The payload of a byte-backed store is a version
//! of `1` and then a counted run of key-value pairs in the same shape. Every
//! integer is big-endian.

use vstd::prelude::*;
use vstd::string::StringExecFns;
use vstd::utf8;

use crate::collections::ordered_map;
use crate::error::{ErrorView, StreamsClientError};
use crate::layout;
use crate::text;
use crate::wire;

verus! {

/// The container version that every writer of snapshots shares.
pub const SNAPSHOT_CONTAINER_VERSION: u32 = 1;

/// The version of the store payloads inside a container entry.
pub const STORE_PAYLOAD_VERSION: u32 = 1;

/// What can be wrong with a snapshot.
#[derive(Debug, Clone, Copy, PartialEq, Eq, Structural)]
pub enum SnapshotFault {
    /// The bytes end before the last field does.
    Truncated,
    /// Bytes follow the last field.
    Trailing,
    /// The container carries another version than
    /// [`SNAPSHOT_CONTAINER_VERSION`].
    ContainerVersion(u32),
    /// The payload carries another version than [`STORE_PAYLOAD_VERSION`].
    StoreVersion(u32),
    /// A store name is not UTF-8.
    NotUtf8,
}

/// The text that describes a fault.
pub open spec fn fault_text(fault: SnapshotFault) -> Seq<char> {
    match fault {
        SnapshotFault::Truncated => "truncated state snapshot"@,
        SnapshotFault::Trailing => "trailing bytes in state snapshot"@,
        SnapshotFault::ContainerVersion(version) => "unsupported state snapshot version "@
            + text::decimal(version as int),
        SnapshotFault::StoreVersion(version) => "unsupported store snapshot version "@
            + text::decimal(version as int),
        SnapshotFault::NotUtf8 => "non-UTF-8 store name"@,
    }
}

/// The error that reports a fault.
pub open spec fn fault_error(fault: SnapshotFault) -> ErrorView {
    ErrorView::Snapshot(fault_text(fault))
}

/// Reports a fault.
pub fn malformed(fault: SnapshotFault) -> (error: StreamsClientError)
    ensures
        error@ == fault_error(fault),
{
    let message = match fault {
        SnapshotFault::Truncated => String::from_str("truncated state snapshot"),
        SnapshotFault::Trailing => String::from_str("trailing bytes in state snapshot"),
        SnapshotFault::ContainerVersion(version) => {
            let mut message = String::from_str("unsupported state snapshot version ");
            text::push_decimal(&mut message, version as i64);
            message
        },
        SnapshotFault::StoreVersion(version) => {
            let mut message = String::from_str("unsupported store snapshot version ");
            text::push_decimal(&mut message, version as i64);
            message
        },
        SnapshotFault::NotUtf8 => String::from_str("non-UTF-8 store name"),
    };
    StreamsClientError::Snapshot(message)
}

/// What reading the front of a snapshot gives.
pub type Read<T> = layout::Parsed<T, SnapshotFault>;

/// The first `n` bytes.
pub open spec fn parse_bytes(n: nat, d: Seq<u8>) -> Read<Seq<u8>> {
    if d.len() < n {
        Err(SnapshotFault::Truncated)
    } else {
        Ok((d.take(n as int), d.skip(n as int)))
    }
}

/// A `u8`.
pub open spec fn parse_u8(d: Seq<u8>) -> Read<u8> {
    match parse_bytes(1, d) {
        Err(fault) => Err(fault),
        Ok((bytes, rest)) => Ok((bytes[0], rest)),
    }
}

/// A `u32`.
pub open spec fn parse_u32(d: Seq<u8>) -> Read<u32> {
    match parse_bytes(4, d) {
        Err(fault) => Err(fault),
        Ok((bytes, rest)) => Ok((wire::be_nat(bytes) as u32, rest)),
    }
}

/// A `u64`.
pub open spec fn parse_u64(d: Seq<u8>) -> Read<u64> {
    match parse_bytes(8, d) {
        Err(fault) => Err(fault),
        Ok((bytes, rest)) => Ok((wire::be_nat(bytes) as u64, rest)),
    }
}

/// An `i64`.
pub open spec fn parse_i64(d: Seq<u8>) -> Read<i64> {
    match parse_bytes(8, d) {
        Err(fault) => Err(fault),
        Ok((bytes, rest)) => Ok((wire::be_int(bytes) as i64, rest)),
    }
}

/// A length and then that many bytes.
pub open spec fn parse_sized(d: Seq<u8>) -> Read<Seq<u8>> {
    match parse_u32(d) {
        Err(fault) => Err(fault),
        Ok((length, rest)) => parse_bytes(length as nat, rest),
    }
}

/// A store name and the payload of the store.
pub open spec fn parse_entry(d: Seq<u8>) -> Read<(Seq<char>, Seq<u8>)> {
    match parse_sized(d) {
        Err(fault) => Err(fault),
        Ok((name, rest)) => if !utf8::valid_utf8(name) {
            Err(SnapshotFault::NotUtf8)
        } else {
            match parse_sized(rest) {
                Err(fault) => Err(fault),
                Ok((value, rest)) => Ok(((utf8::decode_utf8(name), value), rest)),
            }
        },
    }
}

/// The reader of a store name and a payload.
pub open spec fn entry_parser() -> spec_fn(Seq<u8>) -> Read<(Seq<char>, Seq<u8>)> {
    |d: Seq<u8>| parse_entry(d)
}

/// A key and its value.
pub open spec fn parse_pair(d: Seq<u8>) -> Read<(Seq<u8>, Seq<u8>)> {
    match parse_sized(d) {
        Err(fault) => Err(fault),
        Ok((key, rest)) => match parse_sized(rest) {
            Err(fault) => Err(fault),
            Ok((value, rest)) => Ok(((key, value), rest)),
        },
    }
}

/// The reader of a key and its value.
pub open spec fn pair_parser() -> spec_fn(Seq<u8>) -> Read<(Seq<u8>, Seq<u8>)> {
    |d: Seq<u8>| parse_pair(d)
}

/// A counted run of key-value pairs.
pub open spec fn parse_pairs(d: Seq<u8>) -> Read<Seq<(Seq<u8>, Seq<u8>)>> {
    match parse_u32(d) {
        Err(fault) => Err(fault),
        Ok((count, rest)) => layout::parse_run(pair_parser(), count as nat, rest),
    }
}

/// The leading version of a store payload.
pub open spec fn parse_store_version(d: Seq<u8>) -> Read<()> {
    match parse_u32(d) {
        Err(fault) => Err(fault),
        Ok((version, rest)) => if version == STORE_PAYLOAD_VERSION {
            Ok(((), rest))
        } else {
            Err(SnapshotFault::StoreVersion(version))
        },
    }
}

/// Reads the fields of a container off the front of the input.
pub open spec fn parse_container_fields(d: Seq<u8>) -> Read<Seq<(Seq<char>, Seq<u8>)>> {
    match parse_u32(d) {
        Err(fault) => Err(fault),
        Ok((version, rest)) => if version != SNAPSHOT_CONTAINER_VERSION {
            Err(SnapshotFault::ContainerVersion(version))
        } else {
            match parse_u32(rest) {
                Err(fault) => Err(fault),
                Ok((count, rest)) => layout::parse_run(entry_parser(), count as nat, rest),
            }
        },
    }
}

/// Reads the fields of a byte-store payload off the front of the input.
pub open spec fn parse_payload_fields(d: Seq<u8>) -> Read<Seq<(Seq<u8>, Seq<u8>)>> {
    match parse_store_version(d) {
        Err(fault) => Err(fault),
        Ok((_, rest)) => parse_pairs(rest),
    }
}

/// A read that has to use up its input.
pub open spec fn whole<T>(read: Read<T>) -> Result<T, SnapshotFault> {
    match read {
        Err(fault) => Err(fault),
        Ok((value, rest)) => if rest.len() > 0 {
            Err(SnapshotFault::Trailing)
        } else {
            Ok(value)
        },
    }
}

/// Reads a whole container, with its entries as they stand in it.
pub open spec fn parse_container(d: Seq<u8>) -> Result<
    Seq<(Seq<char>, Seq<u8>)>,
    SnapshotFault,
> {
    whole(parse_container_fields(d))
}

/// Reads a whole byte-store payload.
pub open spec fn parse_payload(d: Seq<u8>) -> Result<Seq<(Seq<u8>, Seq<u8>)>, SnapshotFault> {
    whole(parse_payload_fields(d))
}

/// What a read of a length and then that many bytes leaves unread, whatever
/// comes of it.
pub open spec fn left_by_sized(d: Seq<u8>) -> Seq<u8> {
    match parse_u32(d) {
        Err(_) => d,
        Ok((length, rest)) => match parse_bytes(length as nat, rest) {
            Err(_) => rest,
            Ok((_, rest)) => rest,
        },
    }
}

/// What a read of the version of a store payload leaves unread, whatever comes
/// of it.
pub open spec fn left_by_store_version(d: Seq<u8>) -> Seq<u8> {
    match parse_u32(d) {
        Err(_) => d,
        Ok((_, rest)) => rest,
    }
}

/// What a read of a key and its value leaves unread, whatever comes of it.
pub open spec fn left_by_pair(d: Seq<u8>) -> Seq<u8> {
    match parse_sized(d) {
        Err(_) => left_by_sized(d),
        Ok((_, rest)) => left_by_sized(rest),
    }
}

/// What a read of a counted run of key-value pairs leaves unread, whatever comes
/// of it.
pub open spec fn left_by_pairs(d: Seq<u8>) -> Seq<u8> {
    match parse_u32(d) {
        Err(_) => d,
        Ok((count, rest)) => layout::left_by_run(
            pair_parser(),
            |d: Seq<u8>| left_by_pair(d),
            count as nat,
            rest,
        ),
    }
}

/// The bytes of a length and then the bytes.
pub open spec fn write_sized(bytes: Seq<u8>) -> Seq<u8> {
    wire::be_bytes(bytes.len(), 4) + bytes
}

/// The bytes of a store name and the payload of the store.
pub open spec fn write_entry(x: (Seq<char>, Seq<u8>)) -> Seq<u8> {
    write_sized(utf8::encode_utf8(x.0)) + write_sized(x.1)
}

/// The writer of a store name and a payload.
pub open spec fn entry_writer() -> spec_fn((Seq<char>, Seq<u8>)) -> Seq<u8> {
    |x: (Seq<char>, Seq<u8>)| write_entry(x)
}

/// Whether a name and a payload are short enough for their length fields.
pub open spec fn entry_fits() -> spec_fn((Seq<char>, Seq<u8>)) -> bool {
    |x: (Seq<char>, Seq<u8>)| utf8::encode_utf8(x.0).len() <= u32::MAX && x.1.len() <= u32::MAX
}

/// The bytes of a key and its value.
pub open spec fn write_pair(x: (Seq<u8>, Seq<u8>)) -> Seq<u8> {
    write_sized(x.0) + write_sized(x.1)
}

/// The writer of a key and its value.
pub open spec fn pair_writer() -> spec_fn((Seq<u8>, Seq<u8>)) -> Seq<u8> {
    |x: (Seq<u8>, Seq<u8>)| write_pair(x)
}

/// Whether a key and a value are short enough for their length fields.
pub open spec fn pair_fits() -> spec_fn((Seq<u8>, Seq<u8>)) -> bool {
    |x: (Seq<u8>, Seq<u8>)| x.0.len() <= u32::MAX && x.1.len() <= u32::MAX
}

/// The bytes of a counted run of key-value pairs.
pub open spec fn write_pairs(pairs: Seq<(Seq<u8>, Seq<u8>)>) -> Seq<u8> {
    wire::be_bytes(pairs.len(), 4) + layout::write_run(pair_writer(), pairs)
}

/// Whether a run of pairs is short enough for its count and length fields.
pub open spec fn pairs_fit(pairs: Seq<(Seq<u8>, Seq<u8>)>) -> bool {
    &&& pairs.len() <= u32::MAX
    &&& forall|i: int| 0 <= i < pairs.len() ==> pair_fits()(#[trigger] pairs[i])
}

/// The bytes of a byte-store payload.
pub open spec fn write_payload(pairs: Seq<(Seq<u8>, Seq<u8>)>) -> Seq<u8> {
    wire::be_bytes(STORE_PAYLOAD_VERSION as nat, 4) + write_pairs(pairs)
}

/// The bytes of a container.
pub open spec fn write_container(entries: Seq<(Seq<char>, Seq<u8>)>) -> Seq<u8> {
    wire::be_bytes(SNAPSHOT_CONTAINER_VERSION as nat, 4) + (wire::be_bytes(entries.len(), 4)
        + layout::write_run(entry_writer(), entries))
}

/// Whether entries are short enough for their count and length fields.
pub open spec fn entries_fit(entries: Seq<(Seq<char>, Seq<u8>)>) -> bool {
    &&& entries.len() <= u32::MAX
    &&& forall|i: int| 0 <= i < entries.len() ==> entry_fits()(#[trigger] entries[i])
}

/// Whether entries list a snapshot in ascending byte order of the store names.
pub open spec fn lists(
    entries: Seq<(Seq<char>, Seq<u8>)>,
    snapshot: Map<Seq<char>, Seq<u8>>,
) -> bool {
    ordered_map::ascending::<String, Seq<u8>>(entries) && ordered_map::map_of(entries) == snapshot
}

/// The entries of a snapshot in ascending byte order of the store names.
pub open spec fn listing(snapshot: Map<Seq<char>, Seq<u8>>) -> Seq<(Seq<char>, Seq<u8>)> {
    choose|entries: Seq<(Seq<char>, Seq<u8>)>| lists(entries, snapshot)
}

/// The container bytes of a snapshot.
pub open spec fn container_of(snapshot: Map<Seq<char>, Seq<u8>>) -> Seq<u8> {
    write_container(listing(snapshot))
}

/// **One listing per snapshot.** The names fix the order of the entries, so a
/// snapshot has one listing and one container.
pub proof fn law_listing_is_unique(
    entries: Seq<(Seq<char>, Seq<u8>)>,
    snapshot: Map<Seq<char>, Seq<u8>>,
)
    requires
        lists(entries, snapshot),
    ensures
        listing(snapshot) == entries,
        container_of(snapshot) == write_container(entries),
{
    assert(lists(listing(snapshot), snapshot));
    ordered_map::law_ascending_entries_are_canonical::<String, Seq<u8>>(
        listing(snapshot),
        entries,
    );
}

/// **Every snapshot has a listing.**
pub proof fn law_snapshot_has_a_listing(snapshot: Map<Seq<char>, Seq<u8>>)
    requires
        snapshot.dom().finite(),
    ensures
        lists(listing(snapshot), snapshot),
{
    let entries = ordered_map::lemma_ascending_run::<String, Seq<u8>>(snapshot);
    assert(lists(entries, snapshot));
}

/// A fixed-width field is what its bytes say, and is written as those bytes.
proof fn lemma_nat_field(n: nat, width: nat, rest: Seq<u8>, d: Seq<u8>)
    ensures
        n < wire::byte_range(width) ==> {
            &&& wire::be_bytes(n, width).len() == width
            &&& parse_bytes(width, wire::be_bytes(n, width) + rest) == Read::Ok(
                (wire::be_bytes(n, width), rest),
            )
            &&& wire::be_nat(wire::be_bytes(n, width)) == n
        },
        d.len() >= width ==> {
            let bytes = d.take(width as int);
            &&& wire::be_nat(bytes) < wire::byte_range(width)
            &&& d == wire::be_bytes(wire::be_nat(bytes), width) + d.skip(width as int)
        },
{
    if n < wire::byte_range(width) {
        wire::lemma_be_bytes_len(n, width);
        wire::lemma_be_nat_of_bytes(n, width);
        let bytes = wire::be_bytes(n, width);
        assert((bytes + rest).take(width as int) =~= bytes);
        assert((bytes + rest).skip(width as int) =~= rest);
    }
    if d.len() >= width {
        wire::lemma_be_bytes_of_nat(d.take(width as int));
        assert(d =~= d.take(width as int) + d.skip(width as int));
    }
}

pub proof fn lemma_u32_layout(v: u32, rest: Seq<u8>, d: Seq<u8>)
    ensures
        wire::be_bytes(v as nat, 4).len() == 4,
        parse_u32(wire::be_bytes(v as nat, 4) + rest) == Read::Ok((v, rest)),
        parse_u32(d) matches Ok((x, after)) ==> d == wire::be_bytes(x as nat, 4) + after,
{
    wire::lemma_byte_ranges();
    lemma_nat_field(v as nat, 4, rest, d);
}

pub proof fn lemma_sized_layout(bytes: Seq<u8>, rest: Seq<u8>, d: Seq<u8>)
    ensures
        bytes.len() <= u32::MAX ==> parse_sized(write_sized(bytes) + rest) == Read::Ok(
            (bytes, rest),
        ),
        parse_sized(d) matches Ok((x, after)) ==> x.len() <= u32::MAX && d == write_sized(x)
            + after,
{
    if bytes.len() <= u32::MAX {
        lemma_u32_layout(bytes.len() as u32, bytes + rest, d);
        assert(write_sized(bytes) + rest =~= wire::be_bytes(bytes.len(), 4) + (bytes + rest));
        assert((bytes + rest).take(bytes.len() as int) =~= bytes);
        assert((bytes + rest).skip(bytes.len() as int) =~= rest);
    }
    if let Ok((x, after)) = parse_sized(d) {
        lemma_u32_layout(0, rest, d);
        let (length, middle) = parse_u32(d)->Ok_0;
        assert(middle =~= x + after);
        assert(d =~= write_sized(x) + after);
    }
}

proof fn lemma_entry_reads_written(x: (Seq<char>, Seq<u8>), rest: Seq<u8>)
    requires
        entry_fits()(x),
    ensures
        parse_entry(write_entry(x) + rest) == Read::Ok((x, rest)),
{
    let name = utf8::encode_utf8(x.0);
    lemma_sized_layout(name, write_sized(x.1) + rest, rest);
    lemma_sized_layout(x.1, rest, rest);
    utf8::encode_utf8_valid_utf8(x.0);
    utf8::encode_utf8_decode_utf8(x.0);
    assert(write_entry(x) + rest =~= write_sized(name) + (write_sized(x.1) + rest));
}

proof fn lemma_entry_was_written(d: Seq<u8>)
    ensures
        parse_entry(d) matches Ok((x, rest)) ==> entry_fits()(x) && d == write_entry(x) + rest,
{
    if let Ok((x, rest)) = parse_entry(d) {
        let (name, middle) = parse_sized(d)->Ok_0;
        lemma_sized_layout(name, d, d);
        lemma_sized_layout(name, d, middle);
        utf8::decode_utf8_encode_utf8(name);
        assert(d =~= write_entry(x) + rest);
    }
}

pub proof fn lemma_entry_layout()
    ensures
        layout::one_layout(entry_parser(), entry_writer(), entry_fits()),
{
    assert forall|x: (Seq<char>, Seq<u8>), rest: Seq<u8>| entry_fits()(x) implies #[trigger]
    entry_parser()(entry_writer()(x) + rest) == Read::Ok((x, rest)) by {
        lemma_entry_reads_written(x, rest);
    }
    assert forall|d: Seq<u8>|
        (#[trigger] entry_parser()(d)) matches Ok((x, rest)) ==> entry_fits()(x) && d
        == entry_writer()(x) + rest by {
        lemma_entry_was_written(d);
    }
}

proof fn lemma_pair_reads_written(x: (Seq<u8>, Seq<u8>), rest: Seq<u8>)
    requires
        pair_fits()(x),
    ensures
        parse_pair(write_pair(x) + rest) == Read::Ok((x, rest)),
{
    lemma_sized_layout(x.0, write_sized(x.1) + rest, rest);
    lemma_sized_layout(x.1, rest, rest);
    assert(write_pair(x) + rest =~= write_sized(x.0) + (write_sized(x.1) + rest));
}

proof fn lemma_pair_was_written(d: Seq<u8>)
    ensures
        parse_pair(d) matches Ok((x, rest)) ==> pair_fits()(x) && d == write_pair(x) + rest,
{
    if let Ok((x, rest)) = parse_pair(d) {
        let (key, middle) = parse_sized(d)->Ok_0;
        lemma_sized_layout(key, d, d);
        lemma_sized_layout(key, d, middle);
        assert(d =~= write_pair(x) + rest);
    }
}

pub proof fn lemma_pair_layout()
    ensures
        layout::one_layout(pair_parser(), pair_writer(), pair_fits()),
{
    assert forall|x: (Seq<u8>, Seq<u8>), rest: Seq<u8>| pair_fits()(x) implies #[trigger]
    pair_parser()(pair_writer()(x) + rest) == Read::Ok((x, rest)) by {
        lemma_pair_reads_written(x, rest);
    }
    assert forall|d: Seq<u8>|
        (#[trigger] pair_parser()(d)) matches Ok((x, rest)) ==> pair_fits()(x) && d
        == pair_writer()(x) + rest by {
        lemma_pair_was_written(d);
    }
}

proof fn lemma_container_front(entries: Seq<(Seq<char>, Seq<u8>)>, rest: Seq<u8>)
    requires
        entries_fit(entries),
    ensures
        parse_container_fields(write_container(entries) + rest) == Read::Ok((entries, rest)),
{
    let version = wire::be_bytes(SNAPSHOT_CONTAINER_VERSION as nat, 4);
    let count = wire::be_bytes(entries.len(), 4);
    let run = layout::write_run(entry_writer(), entries);
    lemma_entry_layout();
    layout::lemma_run_reads_written(entry_parser(), entry_writer(), entry_fits(), entries, rest);
    lemma_u32_layout(entries.len() as u32, run + rest, rest);
    lemma_u32_layout(SNAPSHOT_CONTAINER_VERSION, count + (run + rest), rest);
    assert(write_container(entries) + rest =~= version + (count + (run + rest)));
}

/// **Containers read back.** Reading a container gives the entries that were
/// written into it, and a container that bytes follow is refused for them.
pub proof fn law_container_reads_back(entries: Seq<(Seq<char>, Seq<u8>)>, extra: Seq<u8>)
    requires
        entries_fit(entries),
    ensures
        parse_container(write_container(entries)) == Ok::<
            Seq<(Seq<char>, Seq<u8>)>,
            SnapshotFault,
        >(entries),
        extra.len() > 0 ==> parse_container(write_container(entries) + extra) == Err::<
            Seq<(Seq<char>, Seq<u8>)>,
            SnapshotFault,
        >(SnapshotFault::Trailing),
{
    lemma_container_front(entries, extra);
    lemma_container_front(entries, Seq::empty());
    assert(write_container(entries) + Seq::<u8>::empty() =~= write_container(entries));
}

/// **Whatever is accepted was written.** Bytes that are accepted as a container
/// are the container of the entries that they are read as.
pub proof fn law_container_was_written(d: Seq<u8>)
    requires
        parse_container(d) is Ok,
    ensures
        entries_fit(parse_container(d)->Ok_0),
        d == write_container(parse_container(d)->Ok_0),
{
    let entries = parse_container(d)->Ok_0;
    let (_, a) = parse_u32(d)->Ok_0;
    let (count, b) = parse_u32(a)->Ok_0;
    lemma_entry_layout();
    lemma_u32_layout(0, d, d);
    lemma_u32_layout(0, d, a);
    layout::lemma_run_was_written(entry_parser(), entry_writer(), entry_fits(), count as nat, b);
    assert(d =~= write_container(entries));
}

/// **A snapshot survives its container.** Decoding the container of a snapshot
/// gives the snapshot back.
pub proof fn law_snapshot_round_trips(snapshot: Map<Seq<char>, Seq<u8>>)
    requires
        snapshot.dom().finite(),
        entries_fit(listing(snapshot)),
    ensures
        parse_container(container_of(snapshot)) matches Ok(entries) && ordered_map::map_of(entries)
            == snapshot,
{
    law_snapshot_has_a_listing(snapshot);
    law_container_reads_back(listing(snapshot), Seq::empty());
}

/// **Different snapshots have different containers.**
pub proof fn law_container_determines_snapshot(
    a: Map<Seq<char>, Seq<u8>>,
    b: Map<Seq<char>, Seq<u8>>,
)
    requires
        a.dom().finite(),
        entries_fit(listing(a)),
        b.dom().finite(),
        entries_fit(listing(b)),
        container_of(a) == container_of(b),
    ensures
        a == b,
{
    law_snapshot_round_trips(a);
    law_snapshot_round_trips(b);
}

proof fn lemma_pairs_front(pairs: Seq<(Seq<u8>, Seq<u8>)>, rest: Seq<u8>)
    requires
        pairs_fit(pairs),
    ensures
        parse_pairs(write_pairs(pairs) + rest) == Read::Ok((pairs, rest)),
        parse_payload_fields(write_payload(pairs) + rest) == Read::Ok((pairs, rest)),
{
    let version = wire::be_bytes(STORE_PAYLOAD_VERSION as nat, 4);
    let count = wire::be_bytes(pairs.len(), 4);
    let run = layout::write_run(pair_writer(), pairs);
    lemma_pair_layout();
    layout::lemma_run_reads_written(pair_parser(), pair_writer(), pair_fits(), pairs, rest);
    lemma_u32_layout(pairs.len() as u32, run + rest, rest);
    assert(write_pairs(pairs) + rest =~= count + (run + rest));
    lemma_u32_layout(STORE_PAYLOAD_VERSION, write_pairs(pairs) + rest, rest);
    assert(write_payload(pairs) + rest =~= version + (write_pairs(pairs) + rest));
}

/// **Store payloads read back.** Reading a byte-store payload gives the pairs
/// that were written into it, and a payload that bytes follow is refused for
/// them.
pub proof fn law_payload_reads_back(pairs: Seq<(Seq<u8>, Seq<u8>)>, extra: Seq<u8>)
    requires
        pairs_fit(pairs),
    ensures
        parse_payload(write_payload(pairs)) == Ok::<Seq<(Seq<u8>, Seq<u8>)>, SnapshotFault>(pairs),
        extra.len() > 0 ==> parse_payload(write_payload(pairs) + extra) == Err::<
            Seq<(Seq<u8>, Seq<u8>)>,
            SnapshotFault,
        >(SnapshotFault::Trailing),
{
    lemma_pairs_front(pairs, extra);
    lemma_pairs_front(pairs, Seq::empty());
    assert(write_payload(pairs) + Seq::<u8>::empty() =~= write_payload(pairs));
}

/// **One byte string per store payload.** Bytes that are accepted as a
/// byte-store payload are the payload of the pairs that they are read as.
pub proof fn law_payload_was_written(d: Seq<u8>)
    requires
        parse_payload(d) is Ok,
    ensures
        pairs_fit(parse_payload(d)->Ok_0),
        d == write_payload(parse_payload(d)->Ok_0),
{
    let pairs = parse_payload(d)->Ok_0;
    let (_, a) = parse_u32(d)->Ok_0;
    let (count, b) = parse_u32(a)->Ok_0;
    lemma_pair_layout();
    lemma_u32_layout(0, d, d);
    lemma_u32_layout(0, d, a);
    layout::lemma_run_was_written(pair_parser(), pair_writer(), pair_fits(), count as nat, b);
    assert(d =~= write_payload(pairs));
}

proof fn lemma_bytes_shortened(count: nat, d: Seq<u8>, n: int)
    requires
        0 <= n <= d.len(),
    ensures
        layout::shortened(
            parse_bytes(count, d),
            parse_bytes(count, d.take(n)),
            d.len(),
            n,
            SnapshotFault::Truncated,
        ),
{
    if count <= n {
        assert(d.take(n).take(count as int) =~= d.take(count as int));
        assert(d.take(n).skip(count as int) =~= d.skip(count as int).take(n - count));
    }
}

proof fn lemma_sized_shortened(d: Seq<u8>, n: int)
    requires
        0 <= n <= d.len(),
    ensures
        layout::shortened(
            parse_sized(d),
            parse_sized(d.take(n)),
            d.len(),
            n,
            SnapshotFault::Truncated,
        ),
{
    lemma_bytes_shortened(4, d, n);
    if let Ok((length, rest)) = parse_u32(d) {
        if n >= d.len() - rest.len() {
            lemma_bytes_shortened(length as nat, rest, n - (d.len() - rest.len()));
        }
    }
}

proof fn lemma_entry_shortened(d: Seq<u8>, n: int)
    requires
        0 <= n <= d.len(),
    ensures
        layout::shortened(
            entry_parser()(d),
            entry_parser()(d.take(n)),
            d.len(),
            n,
            SnapshotFault::Truncated,
        ),
{
    lemma_sized_shortened(d, n);
    if let Ok((_, rest)) = parse_sized(d) {
        if n >= d.len() - rest.len() {
            lemma_sized_shortened(rest, n - (d.len() - rest.len()));
        }
    }
}

proof fn lemma_pair_shortened(d: Seq<u8>, n: int)
    requires
        0 <= n <= d.len(),
    ensures
        layout::shortened(
            pair_parser()(d),
            pair_parser()(d.take(n)),
            d.len(),
            n,
            SnapshotFault::Truncated,
        ),
{
    lemma_sized_shortened(d, n);
    if let Ok((_, rest)) = parse_sized(d) {
        if n >= d.len() - rest.len() {
            lemma_sized_shortened(rest, n - (d.len() - rest.len()));
        }
    }
}

/// **Short containers are refused.** Every proper prefix of a container is
/// refused as truncated.
pub proof fn law_short_container_is_truncated(d: Seq<u8>, n: int)
    requires
        parse_container(d) is Ok,
        0 <= n < d.len(),
    ensures
        parse_container(d.take(n)) == Err::<Seq<(Seq<char>, Seq<u8>)>, SnapshotFault>(
            SnapshotFault::Truncated,
        ),
{
    let (_, a) = parse_u32(d)->Ok_0;
    let (count, b) = parse_u32(a)->Ok_0;
    lemma_bytes_shortened(4, d, n);
    let na = n - (d.len() - a.len());
    if na >= 0 {
        lemma_bytes_shortened(4, a, na);
        let nb = na - (a.len() - b.len());
        if nb >= 0 {
            assert forall|d: Seq<u8>, n: int| 0 <= n <= d.len() implies #[trigger] layout::shortened(
                entry_parser()(d),
                entry_parser()(d.take(n)),
                d.len(),
                n,
                SnapshotFault::Truncated,
            ) by {
                lemma_entry_shortened(d, n);
            }
            layout::lemma_run_shortened(
                entry_parser(),
                count as nat,
                b,
                nb,
                SnapshotFault::Truncated,
            );
        }
    }
}

/// **Short store payloads are refused.** Every proper prefix of a byte-store
/// payload is refused as truncated.
pub proof fn law_short_payload_is_truncated(d: Seq<u8>, n: int)
    requires
        parse_payload(d) is Ok,
        0 <= n < d.len(),
    ensures
        parse_payload(d.take(n)) == Err::<Seq<(Seq<u8>, Seq<u8>)>, SnapshotFault>(
            SnapshotFault::Truncated,
        ),
{
    let (_, a) = parse_u32(d)->Ok_0;
    let (count, b) = parse_u32(a)->Ok_0;
    lemma_bytes_shortened(4, d, n);
    let na = n - (d.len() - a.len());
    if na >= 0 {
        lemma_bytes_shortened(4, a, na);
        let nb = na - (a.len() - b.len());
        if nb >= 0 {
            assert forall|d: Seq<u8>, n: int| 0 <= n <= d.len() implies #[trigger] layout::shortened(
                pair_parser()(d),
                pair_parser()(d.take(n)),
                d.len(),
                n,
                SnapshotFault::Truncated,
            ) by {
                lemma_pair_shortened(d, n);
            }
            layout::lemma_run_shortened(
                pair_parser(),
                count as nat,
                b,
                nb,
                SnapshotFault::Truncated,
            );
        }
    }
}

} // verus!
