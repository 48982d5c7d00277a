//! The bytes of snapshots and of store payloads, and what is made of them.

use bytes::Bytes;
use vstd::prelude::*;
use vstd::utf8;

use crate::buffer;
use crate::collections::ordered_map;
use crate::collections::OrderedKey;
use crate::error::ErrorView;
use crate::laws::numbers;
use crate::laws::order;
use crate::laws::records;
use crate::layout;
use crate::store::container;
use crate::store::container::SnapshotFault;
use crate::store::restore;
use crate::store::restore::{RestoreStep, StepView};
use crate::store::snapshot;
use crate::store::snapshot::TaskSnapshot;
use crate::store::stores;
use crate::store::stores::{FileRead, FileReadView};
use crate::wire;

verus! {

/// Bytes behind how many there are.
pub open spec fn sized_bytes(bytes: Seq<u8>) -> Seq<u8> {
    numbers::four(bytes.len() as int) + bytes
}

/// The bytes of entries, one after the other.
pub open spec fn entries_bytes(entries: Seq<(Seq<char>, Seq<u8>)>) -> Seq<u8>
    decreases entries.len(),
{
    if entries.len() == 0 {
        Seq::empty()
    } else {
        sized_bytes(utf8::encode_utf8(entries[0].0)) + sized_bytes(entries[0].1) + entries_bytes(
            entries.drop_first(),
        )
    }
}

/// The bytes of a container.
pub open spec fn container_bytes(entries: Seq<(Seq<char>, Seq<u8>)>) -> Seq<u8> {
    seq![0u8, 0u8, 0u8, 1u8] + numbers::four(entries.len() as int) + entries_bytes(entries)
}

/// The bytes of key-value pairs, one after the other.
pub open spec fn pairs_bytes(pairs: Seq<(Seq<u8>, Seq<u8>)>) -> Seq<u8>
    decreases pairs.len(),
{
    if pairs.len() == 0 {
        Seq::empty()
    } else {
        sized_bytes(pairs[0].0) + sized_bytes(pairs[0].1) + pairs_bytes(pairs.drop_first())
    }
}

/// The bytes of a byte-store payload.
pub open spec fn payload_bytes(pairs: Seq<(Seq<u8>, Seq<u8>)>) -> Seq<u8> {
    seq![0u8, 0u8, 0u8, 1u8] + numbers::four(pairs.len() as int) + pairs_bytes(pairs)
}

/// Whether entries fit their count and length fields.
pub open spec fn entries_countable(entries: Seq<(Seq<char>, Seq<u8>)>) -> bool {
    &&& entries.len() <= 4294967295
    &&& forall|i: int|
        0 <= i < entries.len() ==> utf8::encode_utf8((#[trigger] entries[i]).0).len() <= 4294967295
            && entries[i].1.len() <= 4294967295
}

/// Whether pairs fit their count and length fields.
pub open spec fn pairs_countable(pairs: Seq<(Seq<u8>, Seq<u8>)>) -> bool {
    &&& pairs.len() <= 4294967295
    &&& forall|i: int|
        0 <= i < pairs.len() ==> (#[trigger] pairs[i]).0.len() <= 4294967295 && pairs[i].1.len()
            <= 4294967295
}

/// **Bytes are written behind how many there are.**
pub proof fn law_sized_bytes_are_written(bytes: Seq<u8>)
    requires
        bytes.len() <= 4294967295,
    ensures
        container::write_sized(bytes) == sized_bytes(bytes),
{
    numbers::law_numbers_are_written_big_endian(bytes.len() as int);
}

pub proof fn lemma_entries_bytes(entries: Seq<(Seq<char>, Seq<u8>)>)
    requires
        entries_countable(entries),
    ensures
        layout::write_run(container::entry_writer(), entries) == entries_bytes(entries),
    decreases entries.len(),
{
    if entries.len() > 0 {
        let rest = entries.drop_first();
        assert forall|i: int| 0 <= i < rest.len() implies utf8::encode_utf8(
            (#[trigger] rest[i]).0,
        ).len() <= 4294967295 && rest[i].1.len() <= 4294967295 by {
            assert(rest[i] == entries[i + 1]);
        }
        assert(utf8::encode_utf8(entries[0].0).len() <= 4294967295);
        records::lemma_run_starts(container::entry_writer(), entries);
        lemma_entries_bytes(rest);
        law_sized_bytes_are_written(utf8::encode_utf8(entries[0].0));
        law_sized_bytes_are_written(entries[0].1);
        assert(container::entry_writer()(entries[0]) == sized_bytes(
            utf8::encode_utf8(entries[0].0),
        ) + sized_bytes(entries[0].1));
    }
}

pub proof fn lemma_pairs_bytes(pairs: Seq<(Seq<u8>, Seq<u8>)>)
    requires
        pairs_countable(pairs),
    ensures
        layout::write_run(container::pair_writer(), pairs) == pairs_bytes(pairs),
    decreases pairs.len(),
{
    if pairs.len() > 0 {
        let rest = pairs.drop_first();
        assert forall|i: int| 0 <= i < rest.len() implies (#[trigger] rest[i]).0.len() <= 4294967295
            && rest[i].1.len() <= 4294967295 by {
            assert(rest[i] == pairs[i + 1]);
        }
        assert(pairs[0].0.len() <= 4294967295);
        records::lemma_run_starts(container::pair_writer(), pairs);
        lemma_pairs_bytes(rest);
        law_sized_bytes_are_written(pairs[0].0);
        law_sized_bytes_are_written(pairs[0].1);
        assert(container::pair_writer()(pairs[0]) == sized_bytes(pairs[0].0) + sized_bytes(
            pairs[0].1,
        ));
    }
}

pub proof fn lemma_version_bytes()
    ensures
        wire::be_bytes(1, 4) == seq![0u8, 0u8, 0u8, 1u8],
{
    numbers::law_numbers_are_written_big_endian(1);
    assert(numbers::four(1) =~= seq![0u8, 0u8, 0u8, 1u8]);
}

/// **A container is its version, its count, and its entries**, each entry a name
/// and a payload behind their lengths. Reading it gives the entries back, and
/// bytes behind them are refused.
pub proof fn law_container_is_its_entries(entries: Seq<(Seq<char>, Seq<u8>)>, extra: Seq<u8>)
    ensures
        container::entries_fit(entries) <==> entries_countable(entries),
        entries_countable(entries) ==> container::write_container(entries) == container_bytes(
            entries,
        ),
        entries_countable(entries) ==> container::parse_container(container_bytes(entries)) == Ok::<
            Seq<(Seq<char>, Seq<u8>)>,
            SnapshotFault,
        >(entries),
        entries_countable(entries) && extra.len() > 0 ==> container::parse_container(
            container_bytes(entries) + extra,
        ) == Err::<Seq<(Seq<char>, Seq<u8>)>, SnapshotFault>(SnapshotFault::Trailing),
{
    if container::entries_fit(entries) {
        assert forall|i: int| 0 <= i < entries.len() implies utf8::encode_utf8(
            (#[trigger] entries[i]).0,
        ).len() <= 4294967295 && entries[i].1.len() <= 4294967295 by {
            assert(container::entry_fits()(entries[i]));
        }
    }
    if entries_countable(entries) {
        assert forall|i: int| 0 <= i < entries.len() implies container::entry_fits()(
            #[trigger] entries[i],
        ) by {
            assert(utf8::encode_utf8(entries[i].0).len() <= 4294967295);
        }
        lemma_version_bytes();
        numbers::law_numbers_are_written_big_endian(entries.len() as int);
        lemma_entries_bytes(entries);
        assert(container::write_container(entries) =~= container_bytes(entries));
        container::law_container_reads_back(entries, extra);
    }
}

/// **A payload is its version, its count, and its pairs**, each pair a key and a
/// value behind their lengths. Reading it gives the pairs back, and bytes behind
/// them are refused.
pub proof fn law_payload_is_its_pairs(pairs: Seq<(Seq<u8>, Seq<u8>)>, extra: Seq<u8>)
    ensures
        container::pairs_fit(pairs) <==> pairs_countable(pairs),
        pairs_countable(pairs) ==> container::write_payload(pairs) == payload_bytes(pairs),
        pairs_countable(pairs) ==> container::write_pairs(pairs) == numbers::four(
            pairs.len() as int,
        ) + pairs_bytes(pairs),
        pairs_countable(pairs) ==> container::parse_payload(payload_bytes(pairs)) == Ok::<
            Seq<(Seq<u8>, Seq<u8>)>,
            SnapshotFault,
        >(pairs),
        pairs_countable(pairs) && extra.len() > 0 ==> container::parse_payload(
            payload_bytes(pairs) + extra,
        ) == Err::<Seq<(Seq<u8>, Seq<u8>)>, SnapshotFault>(SnapshotFault::Trailing),
{
    if container::pairs_fit(pairs) {
        assert forall|i: int| 0 <= i < pairs.len() implies (#[trigger] pairs[i]).0.len()
            <= 4294967295 && pairs[i].1.len() <= 4294967295 by {
            assert(container::pair_fits()(pairs[i]));
        }
    }
    if pairs_countable(pairs) {
        assert forall|i: int| 0 <= i < pairs.len() implies container::pair_fits()(
            #[trigger] pairs[i],
        ) by {
            assert(pairs[i].0.len() <= 4294967295);
        }
        lemma_version_bytes();
        numbers::law_numbers_are_written_big_endian(pairs.len() as int);
        lemma_pairs_bytes(pairs);
        assert(container::write_payload(pairs) =~= payload_bytes(pairs));
        container::law_payload_reads_back(pairs, extra);
    }
}

/// Whether one name stands before another in the order of their UTF-8 bytes: at
/// the first place where they differ, the one ends or has the smaller byte.
pub open spec fn stands_before(a: Seq<char>, b: Seq<char>) -> bool {
    let x = utf8::encode_utf8(a);
    let y = utf8::encode_utf8(b);
    exists|n: int|
        0 <= n <= x.len() && n < y.len() && #[trigger] order::agree_before(x, y, n) && (n == x.len()
            || (x[n] as int) < (y[n] as int))
}

/// **A container lists each store once, by the UTF-8 bytes of the names.** Of
/// two entries, the earlier one has the smaller byte at the first place where
/// the names differ, or ends there. Each entry is a store of the snapshot with
/// its payload, and each store has an entry.
pub proof fn law_container_lists_stores_in_byte_order(
    snapshot: Map<Seq<char>, Seq<u8>>,
    i: int,
    j: int,
    name: Seq<char>,
)
    requires
        snapshot.dom().finite(),
    ensures
        ({
            let entries = container::listing(snapshot);
            &&& 0 <= i < j < entries.len() ==> stands_before(entries[i].0, entries[j].0)
            &&& 0 <= i < entries.len() ==> snapshot.dom().contains(entries[i].0)
                && snapshot[entries[i].0] == entries[i].1
            &&& snapshot.dom().contains(name) ==> exists|k: int|
                0 <= k < entries.len() && (#[trigger] entries[k]).0 == name
            &&& entries.len() == snapshot.dom().len()
            &&& entries_countable(entries) ==> container::container_of(snapshot)
                == container_bytes(entries)
        }),
{
    let entries = container::listing(snapshot);
    container::law_snapshot_has_a_listing(snapshot);
    law_container_is_its_entries(entries, Seq::empty());
    ordered_map::lemma_ascending_distinct::<String, Seq<u8>>(entries);
    ordered_map::lemma_map_of_dom(entries);
    ordered_map::lemma_map_of_index(entries);
    ordered_map::lemma_map_of_len(entries);
    if 0 <= i < j < entries.len() {
        assert(String::precedes(entries[i].0, entries[j].0));
        order::law_keys_are_ordered_by_value(entries[i].0, entries[j].0, 0, 0, 0, 0);
    }
    if snapshot.dom().contains(name) {
        let k = choose|k: int| 0 <= k < entries.len() && #[trigger] entries[k].0 == name;
        assert(entries[k].0 == name);
    }
}

/// **Entries in byte order are the ones that a container lists.** So two
/// snapshots that hold the same have the same container.
pub proof fn law_entries_in_byte_order_are_listed(
    entries: Seq<(Seq<char>, Seq<u8>)>,
    snapshot: Map<Seq<char>, Seq<u8>>,
)
    requires
        forall|i: int, j: int|
            0 <= i < j < entries.len() ==> stands_before(
                (#[trigger] entries[i]).0,
                (#[trigger] entries[j]).0,
            ),
        forall|i: int|
            0 <= i < entries.len() ==> snapshot.dom().contains((#[trigger] entries[i]).0)
                && snapshot[entries[i].0] == entries[i].1,
        forall|name: Seq<char>| #[trigger]
            snapshot.dom().contains(name) ==> exists|k: int|
                0 <= k < entries.len() && (#[trigger] entries[k]).0 == name,
    ensures
        container::listing(snapshot) == entries,
{
    assert forall|i: int, j: int| 0 <= i < j < entries.len() implies #[trigger] String::precedes(
        entries[i].0,
        entries[j].0,
    ) by {
        assert(stands_before(entries[i].0, entries[j].0));
        order::law_keys_are_ordered_by_value(entries[i].0, entries[j].0, 0, 0, 0, 0);
    }
    assert(ordered_map::ascending::<String, Seq<u8>>(entries));
    ordered_map::lemma_ascending_distinct::<String, Seq<u8>>(entries);
    ordered_map::lemma_map_of_dom(entries);
    ordered_map::lemma_map_of_index(entries);
    assert forall|name: Seq<char>|
        ordered_map::map_of(entries).dom().contains(name) <==> snapshot.dom().contains(name) by {
        if snapshot.dom().contains(name) {
            let k = choose|k: int| 0 <= k < entries.len() && (#[trigger] entries[k]).0 == name;
            assert(entries[k].0 == name);
        }
        if ordered_map::map_of(entries).dom().contains(name) {
            let k = choose|k: int| 0 <= k < entries.len() && #[trigger] entries[k].0 == name;
            assert(snapshot.dom().contains(entries[k].0));
        }
    }
    assert forall|name: Seq<char>| #[trigger]
        snapshot.dom().contains(name) implies ordered_map::map_of(entries)[name]
        == snapshot[name] by {
        let k = choose|k: int| 0 <= k < entries.len() && (#[trigger] entries[k]).0 == name;
        assert(snapshot[entries[k].0] == entries[k].1);
    }
    assert(ordered_map::map_of(entries) =~= snapshot);
    container::law_listing_is_unique(entries, snapshot);
}

/// **A snapshot can be encoded exactly when its counts and lengths fit their
/// fields and half of the largest allocation holds its bytes**, and likewise the
/// entries of a store.
pub proof fn law_what_can_be_encoded(
    snapshot: Map<Seq<char>, Seq<u8>>,
    pairs: Seq<(Seq<u8>, Seq<u8>)>,
)
    ensures
        snapshot::has_container(snapshot) <==> entries_countable(container::listing(snapshot))
            && 2 * container_bytes(container::listing(snapshot)).len() <= isize::MAX,
        snapshot::has_payload(pairs) <==> pairs_countable(pairs) && 2 * payload_bytes(pairs).len()
            <= isize::MAX,
{
    law_container_is_its_entries(container::listing(snapshot), Seq::empty());
    law_payload_is_its_pairs(pairs, Seq::empty());
}

/// **A snapshot and the entries of a store say what they hold.**
pub proof fn law_snapshots_say_what_they_hold(
    task: TaskSnapshot,
    name: Seq<char>,
    pairs: Seq<(Bytes, Bytes)>,
    entries: Seq<(Seq<char>, Bytes)>,
    i: int,
)
    ensures
        snapshot::snapshot_of(task).dom().contains(name) <==> task@.dom().contains(name),
        task@.dom().contains(name) ==> snapshot::snapshot_of(task)[name] == buffer::contents(
            task@[name],
        ),
        snapshot::plain_pairs(pairs).len() == pairs.len(),
        0 <= i < pairs.len() ==> snapshot::plain_pairs(pairs)[i] == (
            buffer::contents(pairs[i].0),
            buffer::contents(pairs[i].1),
        ),
        snapshot::plain_entries(entries).len() == entries.len(),
        0 <= i < entries.len() ==> snapshot::plain_entries(entries)[i] == (
            entries[i].0,
            buffer::contents(entries[i].1),
        ),
{
}

/// **A restore clears first and then puts each pair in turn.**
pub proof fn law_restore_clears_and_puts(
    pairs: Seq<(Seq<u8>, Seq<u8>)>,
    steps: Seq<RestoreStep>,
    key: Bytes,
    value: Bytes,
    i: int,
)
    ensures
        restore::steps_for(pairs).len() == pairs.len() + 1,
        restore::steps_for(pairs)[0] == StepView::Clear,
        0 <= i < pairs.len() ==> restore::steps_for(pairs)[i + 1] == StepView::Put(
            pairs[i].0,
            pairs[i].1,
        ),
        restore::plain_steps(steps).len() == steps.len(),
        0 <= i < steps.len() ==> restore::plain_steps(steps)[i] == steps[i]@,
        RestoreStep::Clear@ == StepView::Clear,
        RestoreStep::Put(key, value)@ == StepView::Put(
            buffer::contents(key),
            buffer::contents(value),
        ),
{
}

/// **A restored store holds what each key was last bound to.** Whatever it held
/// before, it has a key exactly when some pair has, and the last such pair gives
/// its value.
pub proof fn law_restored_store_holds_the_pairs(
    state: Map<Seq<u8>, Seq<u8>>,
    pairs: Seq<(Seq<u8>, Seq<u8>)>,
    key: Seq<u8>,
    i: int,
)
    ensures
        restore::after_steps(state, restore::steps_for(pairs)).dom().contains(key) <==> (exists|
            j: int,
        |
            0 <= j < pairs.len() && (#[trigger] pairs[j]).0 == key),
        0 <= i < pairs.len() && pairs[i].0 == key && (forall|j: int|
            i < j < pairs.len() ==> (#[trigger] pairs[j]).0 != key) ==> restore::after_steps(
            state,
            restore::steps_for(pairs),
        )[key] == pairs[i].1,
{
    restore::law_restore_replaces_everything(state, pairs);
    order::law_map_holds_the_last_entries(pairs, key, i);
}

/// **A load answers with what the file holds.** Bytes that are a container give
/// its entries, the last one of each name. Other bytes are refused with their
/// fault. No file gives no snapshot, and a file that cannot be read gives the
/// reason.
pub proof fn law_load_answers_with_the_file(
    task: Seq<char>,
    data: Seq<u8>,
    reason: Seq<char>,
    entries: Seq<(Seq<char>, Seq<u8>)>,
    i: int,
    name: Seq<char>,
)
    ensures
        entries_countable(entries) ==> (stores::load_answer(
            task,
            FileReadView::Data(container_bytes(entries)),
        ) matches Ok(Some(held)) && {
            &&& held.dom().contains(name) <==> exists|j: int|
                0 <= j < entries.len() && (#[trigger] entries[j]).0 == name
            &&& 0 <= i < entries.len() && entries[i].0 == name && (forall|j: int|
                i < j < entries.len() ==> (#[trigger] entries[j]).0 != name) ==> held[name]
                == entries[i].1
        }),
        container::parse_container(data) matches Err(fault) ==> stores::load_answer(
            task,
            FileReadView::Data(data),
        ) == Err::<Option<Map<Seq<char>, Seq<u8>>>, ErrorView>(container::fault_error(fault)),
        stores::load_answer(task, FileReadView::NotFound) == Ok::<
            Option<Map<Seq<char>, Seq<u8>>>,
            ErrorView,
        >(None),
        stores::load_answer(task, FileReadView::Failed(reason)) == Err::<
            Option<Map<Seq<char>, Seq<u8>>>,
            ErrorView,
        >(ErrorView::Snapshot("cannot load task "@ + task + " state: "@ + reason)),
{
    law_container_is_its_entries(entries, Seq::empty());
    order::law_map_holds_the_last_entries(entries, name, i);
}

/// **What came of reading a file is what was read.**
pub proof fn law_file_reads_say_what_was_read(data: Vec<u8>, reason: String)
    ensures
        FileRead::Data(data)@ == FileReadView::Data(data@),
        FileRead::NotFound@ == FileReadView::NotFound,
        FileRead::Failed(reason)@ == FileReadView::Failed(reason@),
{
}

/// **Fields of a snapshot are read off its front.** A field that the bytes do
/// not reach the end of is reported as truncated.
pub proof fn law_snapshot_fields_are_read(d: Seq<u8>)
    ensures
        container::parse_u8(d) == (if d.len() < 1 {
            Err::<(u8, Seq<u8>), SnapshotFault>(SnapshotFault::Truncated)
        } else {
            Ok::<(u8, Seq<u8>), SnapshotFault>((d[0], d.skip(1)))
        }),
        container::parse_u32(d) == (if d.len() < 4 {
            Err::<(u32, Seq<u8>), SnapshotFault>(SnapshotFault::Truncated)
        } else {
            Ok::<(u32, Seq<u8>), SnapshotFault>((numbers::u32_at(d, 0) as u32, d.skip(4)))
        }),
        container::parse_u64(d) == (if d.len() < 8 {
            Err::<(u64, Seq<u8>), SnapshotFault>(SnapshotFault::Truncated)
        } else {
            Ok::<(u64, Seq<u8>), SnapshotFault>((numbers::u64_at(d, 0) as u64, d.skip(8)))
        }),
        container::parse_i64(d) == (if d.len() < 8 {
            Err::<(i64, Seq<u8>), SnapshotFault>(SnapshotFault::Truncated)
        } else {
            Ok::<(i64, Seq<u8>), SnapshotFault>((numbers::i64_at(d, 0) as i64, d.skip(8)))
        }),
{
    if d.len() >= 4 {
        numbers::law_numbers_are_read_big_endian(d.take(4));
        assert(numbers::u32_at(d.take(4), 0) == numbers::u32_at(d, 0));
    }
    if d.len() >= 8 {
        numbers::law_numbers_are_read_big_endian(d.take(8));
        assert(numbers::u64_at(d.take(8), 0) == numbers::u64_at(d, 0));
    }
}

} // verus!
