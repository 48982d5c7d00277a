//! The order of names and of partitions, byte by byte.

use vstd::prelude::*;
use vstd::utf8;

use crate::collections::order;
use crate::collections::ordered_map;
use crate::collections::OrderedKey;
use crate::position;
use crate::position::TopicPartition;

verus! {

/// Whether two byte strings agree before a place.
pub open spec fn agree_before(a: Seq<u8>, b: Seq<u8>, n: int) -> bool {
    forall|i: int| 0 <= i < n ==> a[i] == b[i]
}

/// **Byte strings are ordered by their bytes.** The first place where they differ
/// decides, and the smaller byte stands first. A proper prefix stands first.
pub proof fn law_bytes_are_ordered_by_value(a: Seq<u8>, b: Seq<u8>, n: int)
    ensures
        0 <= n < a.len() && n < b.len() && agree_before(a, b, n) && (a[n] as int) < (b[n] as int)
            ==> order::lex_before(a, b) && !order::lex_before(b, a),
        a.len() < b.len() && agree_before(a, b, a.len() as int) ==> order::lex_before(a, b)
            && !order::lex_before(b, a),
        order::lex_before(a, b) ==> (exists|m: int|
            0 <= m <= a.len() && m < b.len() && #[trigger] agree_before(a, b, m) && (m < a.len()
                ==> (a[m] as int) < (b[m] as int))),
{
    if 0 <= n < a.len() && n < b.len() && agree_before(a, b, n) && (a[n] as int) < (b[n] as int) {
        assert(order::splits_at(a, b, n));
        if order::lex_before(b, a) {
            let m = choose|m: int| order::splits_at(b, a, m);
            assert(false);
        }
    }
    if a.len() < b.len() && agree_before(a, b, a.len() as int) {
        assert(order::splits_at(a, b, a.len() as int));
        if order::lex_before(b, a) {
            let m = choose|m: int| order::splits_at(b, a, m);
            assert(false);
        }
    }
    if order::lex_before(a, b) {
        let m = choose|m: int| order::splits_at(a, b, m);
        assert(agree_before(a, b, m));
    }
}

/// **Names are ordered by their UTF-8 bytes**, and numbers by value.
pub proof fn law_keys_are_ordered_by_value(a: Seq<char>, b: Seq<char>, x: i32, y: i32, p: i64, q: i64)
    ensures
        String::precedes(a, b) <==> (exists|m: int|
            0 <= m <= utf8::encode_utf8(a).len() && m < utf8::encode_utf8(b).len()
                && #[trigger] agree_before(utf8::encode_utf8(a), utf8::encode_utf8(b), m) && (m
                < utf8::encode_utf8(a).len() ==> (utf8::encode_utf8(a)[m] as int) < (
            utf8::encode_utf8(b)[m] as int))),
        i32::precedes(x, y) <==> (x as int) < (y as int),
        i64::precedes(p, q) <==> (p as int) < (q as int),
{
    let ab = utf8::encode_utf8(a);
    let bb = utf8::encode_utf8(b);
    law_bytes_are_ordered_by_value(ab, bb, 0);
    if exists|m: int|
        0 <= m <= ab.len() && m < bb.len() && #[trigger] agree_before(ab, bb, m) && (m < ab.len()
            ==> (ab[m] as int) < (bb[m] as int)) {
        let m = choose|m: int|
            0 <= m <= ab.len() && m < bb.len() && #[trigger] agree_before(ab, bb, m) && (m
                < ab.len() ==> (ab[m] as int) < (bb[m] as int));
        law_bytes_are_ordered_by_value(ab, bb, m);
    }
}

/// **Partitions are ordered by topic and then by number.**
pub proof fn law_partitions_are_ordered_by_topic_and_number(
    a: (Seq<char>, i32),
    b: (Seq<char>, i32),
)
    ensures
        TopicPartition::precedes(a, b) == position::partition_before(a, b),
        a.0 == b.0 ==> (position::partition_before(a, b) <==> (a.1 as int) < (b.1 as int)),
        a.0 != b.0 ==> (position::partition_before(a, b) <==> String::precedes(a.0, b.0)),
        a.0 != b.0 ==> (position::partition_before(a, b) <==> !position::partition_before(b, a)),
{
    String::lemma_irreflexive(a.0);
    order::lemma_name_connected(a.0, b.0);
    if String::precedes(a.0, b.0) && String::precedes(b.0, a.0) {
        String::lemma_transitive(a.0, b.0, a.0);
    }
}

/// **Entries of an ordered map ascend**: the names of earlier entries stand
/// before those of later ones, byte by byte.
pub proof fn law_entries_ascend_by_value<V>(
    names: Seq<(Seq<char>, V)>,
    numbers: Seq<(i64, V)>,
    i: int,
    j: int,
)
    requires
        0 <= i < j,
    ensures
        ordered_map::ascending::<String, V>(names) && j < names.len() ==> (exists|m: int|
            0 <= m <= utf8::encode_utf8(names[i].0).len() && m < utf8::encode_utf8(names[j].0).len()
                && #[trigger] agree_before(
                utf8::encode_utf8(names[i].0),
                utf8::encode_utf8(names[j].0),
                m,
            ) && (m < utf8::encode_utf8(names[i].0).len() ==> (utf8::encode_utf8(
                names[i].0,
            )[m] as int) < (utf8::encode_utf8(names[j].0)[m] as int))),
        ordered_map::ascending::<i64, V>(numbers) && j < numbers.len() ==> (numbers[i].0 as int) < (
        numbers[j].0 as int),
{
    if ordered_map::ascending::<String, V>(names) && j < names.len() {
        assert(String::precedes(names[i].0, names[j].0));
        law_keys_are_ordered_by_value(names[i].0, names[j].0, 0, 0, 0, 0);
    }
    if ordered_map::ascending::<i64, V>(numbers) && j < numbers.len() {
        assert(i64::precedes(numbers[i].0, numbers[j].0));
    }
}

/// **A map holds the last entry of each key, and no other key.**
pub proof fn law_map_holds_the_last_entries<A, V>(entries: Seq<(A, V)>, key: A, i: int)
    ensures
        ordered_map::map_of(entries).dom().contains(key) <==> (exists|j: int|
            0 <= j < entries.len() && (#[trigger] entries[j]).0 == key),
        0 <= i < entries.len() && entries[i].0 == key && (forall|j: int|
            i < j < entries.len() ==> (#[trigger] entries[j]).0 != key) ==> ordered_map::map_of(
            entries,
        )[key] == entries[i].1,
{
    ordered_map::lemma_map_of_dom(entries);
    if ordered_map::map_of(entries).dom().contains(key) {
        let j = choose|j: int| 0 <= j < entries.len() && #[trigger] entries[j].0 == key;
        assert(entries[j].0 == key);
    }
    if exists|j: int| 0 <= j < entries.len() && (#[trigger] entries[j]).0 == key {
        let j = choose|j: int| 0 <= j < entries.len() && (#[trigger] entries[j]).0 == key;
        assert(entries[j].0 == key);
    }
    if 0 <= i < entries.len() && entries[i].0 == key && (forall|j: int|
        i < j < entries.len() ==> (#[trigger] entries[j]).0 != key) {
        ordered_map::lemma_map_of_last(entries, i);
    }
}

/// **A position names what it binds.**
pub proof fn law_position_gives_what_it_binds(
    position: Map<Seq<char>, Map<i32, i64>>,
    topic: Seq<char>,
    partition: i32,
)
    ensures
        position::names(position, (topic, partition)) <==> position.dom().contains(topic)
            && position[topic].dom().contains(partition),
        position::offset_in(position, (topic, partition)) == (if position.dom().contains(topic)
            && position[topic].dom().contains(partition) {
            Some(position[topic][partition])
        } else {
            None::<i64>
        }),
{
}

} // verus!
