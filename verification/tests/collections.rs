//! The ordered collections, and the numbers and texts that the layouts use.

use krabka_barrier::collections::{OrderedKey, OrderedMap, OrderedSet, Placement};
use krabka_barrier::text::{ascii_text, push_decimal};
use krabka_barrier::wire::{read_i16, read_i32, read_i64, read_i8, read_nat, read_u32};
use krabka_barrier::{Position, TopicPartition};

fn keys(map: &OrderedMap<String, i32>) -> Vec<String> {
    (0..map.len()).map(|i| map.key_at(i).clone()).collect()
}

#[test]
fn a_map_keeps_its_keys_in_byte_order() {
    let mut map: OrderedMap<String, i32> = OrderedMap::new();
    assert!(map.is_empty());
    for (i, key) in ["b", "", "\u{e9}", "a", "ab", "Z"].iter().enumerate() {
        assert_eq!(map.insert((*key).to_owned(), i32::try_from(i).unwrap()), None);
    }
    assert_eq!(keys(&map), vec!["", "Z", "a", "ab", "b", "\u{e9}"]);
    assert_eq!(map.insert("a".to_owned(), 40), Some(3));
    assert_eq!(map.get("a"), Some(&40));
    assert_eq!(map.get("aa"), None);
    assert_eq!(map.find("ab"), Some(3));
    assert_eq!(map.lower_bound("aa"), 3);
    assert_eq!(*map.value_at(2), 40);
    assert_eq!(map.clone(), map);
    assert_eq!(map.remove("a"), Some(40));
    assert_eq!(map.remove("a"), None);
    assert_eq!(map.len(), 5);
}

#[test]
fn the_order_of_insertion_does_not_matter() {
    let mut forward: OrderedMap<i64, u8> = OrderedMap::new();
    let mut backward: OrderedMap<i64, u8> = OrderedMap::new();
    for i in 0..20u8 {
        forward.insert(i64::from(i) - 10, i);
        backward.insert(i64::from(19 - i) - 10, 19 - i);
    }
    assert_eq!(forward, backward);
    assert_eq!(*forward.key_at(0), -10);
}

#[test]
fn a_set_holds_each_member_once() {
    let mut set: OrderedSet<i32> = OrderedSet::new();
    assert!(set.is_empty());
    assert!(set.insert(3));
    assert!(set.insert(-3));
    assert!(!set.insert(3));
    assert_eq!(set.len(), 2);
    assert_eq!(*set.member_at(0), -3);
    assert!(set.contains(&3));
    assert!(!set.contains(&0));
    assert_eq!(set.clone(), set);
}

#[test]
fn partitions_order_by_topic_and_then_number() {
    let partition = |topic: &str, partition| TopicPartition { topic: topic.to_owned(), partition };
    assert_eq!(partition("a", 2).place(&partition("b", 1)), Placement::Before);
    assert_eq!(partition("a", 2).place(&partition("a", 1)), Placement::After);
    assert_eq!(partition("a", 2).place(&partition("a", 2)), Placement::Same);
    assert_eq!(partition("ab", 0).place(&partition("a", 9)), Placement::After);
}

#[test]
fn an_empty_position_names_nothing() {
    let position = Position::new();
    assert_eq!(position.offset("in", 0), None);
    assert_eq!(position.partitions(), vec![]);
    assert_eq!(position.clone(), position);
}

#[test]
fn numbers_read_as_std_writes_them() {
    for v in [i64::MIN, -1, 0, 1, 0x0102_0304_0506_0708, i64::MAX] {
        assert_eq!(read_i64(&v.to_be_bytes()), v);
    }
    for v in [i32::MIN, -2, 0, 0x0102_0304, i32::MAX] {
        assert_eq!(read_i32(&v.to_be_bytes()), v);
        assert_eq!(read_u32(&v.cast_unsigned().to_be_bytes()), v.cast_unsigned());
    }
    for v in [i16::MIN, -2, 0, 0x0102, i16::MAX] {
        assert_eq!(read_i16(&v.to_be_bytes()), v);
    }
    for v in [i8::MIN, -1, 0, i8::MAX] {
        assert_eq!(read_i8(&v.to_be_bytes()), v);
    }
    assert_eq!(read_nat(&u64::MAX.to_be_bytes()), u64::MAX);
    assert_eq!(read_nat(&[]), 0);
}

#[test]
fn decimals_are_written_as_std_writes_them() {
    for v in [i64::MIN, -100, -10, -1, 0, 9, 10, 12_340, i64::MAX] {
        let mut text = ascii_text(b"n=".to_vec());
        push_decimal(&mut text, v);
        assert_eq!(text, format!("n={v}"));
    }
}
