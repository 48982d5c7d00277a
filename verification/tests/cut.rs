//! Decoding of barrier state records into cuts.

use bytes::{BufMut, Bytes, BytesMut};
use krabka_barrier::collections::{OrderedMap, OrderedSet};
use krabka_barrier::{decode_barrier_cut, BarrierCut, CutStatus, Position, TopicPartition};

struct CutRecord {
    group: String,
    epoch: i64,
    triggered_at: i64,
    completed_at: i64,
    status: CutStatus,
    offsets: Vec<(&'static str, i32, i64)>,
    missing: Vec<(&'static str, i32)>,
}

impl CutRecord {
    fn simple(group: &str, epoch: i64, offsets: &[(&'static str, i32, i64)]) -> Self {
        Self {
            group: group.to_owned(),
            epoch,
            triggered_at: 1,
            completed_at: 2,
            status: CutStatus::Complete,
            offsets: offsets.to_vec(),
            missing: Vec::new(),
        }
    }

    fn expected(&self) -> BarrierCut {
        let mut missing = OrderedSet::new();
        for (topic, partition) in &self.missing {
            missing.insert(partition_of(topic, *partition));
        }
        BarrierCut {
            group: self.group.clone(),
            epoch: self.epoch,
            triggered_at: self.triggered_at,
            completed_at: self.completed_at,
            status: self.status,
            offsets: position(&self.offsets),
            missing,
        }
    }
}

fn partition_of(topic: &str, partition: i32) -> TopicPartition {
    TopicPartition { topic: topic.to_owned(), partition }
}

fn position(entries: &[(&'static str, i32, i64)]) -> Position {
    let mut map: OrderedMap<String, OrderedMap<i32, i64>> = OrderedMap::new();
    for (topic, partition, offset) in entries {
        let mut partitions = map.remove(topic).unwrap_or_else(OrderedMap::new);
        partitions.insert(*partition, *offset);
        map.insert((*topic).to_owned(), partitions);
    }
    Position(map)
}

fn put_string(buffer: &mut BytesMut, value: &str) {
    buffer.put_i16(i16::try_from(value.len()).unwrap());
    buffer.extend_from_slice(value.as_bytes());
}

fn key_of_kind(kind: i16, group: &str, epoch: i64) -> Bytes {
    let mut buffer = BytesMut::new();
    buffer.put_i16(0);
    buffer.put_i16(kind);
    put_string(&mut buffer, group);
    buffer.put_i64(epoch);
    buffer.freeze()
}

fn cut_key(record: &CutRecord) -> Bytes {
    key_of_kind(2, &record.group, record.epoch)
}

fn cut_value(record: &CutRecord) -> Bytes {
    let mut by_topic: std::collections::BTreeMap<&str, Vec<(i32, i64)>> =
        std::collections::BTreeMap::new();
    for (topic, partition, offset) in &record.offsets {
        by_topic.entry(topic).or_default().push((*partition, *offset));
    }
    let mut buffer = BytesMut::new();
    buffer.put_i16(0);
    buffer.put_i64(record.triggered_at);
    buffer.put_i64(record.completed_at);
    buffer.put_i8(record.status.code());
    buffer.put_i32(i32::try_from(by_topic.len()).unwrap());
    for (topic, partitions) in &by_topic {
        put_string(&mut buffer, topic);
        buffer.put_i32(i32::try_from(partitions.len()).unwrap());
        for (partition, offset) in partitions {
            buffer.put_i32(*partition);
            buffer.put_i64(*offset);
        }
    }
    buffer.put_i32(i32::try_from(record.missing.len()).unwrap());
    for (topic, partition) in &record.missing {
        put_string(&mut buffer, topic);
        buffer.put_i32(*partition);
    }
    buffer.freeze()
}

fn error_of(key: &[u8], value: Option<&[u8]>) -> String {
    match decode_barrier_cut(key, value) {
        Ok(cut) => panic!("decoded {cut:?}"),
        Err(error) => error.to_string(),
    }
}

#[test]
fn decodes_a_complete_cut_from_its_frozen_bytes() {
    let record = CutRecord {
        group: "transactions".to_owned(),
        epoch: 7,
        triggered_at: 100,
        completed_at: 140,
        status: CutStatus::Complete,
        offsets: vec![("orders", 0, 12), ("orders", 1, 5), ("payments", 0, 31)],
        missing: vec![],
    };
    let decoded =
        decode_barrier_cut(&cut_key(&record), Some(&cut_value(&record))).unwrap().unwrap();
    assert_eq!(decoded, record.expected());
}

#[test]
fn cut_decodes_a_partial_cut_with_its_missing_partitions() {
    let record = CutRecord {
        group: "transactions".to_owned(),
        epoch: 8,
        triggered_at: 200,
        completed_at: 260,
        status: CutStatus::Partial,
        offsets: vec![("orders", 0, 40)],
        missing: vec![("orders", 1)],
    };
    let decoded =
        decode_barrier_cut(&cut_key(&record), Some(&cut_value(&record))).unwrap().unwrap();
    assert_eq!(decoded, record.expected());
    assert!(!decoded.complete());
}

#[test]
fn skips_other_kinds_and_tombstones() {
    let record = CutRecord::simple("g", 3, &[("in", 0, 1)]);
    // Kind 0 is a group definition and kind 1 is an injection start.
    for kind in [0i16, 1] {
        let key = key_of_kind(kind, "g", 3);
        assert_eq!(decode_barrier_cut(&key, Some(&cut_value(&record))).unwrap(), None);
    }
    assert_eq!(decode_barrier_cut(&cut_key(&record), None).unwrap(), None);
}

#[test]
fn cut_answers_offset_reached_and_partitions() {
    let record = CutRecord::simple("g", 1, &[("in", 0, 10), ("in", 1, 4)]);
    let cut = record.expected();
    assert_eq!(cut.offset("in", 0), Some(10));
    assert_eq!(cut.offset("in", 2), None);
    assert!(!cut.reached("in", 0, 9));
    assert!(cut.reached("in", 0, 10));
    assert!(cut.reached("other", 0, 0));
    assert_eq!(cut.partitions(), vec![partition_of("in", 0), partition_of("in", 1)]);
}

#[test]
fn rejects_malformed_records() {
    let record = CutRecord::simple("g", 1, &[("in", 0, 10)]);
    let key = cut_key(&record);
    let value = cut_value(&record);

    let mut bad_key_version = key.to_vec();
    bad_key_version[1] = 9;
    assert_eq!(
        error_of(&bad_key_version, Some(&value)),
        "malformed barrier state key: unsupported barrier state key version 9"
    );

    assert!(error_of(&key[..key.len() - 1], Some(&value)).contains("truncated barrier state key"));

    let mut trailing_key = key.to_vec();
    trailing_key.push(0);
    assert!(error_of(&trailing_key, Some(&value)).contains("trailing bytes in barrier state key"));

    let mut bad_status = value.to_vec();
    bad_status[18] = 7;
    assert!(error_of(&key, Some(&bad_status)).contains("unknown barrier cut status 7"));

    assert!(error_of(&key, Some(&value[..value.len() - 2]))
        .contains("truncated barrier state cut value"));

    let mut negative_count = value.to_vec();
    // The topics array length sits right after version, the two timestamps,
    // and the status byte.
    negative_count[19] = 0xFF;
    assert!(error_of(&key, Some(&negative_count)).contains("negative array length"));
}

#[test]
fn status_codes_round_trip() {
    for status in [CutStatus::Complete, CutStatus::Partial] {
        assert_eq!(CutStatus::from_code(status.code()).unwrap(), status);
    }
    let error = CutStatus::from_code(2).unwrap_err();
    assert!(error.to_string().contains("unknown barrier cut status 2"));
}

#[test]
fn each_fault_of_a_record_has_its_own_message() {
    let record = CutRecord::simple("g", 1, &[("in", 0, 10)]);
    let key = cut_key(&record);
    let value = cut_value(&record);

    let mut version = value.to_vec();
    version[0] = 0xFF;
    version[1] = 0xFE;
    assert_eq!(
        error_of(&key, Some(&version)),
        "malformed barrier state cut value: unsupported barrier state cut value version -2"
    );

    let mut negative_string = key.to_vec();
    negative_string[4] = 0x80;
    negative_string[5] = 0x00;
    assert_eq!(
        error_of(&negative_string, Some(&value)),
        "malformed barrier state key: negative string length -32768 in barrier state key"
    );

    let mut not_utf8 = key.to_vec();
    not_utf8[6] = 0xFF;
    assert_eq!(
        error_of(&not_utf8, Some(&value)),
        "malformed barrier state key: non-UTF-8 string in barrier state key"
    );

    let mut negative_count = value.to_vec();
    negative_count[19] = 0xFF;
    negative_count[20] = 0xFF;
    negative_count[21] = 0xFF;
    negative_count[22] = 0xFF;
    assert_eq!(
        error_of(&key, Some(&negative_count)),
        "malformed barrier state cut value: negative array length -1 in barrier state cut value"
    );

    let mut status = value.to_vec();
    status[18] = 0x80;
    assert_eq!(
        error_of(&key, Some(&status)),
        "malformed barrier state cut value: unknown barrier cut status -128"
    );

    assert_eq!(
        error_of(&[], None),
        "malformed barrier state key: truncated barrier state key"
    );
    let mut trailing = value.to_vec();
    trailing.push(9);
    assert_eq!(
        error_of(&key, Some(&trailing)),
        "malformed barrier state cut value: trailing bytes in barrier state cut value"
    );
}

#[test]
fn every_proper_prefix_is_truncated() {
    let mut record = CutRecord::simple("gr\u{fc}n", 1, &[("in", 0, 10), ("out", 3, -4)]);
    record.missing = vec![("in", 1)];
    let key = cut_key(&record);
    let value = cut_value(&record);
    for n in 0..key.len() {
        assert!(error_of(&key[..n], Some(&value)).ends_with("truncated barrier state key"));
    }
    for n in 0..value.len() {
        assert!(error_of(&key, Some(&value[..n])).ends_with("truncated barrier state cut value"));
    }
}

#[test]
fn a_malformed_key_is_reported_before_the_value() {
    assert!(error_of(&[0, 0, 0], Some(&[1])).starts_with("malformed barrier state key: "));
    // A malformed value under another kind of key is never looked at.
    assert_eq!(decode_barrier_cut(&key_of_kind(1, "g", 0), Some(&[1])).unwrap(), None);
}

#[test]
fn a_topic_that_is_listed_again_adds_to_its_partitions() {
    let mut buffer = BytesMut::new();
    buffer.put_i16(0);
    buffer.put_i64(-1);
    buffer.put_i64(i64::MIN);
    buffer.put_i8(0);
    buffer.put_i32(3);
    for (topic, partition, offset) in [("in", 1, 7i64), ("empty", 0, 0), ("in", 1, 8)] {
        put_string(&mut buffer, topic);
        if topic == "empty" {
            buffer.put_i32(0);
        } else {
            buffer.put_i32(2);
            buffer.put_i32(partition);
            buffer.put_i64(offset);
            buffer.put_i32(i32::try_from(offset).unwrap());
            buffer.put_i64(i64::MAX);
        }
    }
    buffer.put_i32(2);
    for _ in 0..2 {
        put_string(&mut buffer, "gone");
        buffer.put_i32(i32::MIN);
    }
    let cut = decode_barrier_cut(&key_of_kind(2, "", -5), Some(&buffer)).unwrap().unwrap();
    assert_eq!(cut.group, "");
    assert_eq!(cut.epoch, -5);
    assert_eq!(cut.triggered_at, -1);
    assert_eq!(cut.completed_at, i64::MIN);
    assert_eq!(cut.offset("in", 1), Some(8));
    assert_eq!(cut.offset("in", 7), Some(i64::MAX));
    assert_eq!(cut.offset("in", 8), Some(i64::MAX));
    assert_eq!(cut.offset("empty", 0), None);
    assert_eq!(cut.offsets.0.len(), 2);
    // A complete cut misses no partition, whatever its record lists.
    assert!(cut.complete());
    assert!(cut.missing.is_empty());

    // The same record as a partial cut, with the partition listed twice.
    let mut partial = buffer.to_vec();
    partial[18] = 1;
    let cut = decode_barrier_cut(&key_of_kind(2, "", -5), Some(&partial)).unwrap().unwrap();
    assert!(!cut.complete());
    assert_eq!(cut.missing.len(), 1);
    assert!(cut.missing.contains(&partition_of("gone", i32::MIN)));
    assert_eq!(cut.offset("in", 1), Some(8));
}

#[test]
fn partitions_come_in_topic_and_then_partition_order() {
    let cut = CutRecord::simple(
        "g",
        1,
        &[("b", 2, 0), ("a", 9, 0), ("ab", -1, 0), ("b", -3, 0), ("\u{e9}", 0, 0), ("Z", 0, 0)],
    )
    .expected();
    assert_eq!(
        cut.partitions(),
        vec![
            partition_of("Z", 0),
            partition_of("a", 9),
            partition_of("ab", -1),
            partition_of("b", -3),
            partition_of("b", 2),
            partition_of("\u{e9}", 0),
        ]
    );
    assert_eq!(cut.clone(), cut);
}

#[test]
fn a_reached_cut_stays_reached() {
    let cut = CutRecord::simple("g", 1, &[("in", 0, 10)]).expected();
    for position in 10..20 {
        assert!(cut.reached("in", 0, position));
    }
    for position in -3..10 {
        assert!(!cut.reached("in", 0, position));
    }
    assert!(cut.reached("in", 1, i64::MIN));
}

#[test]
fn a_complete_cut_misses_no_partition() {
    let mut record = CutRecord::simple("g", 1, &[("in", 0, 10)]);
    let expected = record.expected();
    record.missing = vec![("in", 1)];
    let decoded =
        decode_barrier_cut(&cut_key(&record), Some(&cut_value(&record))).unwrap().unwrap();
    assert_eq!(decoded, expected);
    // What the record lists still has to match the layout.
    let value = cut_value(&record);
    assert!(error_of(&cut_key(&record), Some(&value[..value.len() - 1]))
        .ends_with("truncated barrier state cut value"));
}
