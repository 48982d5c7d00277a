//! Reading of cuts through a scripted fetcher.

use std::collections::{BTreeMap, HashMap};
use std::sync::{Arc, Mutex};

use bytes::{BufMut, Bytes, BytesMut};
use krabka_barrier::barrier::reader::offsets_can_follow;
use krabka_barrier::collections::{OrderedMap, OrderedSet};
use krabka_barrier::{
    BarrierCut, CutAction, CutReader, CutStatus, FetchedRec, IsolationLevel, Position,
    StreamsClientError, TopicPartition, BARRIER_STATE_TOPIC,
};

struct CutRecord {
    group: String,
    epoch: i64,
    status: CutStatus,
    offsets: Vec<(&'static str, i32, i64)>,
    missing: Vec<(&'static str, i32)>,
}

impl CutRecord {
    fn simple(group: &str, epoch: i64, offsets: &[(&'static str, i32, i64)]) -> Self {
        Self {
            group: group.to_owned(),
            epoch,
            status: CutStatus::Complete,
            offsets: offsets.to_vec(),
            missing: Vec::new(),
        }
    }

    fn partial(mut self, missing: &[(&'static str, i32)]) -> Self {
        self.status = CutStatus::Partial;
        self.missing = missing.to_vec();
        self
    }

    fn expected(&self) -> BarrierCut {
        let mut map: OrderedMap<String, OrderedMap<i32, i64>> = OrderedMap::new();
        for (topic, partition, offset) in &self.offsets {
            let mut partitions = map.remove(topic).unwrap_or_else(OrderedMap::new);
            partitions.insert(*partition, *offset);
            map.insert((*topic).to_owned(), partitions);
        }
        let mut missing = OrderedSet::new();
        for (topic, partition) in &self.missing {
            missing.insert(TopicPartition { topic: (*topic).to_owned(), partition: *partition });
        }
        BarrierCut {
            group: self.group.clone(),
            epoch: self.epoch,
            triggered_at: 1,
            completed_at: 2,
            status: self.status,
            offsets: Position(map),
            missing,
        }
    }
}

fn put_string(buffer: &mut BytesMut, value: &str) {
    buffer.put_i16(i16::try_from(value.len()).unwrap());
    buffer.extend_from_slice(value.as_bytes());
}

fn key_of_kind(kind: i16, group: &str, epoch: i64) -> Bytes {
    let mut buffer = BytesMut::new();
    buffer.put_i16(0);
    buffer.put_i16(kind);
    put_string(&mut buffer, group);
    buffer.put_i64(epoch);
    buffer.freeze()
}

fn cut_key(record: &CutRecord) -> Bytes {
    key_of_kind(2, &record.group, record.epoch)
}

fn cut_value(record: &CutRecord) -> Bytes {
    let mut by_topic: BTreeMap<&str, Vec<(i32, i64)>> = BTreeMap::new();
    for (topic, partition, offset) in &record.offsets {
        by_topic.entry(topic).or_default().push((*partition, *offset));
    }
    let mut buffer = BytesMut::new();
    buffer.put_i16(0);
    buffer.put_i64(1);
    buffer.put_i64(2);
    buffer.put_i8(record.status.code());
    buffer.put_i32(i32::try_from(by_topic.len()).unwrap());
    for (topic, partitions) in &by_topic {
        put_string(&mut buffer, topic);
        buffer.put_i32(i32::try_from(partitions.len()).unwrap());
        for (partition, offset) in partitions {
            buffer.put_i32(*partition);
            buffer.put_i64(*offset);
        }
    }
    buffer.put_i32(i32::try_from(record.missing.len()).unwrap());
    for (topic, partition) in &record.missing {
        put_string(&mut buffer, topic);
        buffer.put_i32(*partition);
    }
    buffer.freeze()
}

/// A fetcher that serves one scripted batch per `(partition, offset)` of the
/// topic and an empty batch for anything else.
struct CutFetcher {
    partitions: Vec<i32>,
    batches: Mutex<HashMap<(i32, i64), Vec<FetchedRec>>>,
    fetched: Mutex<Vec<(i32, i64)>>,
}

impl CutFetcher {
    fn over(partitions: Vec<i32>) -> Self {
        Self {
            partitions,
            batches: Mutex::new(HashMap::new()),
            fetched: Mutex::new(Vec::new()),
        }
    }

    fn one_batch(records: Vec<FetchedRec>) -> Self {
        let fetcher = Self::over(vec![0]);
        fetcher.script(0, 0, records);
        fetcher
    }

    fn script(&self, partition: i32, offset: i64, records: Vec<FetchedRec>) {
        self.batches.lock().unwrap().insert((partition, offset), records);
    }

    fn fetch(&self, partition: i32, offset: i64) -> Vec<FetchedRec> {
        self.fetched.lock().unwrap().push((partition, offset));
        self.batches.lock().unwrap().remove(&(partition, offset)).unwrap_or_default()
    }

    fn fetches(&self) -> Vec<(i32, i64)> {
        std::mem::take(&mut self.fetched.lock().unwrap())
    }
}

type Reader = CutReader<Arc<CutFetcher>>;

/// A fetch of uncommitted records.
fn fetch(partition: i32, offset: i64) -> CutAction {
    CutAction::Fetch { partition, offset, isolation: IsolationLevel::ReadUncommitted }
}

/// Reads every partition up to its end.
fn refresh(reader: &mut Reader) -> Result<(), StreamsClientError> {
    let mut action = reader.start_refresh();
    loop {
        action = match action {
            CutAction::ListPartitions => {
                let partitions = reader.fetcher().partitions.clone();
                reader.partitions_listed(partitions)
            }
            CutAction::Fetch { partition, offset, isolation } => {
                assert_eq!(isolation, IsolationLevel::ReadUncommitted);
                let batch = reader.fetcher().fetch(partition, offset);
                reader.batch_fetched(&batch)?
            }
            CutAction::CaughtUp => return Ok(()),
        };
    }
}

fn cuts_after(reader: &mut Reader, group: &str, epoch: i64) -> Vec<BarrierCut> {
    refresh(reader).unwrap();
    reader.complete_cuts_after(group, epoch)
}

fn latest(reader: &mut Reader, group: &str) -> Option<BarrierCut> {
    refresh(reader).unwrap();
    reader.latest_complete_cut(group)
}

fn cut_at(reader: &mut Reader, group: &str, epoch: i64) -> Option<BarrierCut> {
    refresh(reader).unwrap();
    reader.complete_cut_at(group, epoch)
}

fn record(offset: i64, key: Bytes, value: Option<Bytes>) -> FetchedRec {
    FetchedRec { offset, key: Some(key), value, timestamp: -1 }
}

fn cut_record(offset: i64, cut: &CutRecord) -> FetchedRec {
    record(offset, cut_key(cut), Some(cut_value(cut)))
}

#[test]
fn reads_complete_cuts_in_epoch_order() {
    let first = CutRecord::simple("g", 1, &[("in", 0, 10)]);
    let second = CutRecord::simple("g", 2, &[("in", 0, 20)]);
    let other_group = CutRecord::simple("other", 3, &[("in", 0, 30)]);
    let fetcher = Arc::new(CutFetcher::one_batch(vec![
        cut_record(0, &first),
        cut_record(1, &second),
        cut_record(2, &other_group),
    ]));
    let mut reader = CutReader::new(fetcher);

    assert_eq!(cuts_after(&mut reader, "g", -1), vec![first.expected(), second.expected()]);
    assert_eq!(cuts_after(&mut reader, "g", 1), vec![second.expected()]);
    assert_eq!(latest(&mut reader, "g"), Some(second.expected()));
    assert_eq!(cut_at(&mut reader, "g", 1), Some(first.expected()));
    assert_eq!(cut_at(&mut reader, "g", 9), None);
    assert_eq!(latest(&mut reader, "absent"), None);
}

#[test]
fn never_adopts_a_partial_cut() {
    let partial = CutRecord::simple("g", 1, &[("in", 0, 10)]).partial(&[("in", 1)]);
    let complete = CutRecord::simple("g", 2, &[("in", 0, 20), ("in", 1, 7)]);
    let fetcher = Arc::new(CutFetcher::one_batch(vec![
        cut_record(0, &partial),
        cut_record(1, &complete),
    ]));
    let mut reader = CutReader::new(fetcher);

    assert_eq!(cuts_after(&mut reader, "g", -1), vec![complete.expected()]);
    assert_eq!(cut_at(&mut reader, "g", 1), None);
}

#[test]
fn a_republished_partial_cut_drops_the_epoch() {
    let complete = CutRecord::simple("g", 1, &[("in", 0, 10)]);
    let partial = CutRecord::simple("g", 1, &[("in", 0, 10)]).partial(&[("in", 1)]);
    let fetcher = Arc::new(CutFetcher::one_batch(vec![
        cut_record(0, &complete),
        cut_record(1, &partial),
    ]));
    let mut reader = CutReader::new(fetcher);
    assert_eq!(cuts_after(&mut reader, "g", -1), vec![]);
}

#[test]
fn skips_other_kinds_tombstones_and_keyless_records() {
    let cut = CutRecord::simple("g", 1, &[("in", 0, 10)]);
    let fetcher = Arc::new(CutFetcher::one_batch(vec![
        record(0, key_of_kind(0, "g", -1), Some(Bytes::from_static(b"junk"))),
        record(1, key_of_kind(1, "g", 1), Some(Bytes::from_static(b"junk"))),
        FetchedRec {
            offset: 2,
            key: None,
            value: Some(Bytes::from_static(b"junk")),
            timestamp: -1,
        },
        cut_record(3, &cut),
        record(4, cut_key(&cut), None),
    ]));
    let mut reader = CutReader::new(fetcher);
    // The group record, the injection start, and the keyless record are
    // skipped; the tombstone drops the cut the batch published before it.
    assert_eq!(cuts_after(&mut reader, "g", -1), vec![]);
}

#[test]
fn resumes_at_the_offset_the_previous_read_left() {
    let first = CutRecord::simple("g", 1, &[("in", 0, 10)]);
    let second = CutRecord::simple("g", 2, &[("in", 0, 20)]);
    let fetcher = Arc::new(CutFetcher::one_batch(vec![cut_record(0, &first)]));
    let mut reader = CutReader::new(Arc::clone(&fetcher));
    assert_eq!(cuts_after(&mut reader, "g", -1), vec![first.expected()]);

    // The coordinator publishes another cut at offset 1. The next read picks
    // it up from there and keeps the cut the first read already saw.
    fetcher.script(0, 1, vec![cut_record(1, &second)]);
    assert_eq!(cuts_after(&mut reader, "g", -1), vec![first.expected(), second.expected()]);
    assert_eq!(fetcher.fetches(), vec![(0, 0), (0, 1), (0, 1), (0, 2)]);
}

#[test]
fn reads_every_partition_of_the_topic() {
    let first = CutRecord::simple("g", 1, &[("in", 0, 10)]);
    let second = CutRecord::simple("g", 2, &[("in", 0, 20)]);
    let fetcher = Arc::new(CutFetcher::over(vec![0, 1]));
    fetcher.script(0, 0, vec![cut_record(0, &first)]);
    fetcher.script(1, 0, vec![cut_record(0, &second)]);
    let mut reader = CutReader::new(fetcher);
    assert_eq!(cuts_after(&mut reader, "g", -1), vec![first.expected(), second.expected()]);
}

#[test]
fn a_malformed_record_fails_the_read() {
    let fetcher = Arc::new(CutFetcher::one_batch(vec![record(
        0,
        Bytes::from_static(b"\x00\x00"),
        Some(Bytes::from_static(b"x")),
    )]));
    let mut reader = CutReader::new(fetcher);
    let error = refresh(&mut reader).unwrap_err();
    assert!(error.to_string().contains("truncated barrier state key"));
}

#[test]
fn an_empty_value_is_a_tombstone() {
    let cut = CutRecord::simple("g", 1, &[("in", 0, 10)]);
    let fetcher = Arc::new(CutFetcher::one_batch(vec![
        cut_record(0, &cut),
        record(1, cut_key(&cut), Some(Bytes::new())),
    ]));
    let mut reader = CutReader::new(fetcher);
    assert_eq!(latest(&mut reader, "g"), None);
}

#[test]
fn the_last_record_about_an_epoch_decides() {
    let old = CutRecord::simple("g", 1, &[("in", 0, 10)]);
    let new = CutRecord::simple("g", 1, &[("in", 0, 11)]);
    let other = CutRecord::simple("g", 2, &[("in", 0, 20)]);
    let fetcher = Arc::new(CutFetcher::one_batch(vec![
        cut_record(0, &old),
        cut_record(1, &other),
        record(2, cut_key(&old), None),
        cut_record(3, &new),
    ]));
    let mut reader = CutReader::new(fetcher);
    assert_eq!(cuts_after(&mut reader, "g", -1), vec![new.expected(), other.expected()]);
}

#[test]
fn partitions_are_read_in_ascending_order() {
    let fetcher = Arc::new(CutFetcher::over(vec![2, -1, 0]));
    let mut reader = CutReader::with_topic(Arc::clone(&fetcher), "elsewhere");
    assert_eq!(reader.topic(), "elsewhere");
    refresh(&mut reader).unwrap();
    assert_eq!(fetcher.fetches(), vec![(-1, 0), (0, 0), (2, 0)]);
}

#[test]
fn a_reader_starts_on_the_barrier_state_topic() {
    let reader = CutReader::new(());
    assert_eq!(reader.topic(), "__barrier_state");
    assert_eq!(reader.topic(), BARRIER_STATE_TOPIC);
    assert_eq!(reader.latest_complete_cut("g"), None);
    assert_eq!(reader.complete_cut_at("g", 0), None);
    assert_eq!(reader.complete_cuts_after("g", i64::MIN), vec![]);
}

#[test]
fn a_replayed_batch_does_not_spin() {
    let cut = CutRecord::simple("g", 1, &[("in", 0, 10)]);
    let fetcher = Arc::new(CutFetcher::over(vec![0, 1]));
    // Offset 5 is answered with an old record, as a broker that ignores the
    // offset would.
    fetcher.script(0, 0, vec![cut_record(4, &cut)]);
    fetcher.script(0, 5, vec![cut_record(4, &cut)]);
    let mut reader = CutReader::new(Arc::clone(&fetcher));
    refresh(&mut reader).unwrap();
    assert_eq!(fetcher.fetches(), vec![(0, 0), (0, 5), (1, 0)]);
    refresh(&mut reader).unwrap();
    assert_eq!(fetcher.fetches(), vec![(0, 5), (1, 0)]);
}

#[test]
fn a_failed_read_is_read_again_and_keeps_what_it_applied() {
    let cut = CutRecord::simple("g", 1, &[("in", 0, 10)]);
    let fetcher = Arc::new(CutFetcher::over(vec![0]));
    fetcher.script(
        0,
        0,
        vec![cut_record(0, &cut), record(1, cut_key(&cut), Some(Bytes::from_static(b"x")))],
    );
    let mut reader = CutReader::new(Arc::clone(&fetcher));
    let error = refresh(&mut reader).unwrap_err();
    assert_eq!(
        error.to_string(),
        "malformed barrier state cut value: truncated barrier state cut value"
    );
    assert_eq!(reader.latest_complete_cut("g"), Some(cut.expected()));
    refresh(&mut reader).unwrap();
    assert_eq!(fetcher.fetches(), vec![(0, 0), (0, 0)]);
}

#[test]
fn no_cut_lies_above_the_largest_epoch() {
    let first = CutRecord::simple("g", 1, &[("in", 0, 10)]);
    let last = CutRecord::simple("g", i64::MAX, &[("in", 0, 20)]);
    let fetcher =
        Arc::new(CutFetcher::one_batch(vec![cut_record(0, &first), cut_record(1, &last)]));
    let mut reader = CutReader::new(fetcher);
    assert_eq!(cuts_after(&mut reader, "g", i64::MAX), vec![]);
    assert_eq!(cuts_after(&mut reader, "g", i64::MAX - 1), vec![last.expected()]);
}

#[test]
fn each_fetch_asks_for_one_past_the_highest_offset() {
    let cut = CutRecord::simple("g", 1, &[("in", 0, 10)]);
    let fetcher = Arc::new(CutFetcher::over(vec![1, 0]));
    fetcher.script(0, 0, vec![cut_record(3, &cut), cut_record(2, &cut)]);
    fetcher.script(0, 4, vec![cut_record(9, &cut)]);
    fetcher.script(1, 0, vec![cut_record(0, &cut)]);
    let mut reader = CutReader::new(Arc::clone(&fetcher));
    refresh(&mut reader).unwrap();
    assert_eq!(fetcher.fetches(), vec![(0, 0), (0, 4), (0, 10), (1, 0), (1, 1)]);
    fetcher.script(1, 1, vec![cut_record(5, &cut)]);
    refresh(&mut reader).unwrap();
    assert_eq!(fetcher.fetches(), vec![(0, 10), (1, 1), (1, 6)]);
    refresh(&mut reader).unwrap();
    assert_eq!(fetcher.fetches(), vec![(0, 10), (1, 6)]);
}

#[test]
fn a_failed_fetch_is_asked_for_again() {
    let cut = CutRecord::simple("g", 1, &[("in", 0, 10)]);
    let fetcher = Arc::new(CutFetcher::over(vec![0, 1, 2]));
    let mut reader = CutReader::new(Arc::clone(&fetcher));
    refresh(&mut reader).unwrap();
    assert_eq!(fetcher.fetches(), vec![(0, 0), (1, 0), (2, 0)]);

    // Partition 0 delivers two records. The second fetch of partition 1 fails,
    // so nothing more is reported, and partition 2 is never asked for.
    let mut action = reader.start_refresh();
    assert_eq!(action, fetch(0, 0));
    action = reader.batch_fetched(&[cut_record(0, &cut), cut_record(1, &cut)]).unwrap();
    assert_eq!(action, fetch(0, 2));
    action = reader.batch_fetched(&[]).unwrap();
    assert_eq!(action, fetch(1, 0));
    action = reader.batch_fetched(&[cut_record(6, &cut)]).unwrap();
    assert_eq!(action, fetch(1, 7));

    refresh(&mut reader).unwrap();
    assert_eq!(fetcher.fetches(), vec![(0, 2), (1, 0), (2, 0)]);
}

#[test]
fn a_malformed_record_comes_before_the_offset_behind_it() {
    let cut = CutRecord::simple("g", 1, &[("in", 0, 10)]);
    let malformed = || record(3, cut_key(&cut), Some(Bytes::from_static(b"x")));
    let last = || cut_record(i64::MAX, &cut);
    assert!(offsets_can_follow(&[]));
    assert!(offsets_can_follow(&[cut_record(i64::MAX - 1, &cut)]));
    assert!(!offsets_can_follow(&[cut_record(0, &cut), last()]));
    assert!(!offsets_can_follow(&[last(), malformed()]));

    // No offset is needed behind a record that ends the read.
    let batch = [cut_record(0, &cut), malformed(), last()];
    assert!(offsets_can_follow(&batch));
    let mut reader = CutReader::new(());
    assert_eq!(reader.start_refresh(), CutAction::ListPartitions);
    assert_eq!(reader.partitions_listed(vec![0]), fetch(0, 0));
    let error = reader.batch_fetched(&batch).unwrap_err();
    assert!(error.to_string().contains("truncated barrier state cut value"));
    assert_eq!(reader.latest_complete_cut("g"), Some(cut.expected()));
    assert_eq!(reader.start_refresh(), fetch(0, 0));
}
