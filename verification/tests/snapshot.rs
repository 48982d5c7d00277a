//! Snapshot containers, store payloads, snapshot keys, and snapshot stores.

use std::collections::{BTreeMap, HashMap};
use std::path::PathBuf;

use bytes::Bytes;
use krabka_barrier::store::restore::{restore_steps, without_timestamps, RestoreStep};
use krabka_barrier::store::snapshot::{
    decode_byte_entries, encode_byte_entries, fits_container, fits_payload, put_byte_entries,
    put_sized, read_byte_entries, store_payload, SnapshotReader,
};
use krabka_barrier::store::stores::{loaded, saved, AtomicWrite, FileRead, WriteStep};
use krabka_barrier::{
    decode_snapshot, encode_snapshot, FileSnapshotStore, NoSnapshotStore, SnapshotKey,
    StreamsClientError, TaskSnapshot,
};

fn snapshot(entries: &[(&str, &[u8])]) -> TaskSnapshot {
    let mut snapshot = TaskSnapshot::new();
    for (name, value) in entries {
        snapshot.insert((*name).to_owned(), Bytes::copy_from_slice(value));
    }
    snapshot
}

#[test]
fn container_bytes_match_the_frozen_layout() {
    let encoded = encode_snapshot(&snapshot(&[("b", b"22"), ("a", b"1")]));
    // version 1, count 2, then "a" before "b" whatever the insert order was.
    let expected: Vec<u8> = [
        &1u32.to_be_bytes()[..],
        &2u32.to_be_bytes()[..],
        &1u32.to_be_bytes()[..],
        b"a",
        &1u32.to_be_bytes()[..],
        b"1",
        &1u32.to_be_bytes()[..],
        b"b",
        &2u32.to_be_bytes()[..],
        b"22",
    ]
    .concat();
    assert_eq!(encoded.as_ref(), expected.as_slice());
}

#[test]
fn container_round_trips_and_rejects_malformed_bytes() {
    let original = snapshot(&[("counts", b"\x00\x01"), ("windows", b"")]);
    let encoded = encode_snapshot(&original);
    assert_eq!(decode_snapshot(&encoded).unwrap(), original);

    let mut wrong_version = encoded.to_vec();
    wrong_version[3] = 9;
    let error = decode_snapshot(&wrong_version).unwrap_err();
    assert!(error.to_string().contains("unsupported state snapshot version"));

    let truncated = &encoded[..encoded.len() - 1];
    let error = decode_snapshot(truncated).unwrap_err();
    assert!(error.to_string().contains("truncated"));

    let mut trailing = encoded.to_vec();
    trailing.push(0);
    let error = decode_snapshot(&trailing).unwrap_err();
    assert!(error.to_string().contains("trailing bytes"));
}

#[test]
fn byte_entries_round_trip_and_reject_malformed_bytes() {
    let entries = vec![
        (Bytes::from_static(b"k1"), Bytes::from_static(b"v1")),
        (Bytes::from_static(b"k2"), Bytes::from_static(b"")),
    ];
    let encoded = encode_byte_entries(&entries);
    assert_eq!(decode_byte_entries(&encoded).unwrap(), entries);
    let error = decode_byte_entries(&encoded[..5]).unwrap_err();
    assert!(error.to_string().contains("truncated"));
}

#[test]
fn snapshot_key_file_name_sanitizes_separators() {
    let key = SnapshotKey::new("0/1", "../escape", 3);
    assert_eq!(key.file_name(), ".._escape-0_1-epoch-3.snapshot");
}

/// Files in memory, as path to contents.
#[derive(Default)]
struct Files {
    held: HashMap<PathBuf, Vec<u8>>,
    directories: Vec<PathBuf>,
    rename_fails: bool,
}

impl Files {
    fn save(
        &mut self,
        store: &FileSnapshotStore,
        key: &SnapshotKey,
        snapshot: &TaskSnapshot,
    ) -> Result<(), StreamsClientError> {
        assert!(fits_container(snapshot));
        let data = encode_snapshot(snapshot);
        let mut write: AtomicWrite<String> = AtomicWrite::start();
        loop {
            let outcome = match write.step() {
                WriteStep::CreateDirectory => {
                    self.directories.push(store.directory().clone());
                    Ok(())
                }
                WriteStep::WriteTemporary => {
                    self.held.insert(store.temporary(key), data.to_vec());
                    Ok(())
                }
                WriteStep::Rename => {
                    if self.rename_fails {
                        Err("disk on fire".to_owned())
                    } else {
                        let written = self.held.remove(&store.temporary(key)).unwrap();
                        self.held.insert(store.file(key), written);
                        Ok(())
                    }
                }
                WriteStep::RemoveTemporary => {
                    self.held.remove(&store.temporary(key));
                    Err("ignored".to_owned())
                }
                WriteStep::Done => return saved(key, write.finish()),
            };
            write = write.advance(outcome);
        }
    }

    fn load(
        &self,
        store: &FileSnapshotStore,
        key: &SnapshotKey,
    ) -> Result<Option<TaskSnapshot>, StreamsClientError> {
        let read = match self.held.get(&store.file(key)) {
            Some(data) => FileRead::Data(data.clone()),
            None => FileRead::NotFound,
        };
        loaded(key, read)
    }
}

#[test]
fn file_store_saves_loads_and_reports_a_missing_snapshot() {
    let mut files = Files::default();
    let store = FileSnapshotStore::new(PathBuf::from("/snapshots"));
    let key = SnapshotKey::new("0-0", "transactions", 4);
    assert_eq!(files.load(&store, &key).unwrap(), None);

    let original = snapshot(&[("counts", b"\x07")]);
    files.save(&store, &key, &original).unwrap();
    assert_eq!(files.load(&store, &key).unwrap(), Some(original.clone()));

    // A second save replaces the file rather than appending to it.
    let replacement = snapshot(&[("counts", b"\x09"), ("other", b"x")]);
    files.save(&store, &key, &replacement).unwrap();
    assert_eq!(files.load(&store, &key).unwrap(), Some(replacement));

    // Another epoch is another file.
    let next = SnapshotKey::new("0-0", "transactions", 5);
    assert_eq!(files.load(&store, &next).unwrap(), None);
    assert_eq!(files.held.len(), 1);
}

#[test]
fn no_snapshot_store_keeps_nothing() {
    let store = NoSnapshotStore;
    let key = SnapshotKey::new("0-0", "g", 1);
    store.save(&key, &snapshot(&[("s", b"v")])).unwrap();
    assert_eq!(store.load(&key).unwrap(), None);
}

/// Carries out the steps of a restore.
fn restore(store: &mut BTreeMap<Bytes, Bytes>, data: &[u8]) -> Result<(), StreamsClientError> {
    for step in restore_steps(data)? {
        match step {
            RestoreStep::Clear => store.clear(),
            RestoreStep::Put(key, value) => {
                store.insert(key, value);
            }
        }
    }
    Ok(())
}

fn scan_all(store: &BTreeMap<Bytes, Bytes>) -> Vec<(Bytes, Bytes)> {
    store.iter().map(|(key, value)| (key.clone(), value.clone())).collect()
}

#[test]
fn byte_store_snapshot_replaces_every_entry() {
    let mut source = BTreeMap::new();
    source.insert(Bytes::from_static(b"a"), Bytes::from_static(b"1"));
    source.insert(Bytes::from_static(b"b"), Bytes::from_static(b"2"));
    let payload = encode_byte_entries(&scan_all(&source));

    let mut target = BTreeMap::new();
    target.insert(Bytes::from_static(b"stale"), Bytes::from_static(b"x"));
    restore(&mut target, &payload).unwrap();
    assert_eq!(scan_all(&target), scan_all(&source));
}

/// A store whose payload is malformed rejects the restore instead of
/// half-applying it.
#[test]
fn a_malformed_payload_is_rejected() {
    let mut store = BTreeMap::new();
    store.insert(Bytes::from_static(b"a"), Bytes::from_static(b"1"));
    let before = store.clone();
    let error = restore(&mut store, b"\x00").unwrap_err();
    assert!(error.to_string().contains("truncated state snapshot"));
    assert_eq!(store, before);
}

#[test]
fn the_same_snapshot_encodes_to_the_same_bytes() {
    let forward = snapshot(&[("a", b"1"), ("ab", b"2"), ("b", b"3"), ("\u{e9}", b"4")]);
    let backward = snapshot(&[("\u{e9}", b"4"), ("b", b"3"), ("ab", b"2"), ("a", b"1")]);
    assert_eq!(forward, backward);
    assert_eq!(encode_snapshot(&forward), encode_snapshot(&backward));
    assert_ne!(encode_snapshot(&forward), encode_snapshot(&snapshot(&[("a", b"1")])));
    assert!(fits_container(&forward));
}

#[test]
fn every_proper_prefix_of_a_container_is_truncated() {
    let encoded = encode_snapshot(&snapshot(&[("counts", b"\x01\x02"), ("w", b"")]));
    for n in 0..encoded.len() {
        let error = decode_snapshot(&encoded[..n]).unwrap_err();
        assert_eq!(error.to_string(), "state snapshot error: truncated state snapshot");
    }
    let entries = vec![(Bytes::from_static(b"k"), Bytes::from_static(b"vv"))];
    assert!(fits_payload(&entries));
    let payload = encode_byte_entries(&entries);
    for n in 0..payload.len() {
        let error = decode_byte_entries(&payload[..n]).unwrap_err();
        assert_eq!(error.to_string(), "state snapshot error: truncated state snapshot");
    }
}

#[test]
fn each_fault_of_a_snapshot_has_its_own_message() {
    let encoded = encode_snapshot(&snapshot(&[("n", b"v")]));
    let mut not_utf8 = encoded.to_vec();
    not_utf8[12] = 0xFF;
    assert_eq!(
        decode_snapshot(&not_utf8).unwrap_err().to_string(),
        "state snapshot error: non-UTF-8 store name"
    );
    let mut version = encoded.to_vec();
    version[0] = 0xFF;
    assert_eq!(
        decode_snapshot(&version).unwrap_err().to_string(),
        "state snapshot error: unsupported state snapshot version 4278190081"
    );
    let mut payload = encode_byte_entries(&[]).to_vec();
    payload[3] = 0;
    assert_eq!(
        decode_byte_entries(&payload).unwrap_err().to_string(),
        "state snapshot error: unsupported store snapshot version 0"
    );
    payload[3] = 1;
    payload.push(7);
    assert_eq!(
        decode_byte_entries(&payload).unwrap_err().to_string(),
        "state snapshot error: trailing bytes in state snapshot"
    );
}

#[test]
fn a_name_that_is_repeated_takes_the_last_payload() {
    let bytes: Vec<u8> = [
        &1u32.to_be_bytes()[..],
        &3u32.to_be_bytes()[..],
        &1u32.to_be_bytes()[..],
        b"z",
        &1u32.to_be_bytes()[..],
        b"1",
        &1u32.to_be_bytes()[..],
        b"a",
        &0u32.to_be_bytes()[..],
        &1u32.to_be_bytes()[..],
        b"z",
        &1u32.to_be_bytes()[..],
        b"2",
    ]
    .concat();
    assert_eq!(decode_snapshot(&bytes).unwrap(), snapshot(&[("a", b""), ("z", b"2")]));
}

#[test]
fn a_reader_reads_every_kind_of_field() {
    let data = [
        &[0xFEu8][..],
        &0xDEAD_BEEFu32.to_be_bytes()[..],
        &u64::MAX.to_be_bytes()[..],
        &i64::MIN.to_be_bytes()[..],
        &2u32.to_be_bytes()[..],
        b"ok",
    ]
    .concat();
    let mut reader = SnapshotReader::new(&data);
    assert!(!reader.is_empty());
    assert_eq!(reader.u8().unwrap(), 0xFE);
    assert_eq!(reader.u32().unwrap(), 0xDEAD_BEEF);
    assert_eq!(reader.u64().unwrap(), u64::MAX);
    assert_eq!(reader.i64().unwrap(), i64::MIN);
    assert!(reader.finish().is_err());
    assert_eq!(reader.sized().unwrap(), Bytes::from_static(b"ok"));
    reader.finish().unwrap();
    assert!(reader.u8().is_err());
    assert!(reader.u64().is_err());
    assert!(reader.store_version().is_err());
}

#[test]
fn a_store_may_write_scalars_before_its_entries() {
    let entries = vec![(Bytes::from_static(b"k"), Bytes::from_static(b"v"))];
    let mut buffer = store_payload();
    put_sized(&mut buffer, b"scalar");
    put_byte_entries(&mut buffer, &entries);
    let payload = buffer.freeze();
    let mut reader = SnapshotReader::new(&payload);
    reader.store_version().unwrap();
    assert_eq!(reader.sized().unwrap(), Bytes::from_static(b"scalar"));
    assert_eq!(read_byte_entries(&mut reader).unwrap(), entries);
    reader.finish().unwrap();
}

#[test]
fn a_failed_rename_keeps_the_previous_snapshot_and_cleans_up() {
    let mut files = Files::default();
    let store = FileSnapshotStore::new(PathBuf::from("state"));
    let key = SnapshotKey::new("1-2", "g", -7);
    let original = snapshot(&[("s", b"1")]);
    files.save(&store, &key, &original).unwrap();
    files.rename_fails = true;
    let error = files.save(&store, &key, &snapshot(&[("s", b"2")])).unwrap_err();
    assert_eq!(
        error.to_string(),
        "state snapshot error: cannot save task 1-2 state: disk on fire"
    );
    assert_eq!(files.load(&store, &key).unwrap(), Some(original));
    assert_eq!(files.held.len(), 1);
    assert_eq!(files.directories.len(), 2);
}

#[test]
fn a_save_stops_at_its_first_failure() {
    let write: AtomicWrite<u8> = AtomicWrite::start();
    let write = write.advance(Err(1));
    assert_eq!(write.step(), WriteStep::Done);
    assert_eq!(write.finish(), Err(1));

    let write: AtomicWrite<u8> = AtomicWrite::start();
    let write = write.advance(Ok(())).advance(Err(2));
    assert_eq!(write.step(), WriteStep::Done);
    assert_eq!(write.finish(), Err(2));

    let write: AtomicWrite<u8> = AtomicWrite::start();
    let write = write.advance(Ok(())).advance(Ok(())).advance(Err(3));
    assert_eq!(write.step(), WriteStep::RemoveTemporary);
    assert_eq!(write.advance(Ok(())).finish(), Err(3));
}

#[test]
fn a_file_that_cannot_be_read_is_reported() {
    let key = SnapshotKey::new("0-1", "g", 2);
    let error = loaded(&key, FileRead::Failed("no permission".to_owned())).unwrap_err();
    assert_eq!(
        error.to_string(),
        "state snapshot error: cannot load task 0-1 state: no permission"
    );
    let error = loaded(&key, FileRead::Data(vec![0])).unwrap_err();
    assert_eq!(error.to_string(), "state snapshot error: truncated state snapshot");
}

#[test]
fn files_lie_in_the_directory_of_their_store() {
    let store = FileSnapshotStore::new(PathBuf::from("/var/state"));
    let key = SnapshotKey::new("0-1", "transactions", 7);
    assert_eq!(
        store.file(&key),
        PathBuf::from("/var/state/transactions-0-1-epoch-7.snapshot")
    );
    assert_eq!(
        store.temporary(&key),
        PathBuf::from("/var/state/transactions-0-1-epoch-7.snapshot.tmp")
    );
    let sly = SnapshotKey::new("..", "/../\\:\0\u{e9}", i64::MIN);
    assert_eq!(
        store.clone().file(&sly),
        PathBuf::from("/var/state/_.._____-..-epoch--9223372036854775808.snapshot")
    );
    assert_eq!(store.file(&sly).parent(), Some(store.directory().as_path()));
}

#[test]
fn keys_with_tasks_of_the_runtime_have_files_of_their_own() {
    let mut names = Vec::new();
    for group in ["a", "a-0", "a-0-1", "-", ""] {
        for task in ["0-1", "1-0", "10-1", "0-11"] {
            for epoch in [-11, -1, 0, 1, 11, i64::MAX] {
                names.push(SnapshotKey::new(task, group, epoch).file_name());
            }
        }
    }
    let count = names.len();
    names.sort();
    names.dedup();
    assert_eq!(names.len(), count);
    // Groups that differ only in what a file name cannot keep share a file.
    assert_eq!(
        SnapshotKey::new("0-0", "a/b", 1).file_name(),
        SnapshotKey::new("0-0", "a_b", 1).file_name()
    );
}

#[test]
fn changelog_entries_get_no_timestamp_of_their_own() {
    let changelog = vec![
        (Bytes::from_static(b"a"), Some(Bytes::from_static(b"1"))),
        (Bytes::from_static(b"b"), None),
    ];
    assert_eq!(
        without_timestamps(changelog),
        vec![
            (Bytes::from_static(b"a"), Some(Bytes::from_static(b"1")), None),
            (Bytes::from_static(b"b"), None, None),
        ]
    );
}

#[test]
fn a_read_that_fails_leaves_what_it_did_not_use() {
    let data = [0u8, 0, 0, 9, 1, 2];
    let mut reader = SnapshotReader::new(&data);
    assert!(reader.u64().is_err());
    assert!(reader.i64().is_err());
    // The length is read, and the bytes behind it are not.
    assert!(reader.sized().is_err());
    assert!(reader.u32().is_err());
    assert_eq!(reader.u8().unwrap(), 1);
    assert_eq!(reader.u8().unwrap(), 2);
    reader.finish().unwrap();

    let data = [0u8, 0, 0, 2, 7];
    let mut reader = SnapshotReader::new(&data);
    assert!(reader.store_version().is_err());
    assert_eq!(reader.u8().unwrap(), 7);

    let data = [0u8, 0, 0, 2, 0, 0, 0, 1, 5, 0, 0];
    let mut reader = SnapshotReader::new(&data);
    assert!(read_byte_entries(&mut reader).is_err());
    assert_eq!(reader.u8().unwrap(), 0);
    assert_eq!(reader.u8().unwrap(), 0);
    reader.finish().unwrap();
}

#[test]
fn a_save_touches_no_other_key() {
    let mut files = Files::default();
    let store = FileSnapshotStore::new(PathBuf::from("state"));
    let kept = SnapshotKey::new("0-0", "g", 1);
    let other = SnapshotKey::new("0-0", "g", 2);
    let original = snapshot(&[("s", b"1")]);
    files.save(&store, &kept, &original).unwrap();
    files.save(&store, &other, &snapshot(&[("s", b"2")])).unwrap();
    files.rename_fails = true;
    assert!(files.save(&store, &other, &snapshot(&[("s", b"3")])).is_err());
    assert_eq!(files.load(&store, &kept).unwrap(), Some(original));
    assert_eq!(files.load(&store, &other).unwrap(), Some(snapshot(&[("s", b"2")])));
    assert_eq!(files.held.len(), 2);
}

#[test]
fn groups_share_a_file_only_where_a_file_name_cannot_tell_them_apart() {
    let name = |group: &str| SnapshotKey::new("0-0", group, 1).file_name();
    assert_eq!(name("a/b"), name("a:b"));
    assert_ne!(name("a-b"), name("a_b"));
    assert_ne!(name("a"), name("A"));
}
