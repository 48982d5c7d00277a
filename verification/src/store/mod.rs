//! Barrier snapshots of the state stores of a task.

pub mod container;
pub mod key;
pub mod restore;
pub mod snapshot;
pub mod stores;

pub use container::SNAPSHOT_CONTAINER_VERSION;
pub use key::SnapshotKey;
pub use snapshot::{decode_snapshot, encode_snapshot, TaskSnapshot};
pub use stores::{FileSnapshotStore, NoSnapshotStore};
