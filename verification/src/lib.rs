//! Barrier cuts and barrier snapshots of a streams client.
//!
//! A broker publishes, for each barrier group and epoch, the offset of a marker
//! in every partition of the group: a cut. [`barrier`] decodes those cuts and
//! keeps track of the complete ones. [`store`] encodes, decodes, names, and
//! restores the snapshots that a task takes of its state stores at a cut. [`laws`]
//! writes out, in bytes and numbers, what the contracts of both come to.

pub mod barrier;
pub mod buffer;
pub mod collections;
pub mod error;
pub mod laws;
pub mod layout;
pub mod position;
pub mod store;
pub mod text;
pub mod wire;

pub use barrier::{
    decode_barrier_cut, Barrier, BarrierAlignment, BarrierCut, BarrierListener, CutAction,
    CutReader, CutStatus, FetchedRec, IsolationLevel, BARRIER_STATE_TOPIC,
};
pub use error::StreamsClientError;
pub use position::{Position, TopicPartition};
pub use store::{
    decode_snapshot, encode_snapshot, FileSnapshotStore, NoSnapshotStore, SnapshotKey,
    TaskSnapshot, SNAPSHOT_CONTAINER_VERSION,
};
