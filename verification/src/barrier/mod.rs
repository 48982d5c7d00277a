//! Barrier cuts: an exact, reproducible point in every input at once.
//!
//! A broker injects an epoch-stamped marker into every partition of a named
//! barrier group and publishes the resulting **cut**, one marker offset per
//! partition, to the internal topic `__barrier_state`. The marker is a control
//! record, so no consumer ever receives one. A task aligns on a cut by comparing
//! its consumed offsets against the cut's offsets, never by watching for a
//! marker.
//!
//! # Key Types
//!
//! - [`BarrierCut`] — one epoch's cut, with the marker offset of each partition.
//! - [`CutReader`] — reads published cuts from `__barrier_state`.
//! - [`BarrierAlignment`] — tells a runtime which group to align on, and where
//!   to keep each cut's snapshot.
//! - [`BarrierListener`] — the callback that fires when a barrier is reached.

pub mod align;
pub mod cut;
pub mod held;
pub mod history;
pub mod reader;
pub mod record;

pub use align::{Barrier, BarrierAlignment, BarrierListener};
pub use cut::{decode_barrier_cut, BarrierCut, CutStatus, BARRIER_STATE_TOPIC};
pub use held::FetchedRec;
pub use reader::{CutAction, CutReader, IsolationLevel};
