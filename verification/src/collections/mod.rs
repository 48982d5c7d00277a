//! Collections that keep their keys in order.

pub mod order;
pub mod ordered_map;
pub mod ordered_set;

pub use order::{OrderedKey, Placement};
pub use ordered_map::OrderedMap;
pub use ordered_set::OrderedSet;
