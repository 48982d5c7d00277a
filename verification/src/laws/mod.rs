//! What the library promises, written out.
//!
//! The other modules state contracts in terms of definitions. The laws here say
//! what those definitions come to, in numbers, bytes, and characters.

pub mod cuts;
pub mod faults;
pub mod files;
pub mod numbers;
pub mod order;
pub mod reading;
pub mod records;
pub mod snapshots;
pub mod texts;
