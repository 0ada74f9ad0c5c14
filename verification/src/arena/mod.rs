//! Generational arenas that hand out keys to the values they hold.
//!
//! * [`sparse`]: slots hold either a value or a link of the list of free slots
//! * [`hop`]: free slots form blocks, so that iteration hops over them
//! * [`dense`]: values are packed together, and slots only point to them

pub mod access;
pub mod dense;
pub mod hop;
pub mod occupancy;
pub mod sparse;

pub use access::{ArenaKey, BuildArenaKey, CompleteValidator, Key, TrustedIndex, Validator};
