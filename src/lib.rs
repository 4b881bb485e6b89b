//! A hash map whose elements are also reachable by a stable, reusable index.
//!
//! Keys live in a hash index (`nodes`), values in a slot store (`slots`). Each slot
//! caches the hash of its key, so a lookup by index finds the node through that hash
//! without hashing the key again. Keys and values are `i64`. The hashing policy is a
//! seed fed to one fixed hasher (`hashing`), so that a key's hash depends on the seed
//! and the key alone.
//!
//! `model` states what a map holds, `map` holds the facade and its invariant, `entry`
//! the entry API, `set` a set on top of the map, and `laws` the properties that relate
//! several operations.
use vstd::prelude::*;

pub mod entry;
pub mod error;
pub mod hashing;
pub mod laws;
pub mod map;
pub mod model;
pub mod nodes;
pub mod set;
pub mod slots;

pub use error::TryReserveError;
pub use map::HashSlabMap;
pub use set::HashSlabSet;

verus! {

/// The largest `len + additional` that `reserve` accepts: far below the size at which
/// either backing store would overflow `isize::MAX` bytes.
pub const RESERVE_LIMIT: usize = usize::MAX / 256;

} // verus!
