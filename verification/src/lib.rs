//! A consistent-hashing ring: a fixed circle of 256 positions onto which
//! named servers are placed by salted hashing, so that any key can be
//! routed to the nearest owning server clockwise from the key's own hash.
//!
//! The ring is the routing primitive behind sharded caches and partitioned
//! key-value stores: each server claims a fixed number of positions, a key
//! belongs to the first occupied position at or after its hash, and adding
//! or removing one server only relocates the keys that server owns.

mod hashing;
mod laws;
mod ring;
mod text;

pub use hashing::hash;
pub use hashing::position_of;
pub use ring::Ring;
pub use ring::RingError;
pub use ring::DEFAULT_POSITIONS_PER_SERVER;
