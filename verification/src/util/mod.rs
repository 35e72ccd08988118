//! Helpers that the stores and the snapshot driver share.

pub mod assoc;
pub mod bytes;
pub mod hex;
pub mod listdir;
pub mod periodic_timer;

pub use self::periodic_timer::PeriodicTimer;
