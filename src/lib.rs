//! A spin lock that guards one value, verified with Verus.
pub mod lock;
pub mod protocol;

pub use lock::Mutex;
