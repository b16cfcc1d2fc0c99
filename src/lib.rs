//! A reader-writer lock whose fairness is chosen at construction: which class of
//! waiter is favoured when both wait, and in which order waiters of one class go.

pub mod fairness;
pub mod lock;
pub mod monitor;
pub mod policy;

pub use lock::{RwLock, RwLockReadGuard, RwLockWriteGuard};
pub use monitor::Monitor;
pub use policy::{Order, Preference};
