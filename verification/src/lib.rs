//! A hybrid memory/disk blob cache core: every accepted object is meant to be
//! persisted durably by the caller, while a size- and time-bounded subset is
//! held in memory for fast retrieval. This crate holds the verified engine:
//! admission control, the time-expiring memory cache, and the capacity
//! accounting that bounds aggregate memory usage. Reading and writing the
//! disk copies is the caller's part; the engine works on plain keys, bytes
//! and timestamps.

pub mod bytes_util;
pub mod keys;
pub mod laws;
pub mod librarian;
pub mod model;
pub mod session;

pub use keys::key_is_safe;
pub use librarian::Librarian;
pub use model::CacheModel;
pub use model::EntryModel;
pub use session::InsertSession;
