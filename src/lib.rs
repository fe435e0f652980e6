//! In-memory backing store for per-origin key/value storage: a manager that
//! owns one ordered bucket of string keys and values per origin, and the rule
//! that turns a locator into its origin key.
pub mod assoc;
pub mod bucket;
pub mod laws;
pub mod manager;
pub mod model;
pub mod order;
pub mod origin;

pub use manager::{StorageManager, StorageReply, StorageRequest};
pub use order::{compare_keys, KeyOrder};
pub use origin::{get_origin_as_string, Locator};
