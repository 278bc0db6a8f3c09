//! A cached accessor for configuration values that come from the process
//! environment or, failing that, from an ordered list of override files.
//!
//! Names, values and paths are byte strings. The `Registry` holds the paths
//! of the override files, the `Cache` what each name resolved to. A lookup
//! asks the cache, then the environment, then the files in the order of the
//! registry, and caches what it comes upon. Neither the environment nor the
//! files are touched from here: `advance` takes a lookup one step further
//! from what its caller found outside, and `get_os`, `get` and `get_bool` run
//! a whole lookup on sources held in memory.

pub mod bytes;
pub mod cache;
pub mod format;
pub mod laws;
pub mod registry;
pub mod resolve;
pub mod text;

pub use crate::cache::Cache;
pub use crate::format::{insert_key_value, scan_source, Decoding, Source};
pub use crate::registry::{add_override_path, Registry};
pub use crate::resolve::{advance, get, get_bool, get_os, Event, Step};
pub use crate::text::{decode, parse_flag, to_flag, to_text};
