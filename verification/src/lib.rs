//! Application index cache for a desktop launcher.
//!
//! The library discovers application descriptor files (INI-style text files
//! with a `Desktop Entry` section), parses each one into an [`parser::Application`]
//! record, and keeps the records in a deduplicated [`store::RecordStore`] keyed
//! by name. A [`manager::CacheManager`] facade owns the store and drives a full
//! rescan over a directory listing. All persistence and directory I/O lives
//! outside the library; the library receives file names and file contents as
//! plain values.

pub mod manager;
pub mod parser;
pub mod rebuild;
pub mod store;
pub mod text;
