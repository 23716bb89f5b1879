//! An encrypted note store: every note keeps its body and its priority label
//! sealed under AES-256-GCM, while identifiers and timestamps stay readable
//! for ordering and lookup.
//!
//! `cipher` seals and opens single fields. `table` holds the sealed rows and
//! `store` creates, reads, changes, lists and searches notes over it.
//! `transfer` moves the whole table out to delimited text and back in, and
//! `render` lays notes out as text tables.

pub mod error;
pub mod cipher;
pub mod timestamp;
pub mod priority;
pub mod note;
pub mod text;
pub mod decimal;
pub mod table;
pub mod listing;
pub mod store;
pub mod transfer;
pub mod render;
