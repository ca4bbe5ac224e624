//! Core logic of an unattended attendance-tracking terminal.
//!
//! Tag identifiers arrive from a serial frame parser or from the text output
//! of an external reader process, are deduplicated per calendar day, recorded
//! in an attendance store backed by a pluggable persistence layer, and fan out
//! over a broadcast event bus.  A report exporter renders the tag-by-day
//! presence matrix, and an idle watcher drives hotspot automation.

pub mod color;
pub mod day;
pub mod errors;
pub mod event_bus;
pub mod feedback;
pub mod hardware;
pub mod hotspot;
pub mod id_mapping;
pub mod id_store;
pub mod idle_watcher;
pub mod mock;
pub mod nfc_reader;
pub mod parser;
pub mod persistence;
pub mod pm3;
pub mod tally_id;
pub mod text;

pub use errors::TallyError;
pub use tally_id::TallyID;
