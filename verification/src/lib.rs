//! A verified core for a download-folder watcher that sorts freshly
//! downloaded video files into a per-series library layout.
//!
//! The library holds the logic of the watcher: filename parsing, the
//! directory index and mapping table, the shared bookkeeping state,
//! move planning, missing-episode resolution, config-tree reading and
//! chunked report assembly.  All file system, network and chat-channel
//! work stays outside, in the surrounding binary, which feeds plain
//! values in and carries actions out.

pub mod config;
pub mod episodes;
pub mod index;
pub mod mover;
pub mod parse;
pub mod report;
pub mod scan;
pub mod state;
pub mod text;
pub mod voe;
pub mod watcher;
