//! Directory-browsing data source for a launcher-style menu.
//!
//! Given one directory level, the library filters hidden entries, sorts
//! directories before files (each group by name), resolves a display icon
//! for each entry through a two-tier icon catalog, and renders the result
//! in the launcher's line protocol. All strings are handled as raw bytes:
//! the output format is a byte-exact wire protocol, and file names need
//! not be valid text.

pub mod byteseq;
pub mod icon;
pub mod listing;
pub mod nav;
