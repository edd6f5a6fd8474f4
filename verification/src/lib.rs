//! A single-user journal library: dated markdown entries kept in a canonical
//! table with a parallel full-text index, rendered to sanitized HTML, and
//! served through chronological, yearly/monthly and search views.
//!
//! The entry store owns the canonical table and the search index as one
//! logical aggregate with a single write operation; the query service reads
//! it; the sanitization pipeline turns untrusted markup into safe HTML; the
//! time normalizer validates every stored timestamp and date; the draft
//! holder keeps at most one unsaved body. The host process supplies storage
//! and the clock.

pub mod date;
pub mod error;
pub mod laws;
pub mod order;
pub mod query;
pub mod render;
pub mod store;
pub mod text;
