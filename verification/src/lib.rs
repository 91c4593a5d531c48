//! A local application index: it parses installed-application descriptor
//! files into records, persists a full snapshot to a cache document, and
//! answers case-insensitive substring queries ranked by which field matched.

pub mod cache;
pub mod engine;
pub mod entry;
pub mod icon;
pub mod matching;
pub mod parse;
pub mod scan;
pub mod sort;
pub mod textops;
