//! Verified core of a command-line snippet store.
//!
//! The store is a flat text file of name/value records, one per line, the
//! value bounded by single-quote delimiters.  This crate holds the record
//! codec (decode text to entries, encode entries back to text) and the store
//! operations (list, add, set, remove, find) as pure, verified functions on
//! the file's text.  Reading and writing the backing file, and the command
//! line around it, live outside the library.

pub mod strutil;
pub mod entry;
pub mod codec;
pub mod store;
