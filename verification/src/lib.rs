//! An embedded, single-process, append-only key-value storage engine.
//!
//! Callers link this crate as a library. It offers `put`, `get` and `delete`
//! over byte-string keys and values. Writes go to an in-memory ordered buffer
//! (the memtable) and to an append-only binary log (a segment); reads check
//! the memtable first and fall back to scanning the segments oldest-first.
//!
//! This crate holds the verified core: the record codec, the memtable, the
//! write-ahead-log framing and decoding, and the engine's decisions. File
//! handles and directory listings live with the caller, which hands the
//! engine plain bytes and receives plain bytes to persist.

pub mod client;
mod clock;
pub mod lex;
pub mod memtable;
pub mod models;
pub mod result;
pub mod wal;
