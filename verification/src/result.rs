use vstd::prelude::*;

verus! {

/// The error taxonomy of the store.
///
/// I/O failures and decode failures are surfaced to the caller of the
/// operation in progress; "key not found" is never an error (lookups report
/// absence through their response type instead).
#[derive(Debug)]
pub enum RiversError {
    /// A failure opening, reading, writing or flushing a file, or reading a
    /// directory. Raised only by the unverified I/O layer around this crate.
    FileErr { msg: String },
    /// A segment record could not be decoded: the stream ended, or fell
    /// short, at some field boundary past the first one.
    WalErr { msg: String },
    /// Kept for callers that want to map an absent key onto an error of
    /// their own; the engine itself reports absence, not an error.
    KeyNotFound,
}

impl RiversError {
    /// Builds the decode-failure error carrying the given message.
    pub fn wal_err(msg: &str) -> (r: RiversError)
        ensures
            r matches RiversError::WalErr { msg: m } && m@ == msg@,
    {
        RiversError::WalErr { msg: msg.to_owned() }
    }
}

} // verus!
