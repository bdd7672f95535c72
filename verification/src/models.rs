//! The data model: entries and the request/response envelopes.

use crate::result::RiversError;
use vstd::prelude::*;

verus! {

/// An opaque byte-string key.
pub type Key = Vec<u8>;

/// An opaque byte-string value.
pub type Value = Vec<u8>;

/// Microseconds since the Unix epoch, assigned at creation time by the
/// producing operation.
pub type Timestamp = u128;

/// The unit of storage: a keyed record, either live (carrying a value) or a
/// tombstone (marking the key as deleted, carrying no value).
#[derive(Clone, Debug, PartialEq, Eq)]
pub struct Entry {
    pub key: Key,
    pub value: Option<Value>,
    pub timestamp: Timestamp,
    pub deleted: bool,
}

/// The mathematical model of an [`Entry`]: the same fields over `Seq<u8>`.
pub struct EntryModel {
    pub key: Seq<u8>,
    pub value: Option<Seq<u8>>,
    pub timestamp: u128,
    pub deleted: bool,
}

impl EntryModel {
    /// Exactly one of "value present" and "deleted" holds: a live entry
    /// always carries a value, a tombstone never does.
    pub open spec fn wf(self) -> bool {
        self.deleted <==> (self.value is None)
    }

    /// The length of the value, or zero for a tombstone.
    pub open spec fn value_len(self) -> int {
        match self.value {
            Some(v) => v.len() as int,
            None => 0,
        }
    }

    /// The model of a live entry.
    pub open spec fn live(key: Seq<u8>, value: Seq<u8>, timestamp: u128) -> EntryModel {
        EntryModel { key, value: Some(value), timestamp, deleted: false }
    }

    /// The model of a tombstone.
    pub open spec fn tombstone(key: Seq<u8>, timestamp: u128) -> EntryModel {
        EntryModel { key, value: None, timestamp, deleted: true }
    }
}

impl View for Entry {
    type V = EntryModel;

    open spec fn view(&self) -> EntryModel {
        EntryModel {
            key: self.key@,
            value: match self.value {
                Some(v) => Some(v@),
                None => None,
            },
            timestamp: self.timestamp,
            deleted: self.deleted,
        }
    }
}

impl Entry {
    /// A live entry for `key` holding `value`, stamped with the current time.
    pub fn new(key: Key, value: Value) -> (r: Entry)
        ensures
            r@ == EntryModel::live(key@, value@, r@.timestamp),
            r@.wf(),
    {
        let timestamp = crate::clock::now_micros();
        Entry { key, value: Some(value), timestamp, deleted: false }
    }

    /// A tombstone for `key`, stamped with the current time.
    pub fn deleted(key: Key) -> (r: Entry)
        ensures
            r@ == EntryModel::tombstone(key@, r@.timestamp),
            r@.wf(),
    {
        let timestamp = crate::clock::now_micros();
        Entry { key, value: None, timestamp, deleted: true }
    }

    /// A field-for-field copy of this entry.
    pub fn duplicate(&self) -> (r: Entry)
        ensures
            r@ == self@,
    {
        let value = match &self.value {
            Some(v) => Some(copy_bytes(v)),
            None => None,
        };
        Entry {
            key: copy_bytes(&self.key),
            value,
            timestamp: self.timestamp,
            deleted: self.deleted,
        }
    }
}

/// A fresh vector holding the same bytes.
pub fn copy_bytes(src: &Vec<u8>) -> (r: Vec<u8>)
    ensures
        r@ == src@,
{
    let mut r: Vec<u8> = Vec::new();
    let n = src.len();
    let mut i: usize = 0;
    while i < n
        invariant
            i <= n,
            n == src@.len(),
            r@ == src@.subrange(0, i as int),
        decreases n - i,
    {
        r.push(src[i]);
        proof {
            assert(src@.subrange(0, i as int).push(src@[i as int]) =~= src@.subrange(
                0,
                i as int + 1,
            ));
        }
        i = i + 1;
    }
    proof {
        assert(src@.subrange(0, n as int) =~= src@);
    }
    r
}

/// Asks the engine to store `value` under `key`.
pub struct PutRequest {
    pub key: Key,
    pub value: Value,
}

/// The outcome of a put.
pub enum PutResponse {
    Success,
    Error { err: RiversError },
}

/// Asks the engine for the entry stored under `key`.
pub struct GetRequest {
    pub key: Key,
}

/// The outcome of a get. A tombstone is a *found* result, not absence:
/// callers tell "absent" from "found, deleted" by inspecting the entry's
/// tombstone marker themselves.
pub enum GetResponse {
    Success { entry: Entry },
    DoesNotExist,
    Error { err: RiversError },
}

/// Asks the engine to mark `key` as deleted.
pub struct DeleteRequest {
    pub key: Key,
}

/// The outcome of a delete.
pub enum DeleteResponse {
    Success,
    Error { err: RiversError },
}

} // verus!
