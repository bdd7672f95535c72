//! The engine: one memtable plus the active write-ahead log, over a store
//! directory of segment files.
//!
//! All file handles stay with the caller. Writes land in the memtable and
//! in the log buffer, and the caller persists what [`Rivers::take_pending`]
//! and [`Rivers::rotate`] hand back; reads check the memtable and fall back
//! to scanning the segment bytes the caller passes in, ordered as
//! [`order_segment_files`] orders their names.

use crate::lex::lex_lt;
use crate::memtable::{find_key, memtable_delete_post, memtable_put_post, MemTable};
use crate::models::{DeleteRequest, DeleteResponse, Entry, EntryModel, GetRequest, GetResponse,
    PutRequest, PutResponse};
use crate::result::RiversError;
use crate::wal::{scan_segment, seg_lookup, spec_encode, spec_is_segment_name, is_segment_name,
    LookupResult, ScanOutcome, WAL};
use vstd::prelude::*;

verus! {

/// The accounted memtable size above which a put first rotates: clears the
/// memtable and flushes the log.
pub const MEMTABLE_MAX_BYTES: usize = 2_000_000;

/// The views of a sequence of byte vectors.
pub open spec fn byte_views(s: Seq<Vec<u8>>) -> Seq<Seq<u8>> {
    s.map_values(|v: Vec<u8>| v@)
}

/// The segment-name predicate as a value, for filtering name lists.
pub open spec fn seg_name_pred() -> spec_fn(Seq<u8>) -> bool {
    |s: Seq<u8>| spec_is_segment_name(s)
}

/// What scanning the segments from index `i` on — oldest first — concludes
/// for `key`: the verdict of the first segment that does not report
/// absence, or absence once every segment has been scanned clean.
pub open spec fn store_lookup(segs: Seq<Seq<u8>>, i: int, key: Seq<u8>) -> LookupResult
    decreases segs.len() - i,
{
    if i < 0 || i >= segs.len() {
        LookupResult::Absent
    } else {
        match seg_lookup(segs[i], 0, key) {
            LookupResult::Found(e) => LookupResult::Found(e),
            LookupResult::Corrupt => LookupResult::Corrupt,
            LookupResult::Absent => store_lookup(segs, i + 1, key),
        }
    }
}

/// The engine state: the memtable and the active log buffer.
pub struct Rivers {
    pub memtable: MemTable,
    pub wal: WAL,
}

/// What [`Rivers::put`] leaves behind, for the timestamp it stamped: the
/// memtable holds the new live entry under its key, every other key is
/// untouched, and the same entry — same timestamp — is appended, encoded,
/// to the log buffer.
pub open spec fn put_post(
    pre: Rivers,
    post: Rivers,
    key: Seq<u8>,
    value: Seq<u8>,
    ts: u128,
) -> bool {
    &&& memtable_put_post(pre.memtable, post.memtable, key, value, ts)
    &&& post.wal.buffer@ == pre.wal.buffer@ + spec_encode(EntryModel::live(key, value, ts))
}

/// What [`Rivers::delete`] leaves behind, for the timestamp it stamped:
/// the memtable holds the tombstone under the key, and the same tombstone
/// is appended, encoded, to the log buffer.
pub open spec fn delete_post(pre: Rivers, post: Rivers, key: Seq<u8>, ts: u128) -> bool {
    &&& memtable_delete_post(pre.memtable, post.memtable, key, ts)
    &&& post.wal.buffer@ == pre.wal.buffer@ + spec_encode(EntryModel::tombstone(key, ts))
}

impl Rivers {
    pub open spec fn wf(self) -> bool {
        self.memtable.wf()
    }

    /// A fresh engine: empty memtable, empty log buffer. The memtable is
    /// never reloaded from disk; reads for data written before a restart
    /// fall through to the segment scan.
    pub fn new() -> (r: Rivers)
        ensures
            r.wf(),
            r.memtable@ == Seq::<EntryModel>::empty(),
            r.memtable.size == 0,
            r.wal.buffer@ == Seq::<u8>::empty(),
    {
        Rivers { memtable: MemTable::new(), wal: WAL::new() }
    }

    /// The rotation policy: whether the accounted memtable size is over the
    /// threshold. When it is, the caller runs [`Rivers::rotate`] and
    /// persists the returned bytes before the put that found it goes ahead;
    /// if persisting fails, the put is abandoned and the failure surfaces.
    pub fn rotation_needed(&self) -> (r: bool)
        ensures
            r == (self.memtable.size > MEMTABLE_MAX_BYTES),
    {
        self.memtable.size > MEMTABLE_MAX_BYTES
    }

    /// Rotation: clears the memtable and drains the log buffer. The caller
    /// must write and flush the returned bytes to the active segment — the
    /// durability checkpoint before the in-memory copy is discarded.
    pub fn rotate(&mut self) -> (r: Vec<u8>)
        requires
            old(self).wf(),
        ensures
            final(self).wf(),
            final(self).memtable@ == Seq::<EntryModel>::empty(),
            final(self).memtable.size == 0,
            r@ == old(self).wal.buffer@,
            final(self).wal.buffer@ == Seq::<u8>::empty(),
    {
        self.memtable.clear();
        self.wal.flush()
    }

    /// Stores `value` under `key`: one live entry, stamped with the current
    /// time, goes into the memtable and, encoded, onto the log buffer.
    pub fn put(&mut self, put: PutRequest) -> (r: PutResponse)
        requires
            old(self).wf(),
        ensures
            final(self).wf(),
            r is Success,
            exists|ts: u128|
                #[trigger] put_post(*old(self), *final(self), put.key@, put.value@, ts),
    {
        let ghost kv = put.key@;
        let ghost vv = put.value@;
        let e = Entry::new(put.key, put.value);
        let ghost ts = e@.timestamp;
        self.wal.put(&e);
        self.memtable.insert_entry(e);
        proof {
            assert(put_post(*old(self), *self, kv, vv, ts));
        }
        PutResponse::Success
    }

    /// Marks `key` deleted: one tombstone, stamped with the current time,
    /// goes into the memtable and, encoded, onto the log buffer. No
    /// rotation check runs on this path — tombstones never trigger
    /// rotation, though they move the size counter.
    pub fn delete(&mut self, del: DeleteRequest) -> (r: DeleteResponse)
        requires
            old(self).wf(),
        ensures
            final(self).wf(),
            r is Success,
            exists|ts: u128| #[trigger] delete_post(*old(self), *final(self), del.key@, ts),
    {
        let ghost kv = del.key@;
        let e = Entry::deleted(del.key);
        let ghost ts = e@.timestamp;
        self.wal.put(&e);
        self.memtable.insert_entry(e);
        proof {
            assert(delete_post(*old(self), *self, kv, ts));
        }
        DeleteResponse::Success
    }

    /// Drains the log buffer for the caller to append to the active
    /// segment file. Until the caller writes and flushes these bytes, the
    /// records they encode are not durable and a reader of the file may see
    /// it shorter than what was put.
    pub fn take_pending(&mut self) -> (r: Vec<u8>)
        ensures
            r@ == old(self).wal.buffer@,
            final(self).wal.buffer@ == Seq::<u8>::empty(),
            final(self).memtable == old(self).memtable,
    {
        self.wal.flush()
    }

    /// Looks `key` up. The memtable answers if it holds the key — a
    /// tombstone is a *found* result, not absence. Otherwise the given
    /// segments are scanned in order, each to its first match or clean end:
    /// the first match across the scan wins, so with `segments` oldest
    /// first a key rewritten across segments resolves to its *oldest*
    /// surviving version. A decode failure reached before any match aborts
    /// the whole lookup with an error; it is never folded into absence.
    ///
    /// `segments` holds each segment file's bytes, ordered as
    /// [`order_segment_files`] orders the file names.
    pub fn get(&self, get: GetRequest, segments: &Vec<Vec<u8>>) -> (r: GetResponse)
        requires
            self.wf(),
        ensures
            match find_key(self.memtable@, get.key@) {
                Some(e) => r matches GetResponse::Success { entry } && entry@ == e,
                None => match store_lookup(byte_views(segments@), 0, get.key@) {
                    LookupResult::Found(e) => r matches GetResponse::Success { entry } && entry@
                        == e,
                    LookupResult::Absent => r is DoesNotExist,
                    LookupResult::Corrupt => r matches GetResponse::Error { err }
                        && err matches RiversError::WalErr { .. },
                },
            },
    {
        match self.memtable.get(&get.key) {
            Some(e) => {
                return GetResponse::Success { entry: e.duplicate() };
            },
            None => {},
        }
        let n = segments.len();
        let mut si: usize = 0;
        while si < n
            invariant
                si <= n,
                n == segments@.len(),
                find_key(self.memtable@, get.key@) is None,
                store_lookup(byte_views(segments@), 0, get.key@) == store_lookup(
                    byte_views(segments@),
                    si as int,
                    get.key@,
                ),
            decreases n - si,
        {
            proof {
                assert(byte_views(segments@)[si as int] == segments@[si as int]@);
            }
            match scan_segment(&segments[si], &get.key) {
                ScanOutcome::Found { entry } => {
                    return GetResponse::Success { entry };
                },
                ScanOutcome::Corrupt => {
                    return GetResponse::Error {
                        err: RiversError::wal_err("truncated or corrupt segment record"),
                    };
                },
                ScanOutcome::Absent => {
                    si = si + 1;
                },
            }
        }
        GetResponse::DoesNotExist
    }
}

/// Relies on `itertools::Itertools::sorted`, which collects its input and
/// sorts it ascending by `Ord` — for byte vectors, lexicographic order —
/// returning a permutation of the input.
#[verifier::external_body]
fn sorted_names(names: Vec<Vec<u8>>) -> (r: Vec<Vec<u8>>)
    ensures
        byte_views(r@).to_multiset() == byte_views(names@).to_multiset(),
        forall|i: int, j: int|
            #![trigger r@[i], r@[j]]
            0 <= i < j < r@.len() ==> !lex_lt(r@[j]@, r@[i]@),
{
    itertools::Itertools::sorted(names.into_iter()).collect()
}

/// The segment files among `names`, oldest first: exactly the names that
/// carry the segment extension, sorted ascending. Segment file names embed
/// their creation timestamp, so for the names this store writes,
/// lexicographic order is creation order.
pub fn order_segment_files(names: Vec<Vec<u8>>) -> (r: Vec<Vec<u8>>)
    ensures
        forall|i: int| 0 <= i < r@.len() ==> spec_is_segment_name(#[trigger] r@[i]@),
        forall|i: int, j: int|
            #![trigger r@[i], r@[j]]
            0 <= i < j < r@.len() ==> !lex_lt(r@[j]@, r@[i]@),
        byte_views(r@).to_multiset() == byte_views(names@).filter(seg_name_pred()).to_multiset(),
{
    let n = names.len();
    let mut kept: Vec<Vec<u8>> = Vec::new();
    let mut i: usize = 0;
    proof {
        reveal(Seq::filter);
        assert(byte_views(names@.subrange(0, 0)) =~= Seq::<Seq<u8>>::empty());
        assert(byte_views(kept@) =~= byte_views(names@.subrange(0, 0)).filter(seg_name_pred()));
    }
    while i < n
        invariant
            i <= n,
            n == names@.len(),
            byte_views(kept@) == byte_views(names@.subrange(0, i as int)).filter(seg_name_pred()),
        decreases n - i,
    {
        let ghost pre_kept = byte_views(kept@);
        let keep = is_segment_name(&names[i]);
        if keep {
            let name = crate::models::copy_bytes(&names[i]);
            kept.push(name);
        }
        proof {
            reveal(Seq::filter);
            let x = names@[i as int]@;
            let pv = byte_views(names@.subrange(0, i as int));
            let pv1 = byte_views(names@.subrange(0, i as int + 1));
            let single = seq![x];
            assert(pv1 =~= pv + single);
            Seq::filter_distributes_over_add(pv, single, seg_name_pred());
            assert(single.drop_last() =~= Seq::<Seq<u8>>::empty());
            assert(single.last() == x);
            assert(seg_name_pred()(x) == spec_is_segment_name(x));
            assert(Seq::<Seq<u8>>::empty().filter(seg_name_pred()) =~= Seq::<Seq<u8>>::empty());
            if keep {
                assert(single.filter(seg_name_pred()) =~= single);
                assert(byte_views(kept@) =~= pre_kept.push(x));
                assert(pv.filter(seg_name_pred()).push(x) =~= pv.filter(seg_name_pred())
                    + single);
                assert(byte_views(kept@) =~= pv1.filter(seg_name_pred()));
            } else {
                assert(single.filter(seg_name_pred()) =~= Seq::<Seq<u8>>::empty());
                assert(pv.filter(seg_name_pred()) + single.filter(seg_name_pred())
                    =~= pv.filter(seg_name_pred()));
                assert(byte_views(kept@) =~= pv1.filter(seg_name_pred()));
            }
        }
        i = i + 1;
    }
    proof {
        assert(names@.subrange(0, n as int) =~= names@);
        assert(byte_views(names@.subrange(0, n as int)) =~= byte_views(names@));
    }
    let r = sorted_names(kept);
    proof {
        let f = byte_views(names@).filter(seg_name_pred());
        assert forall|i2: int| 0 <= i2 < r@.len() implies spec_is_segment_name(
            #[trigger] r@[i2]@,
        ) by {
            let x = r@[i2]@;
            assert(byte_views(r@)[i2] == x);
            assert(byte_views(r@).contains(x));
            byte_views(r@).to_multiset_ensures();
            f.to_multiset_ensures();
            assert(f.to_multiset().count(x) > 0);
            assert(f.contains(x));
            let j = choose|j: int| 0 <= j < f.len() && f[j] == x;
            byte_views(names@).lemma_filter_pred(seg_name_pred(), j);
            assert(seg_name_pred()(x));
        }
    }
    r
}

/// Multi-segment resolution order, the policy this engine keeps: segments
/// are visited oldest-first and the first match returns. So when several
/// segments hold writes for a key, the verdict of the *oldest* segment
/// that holds any — its record, or its corruption — decides the lookup,
/// not the newest.
pub proof fn lemma_oldest_segment_wins(segs: Seq<Seq<u8>>, key: Seq<u8>, i: int)
    requires
        0 <= i < segs.len(),
        forall|j: int| 0 <= j < i ==> seg_lookup(#[trigger] segs[j], 0, key) is Absent,
        !(seg_lookup(segs[i], 0, key) is Absent),
    ensures
        store_lookup(segs, 0, key) == seg_lookup(segs[i], 0, key),
{
    lemma_store_lookup_skip_absent(segs, key, 0, i);
}

proof fn lemma_store_lookup_skip_absent(segs: Seq<Seq<u8>>, key: Seq<u8>, s: int, i: int)
    requires
        0 <= s <= i < segs.len(),
        forall|j: int| s <= j < i ==> seg_lookup(#[trigger] segs[j], 0, key) is Absent,
        !(seg_lookup(segs[i], 0, key) is Absent),
    ensures
        store_lookup(segs, s, key) == seg_lookup(segs[i], 0, key),
    decreases i - s,
{
    if s < i {
        lemma_store_lookup_skip_absent(segs, key, s + 1, i);
    }
}

} // verus!
