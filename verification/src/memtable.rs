//! The memtable: an in-memory buffer of entries, ordered and keyed by the
//! entry key, with a running byte-size counter.
//!
//! The table enforces key-unique replacement, last write wins: at most one
//! entry exists per key, and an insert under an existing key replaces that
//! entry. The size counter approximates the occupied bytes — key plus value
//! length for live entries — and moves on every insert as the contracts
//! below state, saturating at the ends of `usize` rather than wrapping.

use crate::lex::{key_compare, lemma_lex_lt_irreflexive, lemma_lex_lt_transitive, lex_lt,
    KeyOrdering};
use crate::models::{Entry, EntryModel, Key, Value};
use vstd::prelude::*;

verus! {

/// The first entry of `s` whose key is `key`, front to back.
pub open spec fn find_key(s: Seq<EntryModel>, key: Seq<u8>) -> Option<EntryModel>
    decreases s.len(),
{
    if s.len() == 0 {
        None
    } else if s[0].key == key {
        Some(s[0])
    } else {
        find_key(s.skip(1), key)
    }
}

pub proof fn lemma_find_key_some(s: Seq<EntryModel>, key: Seq<u8>, i: int)
    requires
        0 <= i < s.len(),
        s[i].key == key,
        forall|j: int| 0 <= j < i ==> (#[trigger] s[j]).key != key,
    ensures
        find_key(s, key) == Some(s[i]),
    decreases i,
{
    if i > 0 {
        assert forall|j: int| 0 <= j < i - 1 implies (#[trigger] s.skip(1)[j]).key != key by {
            assert(s.skip(1)[j] == s[j + 1]);
        }
        assert(s.skip(1)[i - 1] == s[i]);
        lemma_find_key_some(s.skip(1), key, i - 1);
    }
}

pub proof fn lemma_find_key_none(s: Seq<EntryModel>, key: Seq<u8>)
    requires
        forall|j: int| 0 <= j < s.len() ==> (#[trigger] s[j]).key != key,
    ensures
        find_key(s, key) is None,
    decreases s.len(),
{
    if s.len() > 0 {
        assert forall|j: int| 0 <= j < s.skip(1).len() implies (#[trigger] s.skip(1)[j]).key
            != key by {
            assert(s.skip(1)[j] == s[j + 1]);
        }
        lemma_find_key_none(s.skip(1), key);
    }
}

pub proof fn lemma_find_key_update_other(s: Seq<EntryModel>, i: int, e: EntryModel, key: Seq<u8>)
    requires
        0 <= i < s.len(),
        key != e.key,
        key != s[i].key,
    ensures
        find_key(s.update(i, e), key) == find_key(s, key),
    decreases i,
{
    let t = s.update(i, e);
    if i == 0 {
        assert(t.skip(1) =~= s.skip(1));
    } else {
        assert(t[0] == s[0]);
        if s[0].key != key {
            assert(t.skip(1) =~= s.skip(1).update(i - 1, e));
            lemma_find_key_update_other(s.skip(1), i - 1, e, key);
        }
    }
}

pub proof fn lemma_find_key_insert_other(s: Seq<EntryModel>, i: int, e: EntryModel, key: Seq<u8>)
    requires
        0 <= i <= s.len(),
        key != e.key,
    ensures
        find_key(s.insert(i, e), key) == find_key(s, key),
    decreases i,
{
    let t = s.insert(i, e);
    if i == 0 {
        assert(t[0] == e);
        assert(t.skip(1) =~= s);
    } else {
        assert(t[0] == s[0]);
        if s[0].key != key {
            assert(t.skip(1) =~= s.skip(1).insert(i - 1, e));
            lemma_find_key_insert_other(s.skip(1), i - 1, e, key);
        }
    }
}

/// `x` forced into `usize`: the saturating value of a size adjustment.
pub open spec fn clamp_size(x: int) -> usize {
    if x < 0 {
        0
    } else if x > usize::MAX {
        usize::MAX
    } else {
        x as usize
    }
}

/// How one insert moves the size counter: a live entry adds its value
/// length net of the value it replaces — plus its key length when the key
/// is new — and a tombstone takes back the replaced value's length plus a
/// fixed overhead when it replaces anything at all.
pub open spec fn spec_size_delta(old_entry: Option<EntryModel>, e: EntryModel) -> int {
    if !e.deleted {
        match old_entry {
            Some(o) => e.value_len() - o.value_len(),
            None => e.key.len() + e.value_len(),
        }
    } else {
        match old_entry {
            Some(o) => -(o.value_len() + 17),
            None => 0,
        }
    }
}

fn sat_add(a: usize, b: usize) -> (r: usize)
    ensures
        r == clamp_size(a as int + b as int),
{
    if a <= usize::MAX - b {
        a + b
    } else {
        usize::MAX
    }
}

fn sat_sub(a: usize, b: usize) -> (r: usize)
    ensures
        r == clamp_size(a as int - b as int),
{
    if a >= b {
        a - b
    } else {
        0
    }
}

/// An in-memory buffer of entries, ordered by key, with at most one entry
/// per key and a running byte-size counter.
pub struct MemTable {
    pub entries: Vec<Entry>,
    pub size: usize,
}

impl View for MemTable {
    type V = Seq<EntryModel>;

    open spec fn view(&self) -> Seq<EntryModel> {
        self.entries@.map_values(|e: Entry| e@)
    }
}

/// What [`MemTable::put`] leaves behind, for the timestamp it stamped.
pub open spec fn memtable_put_post(
    pre: MemTable,
    post: MemTable,
    key: Seq<u8>,
    value: Seq<u8>,
    ts: u128,
) -> bool {
    let e = EntryModel::live(key, value, ts);
    &&& find_key(post@, key) == Some(e)
    &&& forall|k: Seq<u8>| k != key ==> #[trigger] find_key(post@, k) == find_key(pre@, k)
    &&& post.size == clamp_size(pre.size + spec_size_delta(find_key(pre@, key), e))
}

/// What [`MemTable::delete`] leaves behind, for the timestamp it stamped.
pub open spec fn memtable_delete_post(
    pre: MemTable,
    post: MemTable,
    key: Seq<u8>,
    ts: u128,
) -> bool {
    let e = EntryModel::tombstone(key, ts);
    &&& find_key(post@, key) == Some(e)
    &&& forall|k: Seq<u8>| k != key ==> #[trigger] find_key(post@, k) == find_key(pre@, k)
    &&& post.size == clamp_size(pre.size + spec_size_delta(find_key(pre@, key), e))
}

impl MemTable {
    /// Entries are strictly sorted by key — so keys are unique — and every
    /// entry is well formed.
    pub open spec fn wf(self) -> bool {
        &&& forall|i: int, j: int|
            0 <= i < j < self@.len() ==> #[trigger] lex_lt(self@[i].key, self@[j].key)
        &&& forall|i: int| 0 <= i < self@.len() ==> (#[trigger] self@[i]).wf()
    }

    /// An empty table with a zeroed size counter.
    pub fn new() -> (r: MemTable)
        ensures
            r.wf(),
            r@ == Seq::<EntryModel>::empty(),
            r.size == 0,
    {
        let r = MemTable { entries: Vec::new(), size: 0 };
        proof {
            assert(r@ =~= Seq::<EntryModel>::empty());
        }
        r
    }

    /// The entry stored under `key`, if any.
    pub fn get(&self, key: &Key) -> (r: Option<&Entry>)
        ensures
            match r {
                Some(e) => find_key(self@, key@) == Some(e@),
                None => find_key(self@, key@) is None,
            },
    {
        let n = self.entries.len();
        let mut i: usize = 0;
        proof {
            assert(self@.skip(0) =~= self@);
        }
        while i < n
            invariant
                i <= n,
                n == self.entries@.len(),
                find_key(self@, key@) == find_key(self@.skip(i as int), key@),
            decreases n - i,
        {
            match key_compare(&self.entries[i].key, key) {
                KeyOrdering::Equal => {
                    proof {
                        assert(self@.skip(i as int)[0] == self@[i as int]);
                    }
                    return Some(&self.entries[i]);
                },
                _ => {
                    proof {
                        assert(self@.skip(i as int)[0] == self@[i as int]);
                        assert(self@.skip(i as int).skip(1) =~= self@.skip(i as int + 1));
                    }
                    i = i + 1;
                },
            }
        }
        None
    }

    /// The position `key` occupies or would occupy, and whether an entry
    /// with exactly that key sits there.
    fn find_slot(&self, key: &Key) -> (r: (usize, bool))
        requires
            self.wf(),
        ensures
            ({
                let (idx, exact) = r;
                &&& idx <= self.entries@.len()
                &&& forall|j: int| 0 <= j < idx ==> #[trigger] lex_lt(self@[j].key, key@)
                &&& exact ==> idx < self.entries@.len() && self@[idx as int].key == key@
                &&& !exact ==> idx < self.entries@.len() ==> lex_lt(key@, self@[idx as int].key)
            }),
    {
        let n = self.entries.len();
        let mut idx: usize = 0;
        while idx < n
            invariant
                idx <= n,
                n == self.entries@.len(),
                forall|j: int| 0 <= j < idx ==> #[trigger] lex_lt(self@[j].key, key@),
            decreases n - idx,
        {
            match key_compare(&self.entries[idx].key, key) {
                KeyOrdering::Less => {
                    idx = idx + 1;
                },
                KeyOrdering::Equal => {
                    return (idx, true);
                },
                KeyOrdering::Greater => {
                    return (idx, false);
                },
            }
        }
        (idx, false)
    }

    /// Inserts `e` under its key, replacing the entry already there if any,
    /// and moves the size counter by [`spec_size_delta`], saturating in
    /// `usize`.
    pub fn insert_entry(&mut self, e: Entry)
        requires
            old(self).wf(),
            e@.wf(),
        ensures
            final(self).wf(),
            find_key(final(self)@, e@.key) == Some(e@),
            forall|k: Seq<u8>|
                k != e@.key ==> #[trigger] find_key(final(self)@, k) == find_key(old(self)@, k),
            final(self).size == clamp_size(
                old(self).size + spec_size_delta(find_key(old(self)@, e@.key), e@),
            ),
    {
        let (idx, exact) = self.find_slot(&e.key);
        let ghost pre = self@;
        let ghost kseq = e@.key;
        proof {
            assert forall|j: int| 0 <= j < idx implies (#[trigger] pre[j]).key != kseq by {
                assert(lex_lt(pre[j].key, kseq));
                if pre[j].key == kseq {
                    lemma_lex_lt_irreflexive(kseq);
                }
            }
        }
        if exact {
            let old_val_len: usize = match &self.entries[idx].value {
                Some(v) => v.len(),
                None => 0,
            };
            proof {
                lemma_find_key_some(pre, kseq, idx as int);
            }
            if e.deleted {
                let d = sat_add(old_val_len, 17);
                self.size = sat_sub(self.size, d);
            } else {
                let new_len: usize = match &e.value {
                    Some(v) => v.len(),
                    None => 0,
                };
                if new_len >= old_val_len {
                    self.size = sat_add(self.size, new_len - old_val_len);
                } else {
                    self.size = sat_sub(self.size, old_val_len - new_len);
                }
            }
            let ghost em = e@;
            self.entries[idx] = e;
            proof {
                let post = self@;
                assert(post =~= pre.update(idx as int, em));
                assert forall|i: int, j: int| 0 <= i < j < post.len() implies #[trigger] lex_lt(
                    post[i].key,
                    post[j].key,
                ) by {
                    assert(pre[idx as int].key == kseq);
                    assert(post[i].key == pre[i].key);
                    assert(post[j].key == pre[j].key);
                    assert(lex_lt(pre[i].key, pre[j].key));
                }
                assert forall|i: int| 0 <= i < post.len() implies (#[trigger] post[i]).wf() by {
                    if i != idx {
                        assert(post[i] == pre[i]);
                        assert(pre[i].wf());
                    }
                }
                lemma_find_key_some(post, kseq, idx as int);
                assert forall|k: Seq<u8>| k != kseq implies #[trigger] find_key(post, k)
                    == find_key(pre, k) by {
                    lemma_find_key_update_other(pre, idx as int, em, k);
                }
            }
        } else {
            proof {
                assert forall|j: int| 0 <= j < pre.len() implies (#[trigger] pre[j]).key
                    != kseq by {
                    if j >= idx {
                        if j > idx {
                            assert(lex_lt(pre[idx as int].key, pre[j].key));
                            lemma_lex_lt_transitive(kseq, pre[idx as int].key, pre[j].key);
                        }
                        assert(lex_lt(kseq, pre[j].key));
                        if pre[j].key == kseq {
                            lemma_lex_lt_irreflexive(kseq);
                        }
                    } else {
                        assert(lex_lt(pre[j].key, kseq));
                        if pre[j].key == kseq {
                            lemma_lex_lt_irreflexive(kseq);
                        }
                    }
                }
                lemma_find_key_none(pre, kseq);
            }
            if !e.deleted {
                let new_len: usize = match &e.value {
                    Some(v) => v.len(),
                    None => 0,
                };
                let d = sat_add(e.key.len(), new_len);
                self.size = sat_add(self.size, d);
            }
            let ghost em = e@;
            self.entries.insert(idx, e);
            proof {
                let post = self@;
                assert(post =~= pre.insert(idx as int, em));
                assert forall|i: int, j: int| 0 <= i < j < post.len() implies #[trigger] lex_lt(
                    post[i].key,
                    post[j].key,
                ) by {
                    if i == idx {
                        assert(post[i] == em);
                        assert(post[j] == pre[j - 1]);
                        if j - 1 > idx {
                            assert(lex_lt(pre[idx as int].key, pre[j - 1].key));
                            lemma_lex_lt_transitive(kseq, pre[idx as int].key, pre[j - 1].key);
                        }
                    } else if j == idx {
                        assert(post[i] == pre[i]);
                        assert(lex_lt(pre[i].key, kseq));
                    } else if i < idx && j > idx {
                        assert(post[i] == pre[i]);
                        assert(post[j] == pre[j - 1]);
                        if j - 1 == idx {
                            lemma_lex_lt_transitive(pre[i].key, kseq, pre[idx as int].key);
                        } else {
                            assert(lex_lt(pre[i].key, pre[j - 1].key));
                        }
                    } else if j < idx {
                        assert(post[i] == pre[i]);
                        assert(post[j] == pre[j]);
                        assert(lex_lt(pre[i].key, pre[j].key));
                    } else {
                        assert(post[i] == pre[i - 1]);
                        assert(post[j] == pre[j - 1]);
                        assert(lex_lt(pre[i - 1].key, pre[j - 1].key));
                    }
                }
                assert forall|i: int| 0 <= i < post.len() implies (#[trigger] post[i]).wf() by {
                    if i < idx {
                        assert(post[i] == pre[i]);
                        assert(pre[i].wf());
                    } else if i > idx {
                        assert(post[i] == pre[i - 1]);
                        assert(pre[i - 1].wf());
                    }
                }
                assert forall|j: int| 0 <= j < idx implies (#[trigger] post[j]).key != kseq by {
                    assert(post[j] == pre[j]);
                }
                lemma_find_key_some(post, kseq, idx as int);
                assert forall|k: Seq<u8>| k != kseq implies #[trigger] find_key(post, k)
                    == find_key(pre, k) by {
                    lemma_find_key_insert_other(pre, idx as int, em, k);
                }
            }
        }
    }

    /// Stores `value` under `key` as a live entry stamped with the current
    /// time, replacing any entry already there.
    pub fn put(&mut self, key: Key, value: Value)
        requires
            old(self).wf(),
        ensures
            final(self).wf(),
            exists|ts: u128| #[trigger] memtable_put_post(*old(self), *final(self), key@, value@, ts),
    {
        let ghost kv = key@;
        let ghost vv = value@;
        let e = Entry::new(key, value);
        let ghost ts = e@.timestamp;
        self.insert_entry(e);
        proof {
            assert(memtable_put_post(*old(self), *self, kv, vv, ts));
        }
    }

    /// Marks `key` as deleted: stores a tombstone stamped with the current
    /// time, replacing any entry already there.
    pub fn delete(&mut self, key: Key)
        requires
            old(self).wf(),
        ensures
            final(self).wf(),
            exists|ts: u128| #[trigger] memtable_delete_post(*old(self), *final(self), key@, ts),
    {
        let ghost kv = key@;
        let e = Entry::deleted(key);
        let ghost ts = e@.timestamp;
        self.insert_entry(e);
        proof {
            assert(memtable_delete_post(*old(self), *self, kv, ts));
        }
    }

    /// Empties the table and resets the size counter. No side effect on
    /// disk.
    pub fn clear(&mut self)
        ensures
            final(self).wf(),
            final(self)@ == Seq::<EntryModel>::empty(),
            final(self).size == 0,
    {
        self.entries.clear();
        self.size = 0;
        proof {
            assert(self@ =~= Seq::<EntryModel>::empty());
        }
    }
}

/// Memtable uniqueness, last write wins: after storing `v1` then `v2` under
/// one key, a lookup of that key finds the entry holding `v2` — and the
/// table holds no two entries sharing any key.
pub proof fn lemma_put_twice_last_wins(
    m0: MemTable,
    m1: MemTable,
    m2: MemTable,
    key: Seq<u8>,
    v1: Seq<u8>,
    v2: Seq<u8>,
    ts1: u128,
    ts2: u128,
)
    requires
        m2.wf(),
        memtable_put_post(m0, m1, key, v1, ts1),
        memtable_put_post(m1, m2, key, v2, ts2),
    ensures
        find_key(m2@, key) == Some(EntryModel::live(key, v2, ts2)),
        forall|i: int, j: int|
            #![trigger m2@[i], m2@[j]]
            0 <= i < j < m2@.len() ==> m2@[i].key != m2@[j].key,
{
    assert forall|i: int, j: int|
        #![trigger m2@[i], m2@[j]]
        0 <= i < j < m2@.len() implies m2@[i].key != m2@[j].key by {
        assert(lex_lt(m2@[i].key, m2@[j].key));
        if m2@[i].key == m2@[j].key {
            lemma_lex_lt_irreflexive(m2@[i].key);
        }
    }
}

} // verus!
