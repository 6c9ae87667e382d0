//! The reference-counted overlay store itself: a mapping from 32-byte keccak
//! digests to `(value bytes, signed reference count)` entries, backed by a
//! vector with pairwise-distinct keys.

use vstd::prelude::*;

use crate::hashing::{keccak256, keccak_of, null_digest_key, null_payload, null_rlp};
use crate::model::{
    consolidated, counted, emplaced, held, inserted, purged, queried, raw_entry, removed,
    removed_and_purged, StoreModel,
};

verus! {

/// One stored slot: a digest, the bytes filed under it, and the signed
/// reference count tracking net insertions minus removals.
pub struct Entry {
    pub key: [u8; 32],
    pub value: Vec<u8>,
    pub rc: i32,
}

/// The entry as the model sees it.
pub open spec fn entry_pair(e: Entry) -> (Seq<u8>, int) {
    (e.value@, e.rc as int)
}

/// No two slots share a digest.
pub open spec fn distinct_keys(s: Seq<Entry>) -> bool {
    forall|i: int, j: int| 0 <= i < j < s.len() ==> s[i].key@ != s[j].key@
}

/// Some slot holds the digest `k`.
pub open spec fn has_key(s: Seq<Entry>, k: Seq<u8>) -> bool {
    exists|i: int| 0 <= i < s.len() && s[i].key@ == k
}

/// The index of the slot holding `k`, if any.
pub open spec fn index_of_key(s: Seq<Entry>, k: Seq<u8>) -> int {
    choose|i: int| 0 <= i < s.len() && s[i].key@ == k
}

/// The slots as a map from digest to entry.
pub open spec fn entries_model(s: Seq<Entry>) -> StoreModel {
    Map::new(
        |k: Seq<u8>| has_key(s, k),
        |k: Seq<u8>| entry_pair(s[index_of_key(s, k)]),
    )
}

/// With distinct keys, the slot at index `i` is what the model holds under
/// its digest.
proof fn lemma_model_index(s: Seq<Entry>, i: int)
    requires
        distinct_keys(s),
        0 <= i < s.len(),
    ensures
        entries_model(s).dom().contains(s[i].key@),
        entries_model(s)[s[i].key@] == entry_pair(s[i]),
{
    let k = s[i].key@;
    assert(has_key(s, k));
    let j = index_of_key(s, k);
    assert(0 <= j < s.len() && s[j].key@ == k);
    if i < j {
        assert(s[i].key@ != s[j].key@);
    } else if j < i {
        assert(s[j].key@ != s[i].key@);
    }
}

/// Replacing the slot at `i` by one with the same digest updates the model
/// at that digest alone.
proof fn lemma_model_update(s: Seq<Entry>, i: int, e: Entry)
    requires
        distinct_keys(s),
        0 <= i < s.len(),
        e.key@ == s[i].key@,
    ensures
        distinct_keys(s.update(i, e)),
        entries_model(s.update(i, e)) == entries_model(s).insert(e.key@, entry_pair(e)),
{
    let s2 = s.update(i, e);
    assert forall|a: int| 0 <= a < s.len() implies s2[a].key@ == s[a].key@ by {
        if a != i {
            assert(s2[a] == s[a]);
        }
    }
    assert(distinct_keys(s2));
    lemma_model_index(s, i);
    lemma_model_index(s2, i);
    assert forall|k: Seq<u8>| #[trigger] has_key(s2, k) implies has_key(s, k) by {
        let j = choose|j: int| 0 <= j < s2.len() && s2[j].key@ == k;
        assert(s[j].key@ == k);
    }
    assert forall|k: Seq<u8>| #[trigger] has_key(s, k) implies has_key(s2, k) by {
        let j = choose|j: int| 0 <= j < s.len() && s[j].key@ == k;
        assert(s2[j].key@ == k);
    }
    assert forall|k: Seq<u8>| has_key(s, k) && k != e.key@ implies #[trigger] entries_model(
        s2,
    )[k] == entries_model(s)[k] by {
        let j = choose|j: int| 0 <= j < s.len() && s[j].key@ == k;
        assert(j != i);
        lemma_model_index(s, j);
        lemma_model_index(s2, j);
        assert(s2[j] == s[j]);
    }
    assert(entries_model(s2) =~= entries_model(s).insert(e.key@, entry_pair(e)));
}

/// Appending a slot with a fresh digest adds one binding to the model.
proof fn lemma_model_push(s: Seq<Entry>, e: Entry)
    requires
        distinct_keys(s),
        !has_key(s, e.key@),
    ensures
        distinct_keys(s.push(e)),
        entries_model(s.push(e)) == entries_model(s).insert(e.key@, entry_pair(e)),
{
    let s2 = s.push(e);
    assert forall|a: int, b: int| 0 <= a < b < s2.len() implies s2[a].key@ != s2[b].key@ by {
        if b < s.len() {
            assert(s2[a] == s[a] && s2[b] == s[b]);
        } else {
            assert(s2[b] == e && s2[a] == s[a]);
            if s[a].key@ == e.key@ {
                assert(has_key(s, e.key@));
            }
        }
    }
    lemma_model_index(s2, s.len() as int);
    assert forall|k: Seq<u8>| #[trigger] has_key(s2, k) && k != e.key@ implies has_key(s, k) by {
        let j = choose|j: int| 0 <= j < s2.len() && s2[j].key@ == k;
        assert(j < s.len());
        assert(s[j].key@ == k);
    }
    assert forall|k: Seq<u8>| #[trigger] has_key(s, k) implies has_key(s2, k) by {
        let j = choose|j: int| 0 <= j < s.len() && s[j].key@ == k;
        assert(s2[j].key@ == k);
    }
    assert forall|k: Seq<u8>| has_key(s, k) && k != e.key@ implies #[trigger] entries_model(
        s2,
    )[k] == entries_model(s)[k] by {
        let j = choose|j: int| 0 <= j < s.len() && s[j].key@ == k;
        lemma_model_index(s, j);
        lemma_model_index(s2, j);
        assert(s2[j] == s[j]);
    }
    assert(entries_model(s2) =~= entries_model(s).insert(e.key@, entry_pair(e)));
}

/// Removing the slot at `i` (by swapping the last slot into its place)
/// removes exactly its digest from the model.
proof fn lemma_model_swap_remove(s: Seq<Entry>, i: int)
    requires
        distinct_keys(s),
        0 <= i < s.len(),
    ensures
        distinct_keys(s.update(i, s.last()).drop_last()),
        entries_model(s.update(i, s.last()).drop_last()) == entries_model(s).remove(s[i].key@),
{
    let k0 = s[i].key@;
    let n = s.len() as int;
    let s2 = s.update(i, s.last()).drop_last();
    assert(s2.len() == n - 1);
    assert forall|a: int| 0 <= a < n - 1 implies s2[a] == (if a == i {
        s[n - 1]
    } else {
        s[a]
    }) by {}
    assert forall|a: int, b: int| 0 <= a < b < s2.len() implies s2[a].key@ != s2[b].key@ by {
        if a == i {
            assert(s2[a] == s[n - 1] && s2[b] == s[b]);
        } else if b == i {
            assert(s2[a] == s[a] && s2[b] == s[n - 1]);
        } else {
            assert(s2[a] == s[a] && s2[b] == s[b]);
        }
    }
    assert forall|k: Seq<u8>| #[trigger] has_key(s2, k) implies has_key(s, k) && k != k0 by {
        let j = choose|j: int| 0 <= j < s2.len() && s2[j].key@ == k;
        if j == i {
            assert(s[n - 1].key@ == k);
            if k == k0 && i < n - 1 {
                assert(s[i].key@ != s[n - 1].key@);
            }
        } else {
            assert(s[j].key@ == k);
            if k == k0 {
                if j < i {
                    assert(s[j].key@ != s[i].key@);
                } else {
                    assert(s[i].key@ != s[j].key@);
                }
            }
        }
    }
    assert forall|k: Seq<u8>| #[trigger] has_key(s, k) && k != k0 implies has_key(s2, k) by {
        let j = choose|j: int| 0 <= j < s.len() && s[j].key@ == k;
        assert(j != i);
        if j < n - 1 {
            assert(s2[j].key@ == k);
        } else {
            assert(s2[i].key@ == k);
        }
    }
    assert forall|k: Seq<u8>| has_key(s2, k) implies #[trigger] entries_model(s2)[k]
        == entries_model(s)[k] by {
        let j = choose|j: int| 0 <= j < s2.len() && s2[j].key@ == k;
        lemma_model_index(s2, j);
        if j == i {
            lemma_model_index(s, n - 1);
            assert(s2[j] == s[n - 1]);
        } else {
            lemma_model_index(s, j);
            assert(s2[j] == s[j]);
        }
    }
    assert(entries_model(s2) =~= entries_model(s).remove(k0));
}

/// No two returned pairs share a digest.
pub open spec fn distinct_pair_keys(s: Seq<([u8; 32], i32)>) -> bool {
    forall|i: int, j: int| 0 <= i < j < s.len() ==> s[i].0@ != s[j].0@
}

/// Some pair holds the digest `k`.
pub open spec fn has_pair_key(s: Seq<([u8; 32], i32)>, k: Seq<u8>) -> bool {
    exists|i: int| 0 <= i < s.len() && s[i].0@ == k
}

/// The pairs as a map from digest to count.
pub open spec fn pairs_model(s: Seq<([u8; 32], i32)>) -> Map<Seq<u8>, int> {
    Map::new(
        |k: Seq<u8>| has_pair_key(s, k),
        |k: Seq<u8>| s[choose|i: int| 0 <= i < s.len() && s[i].0@ == k].1 as int,
    )
}

/// With distinct digests, the pair at index `i` is what the map holds under
/// its digest.
proof fn lemma_pairs_index(s: Seq<([u8; 32], i32)>, i: int)
    requires
        distinct_pair_keys(s),
        0 <= i < s.len(),
    ensures
        pairs_model(s).dom().contains(s[i].0@),
        pairs_model(s)[s[i].0@] == s[i].1 as int,
{
    let k = s[i].0@;
    assert(has_pair_key(s, k));
    let j = choose|j: int| 0 <= j < s.len() && s[j].0@ == k;
    if i < j {
        assert(s[i].0@ != s[j].0@);
    } else if j < i {
        assert(s[j].0@ != s[i].0@);
    }
}

/// Appending a pair with a fresh digest adds one binding to the map.
proof fn lemma_pairs_push(s: Seq<([u8; 32], i32)>, p: ([u8; 32], i32))
    requires
        distinct_pair_keys(s),
        !has_pair_key(s, p.0@),
    ensures
        distinct_pair_keys(s.push(p)),
        pairs_model(s.push(p)) == pairs_model(s).insert(p.0@, p.1 as int),
{
    let s2 = s.push(p);
    assert forall|a: int, b: int| 0 <= a < b < s2.len() implies s2[a].0@ != s2[b].0@ by {
        if b < s.len() {
            assert(s2[a] == s[a] && s2[b] == s[b]);
        } else {
            assert(s2[b] == p && s2[a] == s[a]);
            if s[a].0@ == p.0@ {
                assert(has_pair_key(s, p.0@));
            }
        }
    }
    lemma_pairs_index(s2, s.len() as int);
    assert forall|k: Seq<u8>| #[trigger] has_pair_key(s2, k) && k != p.0@ implies has_pair_key(
        s,
        k,
    ) by {
        let j = choose|j: int| 0 <= j < s2.len() && s2[j].0@ == k;
        assert(j < s.len());
        assert(s[j].0@ == k);
    }
    assert forall|k: Seq<u8>| #[trigger] has_pair_key(s, k) implies has_pair_key(s2, k) by {
        let j = choose|j: int| 0 <= j < s.len() && s[j].0@ == k;
        assert(s2[j].0@ == k);
    }
    assert forall|k: Seq<u8>| has_pair_key(s, k) && k != p.0@ implies #[trigger] pairs_model(
        s2,
    )[k] == pairs_model(s)[k] by {
        let j = choose|j: int| 0 <= j < s.len() && s[j].0@ == k;
        lemma_pairs_index(s, j);
        lemma_pairs_index(s2, j);
        assert(s2[j] == s[j]);
    }
    assert(pairs_model(s2) =~= pairs_model(s).insert(p.0@, p.1 as int));
}

/// Relies on heapsize's `HeapSizeOf` for `Vec<u8>`: the heap bytes retained
/// by the buffer, as the allocator reports them. The result depends on the
/// allocator, so nothing is stated of it.
#[verifier::external_body]
fn value_heap_size(value: &Vec<u8>) -> usize {
    heapsize::HeapSizeOf::heap_size_of_children(value)
}

/// The model's view of an optional byte buffer.
pub open spec fn bytes_option(r: Option<Vec<u8>>) -> Option<Seq<u8>> {
    match r {
        Some(v) => Some(v@),
        None => None,
    }
}

/// The model's view of an optional raw entry.
pub open spec fn raw_option(r: Option<(Vec<u8>, i32)>) -> Option<(Seq<u8>, int)> {
    match r {
        Some(p) => Some((p.0@, p.1 as int)),
        None => None,
    }
}

/// Byte-for-byte equality of two digests.
fn key_eq(a: &[u8; 32], b: &[u8; 32]) -> (r: bool)
    ensures
        r == (a@ == b@),
{
    let mut i: usize = 0;
    while i < 32
        invariant
            i <= 32,
            forall|j: int| 0 <= j < i ==> a@[j] == b@[j],
        decreases 32 - i,
    {
        if a[i] != b[i] {
            return false;
        }
        i = i + 1;
    }
    proof {
        assert(a@ =~= b@);
    }
    true
}

/// A deep copy of a slot.
fn clone_entry(e: &Entry) -> (r: Entry)
    ensures
        r.key@ == e.key@,
        entry_pair(r) == entry_pair(*e),
{
    Entry { key: e.key, value: vstd::slice::slice_to_vec(e.value.as_slice()), rc: e.rc }
}

/// Reference-counted, content-addressed, in-memory overlay store.
///
/// Digests are 32-byte keccak-256 outputs; the canonical null digest is
/// permanently present with the null payload and is never stored.
pub struct MemoryDB {
    data: Vec<Entry>,
}

impl MemoryDB {
    /// The store's contents as a map from digest to entry.
    pub closed spec fn view(&self) -> StoreModel {
        entries_model(self.data@)
    }

    /// Well-formed: the backing slots hold pairwise-distinct digests.
    pub closed spec fn wf(&self) -> bool {
        distinct_keys(self.data@)
    }

    /// Create a new, empty store.
    pub fn new() -> (r: MemoryDB)
        ensures
            r.wf(),
            r@ == StoreModel::empty(),
    {
        let r = MemoryDB { data: Vec::new() };
        proof {
            assert(r@ =~= StoreModel::empty());
        }
        r
    }

    /// Discard all entries.
    pub fn clear(&mut self)
        ensures
            final(self).wf(),
            final(self)@ == StoreModel::empty(),
    {
        self.data.clear();
        proof {
            assert(self@ =~= StoreModel::empty());
        }
    }

    /// Hand the entire contents to the caller and reset the store to empty.
    pub fn drain(&mut self) -> (r: Vec<Entry>)
        requires
            old(self).wf(),
        ensures
            final(self).wf(),
            final(self)@ == StoreModel::empty(),
            distinct_keys(r@),
            entries_model(r@) == old(self)@,
    {
        let mut out: Vec<Entry> = Vec::new();
        core::mem::swap(&mut self.data, &mut out);
        proof {
            assert(self@ =~= StoreModel::empty());
        }
        out
    }

    /// The index of the slot holding `key`, if one exists.
    fn find_index(&self, key: &[u8; 32]) -> (r: Option<usize>)
        requires
            self.wf(),
        ensures
            (match r {
                Some(i) => i < self.data@.len() && self.data@[i as int].key@ == key@
                    && self@.dom().contains(key@) && self@[key@] == entry_pair(
                    self.data@[i as int],
                ),
                None => !self@.dom().contains(key@),
            }),
    {
        let mut i: usize = 0;
        while i < self.data.len()
            invariant
                self.wf(),
                i <= self.data@.len(),
                forall|j: int| 0 <= j < i ==> self.data@[j].key@ != key@,
            decreases self.data@.len() - i,
        {
            if key_eq(&self.data[i].key, key) {
                proof {
                    lemma_model_index(self.data@, i as int);
                }
                return Some(i);
            }
            i = i + 1;
        }
        None
    }

    /// Look up a digest, returning the stored bytes only while the count is
    /// positive; the null digest always yields the null payload.
    pub fn get(&self, key: &[u8; 32]) -> (r: Option<Vec<u8>>)
        requires
            self.wf(),
        ensures
            bytes_option(r) == queried(self@, key@),
    {
        let nk = null_digest_key();
        if key_eq(key, &nk) {
            return Some(null_rlp());
        }
        match self.find_index(key) {
            Some(i) => {
                let e = &self.data[i];
                if e.rc > 0 {
                    Some(vstd::slice::slice_to_vec(e.value.as_slice()))
                } else {
                    None
                }
            },
            None => None,
        }
    }

    /// Whether a digest is present, under the same rule as `get`.
    pub fn contains(&self, key: &[u8; 32]) -> (r: bool)
        requires
            self.wf(),
        ensures
            r == held(self@, key@),
    {
        let nk = null_digest_key();
        if key_eq(key, &nk) {
            return true;
        }
        match self.find_index(key) {
            Some(i) => self.data[i].rc > 0,
            None => false,
        }
    }

    /// Insert `value` under a caller-supplied digest, for callers that
    /// already know the mapping is correct: a no-op when `value` is the null
    /// payload; otherwise the count rises by one, and the stored bytes are
    /// replaced exactly when the old count was non-positive.
    pub fn emplace(&mut self, key: [u8; 32], value: Vec<u8>)
        requires
            old(self).wf(),
            value@ != null_payload() && old(self)@.dom().contains(key@) ==> old(self)@[key@].1
                < i32::MAX,
        ensures
            final(self).wf(),
            final(self)@ == emplaced(old(self)@, key@, value@),
    {
        if value.len() == 1 && value[0] == 0x80 {
            proof {
                assert(value@ =~= null_payload());
            }
            return ;
        }
        proof {
            assert(value@ != null_payload());
        }
        match self.find_index(&key) {
            Some(i) => {
                let ghost s0 = self.data@;
                let slot = &mut self.data[i];
                if slot.rc <= 0 {
                    slot.value = value;
                }
                slot.rc = slot.rc + 1;
                proof {
                    lemma_model_update(s0, i as int, self.data@[i as int]);
                }
            },
            None => {
                let e = Entry { key, value, rc: 1 };
                proof {
                    lemma_model_push(self.data@, e);
                }
                self.data.push(e);
            },
        }
    }

    /// Insert `value` under the digest of its bytes and return that digest.
    /// The null payload's digest is returned without anything being stored.
    pub fn insert(&mut self, value: &[u8]) -> (key: [u8; 32])
        requires
            old(self).wf(),
            value@ != null_payload() && old(self)@.dom().contains(keccak_of(value@)) ==> old(
                self,
            )@[keccak_of(value@)].1 < i32::MAX,
        ensures
            final(self).wf(),
            key@ == keccak_of(value@),
            final(self)@ == inserted(old(self)@, value@),
    {
        let key = keccak256(value);
        self.emplace(key, vstd::slice::slice_to_vec(value));
        key
    }

    /// `insert`, refusing (and leaving the store unchanged) when the digest's
    /// count has reached the machine limit and one more insertion could not
    /// be recorded.
    pub fn try_insert(&mut self, value: &[u8]) -> (r: Option<[u8; 32]>)
        requires
            old(self).wf(),
        ensures
            final(self).wf(),
            (match r {
                Some(key) => key@ == keccak_of(value@) && final(self)@ == inserted(
                    old(self)@,
                    value@,
                ),
                None => final(self)@ == old(self)@ && value@ != null_payload() && old(
                    self,
                )@.dom().contains(keccak_of(value@)) && old(self)@[keccak_of(value@)].1
                    == i32::MAX,
            }),
    {
        let key = keccak256(value);
        if !(value.len() == 1 && value[0] == 0x80) {
            proof {
                assert(value@ != null_payload());
            }
            match self.find_index(&key) {
                Some(i) => {
                    if self.data[i].rc == i32::MAX {
                        return None;
                    }
                },
                None => {},
            }
        } else {
            proof {
                assert(value@ =~= null_payload());
            }
        }
        Some(self.insert(value))
    }

    /// Record one removal of a digest: the count drops by one with the bytes
    /// untouched; a digest never seen before gets the placeholder
    /// `(empty, -1)`; the null digest cannot be removed.
    pub fn remove(&mut self, key: &[u8; 32])
        requires
            old(self).wf(),
            old(self)@.dom().contains(key@) ==> old(self)@[key@].1 > i32::MIN,
        ensures
            final(self).wf(),
            final(self)@ == removed(old(self)@, key@),
    {
        let nk = null_digest_key();
        if key_eq(key, &nk) {
            return ;
        }
        match self.find_index(key) {
            Some(i) => {
                let ghost s0 = self.data@;
                let slot = &mut self.data[i];
                slot.rc = slot.rc - 1;
                proof {
                    lemma_model_update(s0, i as int, self.data@[i as int]);
                }
            },
            None => {
                let e = Entry { key: *key, value: Vec::new(), rc: -1 };
                proof {
                    lemma_model_push(self.data@, e);
                }
                self.data.push(e);
            },
        }
    }

    /// Remove one reference and collect immediately: a count of exactly one
    /// deletes the entry and hands back its bytes; any other count drops by
    /// one; a never-seen digest gets the placeholder `(empty, -1)`.
    pub fn remove_and_purge(&mut self, key: &[u8; 32]) -> (r: Option<Vec<u8>>)
        requires
            old(self).wf(),
            old(self)@.dom().contains(key@) ==> old(self)@[key@].1 > i32::MIN,
        ensures
            final(self).wf(),
            final(self)@ == removed_and_purged(old(self)@, key@).0,
            bytes_option(r) == removed_and_purged(old(self)@, key@).1,
    {
        let nk = null_digest_key();
        if key_eq(key, &nk) {
            return None;
        }
        match self.find_index(key) {
            Some(i) => {
                if self.data[i].rc == 1 {
                    proof {
                        lemma_model_swap_remove(self.data@, i as int);
                    }
                    let e = self.data.swap_remove(i);
                    Some(e.value)
                } else {
                    let ghost s0 = self.data@;
                    let slot = &mut self.data[i];
                    slot.rc = slot.rc - 1;
                    proof {
                        lemma_model_update(s0, i as int, self.data@[i as int]);
                    }
                    None
                }
            },
            None => {
                let e = Entry { key: *key, value: Vec::new(), rc: -1 };
                proof {
                    lemma_model_push(self.data@, e);
                }
                self.data.push(e);
                None
            },
        }
    }

    /// Delete every entry whose count is exactly zero; all entries with a
    /// positive or negative count are retained verbatim.
    #[verifier::loop_isolation(false)]
    pub fn purge(&mut self)
        requires
            old(self).wf(),
        ensures
            final(self).wf(),
            final(self)@ == purged(old(self)@),
    {
        let mut kept: Vec<Entry> = Vec::new();
        let mut i: usize = 0;
        while i < self.data.len()
            invariant
                i <= self.data@.len(),
                distinct_keys(kept@),
                forall|j: int|
                    0 <= j < kept@.len() ==> has_key(self.data@.take(i as int), kept@[j].key@),
                entries_model(kept@) == purged(entries_model(self.data@.take(i as int))),
            decreases self.data@.len() - i,
        {
            let ghost prefix = self.data@.take(i as int);
            let ghost e = self.data@[i as int];
            proof {
                assert(distinct_keys(prefix));
                assert(!has_key(prefix, e.key@)) by {
                    if has_key(prefix, e.key@) {
                        let j = choose|j: int| 0 <= j < prefix.len() && prefix[j].key@ == e.key@;
                        assert(self.data@[j].key@ != self.data@[i as int].key@);
                    }
                }
                lemma_model_push(prefix, e);
                assert(prefix.push(e) =~= self.data@.take(i as int + 1));
            }
            if self.data[i].rc != 0 {
                let c = clone_entry(&self.data[i]);
                proof {
                    assert(!has_key(kept@, c.key@)) by {
                        if has_key(kept@, c.key@) {
                            let j = choose|j: int| 0 <= j < kept@.len() && kept@[j].key@ == c.key@;
                            assert(has_key(prefix, kept@[j].key@));
                        }
                    }
                    lemma_model_push(kept@, c);
                }
                kept.push(c);
                proof {
                    assert(entries_model(kept@) =~= purged(
                        entries_model(self.data@.take(i as int + 1)),
                    ));
                }
            } else {
                proof {
                    assert(entries_model(kept@) =~= purged(
                        entries_model(self.data@.take(i as int + 1)),
                    ));
                }
            }
            proof {
                assert forall|j: int| 0 <= j < kept@.len() implies has_key(
                    self.data@.take(i as int + 1),
                    kept@[j].key@,
                ) by {
                    if kept@[j].key@ == e.key@ {
                        assert(self.data@.take(i as int + 1)[i as int].key@ == e.key@);
                    } else {
                        assert(has_key(prefix, kept@[j].key@));
                        let w = choose|w: int| 0 <= w < prefix.len() && prefix[w].key@ == kept@[j].key@;
                        assert(self.data@.take(i as int + 1)[w].key@ == kept@[j].key@);
                    }
                }
            }
            i = i + 1;
        }
        proof {
            assert(self.data@.take(self.data@.len() as int) =~= self.data@);
        }
        self.data = kept;
    }

    /// Merge `other`'s entire contents into this store, consuming it: counts
    /// add per digest, and the incoming bytes replace ours exactly when our
    /// count was negative (our bytes were only placeholders).
    #[verifier::loop_isolation(false)]
    pub fn consolidate(&mut self, other: MemoryDB)
        requires
            old(self).wf(),
            other.wf(),
            forall|k: Seq<u8>|
                old(self)@.dom().contains(k) && other@.dom().contains(k) ==> i32::MIN <= old(
                    self,
                )@[k].1 + other@[k].1 <= i32::MAX,
        ensures
            final(self).wf(),
            final(self)@ == consolidated(old(self)@, other@),
    {
        let ghost m0 = old(self)@;
        let ghost src = other.data@;
        proof {
            assert(self@ =~= consolidated(m0, entries_model(src.take(0))));
        }
        let mut i: usize = 0;
        while i < other.data.len()
            invariant
                i <= src.len(),
                other.data@ == src,
                self.wf(),
                self@ == consolidated(m0, entries_model(src.take(i as int))),
            decreases src.len() - i,
        {
            let ghost prefix = src.take(i as int);
            let ghost e = src[i as int];
            let ghost k = e.key@;
            let ghost p = entry_pair(e);
            proof {
                assert(distinct_keys(prefix));
                assert(!has_key(prefix, k)) by {
                    if has_key(prefix, k) {
                        let j = choose|j: int| 0 <= j < prefix.len() && prefix[j].key@ == k;
                        assert(src[j].key@ != src[i as int].key@);
                    }
                }
                lemma_model_push(prefix, e);
                assert(prefix.push(e) =~= src.take(i as int + 1));
                lemma_model_index(src, i as int);
            }
            let c = clone_entry(&other.data[i]);
            match self.find_index(&c.key) {
                Some(idx) => {
                    proof {
                        assert(!entries_model(prefix).dom().contains(k));
                        assert(m0.dom().contains(k));
                        assert(self@[k] == m0[k]);
                        assert(other@ == entries_model(src));
                        assert(other@.dom().contains(k) && other@[k] == p);
                        assert(i32::MIN <= m0[k].1 + p.1 <= i32::MAX);
                    }
                    let ghost s0 = self.data@;
                    let slot = &mut self.data[idx];
                    if slot.rc < 0 {
                        slot.value = c.value;
                    }
                    slot.rc = slot.rc + c.rc;
                    proof {
                        lemma_model_update(s0, idx as int, self.data@[idx as int]);
                        assert(self@ =~= consolidated(m0, entries_model(src.take(i as int + 1))));
                    }
                },
                None => {
                    proof {
                        assert(!m0.dom().contains(k));
                        lemma_model_push(self.data@, c);
                    }
                    self.data.push(c);
                    proof {
                        assert(self@ =~= consolidated(m0, entries_model(src.take(i as int + 1))));
                    }
                },
            }
            i = i + 1;
        }
        proof {
            assert(src.take(src.len() as int) =~= src);
        }
    }

    /// Every digest with a nonzero count, paired with that count; garbage
    /// entries are excluded.
    #[verifier::loop_isolation(false)]
    pub fn keys(&self) -> (r: Vec<([u8; 32], i32)>)
        requires
            self.wf(),
        ensures
            distinct_pair_keys(r@),
            pairs_model(r@) == counted(self@),
    {
        let mut out: Vec<([u8; 32], i32)> = Vec::new();
        let mut i: usize = 0;
        while i < self.data.len()
            invariant
                i <= self.data@.len(),
                distinct_pair_keys(out@),
                forall|j: int|
                    0 <= j < out@.len() ==> has_key(self.data@.take(i as int), out@[j].0@),
                pairs_model(out@) == counted(entries_model(self.data@.take(i as int))),
            decreases self.data@.len() - i,
        {
            let ghost prefix = self.data@.take(i as int);
            let ghost e = self.data@[i as int];
            proof {
                assert(distinct_keys(prefix));
                assert(!has_key(prefix, e.key@)) by {
                    if has_key(prefix, e.key@) {
                        let j = choose|j: int| 0 <= j < prefix.len() && prefix[j].key@ == e.key@;
                        assert(self.data@[j].key@ != self.data@[i as int].key@);
                    }
                }
                lemma_model_push(prefix, e);
                assert(prefix.push(e) =~= self.data@.take(i as int + 1));
            }
            if self.data[i].rc != 0 {
                let p = (self.data[i].key, self.data[i].rc);
                proof {
                    assert(!has_pair_key(out@, p.0@)) by {
                        if has_pair_key(out@, p.0@) {
                            let j = choose|j: int| 0 <= j < out@.len() && out@[j].0@ == p.0@;
                            assert(has_key(prefix, out@[j].0@));
                        }
                    }
                    lemma_pairs_push(out@, p);
                }
                out.push(p);
                proof {
                    assert(pairs_model(out@) =~= counted(
                        entries_model(self.data@.take(i as int + 1)),
                    ));
                }
            } else {
                proof {
                    assert(pairs_model(out@) =~= counted(
                        entries_model(self.data@.take(i as int + 1)),
                    ));
                }
            }
            proof {
                assert forall|j: int| 0 <= j < out@.len() implies has_key(
                    self.data@.take(i as int + 1),
                    out@[j].0@,
                ) by {
                    if out@[j].0@ == e.key@ {
                        assert(self.data@.take(i as int + 1)[i as int].key@ == e.key@);
                    } else {
                        assert(has_key(prefix, out@[j].0@));
                        let w = choose|w: int| 0 <= w < prefix.len() && prefix[w].key@ == out@[j].0@;
                        assert(self.data@.take(i as int + 1)[w].key@ == out@[j].0@);
                    }
                }
            }
            i = i + 1;
        }
        proof {
            assert(self.data@.take(self.data@.len() as int) =~= self.data@);
        }
        out
    }

    /// Heap bytes retained by the stored value buffers, as the outside
    /// accounting crate reports them, saturating at the machine limit.
    /// Purely observational: nothing is promised of the result.
    #[verifier::loop_isolation(false)]
    pub fn mem_used(&self) -> usize {
        let mut total: usize = 0;
        let mut i: usize = 0;
        while i < self.data.len()
            invariant
                i <= self.data@.len(),
            decreases self.data@.len() - i,
        {
            let bytes = value_heap_size(&self.data[i].value);
            total = if total <= usize::MAX - bytes {
                total + bytes
            } else {
                usize::MAX
            };
            i = i + 1;
        }
        total
    }

    /// The stored entry verbatim, whatever the count's sign; the null digest
    /// yields the synthetic `(null payload, 1)`.
    pub fn raw(&self, key: &[u8; 32]) -> (r: Option<(Vec<u8>, i32)>)
        requires
            self.wf(),
        ensures
            raw_option(r) == raw_entry(self@, key@),
    {
        let nk = null_digest_key();
        if key_eq(key, &nk) {
            return Some((null_rlp(), 1));
        }
        match self.find_index(key) {
            Some(i) => {
                let e = &self.data[i];
                Some((vstd::slice::slice_to_vec(e.value.as_slice()), e.rc))
            },
            None => None,
        }
    }
}

} // verus!
