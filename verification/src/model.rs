//! The mathematical model of the store: a map from digests to entries, and
//! one spec function per operation saying exactly how the map changes or
//! what a query returns.
//!
//! An entry is a pair `(value bytes, signed reference count)`. The count's
//! sign carries the lifecycle: positive means live and authoritative, zero
//! means garbage that `purge` may erase, negative records removals seen
//! before the matching insertion.

use vstd::prelude::*;

use crate::hashing::{keccak_of, null_digest, null_payload};

verus! {

/// A store's contents: digest -> (value bytes, signed reference count).
pub type StoreModel = Map<Seq<u8>, (Seq<u8>, int)>;

/// The store after `emplace(k, v)`: a no-op when `v` is the null payload;
/// otherwise the count under `k` rises by one, and the stored bytes are
/// replaced by `v` exactly when the old count was non-positive (such bytes
/// were never authoritative). A fresh digest starts at `(v, 1)`.
pub open spec fn emplaced(m: StoreModel, k: Seq<u8>, v: Seq<u8>) -> StoreModel {
    if v == null_payload() {
        m
    } else if m.dom().contains(k) {
        m.insert(k, (if m[k].1 <= 0 { v } else { m[k].0 }, m[k].1 + 1))
    } else {
        m.insert(k, (v, 1))
    }
}

/// The store after `insert(v)`: `emplace` under the digest of `v`.
pub open spec fn inserted(m: StoreModel, v: Seq<u8>) -> StoreModel {
    emplaced(m, keccak_of(v), v)
}

/// The store after `remove(k)`: a no-op on the null digest; otherwise the
/// count under `k` drops by one with the bytes untouched, and a digest never
/// seen before gets the placeholder entry `(empty, -1)`.
pub open spec fn removed(m: StoreModel, k: Seq<u8>) -> StoreModel {
    if k == null_digest() {
        m
    } else if m.dom().contains(k) {
        m.insert(k, (m[k].0, m[k].1 - 1))
    } else {
        m.insert(k, (Seq::empty(), -1))
    }
}

/// What `get(k)` returns: the null payload for the null digest, the stored
/// bytes when the count is positive, nothing otherwise.
pub open spec fn queried(m: StoreModel, k: Seq<u8>) -> Option<Seq<u8>> {
    if k == null_digest() {
        Some(null_payload())
    } else if m.dom().contains(k) && m[k].1 > 0 {
        Some(m[k].0)
    } else {
        None
    }
}

/// What `contains(k)` returns: presence under the same rule as `get`.
pub open spec fn held(m: StoreModel, k: Seq<u8>) -> bool {
    k == null_digest() || (m.dom().contains(k) && m[k].1 > 0)
}

/// What `raw(k)` returns: the synthetic `(null payload, 1)` for the null
/// digest, otherwise the stored entry verbatim, whatever the count's sign.
pub open spec fn raw_entry(m: StoreModel, k: Seq<u8>) -> Option<(Seq<u8>, int)> {
    if k == null_digest() {
        Some((null_payload(), 1int))
    } else if m.dom().contains(k) {
        Some(m[k])
    } else {
        None
    }
}

/// The store after `purge()`: every entry whose count is exactly zero is
/// erased; all others are retained verbatim.
pub open spec fn purged(m: StoreModel) -> StoreModel {
    Map::new(|k: Seq<u8>| m.dom().contains(k) && m[k].1 != 0, |k: Seq<u8>| m[k])
}

/// The store and the returned value after `remove_and_purge(k)`: a count of
/// exactly one collapses straight to absence, handing back the stored bytes;
/// any other count drops by one; a digest never seen before gets the
/// placeholder `(empty, -1)`.
pub open spec fn removed_and_purged(m: StoreModel, k: Seq<u8>) -> (StoreModel, Option<Seq<u8>>) {
    if k == null_digest() {
        (m, None)
    } else if m.dom().contains(k) {
        if m[k].1 == 1 {
            (m.remove(k), Some(m[k].0))
        } else {
            (m.insert(k, (m[k].0, m[k].1 - 1)), None)
        }
    } else {
        (m.insert(k, (Seq::empty(), -1int)), None)
    }
}

/// One digest's entry after a merge: counts add, and the incoming bytes win
/// exactly when this side's count was negative (its bytes were placeholders).
pub open spec fn merged_entry(ours: (Seq<u8>, int), theirs: (Seq<u8>, int)) -> (Seq<u8>, int) {
    (if ours.1 < 0 { theirs.0 } else { ours.0 }, ours.1 + theirs.1)
}

/// The store after `consolidate`: the union of both sides, with entries
/// present on both sides combined by `merged_entry`.
pub open spec fn consolidated(ours: StoreModel, theirs: StoreModel) -> StoreModel {
    Map::new(
        |k: Seq<u8>| ours.dom().contains(k) || theirs.dom().contains(k),
        |k: Seq<u8>|
            if ours.dom().contains(k) && theirs.dom().contains(k) {
                merged_entry(ours[k], theirs[k])
            } else if theirs.dom().contains(k) {
                theirs[k]
            } else {
                ours[k]
            },
    )
}

/// What `keys()` returns: every digest with a nonzero count, mapped to that
/// count; garbage entries are excluded.
pub open spec fn counted(m: StoreModel) -> Map<Seq<u8>, int> {
    Map::new(|k: Seq<u8>| m.dom().contains(k) && m[k].1 != 0, |k: Seq<u8>| m[k].1)
}

} // verus!
