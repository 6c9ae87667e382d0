//! Laws of the store: properties relating several operations, stated over
//! the model and proved once for every store.

use vstd::prelude::*;

use crate::hashing::{keccak_of, null_digest, null_payload};
use crate::model::{
    consolidated, held, inserted, purged, queried, raw_entry, removed, removed_and_purged,
    StoreModel,
};

verus! {

/// Immediately after `insert(v)`, `get` of the returned digest yields `v`.
///
/// Left out are the stores on which this fails: one holding a surplus of
/// removals under the digest of `v` (the insertion nets to a non-positive
/// count and `get` still refuses), one holding different live bytes under
/// that digest, and a payload other than the null payload whose digest
/// collides with the null digest (the latter two arise only when two
/// payloads share a digest).
pub proof fn lemma_insert_then_get(m: StoreModel, v: Seq<u8>)
    requires
        v != null_payload() ==> keccak_of(v) != null_digest(),
        m.dom().contains(keccak_of(v)) ==> m[keccak_of(v)].1 >= 0,
        m.dom().contains(keccak_of(v)) && m[keccak_of(v)].1 > 0 ==> m[keccak_of(v)].0 == v,
    ensures
        queried(inserted(m, v), keccak_of(v)) == Some(v),
{
}

/// Starting from exactly one live reference, inserting the same value twice
/// and then removing its digest twice leaves it present; a third removal
/// makes it absent.
///
/// From a count other than one the claim fails (two insertions and two
/// removals cancel, so presence afterwards is presence before); the digest
/// is also assumed not to collide with the null digest, which cannot become
/// absent.
pub proof fn lemma_insert_twice_remove_twice(m: StoreModel, v: Seq<u8>)
    requires
        v != null_payload(),
        keccak_of(v) != null_digest(),
        m.dom().contains(keccak_of(v)) && m[keccak_of(v)].1 == 1,
    ensures
        held(
            removed(removed(inserted(inserted(m, v), v), keccak_of(v)), keccak_of(v)),
            keccak_of(v),
        ),
        !held(
            removed(
                removed(removed(inserted(inserted(m, v), v), keccak_of(v)), keccak_of(v)),
                keccak_of(v),
            ),
            keccak_of(v),
        ),
{
}

/// A removal recorded before any insertion survives `purge` as the
/// `(empty, -1)` placeholder; the matching insertion then cancels it to a
/// count of zero, after which `purge` erases it entirely and `raw` reports
/// it absent.
pub proof fn lemma_pending_removal_reconciled(m: StoreModel, v: Seq<u8>)
    requires
        v != null_payload(),
        keccak_of(v) != null_digest(),
        !m.dom().contains(keccak_of(v)),
    ensures
        raw_entry(purged(removed(m, keccak_of(v))), keccak_of(v)) == Some(
            (Seq::<u8>::empty(), -1int),
        ),
        raw_entry(inserted(purged(removed(m, keccak_of(v))), v), keccak_of(v)) == Some((v, 0int)),
        raw_entry(purged(inserted(purged(removed(m, keccak_of(v))), v)), keccak_of(v)) == None::<
            (Seq<u8>, int),
        >,
{
}

/// `remove_and_purge` on a never-seen digest returns nothing and records the
/// `(empty, -1)` placeholder; two insertions of the matching value then
/// bring the count to one; a further `remove_and_purge` hands back the
/// stored bytes and leaves the digest fully absent; and a repeated call
/// again returns nothing.
pub proof fn lemma_remove_and_purge_lifecycle(m: StoreModel, v: Seq<u8>)
    requires
        v != null_payload(),
        keccak_of(v) != null_digest(),
        !m.dom().contains(keccak_of(v)),
    ensures
        removed_and_purged(m, keccak_of(v)).1 == None::<Seq<u8>>,
        raw_entry(removed_and_purged(m, keccak_of(v)).0, keccak_of(v)) == Some(
            (Seq::<u8>::empty(), -1int),
        ),
        raw_entry(
            inserted(inserted(removed_and_purged(m, keccak_of(v)).0, v), v),
            keccak_of(v),
        ) == Some((v, 1int)),
        removed_and_purged(inserted(inserted(removed_and_purged(m, keccak_of(v)).0, v), v),
            keccak_of(v)).1 == Some(v),
        raw_entry(
            removed_and_purged(inserted(inserted(removed_and_purged(m, keccak_of(v)).0, v), v),
                keccak_of(v)).0,
            keccak_of(v),
        ) == None::<(Seq<u8>, int)>,
        removed_and_purged(
            removed_and_purged(inserted(inserted(removed_and_purged(m, keccak_of(v)).0, v), v),
                keccak_of(v)).0,
            keccak_of(v),
        ).1 == None::<Seq<u8>>,
{
}

/// `purge` is idempotent: a second purge deletes nothing further.
pub proof fn lemma_purge_idempotent(m: StoreModel)
    ensures
        purged(purged(m)) == purged(m),
{
    assert(purged(purged(m)) =~= purged(m));
}

/// `purge` never deletes an entry with a nonzero count: it is retained
/// verbatim.
pub proof fn lemma_purge_retains_nonzero(m: StoreModel, k: Seq<u8>)
    requires
        m.dom().contains(k),
        m[k].1 != 0,
    ensures
        purged(m).dom().contains(k),
        purged(m)[k] == m[k],
{
}

/// Draining a store and consolidating the drained mapping into an empty
/// store reproduces the store that was drained.
pub proof fn lemma_drain_roundtrip(m: StoreModel)
    ensures
        consolidated(StoreModel::empty(), m) == m,
{
    assert(consolidated(StoreModel::empty(), m) =~= m);
}

} // verus!
