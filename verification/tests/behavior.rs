use memorydb::MemoryDB;
use tiny_keccak::{Hasher, Keccak};

fn hash32(bytes: &[u8]) -> [u8; 32] {
    let mut keccak = Keccak::v256();
    keccak.update(bytes);
    let mut out = [0u8; 32];
    keccak.finalize(&mut out);
    out
}

#[test]
fn insert_then_get() {
    let mut m = MemoryDB::new();
    let d = b"Hello world!";
    let k = m.insert(d);
    assert_eq!(k, hash32(d));
    assert_eq!(m.get(&k).unwrap(), d.to_vec());
    assert!(m.contains(&k));
}

#[test]
fn insert_remove_lifecycle() {
    let mut m = MemoryDB::new();
    let d = b"Hello world!";

    let k = m.insert(d);
    assert!(m.contains(&k));
    assert_eq!(m.get(&k).unwrap(), d.to_vec());

    m.insert(d);
    assert!(m.contains(&k));

    m.remove(&k);
    assert!(m.contains(&k));

    m.remove(&k);
    assert!(!m.contains(&k));

    m.remove(&k);
    assert!(!m.contains(&k));

    m.insert(d);
    assert!(!m.contains(&k));

    m.insert(d);
    assert!(m.contains(&k));
    assert_eq!(m.get(&k).unwrap(), d.to_vec());

    m.remove(&k);
    assert!(!m.contains(&k));
}

#[test]
fn null_digest_always_present() {
    let null_key = hash32(&rlp::NULL_RLP);

    let mut m = MemoryDB::new();
    assert!(m.contains(&null_key));
    assert_eq!(m.get(&null_key).unwrap(), vec![0x80u8]);
    assert_eq!(m.raw(&null_key).unwrap(), (vec![0x80u8], 1));

    // Inserting the null payload returns the null digest without storing.
    let k = m.insert(&[0x80u8]);
    assert_eq!(k, null_key);
    assert!(m.keys().is_empty());
    assert!(m.drain().is_empty());

    // Emplacing the null payload under any digest is a no-op too.
    let other_key = hash32(b"unrelated");
    m.emplace(other_key, vec![0x80u8]);
    assert_eq!(m.raw(&other_key), None);

    // Removal of the null digest is a no-op; it stays present.
    m.remove(&null_key);
    assert!(m.contains(&null_key));
    assert!(m.remove_and_purge(&null_key).is_none());
    assert!(m.drain().is_empty());

    // The synthetic entry survives clear and purge.
    m.clear();
    m.purge();
    assert!(m.contains(&null_key));
    assert_eq!(m.get(&null_key).unwrap(), vec![0x80u8]);
}

#[test]
fn purge_is_idempotent_and_keeps_nonzero() {
    let mut m = MemoryDB::new();
    let live = m.insert(b"live");
    let garbage = m.insert(b"garbage");
    m.remove(&garbage);
    let pending = hash32(b"pending");
    m.remove(&pending);

    assert_eq!(m.raw(&live).unwrap(), (b"live".to_vec(), 1));
    assert_eq!(m.raw(&garbage).unwrap(), (b"garbage".to_vec(), 0));
    assert_eq!(m.raw(&pending).unwrap(), (Vec::new(), -1));

    m.purge();
    assert_eq!(m.raw(&live).unwrap(), (b"live".to_vec(), 1));
    assert_eq!(m.raw(&garbage), None);
    assert_eq!(m.raw(&pending).unwrap(), (Vec::new(), -1));

    m.purge();
    assert_eq!(m.raw(&live).unwrap(), (b"live".to_vec(), 1));
    assert_eq!(m.raw(&garbage), None);
    assert_eq!(m.raw(&pending).unwrap(), (Vec::new(), -1));
}

#[test]
fn keys_excludes_garbage() {
    let mut m = MemoryDB::new();
    let live = m.insert(b"live");
    let garbage = m.insert(b"garbage");
    m.remove(&garbage);
    let pending = hash32(b"pending");
    m.remove(&pending);

    let keys = m.keys();
    assert_eq!(keys.len(), 2);
    let find = |key: &[u8; 32]| keys.iter().find(|p| &p.0 == key).map(|p| p.1);
    assert_eq!(find(&live), Some(1));
    assert_eq!(find(&garbage), None);
    assert_eq!(find(&pending), Some(-1));
}

#[test]
fn drain_then_reinsert_roundtrip() {
    let mut m = MemoryDB::new();
    let a = m.insert(b"first");
    m.insert(b"first");
    let b = m.insert(b"second");
    let pending = hash32(b"pending");
    m.remove(&pending);

    let before_a = m.raw(&a);
    let before_b = m.raw(&b);
    let before_pending = m.raw(&pending);

    let drained = m.drain();
    assert_eq!(m.raw(&a), None);
    assert_eq!(m.raw(&b), None);
    assert!(m.keys().is_empty());

    // Reinsert the drained mapping: one emplace per positive reference,
    // one remove per negative one.
    let mut restored = MemoryDB::new();
    for entry in drained {
        if entry.rc >= 0 {
            for _ in 0..entry.rc {
                restored.emplace(entry.key, entry.value.clone());
            }
        } else {
            for _ in 0..(-entry.rc) {
                restored.remove(&entry.key);
            }
        }
    }

    assert_eq!(restored.raw(&a), before_a);
    assert_eq!(restored.raw(&b), before_b);
    assert_eq!(restored.raw(&pending), before_pending);
    assert!(restored.contains(&a));
    assert!(restored.contains(&b));
    assert!(!restored.contains(&pending));
}

#[test]
fn try_insert_matches_insert() {
    let mut m = MemoryDB::new();
    let k = m.try_insert(b"payload").unwrap();
    assert_eq!(k, hash32(b"payload"));
    assert_eq!(m.raw(&k).unwrap(), (b"payload".to_vec(), 1));
    let again = m.try_insert(b"payload").unwrap();
    assert_eq!(again, k);
    assert_eq!(m.raw(&k).unwrap().1, 2);
}

#[test]
fn emplace_overwrites_placeholder_bytes() {
    let mut m = MemoryDB::new();
    let k = hash32(b"content");
    m.remove(&k);
    assert_eq!(m.raw(&k).unwrap(), (Vec::new(), -1));
    m.emplace(k, b"content".to_vec());
    assert_eq!(m.raw(&k).unwrap(), (b"content".to_vec(), 0));
    // A zero count is still non-positive: the bytes are replaced once more.
    m.emplace(k, b"replaced".to_vec());
    assert_eq!(m.raw(&k).unwrap(), (b"replaced".to_vec(), 1));
    // A positive count is authoritative: later bytes are ignored.
    m.emplace(k, b"ignored".to_vec());
    assert_eq!(m.raw(&k).unwrap(), (b"replaced".to_vec(), 2));
}

#[test]
fn mem_used_reports_allocation() {
    let mut m = MemoryDB::new();
    assert_eq!(m.mem_used(), 0);
    m.insert(b"some stored payload");
    assert!(m.mem_used() > 0);
}

#[test]
fn clear_discards_everything() {
    let mut m = MemoryDB::new();
    let k = m.insert(b"transient");
    assert!(m.contains(&k));
    m.clear();
    assert!(!m.contains(&k));
    assert_eq!(m.raw(&k), None);
    assert!(m.keys().is_empty());
}
