use memorydb::{Entry, MemoryDB};
use tiny_keccak::{Hasher, Keccak};

fn keccak256(bytes: &[u8]) -> [u8; 32] {
    let mut keccak = Keccak::v256();
    keccak.update(bytes);
    let mut out = [0u8; 32];
    keccak.finalize(&mut out);
    out
}

fn lookup(overlay: &[Entry], key: &[u8; 32]) -> Option<(Vec<u8>, i32)> {
    overlay
        .iter()
        .find(|e| &e.key == key)
        .map(|e| (e.value.clone(), e.rc))
}

#[test]
fn memorydb_remove_and_purge() {
    let hello_bytes = b"Hello world!";
    let hello_key = keccak256(hello_bytes);

    let mut m = MemoryDB::new();
    m.remove(&hello_key);
    assert_eq!(m.raw(&hello_key).unwrap().1, -1);
    m.purge();
    assert_eq!(m.raw(&hello_key).unwrap().1, -1);
    m.insert(hello_bytes);
    assert_eq!(m.raw(&hello_key).unwrap().1, 0);
    m.purge();
    assert_eq!(m.raw(&hello_key), None);

    let mut m = MemoryDB::new();
    assert!(m.remove_and_purge(&hello_key).is_none());
    assert_eq!(m.raw(&hello_key).unwrap().1, -1);
    m.insert(hello_bytes);
    m.insert(hello_bytes);
    assert_eq!(m.raw(&hello_key).unwrap().1, 1);
    assert_eq!(&*m.remove_and_purge(&hello_key).unwrap(), &hello_bytes[..]);
    assert_eq!(m.raw(&hello_key), None);
    assert!(m.remove_and_purge(&hello_key).is_none());
}

#[test]
fn consolidate() {
    let mut main = MemoryDB::new();
    let mut other = MemoryDB::new();
    let remove_key = other.insert(b"doggo");
    main.remove(&remove_key);

    let insert_key = other.insert(b"arf");
    main.emplace(insert_key, b"arf".to_vec());

    let negative_remove_key = other.insert(b"negative");
    other.remove(&negative_remove_key); // ref cnt: 0
    other.remove(&negative_remove_key); // ref cnt: -1
    main.remove(&negative_remove_key); // ref cnt: -1

    main.consolidate(other);

    let overlay = main.drain();

    assert_eq!(
        lookup(&overlay, &remove_key).unwrap(),
        (b"doggo".to_vec(), 0)
    );
    assert_eq!(
        lookup(&overlay, &insert_key).unwrap(),
        (b"arf".to_vec(), 2)
    );
    assert_eq!(
        lookup(&overlay, &negative_remove_key).unwrap(),
        (b"negative".to_vec(), -2)
    );
}
