use arkstore::backing::Backing;
use arkstore::store::RawStore;
use arkstore::error::Error;
use varuint::WriteVarint;

#[test]
fn add_get_roundtrip() {
    let mut store = RawStore::new(Backing::new_anon(), b"demo").unwrap();
    let id = store.add(b"alpha").unwrap();
    let back = store.get(id).unwrap();
    assert_eq!(back, b"alpha".to_vec());
}

#[test]
fn replace_same_length() {
    let mut store = RawStore::new(Backing::new_anon(), b"demo").unwrap();
    let id = store.add(b"hello").unwrap();
    let old = store.replace(id, b"world").unwrap();
    assert_eq!(old, b"hello".to_vec());
    assert_eq!(store.get(id).unwrap(), b"world".to_vec());
}

#[test]
fn replace_length_mismatch() {
    let mut store = RawStore::new(Backing::new_anon(), b"demo").unwrap();
    let id = store.add(b"hello").unwrap();
    let e = store.replace(id, b"toolong").unwrap_err();
    assert!(matches!(e, Error::MismatchedLengths { new: 7, old: 5, .. }));
}

#[test]
fn varint_matches_reference() {
    for &v in &[0u64, 1, 240, 241, 2031, 2032, 67567, 67568, 0xFF_FFFF, 0x1_0000_0000, u64::MAX] {
        let mut ours = Vec::new();
        arkstore::varint::append_varint(&mut ours, v);
        let mut theirs: Vec<u8> = Vec::new();
        let _ = (&mut theirs).write_varint(v).unwrap();
        assert_eq!(ours, theirs);
        let (back, used) = arkstore::varint::read_varint(&ours, 0).unwrap();
        assert_eq!(back, v);
        assert_eq!(used, ours.len());
    }
}
