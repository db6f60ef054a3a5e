use git_objects::digest::{fingerprint, Fingerprint};
use git_objects::error::Error;
use git_objects::object::{Entry, Mode, Object};
use git_objects::packing::{pack, unpack, StoredObject};
use git_objects::store::ObjectStore;
use git_objects::zlib::{compress, decompress};

fn key(fill: u8) -> Fingerprint {
    Fingerprint::from_bytes([fill; 20])
}

#[test]
fn new_store_is_empty() {
    let store = ObjectStore::new();
    assert_eq!(store.len(), 0);
    assert!(!store.contains(&key(1)));
    assert_eq!(store.get(&key(1)), Err(Error::ObjectNotFound));
}

#[test]
fn get_returns_what_was_put() {
    let mut store = ObjectStore::new();
    store.put(key(1), b"one".to_vec());
    store.put(key(2), b"two".to_vec());
    assert_eq!(store.len(), 2);
    assert!(store.contains(&key(1)));
    assert_eq!(store.get(&key(1)), Ok(b"one".to_vec()));
    assert_eq!(store.get(&key(2)), Ok(b"two".to_vec()));
    assert_eq!(store.get(&key(3)), Err(Error::ObjectNotFound));
}

#[test]
fn put_twice_leaves_one_object() {
    let mut store = ObjectStore::new();
    store.put(key(1), b"one".to_vec());
    store.put(key(1), b"one".to_vec());
    assert_eq!(store.len(), 1);
    assert_eq!(store.get(&key(1)), Ok(b"one".to_vec()));
}

#[test]
fn put_under_a_taken_key_keeps_what_is_there() {
    let mut store = ObjectStore::new();
    store.put(key(1), b"first".to_vec());
    store.put(key(1), b"second".to_vec());
    assert_eq!(store.len(), 1);
    assert_eq!(store.get(&key(1)), Ok(b"first".to_vec()));
}

#[test]
fn objects_stand_in_the_order_of_their_puts() {
    let mut store = ObjectStore::new();
    store.put(key(3), b"c".to_vec());
    store.put(key(1), b"a".to_vec());
    store.put(key(3), b"again".to_vec());
    store.put(key(2), b"b".to_vec());
    assert_eq!(store.len(), 3);
    assert_eq!(store.object_at(0), &StoredObject { fingerprint: key(3), bytes: b"c".to_vec() });
    assert_eq!(store.object_at(1), &StoredObject { fingerprint: key(1), bytes: b"a".to_vec() });
    assert_eq!(store.object_at(2), &StoredObject { fingerprint: key(2), bytes: b"b".to_vec() });
}

#[test]
fn store_blob_puts_the_compressed_layout_under_its_fingerprint() {
    let mut store = ObjectStore::new();
    let fp = store.store_blob(b"hello world");
    assert_eq!(fp.to_hex(), "95d09f2b10159347eece71399a7e2e907ea3df4f");
    assert_eq!(store.len(), 1);
    let stream = store.get(&fp).unwrap();
    assert_eq!(stream, compress(b"blob 11\0hello world"));
    assert_eq!(decompress(&stream), Ok(b"blob 11\0hello world".to_vec()));
}

#[test]
fn equal_content_is_stored_once() {
    let mut store = ObjectStore::new();
    let first = store.store_blob(b"same");
    let second = store.store_blob(b"same");
    let other = store.store_blob(b"other");
    assert_eq!(first, second);
    assert_ne!(first, other);
    assert_eq!(store.len(), 2);
}

#[test]
fn store_object_and_read_object_round_trip() {
    let mut store = ObjectStore::new();
    let blob = Object::Blob { content: b"x".to_vec() };
    let blob_fp = store.store_object(&blob);
    assert_eq!(blob_fp.to_hex(), "c1b0730e0133447badcfd47fd144e254807b06e1");
    let tree = Object::Tree {
        entries: vec![Entry { mode: Mode::RegularFile, name: b"a.txt".to_vec(), target: blob_fp }],
    };
    let tree_fp = store.store_object(&tree);
    assert_eq!(store.read_object(&blob_fp), Ok(blob));
    assert_eq!(store.read_object(&tree_fp), Ok(tree));
    assert_eq!(store.len(), 2);
}

#[test]
fn store_tree_writes_entries_as_they_stand() {
    let mut store = ObjectStore::new();
    let entries = vec![
        Entry { mode: Mode::RegularFile, name: b"z".to_vec(), target: key(1) },
        Entry { mode: Mode::RegularFile, name: b"a".to_vec(), target: key(2) },
    ];
    let fp = store.store_tree(&entries);
    assert_eq!(store.read_object(&fp), Ok(Object::Tree { entries }));
}

#[test]
fn read_object_reports_a_missing_object() {
    let store = ObjectStore::new();
    assert_eq!(store.read_object(&key(9)), Err(Error::ObjectNotFound));
}

#[test]
fn read_object_reports_a_corrupt_object() {
    let mut store = ObjectStore::new();
    let mut stream = compress(b"blob 11\0hello world");
    stream.truncate(stream.len() - 3);
    store.put(key(1), stream);
    store.put(key(2), b"not compressed".to_vec());
    assert_eq!(store.read_object(&key(1)), Err(Error::CorruptObject));
    assert_eq!(store.read_object(&key(2)), Err(Error::CorruptObject));
}

#[test]
fn read_object_reports_what_decoding_reports() {
    let mut store = ObjectStore::new();
    store.put(key(1), compress(b"commit 3\0abc"));
    store.put(key(2), compress(b"blob 4\0abc"));
    store.put(key(3), compress(b"tree 3\0abc"));
    let mut body = b"tree 26\0755 x\0".to_vec();
    body.extend_from_slice(&[0; 20]);
    store.put(key(4), compress(&body));
    assert_eq!(store.read_object(&key(1)), Err(Error::UnknownObjectKind));
    assert_eq!(store.read_object(&key(2)), Err(Error::LengthMismatch));
    assert_eq!(store.read_object(&key(3)), Err(Error::TruncatedEntry));
    assert_eq!(store.read_object(&key(4)), Err(Error::InvalidMode));
}

#[test]
fn pack_and_unpack_round_trip() {
    let object = Object::Blob { content: b"hello world".to_vec() };
    let packed = pack(&object);
    assert_eq!(packed.fingerprint, fingerprint(b"blob 11\0hello world"));
    assert_eq!(packed.bytes, compress(b"blob 11\0hello world"));
    assert_eq!(unpack(&packed.bytes), Ok(object));
}

#[test]
fn unpack_reports_a_truncated_stream() {
    let packed = pack(&Object::Blob { content: b"hello world".to_vec() });
    let cut = &packed.bytes[..packed.bytes.len() / 2];
    assert_eq!(unpack(cut), Err(Error::CorruptObject));
}
