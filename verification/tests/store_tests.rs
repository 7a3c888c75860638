use minigit::commands;
use minigit::object::ObjectType;
use minigit::store::ObjectStore;
use minigit::GitError;
use sha1::{Digest, Sha1};
use std::io::Read;

#[test]
fn store_put_get_round_trip() {
    let mut store = ObjectStore::new();
    let content: Vec<u8> = b"hello world".to_vec();
    let id = store.put(ObjectType::Blob, &content);
    assert_eq!(id.len(), 20);
    let obj = store.get(&id).unwrap();
    assert_eq!(obj.object_type, ObjectType::Blob);
    assert_eq!(obj.content, content);
}

#[test]
fn store_put_get_round_trip_empty() {
    let mut store = ObjectStore::new();
    let content: Vec<u8> = Vec::new();
    let id = store.put(ObjectType::Blob, &content);
    let obj = store.get(&id).unwrap();
    assert_eq!(obj.object_type, ObjectType::Blob);
    assert_eq!(obj.content, content);
}

#[test]
fn store_empty_blob_has_known_id() {
    let mut store = ObjectStore::new();
    let id = store.put(ObjectType::Blob, &Vec::new());
    assert_eq!(hex::encode(&id), "e69de29bb2d1d6434b8b29ae775ad8c2e48c5391");
}

#[test]
fn hash_object_returns_lowercase_hex_id() {
    let mut store = ObjectStore::new();
    let hex_id = commands::hash_object(&mut store, &Vec::new());
    assert_eq!(hex_id, b"e69de29bb2d1d6434b8b29ae775ad8c2e48c5391".to_vec());
    // the printed id names the stored object
    let got = commands::cat_file(&store, &hex_id).unwrap();
    assert!(got.is_empty());
}

#[test]
fn store_id_matches_digest_of_framed_payload() {
    let mut store = ObjectStore::new();
    let content: Vec<u8> = b"some content".to_vec();
    let id = store.put(ObjectType::Blob, &content);
    let mut framed: Vec<u8> = b"blob 12\x00".to_vec();
    framed.extend_from_slice(&content);
    let expected = Sha1::digest(&framed).to_vec();
    assert_eq!(id, expected);
}

#[test]
fn store_put_is_idempotent() {
    let mut store = ObjectStore::new();
    let content: Vec<u8> = b"twice".to_vec();
    let id1 = store.put(ObjectType::Blob, &content);
    let id2 = store.put(ObjectType::Blob, &content);
    assert_eq!(id1, id2);
    // at most one physical object exists for the repeated payload
    assert_eq!(store.export().len(), 1);
}

#[test]
fn store_distinct_types_get_distinct_ids() {
    let mut store = ObjectStore::new();
    let content: Vec<u8> = b"same bytes".to_vec();
    let a = store.put(ObjectType::Blob, &content);
    let b = store.put(ObjectType::Commit, &content);
    assert_ne!(a, b);
    assert_eq!(store.export().len(), 2);
}

#[test]
fn store_get_absent_is_not_found() {
    let store = ObjectStore::new();
    let id = vec![0u8; 20];
    assert_eq!(store.get(&id).unwrap_err(), GitError::NotFound);
}

#[test]
fn store_has_reports_presence() {
    let mut store = ObjectStore::new();
    let content: Vec<u8> = b"x".to_vec();
    let id = store.put(ObjectType::Blob, &content);
    assert!(store.has(&id));
    assert!(!store.has(&vec![0u8; 20]));
}

#[test]
fn cat_file_round_trips_through_hex() {
    let mut store = ObjectStore::new();
    let content: Vec<u8> = b"via the command layer".to_vec();
    let id = store.put(ObjectType::Blob, &content);
    let hex_id: Vec<u8> = hex::encode(&id).into_bytes();
    let got = commands::cat_file(&store, &hex_id).unwrap();
    assert_eq!(got, content);
}

#[test]
fn cat_file_accepts_uppercase_hex() {
    let mut store = ObjectStore::new();
    let content: Vec<u8> = b"case folding".to_vec();
    let id = store.put(ObjectType::Blob, &content);
    let hex_id: Vec<u8> = hex::encode(&id).to_uppercase().into_bytes();
    let got = commands::cat_file(&store, &hex_id).unwrap();
    assert_eq!(got, content);
}

#[test]
fn cat_file_rejects_malformed_id() {
    let store = ObjectStore::new();
    let bad: Vec<u8> = b"zz".to_vec();
    assert_eq!(
        commands::cat_file(&store, &bad).unwrap_err(),
        GitError::InvalidReference
    );
    let bad40: Vec<u8> = vec![b'g'; 40];
    assert_eq!(
        commands::cat_file(&store, &bad40).unwrap_err(),
        GitError::InvalidReference
    );
}

#[test]
fn cat_file_absent_id_is_not_found() {
    let store = ObjectStore::new();
    let hex_id: Vec<u8> = vec![b'0'; 40];
    assert_eq!(
        commands::cat_file(&store, &hex_id).unwrap_err(),
        GitError::NotFound
    );
}

#[test]
fn blob_cat_file_parses_frame() {
    let framed: Vec<u8> = b"blob 5\x00hello".to_vec();
    assert_eq!(minigit::blob::Blob::cat_file(framed).unwrap(), b"hello");
}

#[test]
fn blob_cat_file_rejects_bad_length() {
    let framed: Vec<u8> = b"blob 6\x00hello".to_vec();
    assert_eq!(
        minigit::blob::Blob::cat_file(framed).unwrap_err(),
        GitError::Corrupt
    );
}

#[test]
fn blob_cat_file_rejects_leading_zero_length() {
    let framed: Vec<u8> = b"blob 05\x00hello".to_vec();
    assert_eq!(
        minigit::blob::Blob::cat_file(framed).unwrap_err(),
        GitError::Corrupt
    );
}

#[test]
fn blob_cat_file_rejects_non_blob() {
    let framed: Vec<u8> = b"tree 0\x00".to_vec();
    assert_eq!(
        minigit::blob::Blob::cat_file(framed).unwrap_err(),
        GitError::Corrupt
    );
}

#[test]
fn export_pairs_decompress_to_framed_payloads() {
    let mut store = ObjectStore::new();
    let content: Vec<u8> = b"exported".to_vec();
    let id = store.put(ObjectType::Blob, &content);
    let pairs = store.export();
    assert_eq!(pairs.len(), 1);
    assert_eq!(pairs[0].0, id);
    let mut z = flate2::read::ZlibDecoder::new(pairs[0].1.as_slice());
    let mut framed = Vec::new();
    z.read_to_end(&mut framed).unwrap();
    let mut expected: Vec<u8> = b"blob 8\x00".to_vec();
    expected.extend_from_slice(&content);
    assert_eq!(framed, expected);
}
