use minigit::object::ObjectType;
use minigit::packfile::{apply_delta, read_entry_header, Packfile};
use minigit::store::ObjectStore;
use minigit::tree::{RefEntry, Tree};
use minigit::GitError;
use sha1::{Digest, Sha1};
use std::io::Write;

fn zlib(data: &[u8]) -> Vec<u8> {
    let mut e = flate2::write::ZlibEncoder::new(Vec::new(), flate2::Compression::default());
    e.write_all(data).unwrap();
    e.finish().unwrap()
}

fn entry_header(tag: u8, size: usize) -> Vec<u8> {
    if size < 16 {
        vec![(tag << 4) | (size as u8)]
    } else {
        vec![
            0x80 | (tag << 4) | ((size & 0xF) as u8),
            ((size >> 4) & 0x7F) as u8,
        ]
    }
}

fn finish_pack(count: u32, body: &[u8]) -> Vec<u8> {
    let mut p: Vec<u8> = b"PACK".to_vec();
    p.extend_from_slice(&2u32.to_be_bytes());
    p.extend_from_slice(&count.to_be_bytes());
    p.extend_from_slice(body);
    let d = Sha1::digest(&p);
    p.extend_from_slice(&d);
    p
}

fn blob_id(content: &[u8]) -> Vec<u8> {
    let mut framed = format!("blob {}\x00", content.len()).into_bytes();
    framed.extend_from_slice(content);
    Sha1::digest(&framed).to_vec()
}

// copy(0,3), insert "XY", copy(3,3) against a 6-byte base, making 8 bytes
fn sample_delta() -> Vec<u8> {
    vec![6, 8, 0x91, 0, 3, 2, b'X', b'Y', 0x91, 3, 3]
}

#[test]
fn varint_header_continuation_accumulates() {
    // 0b1_011_0101: continuation set, type 3 (blob), low size bits 0101;
    // continuation byte 0b0_0000011 contributes 3 << 4, so size is 53.
    let data: Vec<u8> = vec![0b1011_0101, 0b0000_0011];
    let (tag, size, used) = read_entry_header(&data, 0).unwrap();
    assert_eq!(tag, 3);
    assert_eq!(size, 53);
    assert_eq!(used, 2);
}

#[test]
fn varint_header_single_byte() {
    let data: Vec<u8> = vec![0x36];
    let (tag, size, used) = read_entry_header(&data, 0).unwrap();
    assert_eq!(tag, 3);
    assert_eq!(size, 6);
    assert_eq!(used, 1);
}

#[test]
fn varint_header_truncated_fails() {
    let data: Vec<u8> = vec![0xB5];
    assert!(read_entry_header(&data, 0).is_none());
}

#[test]
fn delta_copy_insert_copy_reconstructs() {
    let base: Vec<u8> = b"abcdef".to_vec();
    let out = apply_delta(&base, &sample_delta()).unwrap();
    assert_eq!(out, b"abcXYdef".to_vec());
}

#[test]
fn delta_wrong_declared_size_rejected() {
    let base: Vec<u8> = b"abcdef".to_vec();
    let mut d = sample_delta();
    d[1] = 9; // declared reconstructed size no longer matches the output
    assert_eq!(apply_delta(&base, &d).unwrap_err(), GitError::Corrupt);
}

#[test]
fn delta_wrong_base_size_rejected() {
    let base: Vec<u8> = b"abcdefg".to_vec();
    assert_eq!(
        apply_delta(&base, &sample_delta()).unwrap_err(),
        GitError::Corrupt
    );
}

#[test]
fn delta_copy_past_base_end_rejected() {
    let base: Vec<u8> = b"abcdef".to_vec();
    // copy(5,3) reaches past the 6-byte base
    let d: Vec<u8> = vec![6, 3, 0x91, 5, 3];
    assert_eq!(apply_delta(&base, &d).unwrap_err(), GitError::Corrupt);
}

#[test]
fn delta_truncated_insert_rejected() {
    let base: Vec<u8> = b"abcdef".to_vec();
    let d: Vec<u8> = vec![6, 2, 5, b'X'];
    assert_eq!(apply_delta(&base, &d).unwrap_err(), GitError::Corrupt);
}

#[test]
fn pack_open_rejects_bad_signature() {
    let mut bytes: Vec<u8> = b"JUNK".to_vec();
    bytes.extend_from_slice(&[0u8; 40]);
    assert_eq!(
        Packfile::new(bytes).unwrap_err(),
        GitError::InvalidHeader
    );
}

#[test]
fn pack_open_rejects_short_buffer() {
    let bytes: Vec<u8> = b"PACK".to_vec();
    assert_eq!(
        Packfile::new(bytes).unwrap_err(),
        GitError::InvalidHeader
    );
}

#[test]
fn pack_open_reads_header_fields() {
    let pack = finish_pack(0, &[]);
    let p = Packfile::new(pack).unwrap();
    assert_eq!(p.version(), 2);
    assert_eq!(p.object_count(), 0);
}

#[test]
fn pack_two_blobs_decode_into_store() {
    let mut body: Vec<u8> = Vec::new();
    body.extend(entry_header(3, 5));
    body.extend(zlib(b"hello"));
    body.extend(entry_header(3, 6));
    body.extend(zlib(b"world!"));
    let pack = finish_pack(2, &body);
    let p = Packfile::new(pack).unwrap();
    let mut store = ObjectStore::new();
    assert_eq!(p.parse_pack(&mut store).unwrap(), 2);
    assert!(store.has(&blob_id(b"hello")));
    assert!(store.has(&blob_id(b"world!")));
    let obj = store.get(&blob_id(b"hello")).unwrap();
    assert_eq!(obj.object_type, ObjectType::Blob);
    assert_eq!(obj.content, b"hello".to_vec());
}

#[test]
fn pack_entry_size_mismatch_is_corrupt() {
    let mut body: Vec<u8> = Vec::new();
    body.extend(entry_header(3, 4)); // declared 4, actual 5
    body.extend(zlib(b"hello"));
    let pack = finish_pack(1, &body);
    let p = Packfile::new(pack).unwrap();
    let mut store = ObjectStore::new();
    assert_eq!(p.parse_pack(&mut store).unwrap_err(), GitError::Corrupt);
}

#[test]
fn pack_checksum_mismatch_keeps_decoded_objects() {
    let mut body: Vec<u8> = Vec::new();
    body.extend(entry_header(3, 5));
    body.extend(zlib(b"hello"));
    body.extend(entry_header(3, 6));
    body.extend(zlib(b"world!"));
    let mut pack = finish_pack(2, &body);
    let last = pack.len() - 1;
    pack[last] ^= 0xFF;
    let p = Packfile::new(pack).unwrap();
    let mut store = ObjectStore::new();
    assert_eq!(
        p.parse_pack(&mut store).unwrap_err(),
        GitError::ChecksumMismatch
    );
    // every syntactically valid entry decoded before the check stays stored
    assert!(store.has(&blob_id(b"hello")));
    assert!(store.has(&blob_id(b"world!")));
}

#[test]
fn pack_offset_delta_resolves_earlier_entry() {
    let z1 = zlib(b"abcdef");
    let delta = sample_delta();
    let zd = zlib(&delta);
    let mut body: Vec<u8> = Vec::new();
    body.extend(entry_header(3, 6));
    body.extend(&z1);
    // second entry starts at 12 + 1 + z1.len(); its base is at 12
    let off = 1 + z1.len();
    assert!(off < 128);
    body.extend(entry_header(6, delta.len()));
    body.push(off as u8);
    body.extend(&zd);
    let pack = finish_pack(2, &body);
    let p = Packfile::new(pack).unwrap();
    let mut store = ObjectStore::new();
    assert_eq!(p.parse_pack(&mut store).unwrap(), 2);
    assert!(store.has(&blob_id(b"abcdef")));
    let obj = store.get(&blob_id(b"abcXYdef")).unwrap();
    assert_eq!(obj.object_type, ObjectType::Blob);
    assert_eq!(obj.content, b"abcXYdef".to_vec());
}

#[test]
fn pack_ref_delta_resolves_resident_base() {
    let mut store = ObjectStore::new();
    let base_id = store.put(ObjectType::Blob, &b"abcdef".to_vec());
    let delta = sample_delta();
    let zd = zlib(&delta);
    let mut body: Vec<u8> = Vec::new();
    body.extend(entry_header(7, delta.len()));
    body.extend(&base_id);
    body.extend(&zd);
    let pack = finish_pack(1, &body);
    let p = Packfile::new(pack).unwrap();
    assert_eq!(p.parse_pack(&mut store).unwrap(), 1);
    let obj = store.get(&blob_id(b"abcXYdef")).unwrap();
    assert_eq!(obj.content, b"abcXYdef".to_vec());
}

#[test]
fn pack_ref_delta_absent_base_is_missing_base() {
    let delta = sample_delta();
    let zd = zlib(&delta);
    let mut body: Vec<u8> = Vec::new();
    body.extend(entry_header(7, delta.len()));
    body.extend(vec![0x42u8; 20]);
    body.extend(&zd);
    let pack = finish_pack(1, &body);
    let p = Packfile::new(pack).unwrap();
    let mut store = ObjectStore::new();
    assert_eq!(
        p.parse_pack(&mut store).unwrap_err(),
        GitError::MissingBase
    );
}

#[test]
fn pack_garbage_entry_is_corrupt() {
    let body: Vec<u8> = vec![0xFF];
    let pack = finish_pack(1, &body);
    let p = Packfile::new(pack).unwrap();
    let mut store = ObjectStore::new();
    assert_eq!(p.parse_pack(&mut store).unwrap_err(), GitError::Corrupt);
}

#[test]
fn pack_tree_entry_round_trips_through_store() {
    let entries = vec![RefEntry {
        mode: 100644,
        name: b"f".to_vec(),
        oid: vec![3; 20],
    }];
    let tree_bytes = Tree::ref_entries_to_bytes(&entries);
    let mut body: Vec<u8> = Vec::new();
    body.extend(entry_header(2, tree_bytes.len()));
    body.extend(zlib(&tree_bytes));
    let pack = finish_pack(1, &body);
    let p = Packfile::new(pack).unwrap();
    let mut store = ObjectStore::new();
    assert_eq!(p.parse_pack(&mut store).unwrap(), 1);
    let mut framed = format!("tree {}\x00", tree_bytes.len()).into_bytes();
    framed.extend_from_slice(&tree_bytes);
    let id = Sha1::digest(&framed).to_vec();
    let obj = store.get(&id).unwrap();
    assert_eq!(obj.object_type, ObjectType::Tree);
    assert_eq!(obj.content, tree_bytes);
}
