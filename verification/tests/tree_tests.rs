use minigit::commands;
use minigit::object::ObjectType;
use minigit::store::ObjectStore;
use minigit::tree::{sort_entries, RefEntry, Tree, WorkNode};
use minigit::GitError;
use sha1::{Digest, Sha1};

fn entry(mode: u32, name: &[u8]) -> RefEntry {
    RefEntry {
        mode,
        name: name.to_vec(),
        oid: vec![0xAB; 20],
    }
}

#[test]
fn tree_ordering_file_with_extension_before_directory() {
    // "lib.rs" (file) sorts before "lib" (directory): the directory
    // compares as "lib/" and '.' < '/'.
    let entries = vec![entry(40000, b"lib"), entry(100644, b"lib.rs")];
    let sorted = sort_entries(&entries);
    assert_eq!(sorted[0].name, b"lib.rs".to_vec());
    assert_eq!(sorted[1].name, b"lib".to_vec());
}

#[test]
fn tree_ordering_directory_before_longer_name() {
    // directory "lib" sorts before file "libx": '/' < 'x'.
    let entries = vec![entry(100644, b"libx"), entry(40000, b"lib")];
    let sorted = sort_entries(&entries);
    assert_eq!(sorted[0].name, b"lib".to_vec());
    assert_eq!(sorted[1].name, b"libx".to_vec());
}

#[test]
fn tree_ordering_plain_files_lexicographic() {
    let entries = vec![
        entry(100644, b"b"),
        entry(100644, b"a"),
        entry(100644, b"c"),
    ];
    let sorted = sort_entries(&entries);
    assert_eq!(sorted[0].name, b"a".to_vec());
    assert_eq!(sorted[1].name, b"b".to_vec());
    assert_eq!(sorted[2].name, b"c".to_vec());
}

#[test]
fn tree_encode_has_exact_binary_shape() {
    let e = RefEntry {
        mode: 100644,
        name: b"a.txt".to_vec(),
        oid: (0..20).collect(),
    };
    let bytes = Tree::ref_entries_to_bytes(&vec![e]);
    let mut expected: Vec<u8> = b"100644 a.txt\x00".to_vec();
    expected.extend(0..20u8);
    assert_eq!(bytes, expected);
}

#[test]
fn tree_codec_round_trips() {
    let entries = vec![
        RefEntry {
            mode: 100644,
            name: b"a space name".to_vec(),
            oid: vec![7; 20],
        },
        RefEntry {
            mode: 40000,
            name: b"dir".to_vec(),
            oid: vec![9; 20],
        },
    ];
    let bytes = Tree::ref_entries_to_bytes(&entries);
    let back = Tree::read_tree(&bytes).unwrap();
    assert_eq!(back.len(), 2);
    assert_eq!(back[0].mode, 100644);
    assert_eq!(back[0].name, b"a space name".to_vec());
    assert_eq!(back[0].oid, vec![7; 20]);
    assert_eq!(back[1].mode, 40000);
    assert_eq!(back[1].name, b"dir".to_vec());
    assert_eq!(back[1].oid, vec![9; 20]);
}

#[test]
fn tree_read_rejects_unknown_mode() {
    let mut bytes: Vec<u8> = b"100645 a\x00".to_vec();
    bytes.extend(vec![0u8; 20]);
    assert_eq!(Tree::read_tree(&bytes).unwrap_err(), GitError::Corrupt);
}

#[test]
fn tree_read_rejects_truncated_id() {
    let mut bytes: Vec<u8> = b"100644 a\x00".to_vec();
    bytes.extend(vec![0u8; 19]);
    assert_eq!(Tree::read_tree(&bytes).unwrap_err(), GitError::Corrupt);
}

#[test]
fn tree_read_rejects_empty_name() {
    let mut bytes: Vec<u8> = b"100644 \x00".to_vec();
    bytes.extend(vec![0u8; 20]);
    assert_eq!(Tree::read_tree(&bytes).unwrap_err(), GitError::Corrupt);
}

#[test]
fn tree_read_empty_payload_is_empty_tree() {
    let bytes: Vec<u8> = Vec::new();
    assert_eq!(Tree::read_tree(&bytes).unwrap().len(), 0);
}

#[test]
fn ls_tree_command_returns_names_in_stored_order() {
    let mut store = ObjectStore::new();
    let entries = vec![
        RefEntry {
            mode: 100644,
            name: b"lib.rs".to_vec(),
            oid: vec![1; 20],
        },
        RefEntry {
            mode: 40000,
            name: b"lib".to_vec(),
            oid: vec![2; 20],
        },
    ];
    let bytes = Tree::ref_entries_to_bytes(&entries);
    let id = store.put(ObjectType::Tree, &bytes);
    let hex_id: Vec<u8> = hex::encode(&id).into_bytes();
    let names = commands::ls_tree(&store, &hex_id).unwrap();
    assert_eq!(names, vec![b"lib.rs".to_vec(), b"lib".to_vec()]);
}

#[test]
fn ls_tree_command_rejects_non_tree() {
    let mut store = ObjectStore::new();
    let id = store.put(ObjectType::Blob, &b"not a tree".to_vec());
    let hex_id: Vec<u8> = hex::encode(&id).into_bytes();
    assert_eq!(
        commands::ls_tree(&store, &hex_id).unwrap_err(),
        GitError::Corrupt
    );
}

#[test]
fn write_tree_builds_nested_objects() {
    let mut store = ObjectStore::new();
    let root = vec![
        WorkNode::File {
            name: b"b.txt".to_vec(),
            mode: 100644,
            content: b"bee".to_vec(),
        },
        WorkNode::Dir {
            name: b"sub".to_vec(),
            children: vec![WorkNode::File {
                name: b"c.txt".to_vec(),
                mode: 100755,
                content: b"sea".to_vec(),
            }],
        },
    ];
    let id = Tree::write_tree(&mut store, &root);
    // the root tree is stored and readable
    let obj = store.get(&id).unwrap();
    assert_eq!(obj.object_type, ObjectType::Tree);
    let entries = Tree::read_tree(&obj.content).unwrap();
    assert_eq!(entries.len(), 2);
    // "b.txt" sorts before the directory "sub"
    assert_eq!(entries[0].name, b"b.txt".to_vec());
    assert_eq!(entries[0].mode, 100644);
    assert_eq!(entries[1].name, b"sub".to_vec());
    assert_eq!(entries[1].mode, 40000);
    // the blob entry's id is the digest of the framed blob
    let blob_id = Sha1::digest(b"blob 3\x00bee").to_vec();
    assert_eq!(entries[0].oid, blob_id);
    // the subtree is itself stored, with its own entry
    let sub = store.get(&entries[1].oid).unwrap();
    assert_eq!(sub.object_type, ObjectType::Tree);
    let sub_entries = Tree::read_tree(&sub.content).unwrap();
    assert_eq!(sub_entries.len(), 1);
    assert_eq!(sub_entries[0].name, b"c.txt".to_vec());
    assert_eq!(sub_entries[0].mode, 100755);
}

#[test]
fn write_tree_normalizes_and_skips_modes() {
    let mut store = ObjectStore::new();
    let root = vec![
        WorkNode::File {
            name: b"a".to_vec(),
            mode: 100664,
            content: b"1".to_vec(),
        },
        WorkNode::File {
            name: b"b".to_vec(),
            mode: 100775,
            content: b"2".to_vec(),
        },
        WorkNode::File {
            name: b"odd".to_vec(),
            mode: 777,
            content: b"3".to_vec(),
        },
    ];
    let id = Tree::write_tree(&mut store, &root);
    let obj = store.get(&id).unwrap();
    let entries = Tree::read_tree(&obj.content).unwrap();
    // the unmapped mode is skipped, not an error
    assert_eq!(entries.len(), 2);
    assert_eq!(entries[0].mode, 100644);
    assert_eq!(entries[1].mode, 100755);
}
