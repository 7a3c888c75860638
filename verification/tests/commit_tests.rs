use minigit::commands;
use minigit::commit::{Commit, CommitEntry, Identity};
use minigit::object::ObjectType;
use minigit::store::ObjectStore;
use minigit::GitError;
use sha1::{Digest, Sha1};

fn sample_entry(parent: Option<Vec<u8>>) -> CommitEntry {
    CommitEntry {
        tree: vec![b'a'; 40],
        parent,
        author: Identity {
            name: b"Ada".to_vec(),
            email: b"ada@example.com".to_vec(),
        },
        committer: Identity {
            name: b"Grace".to_vec(),
            email: b"grace@example.com".to_vec(),
        },
        time: 1234567890,
        offset: b"+0530".to_vec(),
        message: b"first commit".to_vec(),
    }
}

#[test]
fn commit_bytes_have_exact_shape_without_parent() {
    let bytes = Commit::commit_entry_to_bytes(&sample_entry(None));
    let expected = format!(
        "tree {}\nauthor Ada <ada@example.com> 1234567890 +0530\ncommitter Grace <grace@example.com> 1234567890 +0530\n\nfirst commit\n",
        "a".repeat(40)
    );
    assert_eq!(bytes, expected.into_bytes());
}

#[test]
fn commit_bytes_have_exact_shape_with_parent() {
    let bytes = Commit::commit_entry_to_bytes(&sample_entry(Some(vec![b'b'; 40])));
    let expected = format!(
        "tree {}\nparent {}\nauthor Ada <ada@example.com> 1234567890 +0530\ncommitter Grace <grace@example.com> 1234567890 +0530\n\nfirst commit\n",
        "a".repeat(40),
        "b".repeat(40)
    );
    assert_eq!(bytes, expected.into_bytes());
}

#[test]
fn commit_tree_stores_commit_under_its_digest() {
    let mut store = ObjectStore::new();
    let entry = sample_entry(Some(vec![b'b'; 40]));
    let id = commands::commit_tree(&mut store, &entry).unwrap();
    let payload = Commit::commit_entry_to_bytes(&entry);
    let mut framed = format!("commit {}\x00", payload.len()).into_bytes();
    framed.extend_from_slice(&payload);
    assert_eq!(id, Sha1::digest(&framed).to_vec());
    let obj = store.get(&id).unwrap();
    assert_eq!(obj.object_type, ObjectType::Commit);
    assert_eq!(obj.content, payload);
}

#[test]
fn commit_tree_rejects_malformed_tree_id() {
    let mut store = ObjectStore::new();
    let mut entry = sample_entry(None);
    entry.tree = b"short".to_vec();
    assert_eq!(
        commands::commit_tree(&mut store, &entry).unwrap_err(),
        GitError::InvalidReference
    );
    assert_eq!(store.export().len(), 0);
}

#[test]
fn commit_tree_rejects_malformed_parent_id() {
    let mut store = ObjectStore::new();
    let entry = sample_entry(Some(vec![b'x'; 40]));
    assert_eq!(
        commands::commit_tree(&mut store, &entry).unwrap_err(),
        GitError::InvalidReference
    );
}

#[test]
fn commit_without_parent_allowed() {
    let mut store = ObjectStore::new();
    let id = commands::commit_tree(&mut store, &sample_entry(None)).unwrap();
    assert!(store.has(&id));
}
