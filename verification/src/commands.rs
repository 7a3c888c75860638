//! The command layer's pure halves: each takes the store and plain
//! argument values and returns plain results; printing, argument
//! syntax and the filesystem stay with the caller.

use vstd::prelude::*;

use crate::commit::commit_bytes;
use crate::commit::commit_refs_valid;
use crate::commit::Commit;
use crate::commit::CommitEntry;
use crate::digest::hex_decode;
use crate::digest::hex_encode;
use crate::digest::hex_of;
use crate::digest::hex_val_of;
use crate::digest::is_hex40;
use crate::digest::lemma_hex_round_trip;
use crate::digest::spec_is_hex40;
use crate::object::oid_of;
use crate::object::ObjectType;
use crate::store::get_model;
use crate::store::put_model;
use crate::store::store_extends;
use crate::store::ObjectStore;
use crate::tree::parse_entries;
use crate::tree::Tree;
use crate::GitError;

verus! {

/// Decodes a 40-hex identifier into its raw 20 bytes.
fn decode_id(sha1: &Vec<u8>) -> (r: Result<Vec<u8>, GitError>)
    ensures
        match r {
            Ok(id) => spec_is_hex40(sha1@) && id@ == hex_val_of(sha1@) && id@.len() == 20,
            Err(e) => e == GitError::InvalidReference && !spec_is_hex40(sha1@),
        },
{
    if !is_hex40(sha1) {
        return Err(GitError::InvalidReference);
    }
    match hex_decode(sha1) {
        Some(id) => Ok(id),
        None => {
            proof {
                assert(false);
            }
            Err(GitError::InvalidReference)
        },
    }
}

/// Stores content as a blob and returns its identifier in the 40-hex
/// external representation, which decodes back to the raw id.
pub fn hash_object(store: &mut ObjectStore, content: &Vec<u8>) -> (r: Vec<u8>)
    requires
        old(store).wf(),
    ensures
        final(store).wf(),
        store_extends(final(store)@, old(store)@),
        final(store)@ == put_model(old(store)@, ObjectType::Blob, content@),
        r@ == hex_of(oid_of(ObjectType::Blob, content@)),
        spec_is_hex40(r@),
        hex_val_of(r@) == oid_of(ObjectType::Blob, content@),
{
    let id = store.put(ObjectType::Blob, content);
    proof {
        lemma_hex_round_trip(id@);
    }
    hex_encode(&id)
}

/// The content of the object a 40-hex identifier names. Fails with
/// InvalidReference on a malformed identifier and NotFound on an
/// absent one.
pub fn cat_file(store: &ObjectStore, sha1: &Vec<u8>) -> (r: Result<Vec<u8>, GitError>)
    requires
        store.wf(),
    ensures
        !spec_is_hex40(sha1@) ==> r == Err::<Vec<u8>, GitError>(GitError::InvalidReference),
        spec_is_hex40(sha1@) && !store@.dom().contains(hex_val_of(sha1@)) ==> r == Err::<
            Vec<u8>,
            GitError,
        >(GitError::NotFound),
        spec_is_hex40(sha1@) && store@.dom().contains(hex_val_of(sha1@)) ==> (r matches Ok(c)
            && (get_model(store@, hex_val_of(sha1@)) matches Some(p) && c@ == p.1)),
{
    let id = match decode_id(sha1) {
        Ok(id) => id,
        Err(e) => {
            return Err(e);
        },
    };
    match store.get(&id) {
        Ok(o) => Ok(o.content),
        Err(e) => Err(e),
    }
}

/// The entry names of the tree object a 40-hex identifier names, in
/// stored order. A non-tree object or a malformed payload is corrupt.
pub fn ls_tree(store: &ObjectStore, sha1: &Vec<u8>) -> (r: Result<Vec<Vec<u8>>, GitError>)
    requires
        store.wf(),
    ensures
        !spec_is_hex40(sha1@) ==> r == Err::<Vec<Vec<u8>>, GitError>(GitError::InvalidReference),
        spec_is_hex40(sha1@) && !store@.dom().contains(hex_val_of(sha1@)) ==> r == Err::<
            Vec<Vec<u8>>,
            GitError,
        >(GitError::NotFound),
        spec_is_hex40(sha1@) && store@.dom().contains(hex_val_of(sha1@)) ==> (get_model(
            store@,
            hex_val_of(sha1@),
        ) matches Some(p) && (if p.0 != ObjectType::Tree {
            r == Err::<Vec<Vec<u8>>, GitError>(GitError::Corrupt)
        } else {
            match parse_entries(p.1) {
                Some(es) => r matches Ok(names) && names@.len() == es.len() && (forall|i: int|
                    0 <= i < es.len() ==> #[trigger] names@[i]@ == es[i].name),
                None => r == Err::<Vec<Vec<u8>>, GitError>(GitError::Corrupt),
            }
        })),
{
    let id = match decode_id(sha1) {
        Ok(id) => id,
        Err(e) => {
            return Err(e);
        },
    };
    let o = match store.get(&id) {
        Ok(o) => o,
        Err(e) => {
            return Err(e);
        },
    };
    match o.object_type {
        ObjectType::Tree => Tree::ls_tree(&o.content),
        _ => Err(GitError::Corrupt),
    }
}

/// Validates, serializes and stores a commit record, returning its
/// id.
pub fn commit_tree(store: &mut ObjectStore, entry: &CommitEntry) -> (r: Result<Vec<u8>, GitError>)
    requires
        old(store).wf(),
    ensures
        final(store).wf(),
        store_extends(final(store)@, old(store)@),
        commit_refs_valid(entry@) ==> {
            &&& r matches Ok(id) && id@ == oid_of(ObjectType::Commit, commit_bytes(entry@))
            &&& final(store)@ == put_model(old(store)@, ObjectType::Commit, commit_bytes(entry@))
        },
        !commit_refs_valid(entry@) ==> r == Err::<Vec<u8>, GitError>(GitError::InvalidReference)
            && final(store)@ == old(store)@,
{
    Commit::commit_tree(store, entry)
}

} // verus!
