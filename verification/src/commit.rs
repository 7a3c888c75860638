//! The commit record codec: tree reference, optional single parent,
//! author and committer lines with an injected clock, and the message.

use vstd::prelude::*;

use crate::digest::spec_is_hex40;
use crate::object::oid_of;
use crate::object::ObjectType;
use crate::store::put_model;
use crate::store::store_extends;
use crate::store::ObjectStore;
use crate::util::append_bytes;
use crate::util::dec_digits;
use crate::util::u64_to_dec;
use crate::GitError;

verus! {

/// Who authored or committed, as injected configuration: never
/// compiled-in constants.
pub struct Identity {
    pub name: Vec<u8>,
    pub email: Vec<u8>,
}

/// The mathematical shape of an identity.
pub struct IdentityModel {
    pub name: Seq<u8>,
    pub email: Seq<u8>,
}

impl View for Identity {
    type V = IdentityModel;

    open spec fn view(&self) -> IdentityModel {
        IdentityModel { name: self.name@, email: self.email@ }
    }
}

/// A commit record before serialization. The tree and parent are
/// 40-hex identifiers; at most one parent is modeled. The clock
/// reading and zone offset are supplied by the caller.
pub struct CommitEntry {
    pub tree: Vec<u8>,
    pub parent: Option<Vec<u8>>,
    pub author: Identity,
    pub committer: Identity,
    pub time: u64,
    pub offset: Vec<u8>,
    pub message: Vec<u8>,
}

/// The mathematical shape of a commit record.
pub struct CommitModel {
    pub tree: Seq<u8>,
    pub parent: Option<Seq<u8>>,
    pub author: IdentityModel,
    pub committer: IdentityModel,
    pub time: u64,
    pub offset: Seq<u8>,
    pub message: Seq<u8>,
}

impl View for CommitEntry {
    type V = CommitModel;

    open spec fn view(&self) -> CommitModel {
        CommitModel {
            tree: self.tree@,
            parent: match self.parent {
                Some(p) => Some(p@),
                None => None,
            },
            author: self.author@,
            committer: self.committer@,
            time: self.time,
            offset: self.offset@,
            message: self.message@,
        }
    }
}

/// `<tag> <name> <<email>> <seconds> <offset>` followed by a newline;
/// the tag already carries its trailing space.
pub open spec fn identity_line(tag: Seq<u8>, id: IdentityModel, time: u64, offset: Seq<u8>) -> Seq<
    u8,
> {
    tag + id.name + seq![32u8, 60u8] + id.email + seq![62u8, 32u8] + dec_digits(time as nat)
        + seq![32u8] + offset + seq![10u8]
}

/// The serialized commit payload.
pub open spec fn commit_bytes(c: CommitModel) -> Seq<u8> {
    seq![116u8, 114u8, 101u8, 101u8, 32u8] + c.tree + seq![10u8] + (match c.parent {
        Some(p) => seq![112u8, 97u8, 114u8, 101u8, 110u8, 116u8, 32u8] + p + seq![10u8],
        None => Seq::<u8>::empty(),
    }) + identity_line(
        seq![97u8, 117u8, 116u8, 104u8, 111u8, 114u8, 32u8],
        c.author,
        c.time,
        c.offset,
    ) + identity_line(
        seq![99u8, 111u8, 109u8, 109u8, 105u8, 116u8, 116u8, 101u8, 114u8, 32u8],
        c.committer,
        c.time,
        c.offset,
    ) + seq![10u8] + c.message + seq![10u8]
}

/// Both references of a record are well-formed 40-hex identifiers (a
/// missing parent is well-formed).
pub open spec fn commit_refs_valid(c: CommitModel) -> bool {
    spec_is_hex40(c.tree) && (match c.parent {
        Some(p) => spec_is_hex40(p),
        None => true,
    })
}

/// Appends one identity line.
fn push_identity_line(out: &mut Vec<u8>, tag: &Vec<u8>, id: &Identity, time: u64, offset: &Vec<u8>)
    ensures
        final(out)@ == old(out)@ + identity_line(tag@, id@, time, offset@),
{
    let ghost base = out@;
    append_bytes(out, tag);
    append_bytes(out, &id.name);
    out.push(32);
    out.push(60);
    append_bytes(out, &id.email);
    out.push(62);
    out.push(32);
    let digits = u64_to_dec(time);
    append_bytes(out, &digits);
    out.push(32);
    append_bytes(out, offset);
    out.push(10);
    proof {
        assert(out@ =~= base + identity_line(tag@, id@, time, offset@));
    }
}

/// The commit codec.
pub struct Commit {}

impl Commit {
    /// Serializes a commit record.
    pub fn commit_entry_to_bytes(entry: &CommitEntry) -> (r: Vec<u8>)
        ensures
            r@ == commit_bytes(entry@),
    {
        let mut out: Vec<u8> = Vec::new();
        out.push(116);
        out.push(114);
        out.push(101);
        out.push(101);
        out.push(32);
        append_bytes(&mut out, &entry.tree);
        out.push(10);
        match &entry.parent {
            Some(p) => {
                out.push(112);
                out.push(97);
                out.push(114);
                out.push(101);
                out.push(110);
                out.push(116);
                out.push(32);
                append_bytes(&mut out, p);
                out.push(10);
            },
            None => {},
        }
        let mut author_tag: Vec<u8> = Vec::new();
        author_tag.push(97);
        author_tag.push(117);
        author_tag.push(116);
        author_tag.push(104);
        author_tag.push(111);
        author_tag.push(114);
        author_tag.push(32);
        proof {
            assert(author_tag@ =~= seq![97u8, 117u8, 116u8, 104u8, 111u8, 114u8, 32u8]);
        }
        push_identity_line(&mut out, &author_tag, &entry.author, entry.time, &entry.offset);
        let mut committer_tag: Vec<u8> = Vec::new();
        committer_tag.push(99);
        committer_tag.push(111);
        committer_tag.push(109);
        committer_tag.push(109);
        committer_tag.push(105);
        committer_tag.push(116);
        committer_tag.push(116);
        committer_tag.push(101);
        committer_tag.push(114);
        committer_tag.push(32);
        proof {
            assert(committer_tag@ =~= seq![
                99u8,
                111u8,
                109u8,
                109u8,
                105u8,
                116u8,
                116u8,
                101u8,
                114u8,
                32u8,
            ]);
        }
        push_identity_line(&mut out, &committer_tag, &entry.committer, entry.time, &entry.offset);
        out.push(10);
        append_bytes(&mut out, &entry.message);
        out.push(10);
        proof {
            assert(out@ =~= commit_bytes(entry@));
        }
        out
    }

    /// Validates the record's references, serializes it, and stores it
    /// as a commit object. Fails with InvalidReference, touching
    /// nothing, exactly when the tree or parent id is not 40 hex
    /// digits.
    pub fn commit_tree(store: &mut ObjectStore, entry: &CommitEntry) -> (r: Result<
        Vec<u8>,
        GitError,
    >)
        requires
            old(store).wf(),
        ensures
            final(store).wf(),
            store_extends(final(store)@, old(store)@),
            commit_refs_valid(entry@) ==> {
                &&& r matches Ok(id) && id@ == oid_of(ObjectType::Commit, commit_bytes(entry@))
                &&& final(store)@ == put_model(old(store)@, ObjectType::Commit, commit_bytes(
                    entry@,
                ))
            },
            !commit_refs_valid(entry@) ==> r == Err::<Vec<u8>, GitError>(GitError::InvalidReference)
                && final(store)@ == old(store)@,
    {
        if !crate::digest::is_hex40(&entry.tree) {
            return Err(GitError::InvalidReference);
        }
        match &entry.parent {
            Some(p) => {
                if !crate::digest::is_hex40(p) {
                    return Err(GitError::InvalidReference);
                }
            },
            None => {},
        }
        let bytes = Commit::commit_entry_to_bytes(entry);
        let id = store.put(ObjectType::Commit, &bytes);
        Ok(id)
    }
}

} // verus!
