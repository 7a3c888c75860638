//! The framed object payload shared by every object kind:
//! `<type-name> SPACE <decimal-byte-length> NUL <raw-content>`, and the
//! parser that re-validates the frame on read.

use vstd::prelude::*;

use crate::digest::digest_of;
use crate::util::bytes_eq;
use crate::util::dec_digits;
use crate::util::find_byte;
use crate::util::is_dec_digit;
use crate::util::lemma_dec_digits;
use crate::util::lemma_find_byte_first;
use crate::util::spec_find_byte;
use crate::util::subvec;
use crate::util::u64_to_dec;
use crate::GitError;

verus! {

/// The kind of a stored object.
#[derive(Clone, Copy, Debug, PartialEq, Eq, Structural)]
pub enum ObjectType {
    Blob,
    Tree,
    Commit,
    Tag,
}

impl ObjectType {
    /// The ASCII type name that opens the framed payload.
    pub open spec fn spec_name(self) -> Seq<u8> {
        match self {
            ObjectType::Blob => seq![98u8, 108u8, 111u8, 98u8],
            ObjectType::Tree => seq![116u8, 114u8, 101u8, 101u8],
            ObjectType::Commit => seq![99u8, 111u8, 109u8, 109u8, 105u8, 116u8],
            ObjectType::Tag => seq![116u8, 97u8, 103u8],
        }
    }

    /// The type name as bytes.
    pub fn name_bytes(&self) -> (r: Vec<u8>)
        ensures
            r@ == self.spec_name(),
    {
        let mut v: Vec<u8> = Vec::new();
        match self {
            ObjectType::Blob => {
                v.push(98);
                v.push(108);
                v.push(111);
                v.push(98);
            },
            ObjectType::Tree => {
                v.push(116);
                v.push(114);
                v.push(101);
                v.push(101);
            },
            ObjectType::Commit => {
                v.push(99);
                v.push(111);
                v.push(109);
                v.push(109);
                v.push(105);
                v.push(116);
            },
            ObjectType::Tag => {
                v.push(116);
                v.push(97);
                v.push(103);
            },
        }
        proof {
            assert(v@ =~= self.spec_name());
        }
        v
    }
}

/// The object kind denoted by a type-name byte string, if any.
pub open spec fn type_of_name(s: Seq<u8>) -> Option<ObjectType> {
    if s == ObjectType::Blob.spec_name() {
        Some(ObjectType::Blob)
    } else if s == ObjectType::Tree.spec_name() {
        Some(ObjectType::Tree)
    } else if s == ObjectType::Commit.spec_name() {
        Some(ObjectType::Commit)
    } else if s == ObjectType::Tag.spec_name() {
        Some(ObjectType::Tag)
    } else {
        None
    }
}

/// The framed payload for a type name and raw content.
pub open spec fn frame(tn: Seq<u8>, content: Seq<u8>) -> Seq<u8> {
    tn + seq![32u8] + dec_digits(content.len()) + seq![0u8] + content
}

/// The object id under content addressing: the digest of the framed
/// payload.
pub open spec fn oid_of(t: ObjectType, content: Seq<u8>) -> Seq<u8> {
    digest_of(frame(t.spec_name(), content))
}

/// Parses a framed payload: type name up to the first space, then the
/// canonical decimal length up to the first NUL, which must equal the
/// exact byte count of the remaining content.
pub open spec fn parse_frame(s: Seq<u8>) -> Option<(ObjectType, Seq<u8>)> {
    match spec_find_byte(s, 0, 32) {
        None => None,
        Some(i) => match type_of_name(s.subrange(0, i)) {
            None => None,
            Some(t) => match spec_find_byte(s, i + 1, 0) {
                None => None,
                Some(j) => {
                    let digits = s.subrange(i + 1, j);
                    let content = s.subrange(j + 1, s.len() as int);
                    if digits == dec_digits(content.len()) {
                        Some((t, content))
                    } else {
                        None
                    }
                },
            },
        },
    }
}

/// Framing is lossless: parsing the frame of any typed content gives
/// the type and content back.
pub proof fn lemma_parse_frame_of_frame(t: ObjectType, content: Seq<u8>)
    ensures
        parse_frame(frame(t.spec_name(), content)) == Some((t, content)),
{
    let tn = t.spec_name();
    let s = frame(tn, content);
    let digits = dec_digits(content.len());
    let n = tn.len() as int;
    let j = n + 1 + digits.len() as int;
    lemma_dec_digits(content.len());
    assert(s[n] == 32);
    assert forall|k: int| 0 <= k < n implies s[k] != 32 by {
        assert(s[k] == tn[k]);
    }
    lemma_find_byte_first(s, 0, 32, n);
    assert(s.subrange(0, n) =~= tn);
    assert(s[j] == 0);
    assert forall|k: int| n + 1 <= k < j implies s[k] != 0 by {
        assert(s[k] == digits[k - (n + 1)]);
        assert(is_dec_digit(digits[k - (n + 1)]));
    }
    lemma_find_byte_first(s, n + 1, 0, j);
    assert(s.subrange(n + 1, j) =~= digits);
    assert(s.subrange(j + 1, s.len() as int) =~= content);
}

/// A typed payload as read back from the store.
#[derive(Debug)]
pub struct Object {
    pub object_type: ObjectType,
    pub content: Vec<u8>,
}

/// Builds the framed payload for a typed content.
pub fn build_frame(t: ObjectType, content: &Vec<u8>) -> (r: Vec<u8>)
    ensures
        r@ == frame(t.spec_name(), content@),
{
    let mut r = t.name_bytes();
    r.push(32);
    let digits = u64_to_dec(content.len() as u64);
    crate::util::append_bytes(&mut r, &digits);
    r.push(0);
    crate::util::append_bytes(&mut r, content);
    proof {
        assert(r@ =~= frame(t.spec_name(), content@));
    }
    r
}

/// Decides which object kind a name denotes.
pub fn type_from_name(name: &Vec<u8>) -> (r: Option<ObjectType>)
    ensures
        r == type_of_name(name@),
{
    let blob = ObjectType::Blob.name_bytes();
    if bytes_eq(name, &blob) {
        return Some(ObjectType::Blob);
    }
    let tree = ObjectType::Tree.name_bytes();
    if bytes_eq(name, &tree) {
        return Some(ObjectType::Tree);
    }
    let commit = ObjectType::Commit.name_bytes();
    if bytes_eq(name, &commit) {
        return Some(ObjectType::Commit);
    }
    let tag = ObjectType::Tag.name_bytes();
    if bytes_eq(name, &tag) {
        return Some(ObjectType::Tag);
    }
    None
}

/// Parses a framed payload, failing on any malformation.
pub fn parse_object(data: &Vec<u8>) -> (r: Result<Object, GitError>)
    ensures
        match parse_frame(data@) {
            Some(p) => r matches Ok(o) && o.object_type == p.0 && o.content@ == p.1,
            None => r == Err::<Object, GitError>(GitError::Corrupt),
        },
{
    let dlen = data.len();
    let i = match find_byte(data, 0, 32) {
        Some(i) => i,
        None => {
            return Err(GitError::Corrupt);
        },
    };
    let name = subvec(data, 0, i);
    let t = match type_from_name(&name) {
        Some(t) => t,
        None => {
            return Err(GitError::Corrupt);
        },
    };
    let j = match find_byte(data, i + 1, 0) {
        Some(j) => j,
        None => {
            return Err(GitError::Corrupt);
        },
    };
    let digits = subvec(data, i + 1, j);
    let content = subvec(data, j + 1, dlen);
    let expected = u64_to_dec(content.len() as u64);
    if bytes_eq(&digits, &expected) {
        Ok(Object { object_type: t, content })
    } else {
        Err(GitError::Corrupt)
    }
}

} // verus!
