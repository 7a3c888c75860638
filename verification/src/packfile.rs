//! The pack container: `"PACK"` + version + object count, a sequence
//! of entries each headed by a type+size varint, delta entries
//! reconstructed against base objects, and a trailing digest over the
//! whole preceding file.

use vstd::prelude::*;

use crate::digest::digest_of;
use crate::digest::sha1_digest;
use crate::object::oid_of;
use crate::object::parse_frame;
use crate::object::ObjectType;
use crate::store::put_model;
use crate::store::store_extends;
use crate::store::ObjectStore;
use crate::util::bytes_eq;
use crate::util::subvec;
use crate::zlib::inflate_of;
use crate::zlib::lemma_stream_end_none;
use crate::zlib::lemma_stream_end_unique;
use crate::zlib::zlib_decompress_from;
use crate::zlib::zlib_stream_end;
use crate::GitError;

verus! {

/// How many bytes a continuation varint starting at `i` occupies: each
/// byte with its high bit set announces another.
pub open spec fn varint_len(s: Seq<u8>, i: int) -> Option<int>
    decreases s.len() - i when 0 <= i <= s.len()
{
    if i >= s.len() {
        None
    } else if s[i] < 128 {
        Some(1)
    } else {
        match varint_len(s, i + 1) {
            None => None,
            Some(n) => Some(n + 1),
        }
    }
}

/// The value of 7-bit groups accumulated least-significant-group
/// first, starting at `i`.
pub open spec fn size7_value(s: Seq<u8>, i: int) -> int
    decreases s.len() - i when 0 <= i <= s.len()
{
    if i >= s.len() {
        0
    } else if s[i] < 128 {
        s[i] as int
    } else {
        (s[i] - 128) + 128 * size7_value(s, i + 1)
    }
}

/// The object type tag carried in bits 6-4 of an entry's first header
/// byte.
pub open spec fn entry_header_type(s: Seq<u8>, i: int) -> int {
    ((s[i] / 16) % 8) as int
}

/// The uncompressed size carried by an entry header: the low 4 bits of
/// the first byte, then 7 bits per continuation byte, least
/// significant first.
pub open spec fn entry_header_size(s: Seq<u8>, i: int) -> int {
    if s[i] < 128 {
        (s[i] % 16) as int
    } else {
        (s[i] % 16) + 16 * size7_value(s, i + 1)
    }
}

/// How many bytes an entry header starting at `i` occupies.
pub open spec fn entry_header_len(s: Seq<u8>, i: int) -> Option<int> {
    if i >= s.len() {
        None
    } else if s[i] < 128 {
        Some(1)
    } else {
        match varint_len(s, i + 1) {
            None => None,
            Some(n) => Some(n + 1),
        }
    }
}

/// Reads a plain 7-bit-group varint. Fails exactly when the varint
/// runs off the end of the data or its value does not fit a u64.
pub fn read_size7(data: &Vec<u8>, pos: usize) -> (r: Option<(u64, usize)>)
    requires
        pos <= data@.len(),
    ensures
        match r {
            Some(p) => {
                &&& varint_len(data@, pos as int) == Some(p.1 as int)
                &&& size7_value(data@, pos as int) == p.0 as int
                &&& 1 <= p.1
                &&& pos + p.1 <= data@.len()
            },
            None => varint_len(data@, pos as int) is None || size7_value(data@, pos as int)
                > u64::MAX,
        },
    decreases data@.len() - pos,
{
    if pos >= data.len() {
        return None;
    }
    let b = data[pos];
    if b < 128 {
        return Some((b as u64, 1));
    }
    match read_size7(data, pos + 1) {
        None => {
            proof {
                let rest = size7_value(data@, pos + 1);
                if varint_len(data@, pos + 1) is Some {
                    assert(rest > u64::MAX);
                    assert((b - 128) + 128 * rest > u64::MAX) by (nonlinear_arith)
                        requires
                            rest > u64::MAX,
                            b >= 128,
                    ;
                }
            }
            None
        },
        Some(p) => {
            let (rest, n) = p;
            let low = (b - 128) as u64;
            if rest > (u64::MAX - low) / 128 {
                proof {
                    assert(low + 128 * rest > u64::MAX) by (nonlinear_arith)
                        requires
                            rest > (u64::MAX - low) / 128,
                            0 <= low < 128,
                    ;
                }
                return None;
            }
            proof {
                assert(low + 128 * rest <= u64::MAX) by (nonlinear_arith)
                    requires
                        rest <= (u64::MAX - low) / 128,
                        0 <= low < 128,
                        rest >= 0,
                ;
            }
            Some((low + 128 * rest, n + 1))
        },
    }
}

/// Reads an entry's type+size header. Fails exactly when the header
/// runs off the end or the size does not fit a u64.
pub fn read_entry_header(data: &Vec<u8>, pos: usize) -> (r: Option<(u8, u64, usize)>)
    requires
        pos <= data@.len(),
    ensures
        match r {
            Some(p) => {
                &&& entry_header_len(data@, pos as int) == Some(p.2 as int)
                &&& p.0 as int == entry_header_type(data@, pos as int)
                &&& p.1 as int == entry_header_size(data@, pos as int)
                &&& 1 <= p.2
                &&& pos + p.2 <= data@.len()
            },
            None => entry_header_len(data@, pos as int) is None || entry_header_size(
                data@,
                pos as int,
            ) > u64::MAX,
        },
{
    if pos >= data.len() {
        return None;
    }
    let b = data[pos];
    let t = (b / 16) % 8;
    let low = (b % 16) as u64;
    if b < 128 {
        return Some((t, low, 1));
    }
    match read_size7(data, pos + 1) {
        None => {
            proof {
                let rest = size7_value(data@, pos + 1);
                if varint_len(data@, pos + 1) is Some {
                    assert(rest > u64::MAX);
                    assert((b % 16) + 16 * rest > u64::MAX) by (nonlinear_arith)
                        requires
                            rest > u64::MAX,
                    ;
                }
            }
            None
        },
        Some(p) => {
            let (rest, n) = p;
            if rest > (u64::MAX - low) / 16 {
                proof {
                    assert(low + 16 * rest > u64::MAX) by (nonlinear_arith)
                        requires
                            rest > (u64::MAX - low) / 16,
                            0 <= low < 16,
                    ;
                }
                return None;
            }
            proof {
                assert(low + 16 * rest <= u64::MAX) by (nonlinear_arith)
                    requires
                        rest <= (u64::MAX - low) / 16,
                        0 <= low < 16,
                        rest >= 0,
                ;
            }
            Some((t, low + 16 * rest, n + 1))
        },
    }
}

/// The parameters of a copy instruction whose opcode sits at `i`:
/// bits 0-3 of the opcode select which little-endian offset bytes
/// follow, bits 4-6 which size bytes; absent bytes are zero, and a
/// zero size means 65536. Yields (offset, size, bytes used).
pub open spec fn copy_params(d: Seq<u8>, i: int) -> Option<(int, int, int)> {
    let op = d[i] as int;
    let b0 = (op / 1) % 2;
    let b1 = (op / 2) % 2;
    let b2 = (op / 4) % 2;
    let b3 = (op / 8) % 2;
    let b4 = (op / 16) % 2;
    let b5 = (op / 32) % 2;
    let b6 = (op / 64) % 2;
    let used = 1 + b0 + b1 + b2 + b3 + b4 + b5 + b6;
    if i + used <= d.len() {
        let p1 = i + 1;
        let off0 = if b0 == 1 { d[p1] as int } else { 0 };
        let p2 = p1 + b0;
        let off1 = if b1 == 1 { d[p2] as int } else { 0 };
        let p3 = p2 + b1;
        let off2 = if b2 == 1 { d[p3] as int } else { 0 };
        let p4 = p3 + b2;
        let off3 = if b3 == 1 { d[p4] as int } else { 0 };
        let p5 = p4 + b3;
        let sz0 = if b4 == 1 { d[p5] as int } else { 0 };
        let p6 = p5 + b4;
        let sz1 = if b5 == 1 { d[p6] as int } else { 0 };
        let p7 = p6 + b5;
        let sz2 = if b6 == 1 { d[p7] as int } else { 0 };
        let off = off0 + 256 * off1 + 65536 * off2 + 16777216 * off3;
        let szr = sz0 + 256 * sz1 + 65536 * sz2;
        let sz = if szr == 0 { 65536 } else { szr };
        Some((off, sz, used))
    } else {
        None
    }
}

/// Applies the instruction stream of `d` from `i` on, having already
/// produced `acc`: a copy takes bytes from the base, an insert takes
/// the literal bytes that follow the opcode, and at the end the output
/// must have exactly the declared length.
pub open spec fn apply_delta_ops(
    base: Seq<u8>,
    d: Seq<u8>,
    i: int,
    declared: int,
    acc: Seq<u8>,
) -> Option<Seq<u8>>
    decreases d.len() - i when 0 <= i <= d.len()
{
    if i == d.len() {
        if acc.len() == declared {
            Some(acc)
        } else {
            None
        }
    } else {
        let op = d[i];
        if op == 0 {
            None
        } else if op < 128 {
            if i + 1 + op <= d.len() {
                apply_delta_ops(base, d, i + 1 + op, declared, acc + d.subrange(i + 1, i + 1 + op))
            } else {
                None
            }
        } else {
            match copy_params(d, i) {
                None => None,
                Some(cp) => {
                    if cp.0 + cp.1 <= base.len() && 1 <= cp.2 && i + cp.2 <= d.len() {
                        apply_delta_ops(
                            base,
                            d,
                            i + cp.2,
                            declared,
                            acc + base.subrange(cp.0, cp.0 + cp.1),
                        )
                    } else {
                        None
                    }
                },
            }
        }
    }
}

/// What a whole delta stream reconstructs from a base: the two leading
/// size varints (the first must equal the base length, the second must
/// fit the machine), then the instructions, whose output must match
/// the declared reconstructed size exactly.
pub open spec fn delta_result(base: Seq<u8>, d: Seq<u8>) -> Option<Seq<u8>> {
    match varint_len(d, 0) {
        None => None,
        Some(n1) => {
            if size7_value(d, 0) != base.len() {
                None
            } else {
                match varint_len(d, n1) {
                    None => None,
                    Some(n2) => {
                        let rsize = size7_value(d, n1);
                        if rsize > u64::MAX {
                            None
                        } else {
                            apply_delta_ops(base, d, n1 + n2, rsize, Seq::empty())
                        }
                    },
                }
            }
        },
    }
}

/// Reads a copy instruction's parameters.
#[verifier::rlimit(100)]
fn read_copy_params(d: &Vec<u8>, pos: usize) -> (r: Option<(u64, u64, usize)>)
    requires
        pos < d@.len(),
    ensures
        match copy_params(d@, pos as int) {
            Some(p) => r matches Some(q) && q.0 as int == p.0 && q.1 as int == p.1 && q.2 as int
                == p.2 && pos + q.2 <= d@.len() && 1 <= q.2,
            None => r is None,
        },
{
    let op = d[pos];
    let b0: usize = ((op / 1) % 2) as usize;
    let b1: usize = ((op / 2) % 2) as usize;
    let b2: usize = ((op / 4) % 2) as usize;
    let b3: usize = ((op / 8) % 2) as usize;
    let b4: usize = ((op / 16) % 2) as usize;
    let b5: usize = ((op / 32) % 2) as usize;
    let b6: usize = ((op / 64) % 2) as usize;
    let used = 1 + b0 + b1 + b2 + b3 + b4 + b5 + b6;
    let dlen = d.len();
    if used > dlen - pos {
        return None;
    }
    let p1 = pos + 1;
    let off0: u64 = if b0 == 1 {
        d[p1] as u64
    } else {
        0
    };
    let p2 = p1 + b0;
    let off1: u64 = if b1 == 1 {
        d[p2] as u64
    } else {
        0
    };
    let p3 = p2 + b1;
    let off2: u64 = if b2 == 1 {
        d[p3] as u64
    } else {
        0
    };
    let p4 = p3 + b2;
    let off3: u64 = if b3 == 1 {
        d[p4] as u64
    } else {
        0
    };
    let p5 = p4 + b3;
    let sz0: u64 = if b4 == 1 {
        d[p5] as u64
    } else {
        0
    };
    let p6 = p5 + b4;
    let sz1: u64 = if b5 == 1 {
        d[p6] as u64
    } else {
        0
    };
    let p7 = p6 + b5;
    let sz2: u64 = if b6 == 1 {
        d[p7] as u64
    } else {
        0
    };
    let off = off0 + 256 * off1 + 65536 * off2 + 16777216 * off3;
    let szr = sz0 + 256 * sz1 + 65536 * sz2;
    let sz: u64 = if szr == 0 {
        65536
    } else {
        szr
    };
    Some((off, sz, used))
}

/// Reconstructs content from a base object and a decompressed delta
/// instruction stream, rejecting exactly what the stream's own rules
/// reject: a bad base size, an out-of-range copy, a truncated insert,
/// or a final length that differs from the declared one.
pub fn apply_delta(base: &Vec<u8>, delta: &Vec<u8>) -> (r: Result<Vec<u8>, GitError>)
    ensures
        match delta_result(base@, delta@) {
            Some(out) => r matches Ok(v) && v@ == out,
            None => r == Err::<Vec<u8>, GitError>(GitError::Corrupt),
        },
{
    let dlen = delta.len();
    let blen = base.len();
    let (bsize, n1) = match read_size7(delta, 0) {
        Some(p) => p,
        None => {
            proof {
                assert(delta_result(base@, delta@) is None);
            }
            return Err(GitError::Corrupt);
        },
    };
    if bsize != blen as u64 {
        proof {
            assert(size7_value(delta@, 0) != base@.len());
            assert(delta_result(base@, delta@) is None);
        }
        return Err(GitError::Corrupt);
    }
    let (rsize, n2) = match read_size7(delta, n1) {
        Some(p) => p,
        None => {
            proof {
                assert(delta_result(base@, delta@) is None);
            }
            return Err(GitError::Corrupt);
        },
    };
    let mut out: Vec<u8> = Vec::new();
    let mut pos: usize = n1 + n2;
    let ghost target = apply_delta_ops(base@, delta@, pos as int, rsize as int, Seq::empty());
    proof {
        assert(out@ =~= Seq::<u8>::empty());
        assert(delta_result(base@, delta@) == target);
    }
    while pos < dlen
        invariant
            pos <= dlen,
            dlen == delta@.len(),
            delta_result(base@, delta@) == target,
            apply_delta_ops(base@, delta@, pos as int, rsize as int, out@) == target,
        decreases dlen - pos,
    {
        let op = delta[pos];
        if op == 0 {
            proof {
                assert(target is None);
            }
            return Err(GitError::Corrupt);
        } else if op < 128 {
            let n = op as usize;
            if n > dlen - (pos + 1) {
                proof {
                    assert(target is None);
                }
                return Err(GitError::Corrupt);
            }
            let piece = subvec(delta, pos + 1, pos + 1 + n);
            crate::util::append_bytes(&mut out, &piece);
            pos = pos + 1 + n;
        } else {
            let (off, sz, used) = match read_copy_params(delta, pos) {
                Some(q) => q,
                None => {
                    return Err(GitError::Corrupt);
                },
            };
            if off + sz > base.len() as u64 {
                return Err(GitError::Corrupt);
            }
            let start = off as usize;
            let end = (off + sz) as usize;
            let piece = subvec(base, start, end);
            crate::util::append_bytes(&mut out, &piece);
            pos = pos + used;
        }
    }
    if out.len() as u64 == rsize {
        Ok(out)
    } else {
        Err(GitError::Corrupt)
    }
}

/// Continues an offset-delta varint whose byte at `i` contributed
/// `acc`: while the high bit is set, the next byte adds 7 more bits,
/// the accumulated prefix incremented first. Yields (value, end).
pub open spec fn ofs_cont(s: Seq<u8>, i: int, acc: int) -> Option<(int, int)>
    decreases s.len() - i when 0 <= i < s.len()
{
    if s[i] < 128 {
        Some((acc, i + 1))
    } else if i + 1 < s.len() {
        ofs_cont(s, i + 1, (acc + 1) * 128 + (s[i + 1] % 128))
    } else {
        None
    }
}

/// The backward byte offset an offset-delta names, starting at `i`,
/// and the position just past it.
pub open spec fn ofs_delta_value(s: Seq<u8>, i: int) -> Option<(int, int)> {
    if 0 <= i < s.len() {
        ofs_cont(s, i, (s[i] % 128) as int)
    } else {
        None
    }
}

/// The decoded value never falls below the accumulator it starts
/// from.
proof fn lemma_ofs_cont_ge(s: Seq<u8>, i: int, acc: int)
    requires
        0 <= i < s.len(),
        acc >= 0,
    ensures
        match ofs_cont(s, i, acc) {
            Some(p) => p.0 >= acc,
            None => true,
        },
    decreases s.len() - i,
{
    if s[i] >= 128 && i + 1 < s.len() {
        let acc2 = (acc + 1) * 128 + (s[i + 1] % 128);
        assert(acc2 >= acc + 1) by (nonlinear_arith)
            requires
                acc >= 0,
                acc2 == (acc + 1) * 128 + (s[i + 1] % 128),
        ;
        lemma_ofs_cont_ge(s, i + 1, acc2);
    }
}

fn read_ofs_cont(data: &Vec<u8>, i: usize, acc: u64) -> (r: Option<(u64, usize)>)
    requires
        i < data@.len(),
    ensures
        match r {
            Some(p) => ofs_cont(data@, i as int, acc as int) == Some((p.0 as int, p.1 as int)) && i
                < p.1 <= data@.len(),
            None => ofs_cont(data@, i as int, acc as int) is None || (ofs_cont(
                data@,
                i as int,
                acc as int,
            ) matches Some(p) && p.0 > u64::MAX),
        },
    decreases data@.len() - i,
{
    let dlen = data.len();
    let b = data[i];
    if b < 128 {
        return Some((acc, i + 1));
    }
    if i + 1 >= dlen {
        return None;
    }
    let x = (data[i + 1] % 128) as u64;
    if acc > (u64::MAX - x - 128) / 128 {
        proof {
            let acc2 = (acc + 1) * 128 + (x as int);
            assert(acc2 > u64::MAX) by (nonlinear_arith)
                requires
                    acc > (u64::MAX - x - 128) / 128,
                    0 <= x < 128,
                    acc2 == (acc + 1) * 128 + (x as int),
                    acc >= 0,
            ;
            lemma_ofs_cont_ge(data@, i + 1, acc2);
        }
        return None;
    }
    proof {
        assert((acc + 1) * 128 + x <= u64::MAX) by (nonlinear_arith)
            requires
                acc <= (u64::MAX - x - 128) / 128,
                0 <= x < 128,
        ;
    }
    read_ofs_cont(data, i + 1, (acc + 1) * 128 + x)
}

/// Reads the backward offset of an offset-delta entry.
fn read_ofs_varint(data: &Vec<u8>, pos: usize) -> (r: Option<(u64, usize)>)
    requires
        pos <= data@.len(),
    ensures
        match r {
            Some(p) => ofs_delta_value(data@, pos as int) == Some((p.0 as int, p.1 as int)) && pos
                < p.1 <= data@.len(),
            None => ofs_delta_value(data@, pos as int) is None || (ofs_delta_value(
                data@,
                pos as int,
            ) matches Some(p) && p.0 > u64::MAX),
        },
{
    if pos >= data.len() {
        return None;
    }
    let acc = (data[pos] % 128) as u64;
    read_ofs_cont(data, pos, acc)
}

/// The big-endian 32-bit value at offset `i`.
pub open spec fn be32(s: Seq<u8>, i: int) -> int {
    16777216 * (s[i] as int) + 65536 * (s[i + 1] as int) + 256 * (s[i + 2] as int) + (s[i
        + 3] as int)
}

/// Reads a big-endian 32-bit value.
fn read_be32(data: &Vec<u8>, i: usize) -> (r: u32)
    requires
        i + 4 <= data@.len(),
    ensures
        r as int == be32(data@, i as int),
{
    let n = data.len();
    proof {
        assert(i + 4 <= n);
    }
    (data[i] as u32) * 16777216 + (data[i + 1] as u32) * 65536 + (data[i + 2] as u32) * 256 + (
    data[i + 3] as u32)
}

/// A well-formed container: the 4-byte signature, a 12-byte header,
/// and room for the 20-byte trailing digest.
pub open spec fn pack_magic_ok(s: Seq<u8>) -> bool {
    s.len() >= 32 && s.subrange(0, 4) == seq![80u8, 65u8, 67u8, 75u8]
}

/// The trailing 20 bytes equal the digest of every preceding byte.
pub open spec fn checksum_ok(s: Seq<u8>) -> bool {
    s.subrange(s.len() - 20, s.len() as int) == digest_of(s.subrange(0, s.len() - 20))
}

/// The object kind a pack entry type tag denotes, if it is a stored
/// (non-delta) kind.
pub open spec fn spec_tag_type(tag: u8) -> Option<ObjectType> {
    if tag == 1 {
        Some(ObjectType::Commit)
    } else if tag == 2 {
        Some(ObjectType::Tree)
    } else if tag == 3 {
        Some(ObjectType::Blob)
    } else if tag == 4 {
        Some(ObjectType::Tag)
    } else {
        None
    }
}

fn tag_to_type(tag: u8) -> (r: Option<ObjectType>)
    ensures
        r == spec_tag_type(tag),
{
    if tag == 1 {
        Some(ObjectType::Commit)
    } else if tag == 2 {
        Some(ObjectType::Tree)
    } else if tag == 3 {
        Some(ObjectType::Blob)
    } else if tag == 4 {
        Some(ObjectType::Tag)
    } else {
        None
    }
}

/// One decoded entry of a pack, abstractly: where its header started,
/// its resolved (never delta) object kind, and its reconstructed raw
/// content.
pub struct PackEntryModel {
    pub pos: int,
    pub otype: ObjectType,
    pub content: Seq<u8>,
}

/// How a pack decode ended.
pub enum PackStatus {
    /// Every declared entry was decoded and stored.
    Decoded,
    /// A malformed header, body, offset or delta stream was hit.
    Corrupt,
    /// A ref-delta named a base that was nowhere to be found.
    MissingBase,
}

/// What a pack decode leaves behind: how it ended, the entries decoded
/// before that point, and the store as their writes left it — objects
/// already stored are never rolled back.
pub struct PackOutcome {
    pub status: PackStatus,
    pub entries: Seq<PackEntryModel>,
    pub store: Map<Seq<u8>, Seq<u8>>,
}

/// The first already-decoded entry whose header started at `p`.
pub open spec fn find_entry(s: Seq<PackEntryModel>, p: int) -> Option<PackEntryModel>
    decreases s.len(),
{
    if s.len() == 0 {
        None
    } else if s[0].pos == p {
        Some(s[0])
    } else {
        find_entry(s.drop_first(), p)
    }
}

proof fn lemma_find_entry_at(s: Seq<PackEntryModel>, p: int, i: int)
    requires
        0 <= i < s.len(),
        s[i].pos == p,
        forall|j: int| 0 <= j < i ==> s[j].pos != p,
    ensures
        find_entry(s, p) == Some(s[i]),
    decreases i,
{
    if i > 0 {
        assert forall|j: int| 0 <= j < i - 1 implies s.drop_first()[j].pos != p by {
            assert(s.drop_first()[j] == s[j + 1]);
        }
        assert(s.drop_first()[i - 1] == s[i]);
        lemma_find_entry_at(s.drop_first(), p, i - 1);
    }
}

proof fn lemma_find_entry_none(s: Seq<PackEntryModel>, p: int)
    requires
        forall|j: int| 0 <= j < s.len() ==> s[j].pos != p,
    ensures
        find_entry(s, p) is None,
    decreases s.len(),
{
    if s.len() > 0 {
        assert forall|j: int| 0 <= j < s.drop_first().len() implies s.drop_first()[j].pos != p by {
            assert(s.drop_first()[j] == s[j + 1]);
        }
        lemma_find_entry_none(s.drop_first(), p);
    }
}

/// Decodes `k` entries of `data` starting at `pos`, against the store
/// `m` and the entries `acc` already decoded from this pack. Each
/// entry is a type+size header and a zlib body; an offset-delta
/// resolves its base among the earlier entries of this same pack, by
/// the position its header started at; a ref-delta resolves its 20-byte
/// base id in the store, where earlier entries of this pack already
/// sit. A reconstructed object takes the kind of its base, so delta
/// chains bottom out at a stored, non-delta kind. Every decoded entry
/// is stored at once under the digest of its framed payload, and stays
/// stored whatever happens later. Sizes beyond the machine's integers
/// are rejected as corrupt.
pub open spec fn decode_entries(
    data: Seq<u8>,
    m: Map<Seq<u8>, Seq<u8>>,
    pos: int,
    k: nat,
    acc: Seq<PackEntryModel>,
) -> PackOutcome
    decreases k,
{
    if k == 0 {
        PackOutcome { status: PackStatus::Decoded, entries: acc, store: m }
    } else if entry_header_len(data, pos) is None || entry_header_size(data, pos) > u64::MAX {
        PackOutcome { status: PackStatus::Corrupt, entries: acc, store: m }
    } else {
        let hlen = entry_header_len(data, pos)->Some_0;
        let tag = entry_header_type(data, pos);
        let size = entry_header_size(data, pos);
        let body = pos + hlen;
        if tag == 1 || tag == 2 || tag == 3 || tag == 4 {
            match zlib_stream_end(data, body) {
                None => PackOutcome { status: PackStatus::Corrupt, entries: acc, store: m },
                Some(e) => {
                    let content = inflate_of(data.subrange(body, e))->Some_0;
                    let t = spec_tag_type(tag as u8)->Some_0;
                    if content.len() != size {
                        PackOutcome { status: PackStatus::Corrupt, entries: acc, store: m }
                    } else {
                        decode_entries(
                            data,
                            put_model(m, t, content),
                            e,
                            (k - 1) as nat,
                            acc.push(PackEntryModel { pos, otype: t, content }),
                        )
                    }
                },
            }
        } else if tag == 6 {
            match ofs_delta_value(data, body) {
                None => PackOutcome { status: PackStatus::Corrupt, entries: acc, store: m },
                Some(ov) => {
                    if ov.0 > u64::MAX || ov.0 == 0 || ov.0 > pos {
                        PackOutcome { status: PackStatus::Corrupt, entries: acc, store: m }
                    } else {
                        match find_entry(acc, pos - ov.0) {
                            None => PackOutcome {
                                status: PackStatus::Corrupt,
                                entries: acc,
                                store: m,
                            },
                            Some(b) => match zlib_stream_end(data, ov.1) {
                                None => PackOutcome {
                                    status: PackStatus::Corrupt,
                                    entries: acc,
                                    store: m,
                                },
                                Some(e) => {
                                    let dz = inflate_of(data.subrange(ov.1, e))->Some_0;
                                    if dz.len() != size {
                                        PackOutcome {
                                            status: PackStatus::Corrupt,
                                            entries: acc,
                                            store: m,
                                        }
                                    } else {
                                        match delta_result(b.content, dz) {
                                            None => PackOutcome {
                                                status: PackStatus::Corrupt,
                                                entries: acc,
                                                store: m,
                                            },
                                            Some(out) => decode_entries(
                                                data,
                                                put_model(m, b.otype, out),
                                                e,
                                                (k - 1) as nat,
                                                acc.push(
                                                    PackEntryModel {
                                                        pos,
                                                        otype: b.otype,
                                                        content: out,
                                                    },
                                                ),
                                            ),
                                        }
                                    }
                                },
                            },
                        }
                    }
                },
            }
        } else if tag == 7 {
            if body + 20 > data.len() {
                PackOutcome { status: PackStatus::Corrupt, entries: acc, store: m }
            } else {
                let base_id = data.subrange(body, body + 20);
                if !m.dom().contains(base_id) {
                    PackOutcome { status: PackStatus::MissingBase, entries: acc, store: m }
                } else {
                    match parse_frame(m[base_id]) {
                        None => PackOutcome {
                            status: PackStatus::Corrupt,
                            entries: acc,
                            store: m,
                        },
                        Some(bp) => match zlib_stream_end(data, body + 20) {
                            None => PackOutcome {
                                status: PackStatus::Corrupt,
                                entries: acc,
                                store: m,
                            },
                            Some(e) => {
                                let dz = inflate_of(data.subrange(body + 20, e))->Some_0;
                                if dz.len() != size {
                                    PackOutcome {
                                        status: PackStatus::Corrupt,
                                        entries: acc,
                                        store: m,
                                    }
                                } else {
                                    match delta_result(bp.1, dz) {
                                        None => PackOutcome {
                                            status: PackStatus::Corrupt,
                                            entries: acc,
                                            store: m,
                                        },
                                        Some(out) => decode_entries(
                                            data,
                                            put_model(m, bp.0, out),
                                            e,
                                            (k - 1) as nat,
                                            acc.push(
                                                PackEntryModel { pos, otype: bp.0, content: out },
                                            ),
                                        ),
                                    }
                                }
                            },
                        },
                    }
                }
            }
        } else {
            PackOutcome { status: PackStatus::Corrupt, entries: acc, store: m }
        }
    }
}

/// What decoding a whole pack container against a store leaves: its
/// declared number of entries decoded from byte 12 on.
pub open spec fn pack_decode(data: Seq<u8>, m: Map<Seq<u8>, Seq<u8>>) -> PackOutcome {
    decode_entries(data, m, 12, be32(data, 8) as nat, Seq::empty())
}

proof fn lemma_decode_entries_stored(
    data: Seq<u8>,
    m: Map<Seq<u8>, Seq<u8>>,
    pos: int,
    k: nat,
    acc: Seq<PackEntryModel>,
)
    requires
        forall|j: int|
            0 <= j < acc.len() ==> m.dom().contains(
                oid_of((#[trigger] acc[j]).otype, acc[j].content),
            ),
    ensures
        ({
            let out = decode_entries(data, m, pos, k, acc);
            forall|j: int|
                0 <= j < out.entries.len() ==> out.store.dom().contains(
                    oid_of((#[trigger] out.entries[j]).otype, out.entries[j].content),
                )
        }),
    decreases k, 1int,
{
    if k == 0 || entry_header_len(data, pos) is None || entry_header_size(data, pos) > u64::MAX {
    } else {
        let hlen = entry_header_len(data, pos)->Some_0;
        let tag = entry_header_type(data, pos);
        let size = entry_header_size(data, pos);
        let body = pos + hlen;
        if tag == 1 || tag == 2 || tag == 3 || tag == 4 {
            match zlib_stream_end(data, body) {
                None => {},
                Some(e) => {
                    let content = inflate_of(data.subrange(body, e))->Some_0;
                    let t = spec_tag_type(tag as u8)->Some_0;
                    if content.len() == size {
                        lemma_decode_one_step(data, m, pos, k, acc, t, content, e);
                    }
                },
            }
        } else if tag == 6 {
            match ofs_delta_value(data, body) {
                None => {},
                Some(ov) => {
                    if !(ov.0 > u64::MAX || ov.0 == 0 || ov.0 > pos) {
                        match find_entry(acc, pos - ov.0) {
                            None => {},
                            Some(b) => match zlib_stream_end(data, ov.1) {
                                None => {},
                                Some(e) => {
                                    let dz = inflate_of(data.subrange(ov.1, e))->Some_0;
                                    if dz.len() == size {
                                        match delta_result(b.content, dz) {
                                            None => {},
                                            Some(out) => {
                                                lemma_decode_one_step(
                                                    data,
                                                    m,
                                                    pos,
                                                    k,
                                                    acc,
                                                    b.otype,
                                                    out,
                                                    e,
                                                );
                                            },
                                        }
                                    }
                                },
                            },
                        }
                    }
                },
            }
        } else if tag == 7 {
            if body + 20 <= data.len() {
                let base_id = data.subrange(body, body + 20);
                if m.dom().contains(base_id) {
                    match parse_frame(m[base_id]) {
                        None => {},
                        Some(bp) => match zlib_stream_end(data, body + 20) {
                            None => {},
                            Some(e) => {
                                let dz = inflate_of(data.subrange(body + 20, e))->Some_0;
                                if dz.len() == size {
                                    match delta_result(bp.1, dz) {
                                        None => {},
                                        Some(out) => {
                                            lemma_decode_one_step(
                                                data,
                                                m,
                                                pos,
                                                k,
                                                acc,
                                                bp.0,
                                                out,
                                                e,
                                            );
                                        },
                                    }
                                }
                            },
                        },
                    }
                }
            }
        }
    }
}

/// One decoded entry: its write covers it, and preserves the coverage
/// of every earlier entry.
proof fn lemma_decode_one_step(
    data: Seq<u8>,
    m: Map<Seq<u8>, Seq<u8>>,
    pos: int,
    k: nat,
    acc: Seq<PackEntryModel>,
    t: ObjectType,
    content: Seq<u8>,
    e: int,
)
    requires
        k > 0,
        forall|j: int|
            0 <= j < acc.len() ==> m.dom().contains(
                oid_of((#[trigger] acc[j]).otype, acc[j].content),
            ),
    ensures
        ({
            let out = decode_entries(
                data,
                put_model(m, t, content),
                e,
                (k - 1) as nat,
                acc.push(PackEntryModel { pos, otype: t, content }),
            );
            forall|j: int|
                0 <= j < out.entries.len() ==> out.store.dom().contains(
                    oid_of((#[trigger] out.entries[j]).otype, out.entries[j].content),
                )
        }),
    decreases k, 0int,
{
    let m2 = put_model(m, t, content);
    let acc2 = acc.push(PackEntryModel { pos, otype: t, content });
    assert forall|j: int| 0 <= j < acc2.len() implies m2.dom().contains(
        oid_of((#[trigger] acc2[j]).otype, acc2[j].content),
    ) by {
        if j < acc.len() {
            assert(acc2[j] == acc[j]);
        } else {
            assert(acc2[j] == PackEntryModel { pos, otype: t, content });
        }
    }
    lemma_decode_entries_stored(data, m2, e, (k - 1) as nat, acc2);
}

/// Decoded objects are never rolled back: every entry a pack decode
/// produced is present, under the digest of its framed payload, in the
/// store the decode leaves behind — on success, after a checksum
/// mismatch, and after any later entry failed.
pub proof fn lemma_pack_objects_stored(data: Seq<u8>, m: Map<Seq<u8>, Seq<u8>>)
    ensures
        ({
            let out = pack_decode(data, m);
            forall|j: int|
                0 <= j < out.entries.len() ==> out.store.dom().contains(
                    oid_of((#[trigger] out.entries[j]).otype, out.entries[j].content),
                )
        }),
{
    lemma_decode_entries_stored(data, m, 12, be32(data, 8) as nat, Seq::empty());
}

/// One already-decoded entry of the pack being read: where it started,
/// its resolved (non-delta) type tag, and its reconstructed content.
struct PackRecord {
    pos: usize,
    tag: u8,
    content: Vec<u8>,
}

/// The models of the entries decoded so far.
spec fn records_model(s: Seq<PackRecord>) -> Seq<PackEntryModel> {
    s.map_values(
        |r: PackRecord|
            PackEntryModel {
                pos: r.pos as int,
                otype: spec_tag_type(r.tag)->Some_0,
                content: r.content@,
            },
    )
}

/// The position of the first record that started at `p`, if any.
fn find_record(records: &Vec<PackRecord>, p: usize) -> (r: Option<usize>)
    ensures
        match r {
            Some(i) => i < records@.len() && records@[i as int].pos == p && (forall|j: int|
                0 <= j < i ==> records@[j].pos != p),
            None => forall|j: int| 0 <= j < records@.len() ==> records@[j].pos != p,
        },
{
    let mut i: usize = 0;
    while i < records.len()
        invariant
            i <= records@.len(),
            forall|j: int| 0 <= j < i ==> records@[j].pos != p,
        decreases records@.len() - i,
    {
        if records[i].pos == p {
            return Some(i);
        }
        i += 1;
    }
    None
}

/// A validated pack container.
#[derive(Debug)]
pub struct Packfile {
    data: Vec<u8>,
    version: u32,
    object_number: u32,
}

impl Packfile {
    /// The whole container, signature through trailing digest.
    pub closed spec fn bytes(&self) -> Seq<u8> {
        self.data@
    }

    /// The version field of the header.
    pub closed spec fn spec_version(&self) -> u32 {
        self.version
    }

    /// The declared number of entries.
    pub closed spec fn spec_count(&self) -> u32 {
        self.object_number
    }

    /// The container was validated and the parsed fields match its
    /// header.
    pub closed spec fn wf(&self) -> bool {
        &&& pack_magic_ok(self.data@)
        &&& self.version as int == be32(self.data@, 4)
        &&& self.object_number as int == be32(self.data@, 8)
    }

    /// Validates the signature and length and slices the header.
    /// Fails with InvalidHeader, reading nothing further, exactly when
    /// the bytes do not begin with `"PACK"` or are shorter than the
    /// fixed header plus the trailing digest.
    pub fn new(bytes: Vec<u8>) -> (r: Result<Packfile, GitError>)
        ensures
            match r {
                Ok(p) => {
                    &&& pack_magic_ok(bytes@)
                    &&& p.wf()
                    &&& p.bytes() == bytes@
                    &&& p.spec_version() as int == be32(bytes@, 4)
                    &&& p.spec_count() as int == be32(bytes@, 8)
                },
                Err(e) => e == GitError::InvalidHeader && !pack_magic_ok(bytes@),
            },
    {
        if bytes.len() < 32 {
            return Err(GitError::InvalidHeader);
        }
        if !(bytes[0] == 80 && bytes[1] == 65 && bytes[2] == 67 && bytes[3] == 75) {
            proof {
                let magic = seq![80u8, 65u8, 67u8, 75u8];
                if bytes@.subrange(0, 4) == magic {
                    assert(bytes@.subrange(0, 4)[0] == bytes@[0]);
                    assert(bytes@.subrange(0, 4)[1] == bytes@[1]);
                    assert(bytes@.subrange(0, 4)[2] == bytes@[2]);
                    assert(bytes@.subrange(0, 4)[3] == bytes@[3]);
                }
            }
            return Err(GitError::InvalidHeader);
        }
        proof {
            assert(bytes@.subrange(0, 4) =~= seq![80u8, 65u8, 67u8, 75u8]);
        }
        let version = read_be32(&bytes, 4);
        let object_number = read_be32(&bytes, 8);
        Ok(Packfile { data: bytes, version, object_number })
    }

    /// The header's version field.
    pub fn version(&self) -> (r: u32)
        ensures
            r == self.spec_version(),
    {
        self.version
    }

    /// The header's entry count.
    pub fn object_count(&self) -> (r: u32)
        ensures
            r == self.spec_count(),
    {
        self.object_number
    }

    /// Decodes every entry into the store in stream order, resolving
    /// offset-deltas against earlier entries of this pack and
    /// ref-deltas against the store, then verifies the trailing
    /// digest: exactly what `pack_decode` says, outcome for outcome.
    /// Objects stored before a failure stay stored: the store ends
    /// exactly as the decode's writes left it, and a checksum
    /// mismatch does not unwind it.
    #[verifier::rlimit(100)]
    pub fn parse_pack(&self, store: &mut ObjectStore) -> (r: Result<u32, GitError>)
        requires
            self.wf(),
            old(store).wf(),
        ensures
            final(store).wf(),
            store_extends(final(store)@, old(store)@),
            final(store)@ == pack_decode(self.bytes(), old(store)@).store,
            (r matches Ok(n)) <==> (pack_decode(self.bytes(), old(store)@).status is Decoded
                && checksum_ok(self.bytes())),
            r matches Ok(n) ==> n == self.spec_count(),
            (r == Err::<u32, GitError>(GitError::ChecksumMismatch)) <==> (pack_decode(
                self.bytes(),
                old(store)@,
            ).status is Decoded && !checksum_ok(self.bytes())),
            (r == Err::<u32, GitError>(GitError::Corrupt)) <==> pack_decode(
                self.bytes(),
                old(store)@,
            ).status is Corrupt,
            (r == Err::<u32, GitError>(GitError::MissingBase)) <==> pack_decode(
                self.bytes(),
                old(store)@,
            ).status is MissingBase,
    {
        let dlen = self.data.len();
        let count = self.object_number;
        let mut records: Vec<PackRecord> = Vec::new();
        let mut pos: usize = 12;
        let mut k: u32 = 0;
        proof {
            assert(records_model(records@) =~= Seq::<PackEntryModel>::empty());
            assert(count as nat == be32(self.data@, 8) as nat);
        }
        while k < count
            invariant
                self.wf(),
                store.wf(),
                store_extends(store@, old(store)@),
                12 <= pos <= dlen,
                dlen == self.data@.len(),
                k <= count,
                forall|j: int| 0 <= j < records@.len() ==> 1 <= (#[trigger] records@[j]).tag <= 4,
                pack_decode(self.data@, old(store)@) == decode_entries(
                    self.data@,
                    store@,
                    pos as int,
                    (count - k) as nat,
                    records_model(records@),
                ),
            decreases count - k,
        {
            let ghost d = self.data@;
            let ghost m0 = store@;
            let ghost acc0 = records_model(records@);
            let ghost rem = (count - k) as nat;
            let entry_pos = pos;
            let ghost p0 = pos as int;
            let ghost cur = decode_entries(d, m0, p0, rem, acc0);
            let (tag, size, hused) = match read_entry_header(&self.data, pos) {
                Some(h) => h,
                None => {
                    proof {
                        assert(cur == PackOutcome {
                            status: PackStatus::Corrupt,
                            entries: acc0,
                            store: m0,
                        });
                    }
                    return Err(GitError::Corrupt);
                },
            };
            pos = pos + hused;
            let ghost body = p0 + hused;
            if tag == 1 || tag == 2 || tag == 3 || tag == 4 {
                let (content, zused) = match zlib_decompress_from(&self.data, pos) {
                    Some(p) => p,
                    None => {
                        proof {
                            lemma_stream_end_none(d, body);
                            assert(cur == PackOutcome {
                                status: PackStatus::Corrupt,
                                entries: acc0,
                                store: m0,
                            });
                        }
                        return Err(GitError::Corrupt);
                    },
                };
                proof {
                    lemma_stream_end_unique(d, body, body + zused);
                }
                if content.len() as u64 != size {
                    proof {
                        assert(cur == PackOutcome {
                            status: PackStatus::Corrupt,
                            entries: acc0,
                            store: m0,
                        });
                    }
                    return Err(GitError::Corrupt);
                }
                let t = match tag_to_type(tag) {
                    Some(t) => t,
                    None => {
                        proof {
                            assert(false);
                        }
                        return Err(GitError::Corrupt);
                    },
                };
                store.put(t, &content);
                proof {
                    assert(entry_header_type(d, p0) as u8 == tag);
                }
                records.push(PackRecord { pos: entry_pos, tag, content });
                pos = pos + zused;
                proof {
                    let e = records@.last();
                    assert(records_model(records@) =~= acc0.push(
                        PackEntryModel {
                            pos: p0,
                            otype: spec_tag_type(tag)->Some_0,
                            content: e.content@,
                        },
                    ));
                    assert(cur == decode_entries(
                        d,
                        store@,
                        pos as int,
                        (count - (k + 1)) as nat,
                        records_model(records@),
                    ));
                }
            } else if tag == 6 {
                let (off, opos) = match read_ofs_varint(&self.data, pos) {
                    Some(p) => p,
                    None => {
                        proof {
                            match ofs_delta_value(d, body) {
                                None => {},
                                Some(ov) => {
                                    assert(ov.0 > u64::MAX);
                                },
                            }
                            assert(cur == PackOutcome {
                                status: PackStatus::Corrupt,
                                entries: acc0,
                                store: m0,
                            });
                        }
                        return Err(GitError::Corrupt);
                    },
                };
                pos = opos;
                if off == 0 || off > entry_pos as u64 {
                    proof {
                        assert(cur == PackOutcome {
                            status: PackStatus::Corrupt,
                            entries: acc0,
                            store: m0,
                        });
                    }
                    return Err(GitError::Corrupt);
                }
                let base_pos = entry_pos - (off as usize);
                let ri = match find_record(&records, base_pos) {
                    Some(i) => i,
                    None => {
                        proof {
                            assert forall|j: int| 0 <= j < acc0.len() implies acc0[j].pos
                                != base_pos as int by {
                                assert(acc0[j].pos == records@[j].pos as int);
                            }
                            lemma_find_entry_none(acc0, base_pos as int);
                            assert(cur == PackOutcome {
                                status: PackStatus::Corrupt,
                                entries: acc0,
                                store: m0,
                            });
                        }
                        return Err(GitError::Corrupt);
                    },
                };
                proof {
                    assert(acc0[ri as int].pos == base_pos as int);
                    assert forall|j: int| 0 <= j < ri implies acc0[j].pos != base_pos as int by {
                        assert(acc0[j].pos == records@[j].pos as int);
                    }
                    lemma_find_entry_at(acc0, base_pos as int, ri as int);
                }
                let (dz, zused) = match zlib_decompress_from(&self.data, pos) {
                    Some(p) => p,
                    None => {
                        proof {
                            lemma_stream_end_none(d, opos as int);
                            assert(cur == PackOutcome {
                                status: PackStatus::Corrupt,
                                entries: acc0,
                                store: m0,
                            });
                        }
                        return Err(GitError::Corrupt);
                    },
                };
                proof {
                    lemma_stream_end_unique(d, opos as int, opos + zused);
                }
                if dz.len() as u64 != size {
                    proof {
                        assert(cur == PackOutcome {
                            status: PackStatus::Corrupt,
                            entries: acc0,
                            store: m0,
                        });
                    }
                    return Err(GitError::Corrupt);
                }
                let out = match apply_delta(&records[ri].content, &dz) {
                    Ok(v) => v,
                    Err(_) => {
                        proof {
                            assert(cur == PackOutcome {
                                status: PackStatus::Corrupt,
                                entries: acc0,
                                store: m0,
                            });
                        }
                        return Err(GitError::Corrupt);
                    },
                };
                let base_tag = records[ri].tag;
                let t = match tag_to_type(base_tag) {
                    Some(t) => t,
                    None => {
                        proof {
                            assert(false);
                        }
                        return Err(GitError::Corrupt);
                    },
                };
                store.put(t, &out);
                records.push(PackRecord { pos: entry_pos, tag: base_tag, content: out });
                pos = pos + zused;
                proof {
                    let e = records@.last();
                    assert(records_model(records@) =~= acc0.push(
                        PackEntryModel {
                            pos: p0,
                            otype: spec_tag_type(base_tag)->Some_0,
                            content: e.content@,
                        },
                    ));
                    assert(cur == decode_entries(
                        d,
                        store@,
                        pos as int,
                        (count - (k + 1)) as nat,
                        records_model(records@),
                    ));
                }
            } else if tag == 7 {
                if pos > dlen - 20 || dlen < 20 {
                    proof {
                        assert(cur == PackOutcome {
                            status: PackStatus::Corrupt,
                            entries: acc0,
                            store: m0,
                        });
                    }
                    return Err(GitError::Corrupt);
                }
                let base_id = subvec(&self.data, pos, pos + 20);
                pos = pos + 20;
                let base = match store.get(&base_id) {
                    Ok(o) => o,
                    Err(_) => {
                        proof {
                            assert(!m0.dom().contains(d.subrange(body, body + 20)));
                            assert(cur == PackOutcome {
                                status: PackStatus::MissingBase,
                                entries: acc0,
                                store: m0,
                            });
                        }
                        return Err(GitError::MissingBase);
                    },
                };
                let (dz, zused) = match zlib_decompress_from(&self.data, pos) {
                    Some(p) => p,
                    None => {
                        proof {
                            lemma_stream_end_none(d, body + 20);
                            assert(cur == PackOutcome {
                                status: PackStatus::Corrupt,
                                entries: acc0,
                                store: m0,
                            });
                        }
                        return Err(GitError::Corrupt);
                    },
                };
                proof {
                    lemma_stream_end_unique(d, body + 20, body + 20 + zused);
                }
                if dz.len() as u64 != size {
                    proof {
                        assert(cur == PackOutcome {
                            status: PackStatus::Corrupt,
                            entries: acc0,
                            store: m0,
                        });
                    }
                    return Err(GitError::Corrupt);
                }
                let out = match apply_delta(&base.content, &dz) {
                    Ok(v) => v,
                    Err(_) => {
                        proof {
                            assert(cur == PackOutcome {
                                status: PackStatus::Corrupt,
                                entries: acc0,
                                store: m0,
                            });
                        }
                        return Err(GitError::Corrupt);
                    },
                };
                store.put(base.object_type, &out);
                let base_tag: u8 = match base.object_type {
                    ObjectType::Commit => 1,
                    ObjectType::Tree => 2,
                    ObjectType::Blob => 3,
                    ObjectType::Tag => 4,
                };
                proof {
                    assert(spec_tag_type(base_tag) == Some(base.object_type));
                }
                records.push(PackRecord { pos: entry_pos, tag: base_tag, content: out });
                pos = pos + zused;
                proof {
                    let e = records@.last();
                    assert(records_model(records@) =~= acc0.push(
                        PackEntryModel { pos: p0, otype: base.object_type, content: e.content@ },
                    ));
                    assert(cur == decode_entries(
                        d,
                        store@,
                        pos as int,
                        (count - (k + 1)) as nat,
                        records_model(records@),
                    ));
                }
            } else {
                proof {
                    assert(cur == PackOutcome {
                        status: PackStatus::Corrupt,
                        entries: acc0,
                        store: m0,
                    });
                }
                return Err(GitError::Corrupt);
            }
            k = k + 1;
        }
        proof {
            assert(pack_decode(self.data@, old(store)@) == PackOutcome {
                status: PackStatus::Decoded,
                entries: records_model(records@),
                store: store@,
            });
        }
        let limit = dlen - 20;
        let body = subvec(&self.data, 0, limit);
        let dig = sha1_digest(&body);
        let trailer = subvec(&self.data, limit, dlen);
        if bytes_eq(&dig, &trailer) {
            Ok(count)
        } else {
            Err(GitError::ChecksumMismatch)
        }
    }
}

} // verus!
