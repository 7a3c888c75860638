//! The binary tree-entry codec: `<mode> SPACE <name> NUL <20-byte id>`
//! per entry, ordered by name as a byte string, a directory comparing
//! as if its name carried a trailing separator.

use vstd::prelude::*;

use crate::object::oid_of;
use crate::object::ObjectType;
use crate::store::store_extends;
use crate::store::ObjectStore;
use crate::util::bytes_eq;
use crate::util::copy_bytes;
use crate::util::dec_digits;
use crate::util::find_byte;
use crate::util::is_dec_digit;
use crate::util::spec_find_byte;
use crate::util::subvec;
use crate::util::u64_to_dec;
use crate::GitError;

verus! {

/// One directory entry of a tree object: a mode, a path component, and
/// the raw 20-byte id of the referenced blob or subtree.
#[derive(Debug)]
pub struct RefEntry {
    pub mode: u32,
    pub name: Vec<u8>,
    pub oid: Vec<u8>,
}

/// The mathematical shape of a tree entry.
pub struct EntryModel {
    pub mode: u32,
    pub name: Seq<u8>,
    pub oid: Seq<u8>,
}

impl View for RefEntry {
    type V = EntryModel;

    open spec fn view(&self) -> EntryModel {
        EntryModel { mode: self.mode, name: self.name@, oid: self.oid@ }
    }
}

/// The models of a sequence of entries.
pub open spec fn models(s: Seq<RefEntry>) -> Seq<EntryModel> {
    s.map_values(|e: RefEntry| e@)
}

/// The five permitted entry modes: regular file, executable file,
/// symlink, gitlink, and subdirectory.
pub open spec fn is_tree_mode(m: u32) -> bool {
    m == 100644 || m == 100755 || m == 120000 || m == 160000 || m == 40000
}

/// A usable path component: nonempty and free of NUL and separator
/// bytes.
pub open spec fn name_wf(n: Seq<u8>) -> bool {
    n.len() > 0 && forall|i: int| 0 <= i < n.len() ==> n[i] != 0 && n[i] != 47
}

/// A well-formed entry: permitted mode, usable name, and a 20-byte
/// id.
pub open spec fn wf_entry(e: EntryModel) -> bool {
    &&& is_tree_mode(e.mode)
    &&& name_wf(e.name)
    &&& e.oid.len() == 20
}

/// Byte-string order, less-or-equal.
pub open spec fn lex_le(a: Seq<u8>, b: Seq<u8>) -> bool
    decreases a.len(),
{
    if a.len() == 0 {
        true
    } else if b.len() == 0 {
        false
    } else if a[0] < b[0] {
        true
    } else if a[0] > b[0] {
        false
    } else {
        lex_le(a.drop_first(), b.drop_first())
    }
}

/// The order is total: two keys always compare one way or the other.
pub proof fn lemma_lex_total(a: Seq<u8>, b: Seq<u8>)
    ensures
        lex_le(a, b) || lex_le(b, a),
    decreases a.len(),
{
    if a.len() > 0 && b.len() > 0 && a[0] == b[0] {
        lemma_lex_total(a.drop_first(), b.drop_first());
    }
}

/// The key an entry is ordered by: its name, with a trailing separator
/// appended for a directory entry.
pub open spec fn sort_key(e: EntryModel) -> Seq<u8> {
    if e.mode == 40000 {
        e.name + seq![47u8]
    } else {
        e.name
    }
}

/// True when consecutive entries are in canonical order.
pub open spec fn entries_sorted(s: Seq<EntryModel>) -> bool {
    forall|i: int| 0 <= i < s.len() - 1 ==> lex_le(sort_key(#[trigger] s[i]), sort_key(s[i + 1]))
}

/// Compares two byte strings.
pub fn lex_le_bytes(a: &Vec<u8>, b: &Vec<u8>) -> (r: bool)
    ensures
        r == lex_le(a@, b@),
{
    let mut i: usize = 0;
    proof {
        assert(a@.skip(0) =~= a@);
        assert(b@.skip(0) =~= b@);
    }
    while i < a.len() && i < b.len()
        invariant
            i <= a.len(),
            i <= b.len(),
            lex_le(a@, b@) == lex_le(a@.skip(i as int), b@.skip(i as int)),
        decreases a.len() - i,
    {
        if a[i] < b[i] {
            return true;
        }
        if a[i] > b[i] {
            return false;
        }
        proof {
            assert(a@.skip(i as int).drop_first() =~= a@.skip(i + 1));
            assert(b@.skip(i as int).drop_first() =~= b@.skip(i + 1));
        }
        i += 1;
    }
    proof {
        assert(a@.skip(i as int).len() == 0 ==> lex_le(a@.skip(i as int), b@.skip(i as int)));
        assert(a@.skip(i as int).len() > 0 && b@.skip(i as int).len() == 0 ==> !lex_le(
            a@.skip(i as int),
            b@.skip(i as int),
        ));
    }
    i == a.len()
}

/// The ordering key of an entry, as bytes.
pub fn entry_sort_key(e: &RefEntry) -> (r: Vec<u8>)
    ensures
        r@ == sort_key(e@),
{
    let mut k = crate::util::copy_bytes(&e.name);
    if e.mode == 40000 {
        k.push(47);
        proof {
            assert(k@ =~= e.name@ + seq![47u8]);
        }
    }
    k
}

/// A fresh entry with the same model.
pub fn copy_entry(e: &RefEntry) -> (r: RefEntry)
    ensures
        r@ == e@,
{
    RefEntry {
        mode: e.mode,
        name: crate::util::copy_bytes(&e.name),
        oid: crate::util::copy_bytes(&e.oid),
    }
}

/// Where an entry lands when inserted into an ordered list: after
/// every leading entry whose key does not exceed its own.
pub open spec fn insert_pos(s: Seq<EntryModel>, e: EntryModel) -> int
    decreases s.len(),
{
    if s.len() == 0 {
        0
    } else if lex_le(sort_key(s[0]), sort_key(e)) {
        1 + insert_pos(s.drop_first(), e)
    } else {
        0
    }
}

/// An ordered list with one entry inserted at its place.
pub open spec fn insert_sorted_spec(s: Seq<EntryModel>, e: EntryModel) -> Seq<EntryModel> {
    s.insert(insert_pos(s, e), e)
}

/// The canonical ordering of an entry list, one insertion at a time.
pub open spec fn sort_spec(s: Seq<EntryModel>) -> Seq<EntryModel>
    decreases s.len(),
{
    if s.len() == 0 {
        Seq::empty()
    } else {
        insert_sorted_spec(sort_spec(s.drop_last()), s.last())
    }
}

/// The insertion point is exactly the first position whose key
/// exceeds the new entry's.
proof fn lemma_insert_pos_at(s: Seq<EntryModel>, e: EntryModel, k: int)
    requires
        0 <= k <= s.len(),
        forall|j: int| 0 <= j < k ==> lex_le(sort_key(#[trigger] s[j]), sort_key(e)),
        k < s.len() ==> !lex_le(sort_key(s[k]), sort_key(e)),
    ensures
        insert_pos(s, e) == k,
    decreases s.len(),
{
    if s.len() > 0 && k > 0 {
        assert(lex_le(sort_key(s[0]), sort_key(e)));
        assert forall|j: int| 0 <= j < k - 1 implies lex_le(
            sort_key(#[trigger] s.drop_first()[j]),
            sort_key(e),
        ) by {
            assert(s.drop_first()[j] == s[j + 1]);
        }
        lemma_insert_pos_at(s.drop_first(), e, k - 1);
    }
}

/// Inserts an entry into an already ordered list, keeping the order.
fn insert_entry_sorted(out: &mut Vec<RefEntry>, e: RefEntry)
    requires
        entries_sorted(models(old(out)@)),
    ensures
        entries_sorted(models(final(out)@)),
        models(final(out)@).to_multiset() == models(old(out)@).to_multiset().insert(e@),
        models(final(out)@) == insert_sorted_spec(models(old(out)@), e@),
{
    let key = entry_sort_key(&e);
    let mut k: usize = 0;
    while k < out.len()
        invariant
            k <= out@.len(),
            key@ == sort_key(e@),
            entries_sorted(models(out@)),
            out@ == old(out)@,
            forall|j: int| 0 <= j < k ==> lex_le(sort_key(models(out@)[j]), sort_key(e@)),
        ensures
            k <= out@.len(),
            out@ == old(out)@,
            forall|j: int| 0 <= j < k ==> lex_le(sort_key(models(out@)[j]), sort_key(e@)),
            k < out@.len() ==> !lex_le(sort_key(models(out@)[k as int]), sort_key(e@)),
        decreases out@.len() - k,
    {
        let ok = entry_sort_key(&out[k]);
        if !lex_le_bytes(&ok, &key) {
            break;
        }
        k += 1;
    }
    proof {
        if k < out@.len() {
            lemma_lex_total(sort_key(models(out@)[k as int]), sort_key(e@));
        }
    }
    let ghost pre = models(out@);
    proof {
        lemma_insert_pos_at(pre, e@, k as int);
    }
    out.insert(k, e);
    proof {
        broadcast use vstd::seq_lib::group_to_multiset_ensures;

        assert(models(out@) =~= pre.insert(k as int, e@));
        vstd::seq_lib::to_multiset_insert(pre, k as int, e@);
        assert forall|i: int| 0 <= i < models(out@).len() - 1 implies lex_le(
            sort_key(#[trigger] models(out@)[i]),
            sort_key(models(out@)[i + 1]),
        ) by {
            let m = models(out@);
            if i + 1 < k {
                assert(m[i] == pre[i] && m[i + 1] == pre[i + 1]);
            } else if i + 1 == k {
                assert(m[i] == pre[i] && m[i + 1] == e@);
            } else if i == k {
                assert(m[i] == e@ && m[i + 1] == pre[i]);
            } else {
                assert(m[i] == pre[i - 1] && m[i + 1] == pre[i]);
            }
        }
    }
}

/// Orders entries canonically: by name as a byte string, a directory
/// name comparing as if it ended with a separator. The result is a
/// permutation of the input.
pub fn sort_entries(entries: &Vec<RefEntry>) -> (r: Vec<RefEntry>)
    ensures
        entries_sorted(models(r@)),
        models(r@).to_multiset() == models(entries@).to_multiset(),
        models(r@) == sort_spec(models(entries@)),
{
    let mut out: Vec<RefEntry> = Vec::new();
    let mut idx: usize = 0;
    proof {
        broadcast use vstd::seq_lib::group_to_multiset_ensures;

        assert(models(entries@.subrange(0, 0)) =~= Seq::<EntryModel>::empty());
        assert(models(out@) =~= Seq::<EntryModel>::empty());
    }
    while idx < entries.len()
        invariant
            idx <= entries@.len(),
            entries_sorted(models(out@)),
            models(out@).to_multiset() == models(entries@.subrange(0, idx as int)).to_multiset(),
            models(out@) == sort_spec(models(entries@.subrange(0, idx as int))),
        decreases entries@.len() - idx,
    {
        let e = copy_entry(&entries[idx]);
        insert_entry_sorted(&mut out, e);
        proof {
            broadcast use vstd::seq_lib::group_to_multiset_ensures;

            assert(models(entries@.subrange(0, idx + 1)) =~= models(
                entries@.subrange(0, idx as int),
            ).push(entries@[idx as int]@));
            let cur = models(entries@.subrange(0, idx + 1));
            assert(cur.drop_last() =~= models(entries@.subrange(0, idx as int)));
            assert(cur.last() == entries@[idx as int]@);
        }
        idx += 1;
    }
    proof {
        assert(entries@.subrange(0, entries@.len() as int) =~= entries@);
    }
    out
}

/// The serialized form of one entry.
pub open spec fn encode_entry(e: EntryModel) -> Seq<u8> {
    dec_digits(e.mode as nat) + seq![32u8] + e.name + seq![0u8] + e.oid
}

/// The serialized form of an entry list: plain concatenation, no other
/// delimiters.
pub open spec fn encode_entries(s: Seq<EntryModel>) -> Seq<u8>
    decreases s.len(),
{
    if s.len() == 0 {
        Seq::empty()
    } else {
        encode_entries(s.drop_last()) + encode_entry(s.last())
    }
}

/// The mode value a canonical digit string denotes, if permitted.
pub open spec fn mode_of_digits(d: Seq<u8>) -> Option<u32> {
    if d == dec_digits(100644) {
        Some(100644u32)
    } else if d == dec_digits(100755) {
        Some(100755u32)
    } else if d == dec_digits(120000) {
        Some(120000u32)
    } else if d == dec_digits(160000) {
        Some(160000u32)
    } else if d == dec_digits(40000) {
        Some(40000u32)
    } else {
        None
    }
}

/// Parses one entry from the head of `s`: digits to the first space,
/// name to the first NUL, then 20 raw id bytes, never treated as text.
pub open spec fn parse_one_entry(s: Seq<u8>) -> Option<(EntryModel, int)> {
    match spec_find_byte(s, 0, 32) {
        None => None,
        Some(i) => match mode_of_digits(s.subrange(0, i)) {
            None => None,
            Some(m) => match spec_find_byte(s, i + 1, 0) {
                None => None,
                Some(j) => {
                    if j + 21 <= s.len() {
                        let name = s.subrange(i + 1, j);
                        if name.len() > 0 && (forall|k: int|
                            0 <= k < name.len() ==> name[k] != 0 && name[k] != 47) {
                            Some(
                                (
                                    EntryModel { mode: m, name, oid: s.subrange(j + 1, j + 21) },
                                    j + 21,
                                ),
                            )
                        } else {
                            None
                        }
                    } else {
                        None
                    }
                },
            },
        },
    }
}

/// Parses a whole tree payload into its ordered entry list.
pub open spec fn parse_entries(s: Seq<u8>) -> Option<Seq<EntryModel>>
    decreases s.len(),
{
    if s.len() == 0 {
        Some(Seq::empty())
    } else {
        match parse_one_entry(s) {
            None => None,
            Some(p) => {
                if 1 <= p.1 <= s.len() {
                    match parse_entries(s.subrange(p.1, s.len() as int)) {
                        None => None,
                        Some(rest) => Some(seq![p.0] + rest),
                    }
                } else {
                    None
                }
            },
        }
    }
}

/// Serialization concatenates head first as well as last first.
proof fn lemma_encode_entries_head(s: Seq<EntryModel>)
    requires
        s.len() > 0,
    ensures
        encode_entries(s) == encode_entry(s[0]) + encode_entries(s.drop_first()),
    decreases s.len(),
{
    if s.len() == 1 {
        assert(s.drop_last() =~= Seq::<EntryModel>::empty());
        assert(s.drop_first() =~= Seq::<EntryModel>::empty());
        assert(encode_entries(s) =~= encode_entry(s[0]) + encode_entries(s.drop_first()));
    } else {
        lemma_encode_entries_head(s.drop_last());
        assert(s.drop_last()[0] == s[0]);
        assert(s.drop_last().drop_first() =~= s.drop_first().drop_last());
        assert(s.drop_first().last() == s.last());
        assert(encode_entry(s[0]) + (encode_entries(s.drop_first().drop_last()) + encode_entry(
            s.last(),
        )) =~= (encode_entry(s[0]) + encode_entries(s.drop_first().drop_last())) + encode_entry(
            s.last(),
        ));
    }
}

/// Parsing starts over the serialization of a well-formed entry
/// recovers exactly that entry, whatever follows.
proof fn lemma_parse_one_of_encoded(e: EntryModel, rest: Seq<u8>)
    requires
        wf_entry(e),
    ensures
        parse_one_entry(encode_entry(e) + rest) == Some((e, encode_entry(e).len() as int)),
{
    let s = encode_entry(e) + rest;
    let digits = dec_digits(e.mode as nat);
    let dlen = digits.len() as int;
    let i = dlen;
    let j = dlen + 1 + e.name.len() as int;
    crate::util::lemma_dec_digits(e.mode as nat);
    crate::util::lemma_dec_digits(100644);
    crate::util::lemma_dec_digits(100755);
    crate::util::lemma_dec_digits(120000);
    crate::util::lemma_dec_digits(160000);
    crate::util::lemma_dec_digits(40000);
    assert(s[i] == 32);
    assert forall|k: int| 0 <= k < i implies s[k] != 32 by {
        assert(s[k] == digits[k]);
        assert(is_dec_digit(digits[k]));
    }
    crate::util::lemma_find_byte_first(s, 0, 32, i);
    assert(s.subrange(0, i) =~= digits);
    assert(mode_of_digits(digits) == Some(e.mode));
    assert(s[j] == 0);
    assert forall|k: int| i + 1 <= k < j implies s[k] != 0 by {
        assert(s[k] == e.name[k - (i + 1)]);
    }
    crate::util::lemma_find_byte_first(s, i + 1, 0, j);
    assert(s.subrange(i + 1, j) =~= e.name);
    assert(s.subrange(j + 1, j + 21) =~= e.oid);
    assert(j + 21 == encode_entry(e).len());
}

/// The tree codec round-trips: parsing the serialization of any
/// well-formed entry list gives the list back.
pub proof fn lemma_parse_of_encode(s: Seq<EntryModel>)
    requires
        forall|i: int| 0 <= i < s.len() ==> wf_entry(#[trigger] s[i]),
    ensures
        parse_entries(encode_entries(s)) == Some(s),
    decreases s.len(),
{
    if s.len() == 0 {
        assert(encode_entries(s) =~= Seq::<u8>::empty());
        assert(parse_entries(encode_entries(s)) == Some(Seq::<EntryModel>::empty()));
        assert(Seq::<EntryModel>::empty() =~= s);
    } else {
        let enc = encode_entries(s);
        let tail = encode_entries(s.drop_first());
        lemma_encode_entries_head(s);
        lemma_parse_one_of_encoded(s[0], tail);
        let k = encode_entry(s[0]).len() as int;
        assert(enc.subrange(0, k) =~= encode_entry(s[0]));
        assert(parse_one_entry(enc) == parse_one_entry(encode_entry(s[0]) + tail));
        assert(enc.subrange(k, enc.len() as int) =~= tail);
        assert forall|i: int| 0 <= i < s.drop_first().len() implies wf_entry(
            #[trigger] s.drop_first()[i],
        ) by {
            assert(s.drop_first()[i] == s[i + 1]);
        }
        lemma_parse_of_encode(s.drop_first());
        assert(enc.len() > 0);
        assert(seq![s[0]] + s.drop_first() =~= s);
    }
}

/// Decides which permitted mode a digit string denotes.
fn mode_from_digits(d: &Vec<u8>) -> (r: Option<u32>)
    ensures
        r == mode_of_digits(d@),
{
    let c1 = u64_to_dec(100644);
    if bytes_eq(d, &c1) {
        return Some(100644);
    }
    let c2 = u64_to_dec(100755);
    if bytes_eq(d, &c2) {
        return Some(100755);
    }
    let c3 = u64_to_dec(120000);
    if bytes_eq(d, &c3) {
        return Some(120000);
    }
    let c4 = u64_to_dec(160000);
    if bytes_eq(d, &c4) {
        return Some(160000);
    }
    let c5 = u64_to_dec(40000);
    if bytes_eq(d, &c5) {
        return Some(40000);
    }
    None
}

/// Checks that a name is nonempty and free of NUL and separator bytes.
fn name_ok(name: &Vec<u8>) -> (r: bool)
    ensures
        r <==> (name@.len() > 0 && forall|i: int|
            0 <= i < name@.len() ==> name@[i] != 0 && name@[i] != 47),
{
    if name.len() == 0 {
        return false;
    }
    let mut i: usize = 0;
    while i < name.len()
        invariant
            i <= name@.len(),
            forall|j: int| 0 <= j < i ==> name@[j] != 0 && name@[j] != 47,
        decreases name@.len() - i,
    {
        if name[i] == 0 || name[i] == 47 {
            return false;
        }
        i += 1;
    }
    true
}

/// Parses one entry from the head of `v`.
fn parse_one_exec(v: &Vec<u8>) -> (r: Option<(RefEntry, usize)>)
    ensures
        match parse_one_entry(v@) {
            Some(p) => r matches Some(q) && q.0@ == p.0 && q.1 == p.1 && 1 <= q.1 <= v@.len(),
            None => r is None,
        },
{
    let vlen = v.len();
    let i = match find_byte(v, 0, 32) {
        Some(i) => i,
        None => {
            return None;
        },
    };
    let digits = subvec(v, 0, i);
    let mode = match mode_from_digits(&digits) {
        Some(m) => m,
        None => {
            return None;
        },
    };
    let j = match find_byte(v, i + 1, 0) {
        Some(j) => j,
        None => {
            return None;
        },
    };
    if vlen < 21 || j > vlen - 21 {
        return None;
    }
    let name = subvec(v, i + 1, j);
    if !name_ok(&name) {
        return None;
    }
    let oid = subvec(v, j + 1, j + 21);
    Some((RefEntry { mode, name, oid }, j + 21))
}

/// A working tree handed to the builder as plain values: files with
/// their raw permission-derived mode and contents, and directories
/// with their children.
pub enum WorkNode {
    File { name: Vec<u8>, mode: u32, content: Vec<u8> },
    Dir { name: Vec<u8>, children: Vec<WorkNode> },
}

/// Maps raw permission bits to the nearest permitted entry mode, the
/// group-writable variants included; anything else is unmapped.
pub open spec fn spec_normalize_mode(m: u32) -> Option<u32> {
    if m == 100644 || m == 100664 {
        Some(100644u32)
    } else if m == 100755 || m == 100775 {
        Some(100755u32)
    } else if m == 120000 {
        Some(120000u32)
    } else if m == 160000 {
        Some(160000u32)
    } else {
        None
    }
}

/// The entry a single working-tree node contributes: a file is stored
/// as a blob and carries its normalized mode; a directory carries the
/// id of its own freshly built tree object. A file whose mode does
/// not normalize, or a node with an unusable name, is skipped.
pub open spec fn node_entry(n: WorkNode) -> Option<EntryModel>
    decreases n, 0int,
{
    match n {
        WorkNode::File { name, mode, content } => match spec_normalize_mode(mode) {
            Some(m) => if name_wf(name@) {
                Some(
                    EntryModel {
                        mode: m,
                        name: name@,
                        oid: oid_of(ObjectType::Blob, content@),
                    },
                )
            } else {
                None
            },
            None => None,
        },
        WorkNode::Dir { name, children } => if name_wf(name@) {
            Some(
                EntryModel {
                    mode: 40000u32,
                    name: name@,
                    oid: oid_of(
                        ObjectType::Tree,
                        encode_entries(sort_spec(raw_entries_from(children@, 0))),
                    ),
                },
            )
        } else {
            None
        },
    }
}

/// The contributions of the nodes from `i` on, in listing order.
pub open spec fn raw_entries_from(s: Seq<WorkNode>, i: int) -> Seq<EntryModel>
    decreases s, s.len() - i when 0 <= i <= s.len()
{
    if i == s.len() {
        Seq::empty()
    } else {
        (match node_entry(s[i]) {
            Some(e) => seq![e],
            None => Seq::empty(),
        }) + raw_entries_from(s, i + 1)
    }
}

/// The entry list a directory's children build: every contribution,
/// canonically ordered.
pub open spec fn built_entries(children: Seq<WorkNode>) -> Seq<EntryModel> {
    sort_spec(raw_entries_from(children, 0))
}

/// Normalizes a file's permission-derived mode, or reports it
/// unmapped.
pub fn normalize_mode(m: u32) -> (r: Option<u32>)
    ensures
        r == spec_normalize_mode(m),
{
    if m == 100644 || m == 100664 {
        Some(100644)
    } else if m == 100755 || m == 100775 {
        Some(100755)
    } else if m == 120000 {
        Some(120000)
    } else if m == 160000 {
        Some(160000)
    } else {
        None
    }
}

/// The tree codec.
pub struct Tree {}

impl Tree {
    /// Serializes an entry list.
    pub fn ref_entries_to_bytes(entries: &Vec<RefEntry>) -> (r: Vec<u8>)
        ensures
            r@ == encode_entries(models(entries@)),
    {
        let mut r: Vec<u8> = Vec::new();
        let mut idx: usize = 0;
        proof {
            assert(models(entries@.subrange(0, 0)) =~= Seq::<EntryModel>::empty());
        }
        while idx < entries.len()
            invariant
                idx <= entries@.len(),
                r@ == encode_entries(models(entries@.subrange(0, idx as int))),
            decreases entries@.len() - idx,
        {
            let e = &entries[idx];
            let digits = u64_to_dec(e.mode as u64);
            crate::util::append_bytes(&mut r, &digits);
            r.push(32);
            crate::util::append_bytes(&mut r, &e.name);
            r.push(0);
            crate::util::append_bytes(&mut r, &e.oid);
            proof {
                let ms = models(entries@.subrange(0, idx + 1));
                assert(ms.drop_last() =~= models(entries@.subrange(0, idx as int)));
                assert(ms.last() == entries@[idx as int]@);
                assert(r@ =~= encode_entries(ms.drop_last()) + encode_entry(ms.last()));
            }
            idx += 1;
        }
        proof {
            assert(entries@.subrange(0, entries@.len() as int) =~= entries@);
        }
        r
    }

    /// Parses a tree payload into its entries, failing on any
    /// malformation.
    pub fn read_tree(data: &Vec<u8>) -> (r: Result<Vec<RefEntry>, GitError>)
        ensures
            match parse_entries(data@) {
                Some(es) => r matches Ok(v) && models(v@) == es,
                None => r == Err::<Vec<RefEntry>, GitError>(GitError::Corrupt),
            },
    {
        let mut acc: Vec<RefEntry> = Vec::new();
        let mut pos: usize = 0;
        let dlen = data.len();
        proof {
            assert(models(acc@) =~= Seq::<EntryModel>::empty());
            assert(data@.subrange(0, dlen as int) =~= data@);
        }
        while pos < dlen
            invariant
                pos <= dlen,
                dlen == data@.len(),
                (match parse_entries(data@.subrange(pos as int, dlen as int)) {
                    Some(rest) => parse_entries(data@) == Some(models(acc@) + rest),
                    None => parse_entries(data@) is None,
                }),
            decreases dlen - pos,
        {
            let suffix = subvec(data, pos, dlen);
            match parse_one_exec(&suffix) {
                None => {
                    return Err(GitError::Corrupt);
                },
                Some(q) => {
                    let (e, used) = q;
                    proof {
                        let suf = data@.subrange(pos as int, dlen as int);
                        assert(suf.subrange(used as int, suf.len() as int) =~= data@.subrange(
                            pos + used,
                            dlen as int,
                        ));
                    }
                    let ghost prev_acc = models(acc@);
                    acc.push(e);
                    proof {
                        assert(models(acc@) =~= prev_acc.push(e@));
                        let suf = data@.subrange(pos as int, dlen as int);
                        if parse_entries(data@.subrange(pos + used, dlen as int)) is Some {
                            let rest = parse_entries(
                                data@.subrange(pos + used, dlen as int),
                            )->Some_0;
                            assert(parse_entries(suf) == Some(seq![e@] + rest));
                            assert(prev_acc + (seq![e@] + rest) =~= models(acc@) + rest);
                        }
                    }
                    pos += used;
                },
            }
        }
        proof {
            assert(data@.subrange(pos as int, dlen as int) =~= Seq::<u8>::empty());
            assert(parse_entries(Seq::<u8>::empty()) == Some(Seq::<EntryModel>::empty()));
            assert(models(acc@) + Seq::<EntryModel>::empty() =~= models(acc@));
        }
        Ok(acc)
    }

    /// Entry names only, in stored order.
    pub fn ls_tree(data: &Vec<u8>) -> (r: Result<Vec<Vec<u8>>, GitError>)
        ensures
            match parse_entries(data@) {
                Some(es) => r matches Ok(names) && names@.len() == es.len() && (forall|i: int|
                    0 <= i < es.len() ==> #[trigger] names@[i]@ == es[i].name),
                None => r == Err::<Vec<Vec<u8>>, GitError>(GitError::Corrupt),
            },
    {
        let entries = match Tree::read_tree(data) {
            Ok(v) => v,
            Err(e) => {
                return Err(e);
            },
        };
        let mut names: Vec<Vec<u8>> = Vec::new();
        let mut i: usize = 0;
        while i < entries.len()
            invariant
                i <= entries@.len(),
                names@.len() == i,
                forall|j: int| 0 <= j < i ==> #[trigger] names@[j]@ == entries@[j]@.name,
            decreases entries@.len() - i,
        {
            names.push(crate::util::copy_bytes(&entries[i].name));
            i += 1;
        }
        Ok(names)
    }

    /// Builds the entry list for the children of one directory: stores
    /// a blob for each file whose mode normalizes (others are skipped),
    /// recurses into subdirectories storing their tree objects, and
    /// orders the result canonically.
    pub fn tree_content(store: &mut ObjectStore, children: &Vec<WorkNode>) -> (r: Vec<RefEntry>)
        requires
            old(store).wf(),
        ensures
            final(store).wf(),
            store_extends(final(store)@, old(store)@),
            models(r@) == built_entries(children@),
            entries_sorted(models(r@)),
            forall|i: int|
                0 <= i < r@.len() ==> wf_entry(#[trigger] models(r@)[i]) && final(
                store
                )@.dom().contains(models(r@)[i].oid),
        decreases children@,
    {
        let mut raw: Vec<RefEntry> = Vec::new();
        let mut i: usize = 0;
        proof {
            assert(models(raw@) + raw_entries_from(children@, 0) =~= raw_entries_from(
                children@,
                0,
            ));
        }
        while i < children.len()
            invariant
                i <= children@.len(),
                store.wf(),
                store_extends(store@, old(store)@),
                raw_entries_from(children@, 0) == models(raw@) + raw_entries_from(
                    children@,
                    i as int,
                ),
                forall|j: int|
                    0 <= j < raw@.len() ==> wf_entry(#[trigger] models(raw@)[j])
                        && store@.dom().contains(models(raw@)[j].oid),
            decreases children@.len() - i,
        {
            let ghost loop_pre = store@;
            let ghost raw_pre = raw@;
            match &children[i] {
                WorkNode::File { name, mode, content } => {
                    if name_ok(name) {
                        match normalize_mode(*mode) {
                            Some(m) => {
                                let id = store.put(ObjectType::Blob, content);
                                raw.push(RefEntry { mode: m, name: copy_bytes(name), oid: id });
                                proof {
                                    assert(node_entry(children@[i as int]) == Some(
                                        raw@.last()@,
                                    ));
                                }
                            },
                            None => {
                                proof {
                                    assert(node_entry(children@[i as int]) is None);
                                }
                            },
                        }
                    } else {
                        proof {
                            assert(node_entry(children@[i as int]) is None);
                        }
                    }
                },
                WorkNode::Dir { name, children: sub } => {
                    if name_ok(name) {
                        let entries = Tree::tree_content(store, sub);
                        let bytes = Tree::ref_entries_to_bytes(&entries);
                        let id = store.put(ObjectType::Tree, &bytes);
                        raw.push(RefEntry { mode: 40000, name: copy_bytes(name), oid: id });
                        proof {
                            assert(node_entry(children@[i as int]) == Some(raw@.last()@));
                        }
                    } else {
                        proof {
                            assert(node_entry(children@[i as int]) is None);
                        }
                    }
                },
            }
            proof {
                match node_entry(children@[i as int]) {
                    Some(e) => {
                        assert(raw@ =~= raw_pre.push(raw@.last()));
                        assert(models(raw@) =~= models(raw_pre).push(e));
                        assert(models(raw_pre) + (seq![e] + raw_entries_from(children@, i + 1))
                            =~= models(raw@) + raw_entries_from(children@, i + 1));
                    },
                    None => {
                        assert(raw@ == raw_pre);
                        assert(models(raw_pre) + (Seq::<EntryModel>::empty() + raw_entries_from(
                            children@,
                            i + 1,
                        )) =~= models(raw@) + raw_entries_from(children@, i + 1));
                    },
                }
                assert forall|j: int| 0 <= j < raw@.len() implies wf_entry(
                    #[trigger] models(raw@)[j],
                ) && store@.dom().contains(models(raw@)[j].oid) by {
                    if j < raw_pre.len() {
                        assert(models(raw@)[j] == models(raw_pre)[j]);
                        assert(loop_pre.dom().contains(models(raw_pre)[j].oid));
                    }
                }
            }
            i += 1;
        }
        proof {
            assert(raw_entries_from(children@, children@.len() as int) =~= Seq::<
                EntryModel,
            >::empty());
            assert(models(raw@) + Seq::<EntryModel>::empty() =~= models(raw@));
        }
        let out = sort_entries(&raw);
        proof {
            broadcast use vstd::seq_lib::group_to_multiset_ensures;

            assert forall|i: int| 0 <= i < out@.len() implies wf_entry(#[trigger] models(out@)[i])
                && store@.dom().contains(models(out@)[i].oid) by {
                let x = models(out@)[i];
                assert(models(out@).contains(x));
                assert(models(out@).to_multiset().count(x) > 0);
                assert(models(raw@).to_multiset().count(x) > 0);
                assert(models(raw@).contains(x));
                let j = choose|j: int| 0 <= j < models(raw@).len() && models(raw@)[j] == x;
                assert(wf_entry(models(raw@)[j]));
            }
        }
        out
    }

    /// Builds, stores and returns the id of the tree object for a
    /// whole working tree: the id of the frame of the serialized,
    /// canonically ordered entry list. The root object and every
    /// blob and subtree its entries reference end up in the store.
    pub fn write_tree(store: &mut ObjectStore, root: &Vec<WorkNode>) -> (r: Vec<u8>)
        requires
            old(store).wf(),
        ensures
            final(store).wf(),
            store_extends(final(store)@, old(store)@),
            r@.len() == 20,
            final(store)@.dom().contains(r@),
            r@ == oid_of(ObjectType::Tree, encode_entries(built_entries(root@))),
            forall|i: int|
                0 <= i < built_entries(root@).len() ==> final(store)@.dom().contains(
                    (#[trigger] built_entries(root@)[i]).oid,
                ),
    {
        let entries = Tree::tree_content(store, root);
        let ghost mid = store@;
        let bytes = Tree::ref_entries_to_bytes(&entries);
        let id = store.put(ObjectType::Tree, &bytes);
        proof {
            assert forall|i: int| 0 <= i < built_entries(root@).len() implies store@.dom().contains(
                (#[trigger] built_entries(root@)[i]).oid,
            ) by {
                assert(built_entries(root@)[i] == models(entries@)[i]);
                assert(mid.dom().contains(models(entries@)[i].oid));
            }
        }
        id
    }
}

} // verus!
