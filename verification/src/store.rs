//! The content-addressed object store: typed payloads keyed by the
//! digest of their framed form. Writes are idempotent; reads
//! decompress and re-validate the frame.

use vstd::prelude::*;

use crate::digest::digest_of;
use crate::digest::sha1_digest;
use crate::object::build_frame;
use crate::object::frame;
use crate::object::lemma_parse_frame_of_frame;
use crate::object::oid_of;
use crate::object::parse_frame;
use crate::object::parse_object;
use crate::object::Object;
use crate::object::ObjectType;
use crate::util::bytes_eq;
use crate::util::copy_bytes;
use crate::zlib::inflate_of;
use crate::zlib::zlib_compress;
use crate::zlib::zlib_decompress_from;
use crate::GitError;

verus! {

/// One loose object: its raw 20-byte id, its framed payload, and the
/// compressed bytes as they would sit on durable storage.
pub struct StoredObject {
    id: Vec<u8>,
    framed: Vec<u8>,
    zdata: Vec<u8>,
}

impl StoredObject {
    /// Content addressing for a single object: the id is the digest of
    /// the framed payload, the frame parses, and the compressed bytes
    /// decompress back to the frame.
    closed spec fn wf(self) -> bool {
        &&& self.id@.len() == 20
        &&& self.id@ == digest_of(self.framed@)
        &&& parse_frame(self.framed@) is Some
        &&& inflate_of(self.zdata@) == Some(self.framed@)
    }
}

/// True when no two stored objects share an id.
spec fn distinct_ids(s: Seq<StoredObject>) -> bool {
    forall|a: int, b: int| 0 <= a < b < s.len() ==> s[a].id@ != s[b].id@
}

/// The map from ids to framed payloads that a sequence of stored
/// objects denotes; later entries win, though ids never repeat.
spec fn map_of(s: Seq<StoredObject>) -> Map<Seq<u8>, Seq<u8>>
    decreases s.len(),
{
    if s.len() == 0 {
        Map::empty()
    } else {
        map_of(s.drop_last()).insert(s.last().id@, s.last().framed@)
    }
}

proof fn lemma_map_of_contains(s: Seq<StoredObject>, k: Seq<u8>)
    ensures
        map_of(s).dom().contains(k) <==> exists|i: int| 0 <= i < s.len() && s[i].id@ == k,
    decreases s.len(),
{
    if s.len() > 0 {
        let pre = s.drop_last();
        lemma_map_of_contains(pre, k);
        if s.last().id@ == k {
            assert(s[s.len() - 1].id@ == k);
        } else {
            if map_of(s).dom().contains(k) {
                let i = choose|i: int| 0 <= i < pre.len() && pre[i].id@ == k;
                assert(s[i].id@ == k);
            }
            if exists|i: int| 0 <= i < s.len() && s[i].id@ == k {
                let i = choose|i: int| 0 <= i < s.len() && s[i].id@ == k;
                assert(pre[i].id@ == k);
            }
        }
    }
}

proof fn lemma_map_of_index(s: Seq<StoredObject>, i: int)
    requires
        distinct_ids(s),
        0 <= i < s.len(),
    ensures
        map_of(s).dom().contains(s[i].id@),
        map_of(s)[s[i].id@] == s[i].framed@,
    decreases s.len(),
{
    let pre = s.drop_last();
    if i == s.len() - 1 {
    } else {
        assert(pre[i] == s[i]);
        lemma_map_of_index(pre, i);
        assert(s[i].id@ != s.last().id@);
    }
}

proof fn lemma_map_of_len(s: Seq<StoredObject>)
    requires
        distinct_ids(s),
    ensures
        map_of(s).dom().len() == s.len(),
        map_of(s).dom().finite(),
    decreases s.len(),
{
    if s.len() > 0 {
        let pre = s.drop_last();
        lemma_map_of_len(pre);
        lemma_map_of_contains(pre, s.last().id@);
        assert(!map_of(pre).dom().contains(s.last().id@));
        assert(map_of(s).dom() =~= map_of(pre).dom().insert(s.last().id@));
    }
}

/// The object database.
pub struct ObjectStore {
    objects: Vec<StoredObject>,
}

impl View for ObjectStore {
    type V = Map<Seq<u8>, Seq<u8>>;

    closed spec fn view(&self) -> Map<Seq<u8>, Seq<u8>> {
        map_of(self.objects@)
    }
}

/// The abstract effect of a write: inserting the framed payload under
/// its digest, unless that id is already present, in which case the
/// store is untouched.
pub open spec fn put_model(m: Map<Seq<u8>, Seq<u8>>, t: ObjectType, content: Seq<u8>) -> Map<
    Seq<u8>,
    Seq<u8>,
> {
    if m.dom().contains(oid_of(t, content)) {
        m
    } else {
        m.insert(oid_of(t, content), frame(t.spec_name(), content))
    }
}

/// True when `m2` preserves every binding of `m1`: the store only
/// grows, and what was stored stays stored unchanged.
pub open spec fn store_extends(m2: Map<Seq<u8>, Seq<u8>>, m1: Map<Seq<u8>, Seq<u8>>) -> bool {
    forall|k: Seq<u8>| #[trigger] m1.dom().contains(k) ==> m2.dom().contains(k) && m2[k] == m1[k]
}

/// The abstract result of a read: the parse of the framed payload
/// stored under the id, if any.
pub open spec fn get_model(m: Map<Seq<u8>, Seq<u8>>, id: Seq<u8>) -> Option<(ObjectType, Seq<u8>)> {
    if m.dom().contains(id) {
        parse_frame(m[id])
    } else {
        None
    }
}

impl ObjectStore {
    /// Every stored object is well-formed and ids are unique.
    pub closed spec fn wf(&self) -> bool {
        &&& forall|i: int| 0 <= i < self.objects@.len() ==> (#[trigger] self.objects@[i]).wf()
        &&& distinct_ids(self.objects@)
    }

    /// An empty store.
    pub fn new() -> (s: ObjectStore)
        ensures
            s.wf(),
            s@ == Map::<Seq<u8>, Seq<u8>>::empty(),
    {
        ObjectStore { objects: Vec::new() }
    }

    /// The position of the object with this id, if stored.
    fn find_index(&self, id: &Vec<u8>) -> (r: Option<usize>)
        ensures
            match r {
                Some(i) => i < self.objects@.len() && self.objects@[i as int].id@ == id@,
                None => forall|i: int|
                    0 <= i < self.objects@.len() ==> self.objects@[i].id@ != id@,
            },
    {
        let mut i: usize = 0;
        while i < self.objects.len()
            invariant
                i <= self.objects@.len(),
                forall|j: int| 0 <= j < i ==> self.objects@[j].id@ != id@,
            decreases self.objects@.len() - i,
        {
            if bytes_eq(&self.objects[i].id, id) {
                return Some(i);
            }
            i += 1;
        }
        None
    }

    /// Existence check without decompression.
    pub fn has(&self, id: &Vec<u8>) -> (r: bool)
        ensures
            r == self@.dom().contains(id@),
    {
        proof {
            lemma_map_of_contains(self.objects@, id@);
        }
        self.find_index(id).is_some()
    }

    /// Stores typed content under the digest of its framed payload and
    /// returns the id. If that id is already present nothing is
    /// written; the id is returned either way.
    pub fn put(&mut self, t: ObjectType, content: &Vec<u8>) -> (r: Vec<u8>)
        requires
            old(self).wf(),
        ensures
            final(self).wf(),
            r@ == oid_of(t, content@),
            r@.len() == 20,
            final(self)@ == put_model(old(self)@, t, content@),
            store_extends(final(self)@, old(self)@),
            final(self)@.dom().contains(r@),
    {
        let framed = build_frame(t, content);
        let id = sha1_digest(&framed);
        proof {
            lemma_map_of_contains(self.objects@, id@);
        }
        match self.find_index(&id) {
            Some(_) => id,
            None => {
                let zdata = zlib_compress(&framed);
                let id2 = copy_bytes(&id);
                proof {
                    lemma_parse_frame_of_frame(t, content@);
                }
                let obj = StoredObject { id: id2, framed, zdata };
                self.objects.push(obj);
                proof {
                    assert(self.objects@.drop_last() =~= old(self).objects@);
                    assert(map_of(self.objects@) == map_of(old(self).objects@).insert(
                        id@,
                        frame(t.spec_name(), content@),
                    ));
                }
                id
            },
        }
    }

    /// Every stored object as (id, compressed framed payload) pairs,
    /// one per distinct id, for a caller that lays them out on
    /// durable storage.
    pub fn export(&self) -> (r: Vec<(Vec<u8>, Vec<u8>)>)
        requires
            self.wf(),
        ensures
            r@.len() == self@.dom().len(),
            forall|i: int|
                0 <= i < r@.len() ==> self@.dom().contains((#[trigger] r@[i]).0@) && r@[i].0@.len()
                    == 20 && inflate_of(r@[i].1@) == Some(self@[r@[i].0@]),
    {
        let mut r: Vec<(Vec<u8>, Vec<u8>)> = Vec::new();
        let mut i: usize = 0;
        proof {
            lemma_map_of_len(self.objects@);
        }
        while i < self.objects.len()
            invariant
                i <= self.objects@.len(),
                r@.len() == i,
                self.wf(),
                forall|j: int|
                    0 <= j < i ==> (#[trigger] r@[j]).0@ == self.objects@[j].id@ && r@[j].1@
                        == self.objects@[j].zdata@,
            decreases self.objects@.len() - i,
        {
            let id = copy_bytes(&self.objects[i].id);
            let z = copy_bytes(&self.objects[i].zdata);
            r.push((id, z));
            i += 1;
        }
        proof {
            assert forall|j: int| 0 <= j < r@.len() implies self@.dom().contains(
                (#[trigger] r@[j]).0@,
            ) && r@[j].0@.len() == 20 && inflate_of(r@[j].1@) == Some(self@[r@[j].0@]) by {
                lemma_map_of_index(self.objects@, j);
            }
        }
        r
    }

    /// Reads the object stored under `id`: decompresses and re-parses
    /// the framed payload. Returns NotFound exactly when the id is
    /// absent.
    pub fn get(&self, id: &Vec<u8>) -> (r: Result<Object, GitError>)
        requires
            self.wf(),
        ensures
            self@.dom().contains(id@) ==> (r matches Ok(o) && Some((o.object_type, o.content@))
                == get_model(self@, id@)),
            !self@.dom().contains(id@) ==> r == Err::<Object, GitError>(GitError::NotFound),
    {
        proof {
            lemma_map_of_contains(self.objects@, id@);
        }
        match self.find_index(id) {
            None => Err(GitError::NotFound),
            Some(i) => {
                proof {
                    lemma_map_of_index(self.objects@, i as int);
                }
                let entry = &self.objects[i];
                match zlib_decompress_from(&entry.zdata, 0) {
                    None => {
                        proof {
                            assert(entry.zdata@.subrange(0, entry.zdata@.len() as int)
                                =~= entry.zdata@);
                            assert(false);
                        }
                        Err(GitError::Corrupt)
                    },
                    Some(pair) => {
                        proof {
                            assert(entry.zdata@.subrange(0, entry.zdata@.len() as int)
                                =~= entry.zdata@);
                        }
                        let data = pair.0;
                        match parse_object(&data) {
                            Ok(o) => Ok(o),
                            Err(_) => {
                                proof {
                                    assert(false);
                                }
                                Err(GitError::Corrupt)
                            },
                        }
                    },
                }
            },
        }
    }
}

/// Writes are idempotent: repeating a write of the same typed content
/// leaves the store exactly as the first write left it, so at most one
/// physical write ever happens for a given payload.
pub proof fn lemma_put_idempotent(m: Map<Seq<u8>, Seq<u8>>, t: ObjectType, content: Seq<u8>)
    ensures
        put_model(put_model(m, t, content), t, content) == put_model(m, t, content),
{
}

/// Round trip: writing typed content and reading the returned id back
/// gives the same type and content. The one pre-state left out is a
/// store that already holds a different payload under this very
/// digest, which content addressing rules out.
pub proof fn lemma_put_get_round_trip(m: Map<Seq<u8>, Seq<u8>>, t: ObjectType, content: Seq<u8>)
    requires
        !m.dom().contains(oid_of(t, content)) || m[oid_of(t, content)] == frame(
            t.spec_name(),
            content,
        ),
    ensures
        get_model(put_model(m, t, content), oid_of(t, content)) == Some((t, content)),
{
    lemma_parse_frame_of_frame(t, content);
}

} // verus!
