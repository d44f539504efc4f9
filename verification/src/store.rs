//! The content-addressed object store: a map from 20-byte identifiers to
//! `(kind, payload)`, held in memory during pack ingestion and mirrored to
//! loose object files by the caller.

use vstd::prelude::*;
use crate::GitError;
use crate::bytes::{bytes_eq, sub_bytes};
use crate::hash::sha1_digest;
use crate::object::{encode_obj, oid_of, GitObject, GitObjectType};

verus! {

/// The map described by a list of `(raw oid, object)` entries, later
/// entries taking precedence.
pub open spec fn map_of(entries: Seq<(Vec<u8>, GitObject)>) -> Map<
    Seq<u8>,
    (GitObjectType, Seq<u8>),
>
    decreases entries.len(),
{
    if entries.len() == 0 {
        Map::empty()
    } else {
        map_of(entries.drop_last()).insert(
            entries.last().0@,
            (entries.last().1.object_type, entries.last().1.content@),
        )
    }
}

/// A key is in the map exactly when some entry carries it.
pub proof fn lemma_map_of_contains(entries: Seq<(Vec<u8>, GitObject)>, k: Seq<u8>)
    ensures
        map_of(entries).contains_key(k) <==> exists|i: int|
            0 <= i < entries.len() && entries[i].0@ == k,
    decreases entries.len(),
{
    if entries.len() > 0 {
        lemma_map_of_contains(entries.drop_last(), k);
        if entries.last().0@ == k {
            assert(entries[entries.len() - 1].0@ == k);
        } else if map_of(entries).contains_key(k) {
            let i = choose|i: int| 0 <= i < entries.drop_last().len() && entries.drop_last()[
                i].0@ == k;
            assert(entries[i].0@ == k);
        } else if exists|i: int| 0 <= i < entries.len() && entries[i].0@ == k {
            let i = choose|i: int| 0 <= i < entries.len() && entries[i].0@ == k;
            assert(entries.drop_last()[i].0@ == k);
        }
    }
}

/// With pairwise distinct keys, each entry is found under its own key.
pub proof fn lemma_map_of_index(entries: Seq<(Vec<u8>, GitObject)>, i: int)
    requires
        0 <= i < entries.len(),
        forall|a: int, b: int|
            0 <= a < b < entries.len() ==> entries[a].0@ != entries[b].0@,
    ensures
        map_of(entries).contains_key(entries[i].0@),
        map_of(entries)[entries[i].0@] == (entries[i].1.object_type, entries[i].1.content@),
    decreases entries.len(),
{
    if i == entries.len() - 1 {
        lemma_map_of_contains(entries, entries[i].0@);
    } else {
        lemma_map_of_index(entries.drop_last(), i);
        assert(entries.drop_last()[i] == entries[i]);
        assert(entries[i].0@ != entries.last().0@);
    }
}

/// The contents of the store after writing `(t, p)`: unchanged when the
/// identifier is already present, else extended by the one object.
pub open spec fn store_after_put(
    m: Map<Seq<u8>, (GitObjectType, Seq<u8>)>,
    t: GitObjectType,
    p: Seq<u8>,
) -> Map<Seq<u8>, (GitObjectType, Seq<u8>)> {
    if m.contains_key(oid_of(t, p)) {
        m
    } else {
        m.insert(oid_of(t, p), (t, p))
    }
}

/// Store idempotence: writing the same object twice leaves the store in
/// the same state as a single write.
pub proof fn lemma_store_put_idempotent(
    m: Map<Seq<u8>, (GitObjectType, Seq<u8>)>,
    t: GitObjectType,
    p: Seq<u8>,
)
    ensures
        store_after_put(store_after_put(m, t, p), t, p) == store_after_put(m, t, p),
{
    assert(store_after_put(m, t, p).contains_key(oid_of(t, p)));
}

/// A filesystem-backed content-addressed map held in memory: each entry
/// pairs a 20-byte identifier with the object it names.
pub struct ObjectStore {
    pub entries: Vec<(Vec<u8>, GitObject)>,
}

impl ObjectStore {
    /// Every entry is well formed and keyed by its object's own
    /// identifier; keys are pairwise distinct.
    pub open spec fn wf(self) -> bool {
        &&& forall|i: int|
            0 <= i < self.entries@.len() ==> {
                &&& ((#[trigger] self.entries@[i]).1).wf()
                &&& self.entries@[i].0@ == self.entries@[i].1.oid()
                &&& self.entries@[i].0@.len() == 20
            }
        &&& forall|a: int, b: int|
            0 <= a < b < self.entries@.len() ==> self.entries@[a].0@ != self.entries@[b].0@
    }

    /// The mathematical contents: identifier to `(kind, payload)`.
    pub open spec fn contents(self) -> Map<Seq<u8>, (GitObjectType, Seq<u8>)> {
        map_of(self.entries@)
    }

    /// An empty store.
    pub fn new() -> (r: ObjectStore)
        ensures
            r.wf(),
            r.contents() == Map::<Seq<u8>, (GitObjectType, Seq<u8>)>::empty(),
    {
        ObjectStore { entries: Vec::new() }
    }

    /// How many objects the store holds.
    pub fn count(&self) -> (r: usize)
        ensures
            r == self.entries@.len(),
    {
        self.entries.len()
    }

    /// The object at position `i`, for mirroring the store to disk.
    pub fn object_at(&self, i: usize) -> (r: &GitObject)
        requires
            self.wf(),
            i < self.entries@.len(),
        ensures
            *r == self.entries@[i as int].1,
            r.wf(),
            self.contents().contains_key(r.oid()),
            self.contents()[r.oid()] == (r.object_type, r.content@),
    {
        proof {
            lemma_map_of_index(self.entries@, i as int);
        }
        &self.entries[i].1
    }

    /// The position of the entry keyed `oid`, if any.
    fn find(&self, oid: &Vec<u8>) -> (r: Option<usize>)
        requires
            self.wf(),
        ensures
            match r {
                Some(i) => i < self.entries@.len() && self.entries@[i as int].0@ == oid@,
                None => !self.contents().contains_key(oid@),
            },
    {
        let mut i: usize = 0;
        while i < self.entries.len()
            invariant
                i <= self.entries@.len(),
                forall|j: int| 0 <= j < i ==> self.entries@[j].0@ != oid@,
            decreases self.entries@.len() - i,
        {
            if bytes_eq(&self.entries[i].0, oid) {
                return Some(i);
            }
            i += 1;
        }
        proof {
            lemma_map_of_contains(self.entries@, oid@);
        }
        None
    }

    /// Is an object with this identifier present?
    pub fn has(&self, oid: &Vec<u8>) -> (r: bool)
        requires
            self.wf(),
        ensures
            r == self.contents().contains_key(oid@),
    {
        proof {
            lemma_map_of_contains(self.entries@, oid@);
        }
        match self.find(oid) {
            Some(i) => {
                proof {
                    assert(self.entries@[i as int].0@ == oid@);
                }
                true
            },
            None => false,
        }
    }

    /// Reads the object named `oid`; fails with `NotFound` exactly when it
    /// is absent.
    pub fn get(&self, oid: &Vec<u8>) -> (r: Result<(GitObjectType, Vec<u8>), GitError>)
        requires
            self.wf(),
        ensures
            match r {
                Ok(tp) => {
                    &&& self.contents().contains_key(oid@)
                    &&& self.contents()[oid@] == (tp.0, tp.1@)
                },
                Err(e) => e == GitError::NotFound && !self.contents().contains_key(oid@),
            },
    {
        match self.find(oid) {
            Some(i) => {
                proof {
                    lemma_map_of_index(self.entries@, i as int);
                }
                let c = &self.entries[i].1.content;
                let copied = sub_bytes(c, 0, c.len());
                proof {
                    assert(copied@ =~= self.entries@[i as int].1.content@);
                }
                Ok((self.entries[i].1.object_type, copied))
            },
            None => Err(GitError::NotFound),
        }
    }

    /// Inserts a fully formed object under its own identifier; a no-op
    /// when that identifier is already present.
    pub fn put_object(&mut self, obj: GitObject) -> (r: Vec<u8>)
        requires
            old(self).wf(),
            obj.wf(),
        ensures
            final(self).wf(),
            r@ == oid_of(obj.object_type, obj.content@),
            r@.len() == 20,
            final(self).contents() == store_after_put(
                old(self).contents(),
                obj.object_type,
                obj.content@,
            ),
    {
        let wrapped = encode_obj(obj.object_type, &obj.content);
        let oid = sha1_digest(&wrapped);
        proof {
            lemma_map_of_contains(self.entries@, oid@);
        }
        match self.find(&oid) {
            Some(i) => {
                proof {
                    assert(self.entries@[i as int].0@ == oid@);
                    lemma_map_of_contains(self.entries@, oid@);
                }
                oid
            },
            None => {
                let ghost t = obj.object_type;
                let ghost p = obj.content@;
                let key = sub_bytes(&oid, 0, oid.len());
                proof {
                    assert(key@ =~= oid@);
                }
                self.entries.push((key, obj));
                proof {
                    assert(self.entries@.drop_last() =~= old(self).entries@);
                    assert(self.entries@.last().0@ == oid_of(t, p));
                    assert(self.contents() =~= old(self).contents().insert(oid_of(t, p), (t, p)));
                }
                oid
            },
        }
    }

    /// Computes the identifier of `(t, p)`, then writes the object if it
    /// is absent. Returns the identifier either way.
    pub fn put(&mut self, t: GitObjectType, p: Vec<u8>) -> (r: Vec<u8>)
        requires
            old(self).wf(),
        ensures
            final(self).wf(),
            r@ == oid_of(t, p@),
            r@.len() == 20,
            final(self).contents() == store_after_put(old(self).contents(), t, p@),
    {
        let obj = GitObject::new(p, t);
        self.put_object(obj)
    }
}

} // verus!
