//! The content-addressed object store: each object is kept once, under the
//! hash of its canonical bytes, and the parents of every stored commit are
//! themselves stored commits.
use vstd::prelude::*;
use crate::codec::{deserialize, encode, serialize};
use crate::error::VcsError;
use crate::hash::{calculate_hash, hash_of};
use crate::object::{Commit, Object};
use crate::text::{copy_strings, str_eq, strs_view};

verus! {

/// One stored object: its hash, its bytes, and, for a commit, its parents.
pub struct StoredObject {
    pub hash: String,
    pub data: Vec<u8>,
    pub parents: Option<Vec<String>>,
}

pub struct ObjectStore {
    pub objects: Vec<StoredObject>,
}

/// `data` encodes a commit with parents `ps`.
pub open spec fn commit_with_parents(data: Seq<u8>, ps: Seq<Seq<char>>) -> bool {
    exists|c: Commit| encode(Object::Commit(c)) == data && strs_view(c.parents@) == ps
}

/// Bytes that start as a commit but are no commit's encoding.
pub open spec fn bad_commit_bytes(d: Seq<u8>) -> bool {
    d.len() > 0 && d[0] == 0 && forall|c: Commit| #[trigger] encode(Object::Commit(c)) != d
}

/// What makes a set of stored objects unusable: bytes that start as a commit
/// but are none, two objects under one hash, or a commit whose parent is not
/// among the commits given.
pub open spec fn load_fault(objs: Seq<Seq<u8>>) -> bool {
    ||| exists|k: int| 0 <= k < objs.len() && bad_commit_bytes(#[trigger] objs[k])
    ||| exists|a: int, b: int| 0 <= a < objs.len() && 0 <= b < objs.len() && hash_of(#[trigger] objs[a]) == hash_of(#[trigger] objs[b])
        && objs[a] != objs[b]
    ||| exists|k: int, c: Commit, q: int|
        #![trigger objs[k], encode(Object::Commit(c)), c.parents@[q]]
        0 <= k < objs.len() && encode(Object::Commit(c)) == objs[k] && 0 <= q < c.parents@.len() && forall|j: int|
            0 <= j < objs.len() ==> hash_of(#[trigger] objs[j]) != c.parents@[q]@ || forall|c2: Commit|
                #[trigger] encode(Object::Commit(c2)) != objs[j]
}

/// The store after putting `data`: unchanged if its hash is already there.
pub open spec fn put_spec(m: Map<Seq<char>, Seq<u8>>, data: Seq<u8>) -> Map<Seq<char>, Seq<u8>> {
    if m.contains_key(hash_of(data)) {
        m
    } else {
        m.insert(hash_of(data), data)
    }
}

pub open spec fn same_strs(a: Seq<String>, b: Seq<String>) -> bool {
    strs_view(a) == strs_view(b)
}

impl ObjectStore {
    pub open spec fn has(&self, h: Seq<char>) -> bool {
        exists|i: int| 0 <= i < self.objects@.len() && self.objects@[i].hash@ == h
    }

    pub open spec fn slot(&self, h: Seq<char>) -> int {
        choose|i: int| 0 <= i < self.objects@.len() && self.objects@[i].hash@ == h
    }

    /// The stored bytes, by hash.
    #[verifier::opaque]
    pub open spec fn view(&self) -> Map<Seq<char>, Seq<u8>> {
        Map::new(|h: Seq<char>| self.has(h), |h: Seq<char>| self.objects@[self.slot(h)].data@)
    }

    /// The commit graph: each stored commit's hash and its parents, in order.
    #[verifier::opaque]
    pub open spec fn graph(&self) -> Map<Seq<char>, Seq<Seq<char>>> {
        Map::new(
            |h: Seq<char>| self.has(h) && self.objects@[self.slot(h)].parents is Some,
            |h: Seq<char>| strs_view(self.objects@[self.slot(h)].parents->0@),
        )
    }

    pub open spec fn unique(&self) -> bool {
        forall|i: int, j: int|
            0 <= i < self.objects@.len() && 0 <= j < self.objects@.len() && i != j
                ==> (#[trigger] self.objects@[i]).hash@ != (#[trigger] self.objects@[j]).hash@
    }

    /// Each entry sits under its own hash, and carries parents exactly when it is a commit.
    pub open spec fn wf_entries(&self) -> bool {
        &&& self.unique()
        &&& forall|i: int| 0 <= i < self.objects@.len() ==> (#[trigger] self.objects@[i]).hash@ == hash_of(
            self.objects@[i].data@,
        )
        &&& forall|i: int| 0 <= i < self.objects@.len() ==> match (#[trigger] self.objects@[i]).parents {
            Some(ps) => commit_with_parents(self.objects@[i].data@, strs_view(ps@)),
            None => self.objects@[i].data@.len() == 0 || self.objects@[i].data@[0] != 0,
        }
    }

    /// Putting `o` would meet other bytes under its hash: the only way a put fails.
    pub open spec fn collides(&self, o: Object) -> bool {
        let h = hash_of(encode(o));
        self@.contains_key(h) && self@[h] != encode(o)
    }

    /// Every parent of a stored commit is a stored commit.
    pub open spec fn closed(&self) -> bool {
        forall|h: Seq<char>, k: int|
            #![trigger self.graph()[h][k]]
            self.graph().contains_key(h) && 0 <= k < self.graph()[h].len() ==> self.graph().contains_key(
                self.graph()[h][k],
            )
    }

    pub open spec fn wf(&self) -> bool {
        self.wf_entries() && self.closed()
    }

    pub proof fn lemma_slot(&self, i: int)
        requires
            self.unique(),
            0 <= i < self.objects@.len(),
        ensures
            self.has(self.objects@[i].hash@),
            self.slot(self.objects@[i].hash@) == i,
            self@.contains_key(self.objects@[i].hash@),
            self@[self.objects@[i].hash@] == self.objects@[i].data@,
            self.graph().contains_key(self.objects@[i].hash@) == self.objects@[i].parents is Some,
            self.objects@[i].parents is Some ==> self.graph()[self.objects@[i].hash@] == strs_view(
                self.objects@[i].parents->0@,
            ),
    {
        reveal(ObjectStore::graph);
        reveal(ObjectStore::view);
        let h = self.objects@[i].hash@;
        assert(self.has(h));
        let j = self.slot(h);
        assert(self.objects@[j].hash@ == h);
    }

    pub fn new() -> (r: ObjectStore)
        ensures
            r.wf(),
            r@ == Map::<Seq<char>, Seq<u8>>::empty(),
            r.graph() == Map::<Seq<char>, Seq<Seq<char>>>::empty(),
    {
        reveal(ObjectStore::graph);
        reveal(ObjectStore::view);
        let r = ObjectStore { objects: Vec::new() };
        assert(r@ =~= Map::<Seq<char>, Seq<u8>>::empty());
        assert(r.graph() =~= Map::<Seq<char>, Seq<Seq<char>>>::empty());
        r
    }

    /// The position of the object stored under `h`.
    pub fn find(&self, h: &str) -> (r: Option<usize>)
        requires
            self.unique(),
        ensures
            r is Some <==> self@.contains_key(h@),
            r matches Some(i) ==> i < self.objects@.len() && self.objects@[i as int].hash@ == h@,
    {
        reveal(ObjectStore::graph);
        reveal(ObjectStore::view);
        let mut i: usize = 0;
        while i < self.objects.len()
            invariant
                i <= self.objects@.len(),
                forall|k: int| 0 <= k < i ==> (#[trigger] self.objects@[k]).hash@ != h@,
            decreases self.objects@.len() - i,
        {
            proof {
                reveal(ObjectStore::view);
            }
            if str_eq(self.objects[i].hash.as_str(), h) {
                return Some(i);
            }
            i = i + 1;
        }
        None
    }

    /// Whether an object is stored under `h`.
    pub fn contains(&self, h: &str) -> (r: bool)
        requires
            self.unique(),
        ensures
            r == self@.contains_key(h@),
    {
        reveal(ObjectStore::graph);
        reveal(ObjectStore::view);
        self.find(h).is_some()
    }

    /// Whether a commit is stored under `h`.
    pub fn has_commit(&self, h: &str) -> (r: bool)
        requires
            self.wf(),
        ensures
            r == self.graph().contains_key(h@),
    {
        reveal(ObjectStore::graph);
        reveal(ObjectStore::view);
        match self.find(h) {
            Some(i) => {
                proof {
                    self.lemma_slot(i as int);
                }
                self.objects[i].parents.is_some()
            },
            None => false,
        }
    }

    /// The parents of the commit stored under `h`.
    pub fn parents_of(&self, h: &str) -> (r: Option<Vec<String>>)
        requires
            self.wf(),
        ensures
            r is Some <==> self.graph().contains_key(h@),
            r matches Some(ps) ==> strs_view(ps@) == self.graph()[h@],
    {
        reveal(ObjectStore::graph);
        reveal(ObjectStore::view);
        match self.find(h) {
            Some(i) => {
                proof {
                    self.lemma_slot(i as int);
                }
                match &self.objects[i].parents {
                    Some(ps) => Some(copy_strings(ps)),
                    None => None,
                }
            },
            None => None,
        }
    }

    /// The bytes stored under `h`.
    pub fn get_bytes(&self, h: &str) -> (r: Option<&Vec<u8>>)
        requires
            self.unique(),
        ensures
            r is Some <==> self@.contains_key(h@),
            r matches Some(d) ==> d@ == self@[h@],
    {
        reveal(ObjectStore::graph);
        reveal(ObjectStore::view);
        match self.find(h) {
            Some(i) => {
                proof {
                    self.lemma_slot(i as int);
                }
                Some(&self.objects[i].data)
            },
            None => None,
        }
    }

    /// Reads the object stored under `h`: `NotFound` if there is none,
    /// `Integrity` if its bytes are not an object's encoding. A commit of the
    /// graph loads as a commit with exactly its recorded parents.
    pub fn load_object(&self, h: &str) -> (r: Result<Object, VcsError>)
        requires
            self.wf_entries(),
        ensures
            self.graph().contains_key(h@) ==> (r matches Ok(Object::Commit(c)) && strs_view(c.parents@) == self.graph()[h@]),
            r == Err::<Object, VcsError>(VcsError::NotFound) <==> !self@.contains_key(h@),
            r matches Err(e) ==> e == VcsError::NotFound || e == VcsError::Integrity,
            r == Err::<Object, VcsError>(VcsError::Integrity) ==> forall|o: Object| o.wf() ==> #[trigger] encode(o) != self@[h@],
            r matches Ok(o) ==> o.wf() && encode(o) == self@[h@],
    {
        reveal(ObjectStore::graph);
        reveal(ObjectStore::view);
        match self.get_bytes(h) {
            Some(d) => {
                let _len = d.len();
                match deserialize(d.as_slice()) {
                    Some(o) => {
                        proof {
                            if self.graph().contains_key(h@) {
                                self.lemma_graph_decodes(h@, o);
                            }
                        }
                        Ok(o)
                    },
                    None => {
                        proof {
                            if self.graph().contains_key(h@) {
                                let i = self.slot(h@);
                                self.lemma_slot(i);
                                let ps = self.objects@[i].parents->0;
                                let c0 = choose|c: Commit| encode(Object::Commit(c)) == self.objects@[i].data@ && strs_view(c.parents@) == strs_view(ps@);
                                assert(Object::Commit(c0).wf());
                            }
                        }
                        Err(VcsError::Integrity)
                    },
                }
            },
            None => Err(VcsError::NotFound),
        }
    }

    /// Whatever encodes the bytes of a graph commit is that commit, with its recorded parents.
    proof fn lemma_graph_decodes(&self, h: Seq<char>, o: Object)
        requires
            self.wf_entries(),
            self.graph().contains_key(h),
            encode(o) == self@[h],
            self@[h].len() <= 0xffff_ffff_ffff_ffff,
        ensures
            o matches Object::Commit(c) && strs_view(c.parents@) == self.graph()[h],
    {
        reveal(ObjectStore::graph);
        reveal(ObjectStore::view);
        let i = self.slot(h);
        self.lemma_slot(i);
        let ps = self.objects@[i].parents->0;
        let c0 = choose|c: Commit| encode(Object::Commit(c)) == self.objects@[i].data@ && strs_view(c.parents@) == strs_view(ps@);
        assert(encode(Object::Commit(c0))[0] == 0);
        if let Object::Commit(c) = o {
            crate::codec::lemma_commit_parents_determined(c, c0);
        } else {
            assert(encode(o)[0] != 0);
        }
    }

    /// Appends an entry whose hash is not stored yet.
    fn push_new(&mut self, e: StoredObject)
        requires
            old(self).wf_entries(),
            !old(self)@.contains_key(e.hash@),
            e.hash@ == hash_of(e.data@),
            match e.parents {
                Some(ps) => commit_with_parents(e.data@, strs_view(ps@)),
                None => e.data@.len() == 0 || e.data@[0] != 0,
            },
        ensures
            final(self).wf_entries(),
            final(self).objects@.len() == old(self).objects@.len() + 1,
            final(self)@ == old(self)@.insert(e.hash@, e.data@),
            e.parents is Some ==> final(self).graph() == old(self).graph().insert(
                e.hash@,
                strs_view(e.parents->0@),
            ),
            e.parents is None ==> final(self).graph() == old(self).graph(),
    {
        reveal(ObjectStore::graph);
        reveal(ObjectStore::view);
        let ghost o = old(self).objects@;
        let ghost h = e.hash@;
        let ghost ev = e;
        self.objects.push(e);
        let ghost n = self.objects@;
        proof {
        assert forall|i: int| 0 <= i < o.len() implies (#[trigger] o[i]).hash@ != h by {
            old(self).lemma_slot(i);
        }
        assert(self.unique());
        assert forall|k: Seq<char>| #![auto] self.has(k) == (old(self).has(k) || k == h) by {
            if self.has(k) && k != h {
                let i = self.slot(k);
                assert(o[i].hash@ == k);
            }
            if old(self).has(k) {
                let i = old(self).slot(k);
                assert(n[i].hash@ == k);
            }
            if k == h {
                assert(n[o.len() as int].hash@ == k);
            }
        }
        assert forall|k: Seq<char>| #![auto] old(self).has(k) implies self.slot(k) == old(self).slot(k) by {
            let i = old(self).slot(k);
            self.lemma_slot(i);
            assert(n[i] == o[i]);
        }
        self.lemma_slot(o.len() as int);
        assert(self@ =~= old(self)@.insert(h, ev.data@));
        if ev.parents is Some {
            assert(self.graph() =~= old(self).graph().insert(h, strs_view(ev.parents->0@)));
        } else {
            assert(self.graph() =~= old(self).graph());
        }
        }
    }

    /// Puts an object: stores its canonical bytes under their hash, unless
    /// that hash is stored already. `Integrity` only where the hash is stored
    /// with other bytes or, for a commit, other parents.
    pub fn store_object(&mut self, o: &Object) -> (r: Result<String, VcsError>)
        requires
            old(self).wf(),
            o.wf(),
            o matches Object::Commit(c) ==> forall|k: int| 0 <= k < c.parents@.len()
                ==> old(self).graph().contains_key(#[trigger] c.parents@[k]@),
        ensures
            final(self).wf(),
            r matches Ok(h) ==> h@ == hash_of(encode(*o)) && final(self)@ == put_spec(old(self)@, encode(*o))
                && final(self)@[h@] == encode(*o),
            r matches Ok(h) ==> (o matches Object::Commit(c) ==> final(self).graph() == old(self).graph().insert(
                h@,
                strs_view(c.parents@),
            )),
            r matches Ok(h) ==> (!(o is Commit) ==> final(self).graph() == old(self).graph()),
            r matches Ok(h) ==> final(self).objects@.len() == old(self).objects@.len() + (if old(self)@.contains_key(h@) {
                0int
            } else {
                1int
            }),
            r is Err <==> old(self).collides(*o),
            r matches Err(e) ==> e == VcsError::Integrity && *final(self) == *old(self),
    {
        reveal(ObjectStore::graph);
        reveal(ObjectStore::view);
        let data = serialize(o);
        let _len = data.len();
        let hash = calculate_hash(data.as_slice());
        let parents: Option<Vec<String>> = match o {
            Object::Commit(c) => Some(copy_strings(&c.parents)),
            _ => None,
        };
        match self.find(hash.as_str()) {
            Some(i) => {
                proof {
                    self.lemma_slot(i as int);
                }
                if !bytes_eq(self.objects[i].data.as_slice(), data.as_slice()) {
                    return Err(VcsError::Integrity);
                }
                match (&self.objects[i].parents, &parents) {
                    (Some(a), Some(b)) => {
                        if !strings_eq(a, b) {
                            proof {
                                self.lemma_graph_decodes(hash@, *o);
                            }
                            return Err(VcsError::Integrity);
                        }
                    },
                    (None, None) => {},
                    _ => {
                        proof {
                            let ent = self.objects@[i as int];
                            assert(encode(*o)[0] == 0 <==> o is Commit);
                            if ent.parents is Some {
                                let ps = ent.parents->0;
                                let c = choose|c: Commit| encode(Object::Commit(c)) == ent.data@ && strs_view(c.parents@) == strs_view(ps@);
                                assert(encode(Object::Commit(c))[0] == 0);
                            }
                        }
                        return Err(VcsError::Integrity);
                    },
                }
                proof {
                    if let Object::Commit(c) = o {
                        assert(self.graph() =~= self.graph().insert(hash@, strs_view(c.parents@)));
                    }
                }
                Ok(hash)
            },
            None => {
                let ghost old_graph = self.graph();
                let e = StoredObject { hash: hash.clone(), data, parents };
                proof {
                    if let Object::Commit(c) = o {
                        assert(commit_with_parents(e.data@, strs_view(c.parents@)));
                    }
                }
                self.push_new(e);
                proof {
                    assert forall|h: Seq<char>, k: int|
                        #![trigger self.graph()[h][k]]
                        self.graph().contains_key(h) && 0 <= k < self.graph()[h].len()
                            implies self.graph().contains_key(self.graph()[h][k]) by {
                        if h != hash@ {
                            assert(old_graph.contains_key(h));
                            assert(old_graph[h][k] == self.graph()[h][k]);
                        } else if let Object::Commit(c) = o {
                            assert(self.graph()[h][k] == c.parents@[k]@);
                        }
                    }
                }
                Ok(hash)
            },
        }
    }
}

impl ObjectStore {
    /// Adds bytes read back from storage, under their hash. `Integrity` where
    /// they start as a commit but are not one, or where other bytes are
    /// stored under the same hash.
    fn put_raw(&mut self, data: Vec<u8>) -> (r: Result<(), VcsError>)
        requires
            old(self).wf_entries(),
        ensures
            final(self).wf_entries(),
            r is Ok ==> final(self)@ == put_spec(old(self)@, data@) && final(self)@[hash_of(data@)] == data@,
            r is Err ==> bad_commit_bytes(data@) || (old(self)@.contains_key(hash_of(data@)) && old(self)@[hash_of(data@)] != data@),
    {
        reveal(ObjectStore::graph);
        reveal(ObjectStore::view);
        let hash = calculate_hash(data.as_slice());
        match self.find(hash.as_str()) {
            Some(i) => {
                proof {
                    self.lemma_slot(i as int);
                }
                if bytes_eq(self.objects[i].data.as_slice(), data.as_slice()) {
                    return Ok(());
                }
                return Err(VcsError::Integrity);
            },
            None => {},
        }
        let parents: Option<Vec<String>> = match deserialize(data.as_slice()) {
            Some(Object::Commit(c)) => Some(c.parents),
            Some(o) => {
                if data.len() > 0 && data[0] == 0 {
                    proof {
                        assert(encode(o)[0] == data@[0]);
                    }
                    return Err(VcsError::Integrity);
                }
                None
            },
            None => {
                if data.len() > 0 && data[0] == 0 {
                    proof {
                        assert forall|c: Commit| #[trigger] encode(Object::Commit(c)) != data@ by {
                            assert(Object::Commit(c).wf());
                        }
                    }
                    return Err(VcsError::Integrity);
                }
                None
            },
        };
        let e = StoredObject { hash, data, parents };
        self.push_new(e);
        Ok(())
    }

    /// A store holding the given objects' bytes. `Integrity` only where some
    /// bytes start as a commit but are not one, two objects differ under one
    /// hash, or a commit's parent is not among the commits given.
    pub fn from_objects(objects: Vec<Vec<u8>>) -> (r: Result<ObjectStore, VcsError>)
        ensures
            r matches Ok(s) ==> s.wf() && forall|k: int| 0 <= k < objects@.len() ==> #[trigger] s@.contains_key(hash_of(objects@[k]@))
                && s@[hash_of(objects@[k]@)] == objects@[k]@,
            r matches Err(e) ==> e == VcsError::Integrity && load_fault(objects@.map_values(|v: Vec<u8>| v@)),
    {
        let ghost objs = objects@.map_values(|v: Vec<u8>| v@);
        let mut s = ObjectStore::new();
        let mut i: usize = 0;
        while i < objects.len()
            invariant
                s.wf_entries(),
                i <= objects@.len(),
                objs == objects@.map_values(|v: Vec<u8>| v@),
                forall|k: int| 0 <= k < i ==> #[trigger] s@.contains_key(hash_of(objects@[k]@)) && s@[hash_of(objects@[k]@)] == objects@[k]@,
                forall|h: Seq<char>| #[trigger] s@.contains_key(h) ==> exists|k: int| 0 <= k < i && hash_of(objects@[k]@) == h,
            decreases objects@.len() - i,
        {
            reveal(ObjectStore::view);
            let ghost before = s@;
            match s.put_raw(objects[i].clone()) {
                Ok(()) => {},
                Err(_) => {
                    proof {
                        assert(objs[i as int] == objects@[i as int]@);
                        if !bad_commit_bytes(objects@[i as int]@) {
                            let h = hash_of(objects@[i as int]@);
                            let k = choose|k: int| 0 <= k < i && hash_of(objects@[k]@) == h;
                            assert(objs[k] == objects@[k]@);
                            assert(hash_of(objs[k]) == hash_of(objs[i as int]) && objs[k] != objs[i as int]);
                        }
                    }
                    return Err(VcsError::Integrity);
                },
            }
            proof {
                assert forall|k: int| 0 <= k < i + 1 implies #[trigger] s@.contains_key(hash_of(objects@[k]@)) && s@[hash_of(objects@[k]@)] == objects@[k]@ by {
                    if k < i {
                        assert(before.contains_key(hash_of(objects@[k]@)));
                    }
                }
                assert forall|h: Seq<char>| #[trigger] s@.contains_key(h) implies exists|k: int| 0 <= k < i + 1 && hash_of(objects@[k]@) == h by {
                    if before.contains_key(h) {
                        let k = choose|k: int| 0 <= k < i && hash_of(objects@[k]@) == h;
                        assert(0 <= k < i + 1 && hash_of(objects@[k]@) == h);
                    } else {
                        assert(hash_of(objects@[i as int]@) == h);
                    }
                }
            }
            i = i + 1;
        }
        let mut j: usize = 0;
        while j < s.objects.len()
            invariant
                s.wf_entries(),
                j <= s.objects@.len(),
                i == objects@.len(),
                objs == objects@.map_values(|v: Vec<u8>| v@),
                forall|k: int| 0 <= k < i ==> #[trigger] s@.contains_key(hash_of(objects@[k]@)) && s@[hash_of(objects@[k]@)] == objects@[k]@,
                forall|h: Seq<char>| #[trigger] s@.contains_key(h) ==> exists|k: int| 0 <= k < i && hash_of(objects@[k]@) == h,
                forall|m: int, k: int| #![trigger s.objects@[m].parents->0@[k]]
                    0 <= m < j && s.objects@[m].parents is Some && 0 <= k < s.objects@[m].parents->0@.len()
                    ==> s.graph().contains_key(s.objects@[m].parents->0@[k]@),
            decreases s.objects@.len() - j,
        {
            match &s.objects[j].parents {
                Some(ps) => {
                    let mut k: usize = 0;
                    while k < ps.len()
                        invariant
                            s.wf_entries(),
                            j < s.objects@.len(),
                            s.objects@[j as int].parents == Some(*ps),
                            objs == objects@.map_values(|v: Vec<u8>| v@),
                            forall|k2: int| 0 <= k2 < objects@.len() ==> #[trigger] s@.contains_key(hash_of(objects@[k2]@)) && s@[hash_of(objects@[k2]@)] == objects@[k2]@,
                            forall|h: Seq<char>| #[trigger] s@.contains_key(h) ==> exists|k2: int| 0 <= k2 < objects@.len() && hash_of(objects@[k2]@) == h,
                            k <= ps@.len(),
                            forall|q: int| 0 <= q < k ==> s.graph().contains_key((#[trigger] ps@[q])@),
                        decreases ps@.len() - k,
                    {
                        if !s.has_commit_entries(ps[k].as_str()) {
                            proof {
                                s.lemma_fault_dangling(objects@, objs, j as int, k as int);
                            }
                            return Err(VcsError::Integrity);
                        }
                        k = k + 1;
                    }
                },
                None => {},
            }
            j = j + 1;
        }
        proof {
            reveal(ObjectStore::graph);
            assert forall|h: Seq<char>, k: int|
                #![trigger s.graph()[h][k]]
                s.graph().contains_key(h) && 0 <= k < s.graph()[h].len() implies s.graph().contains_key(s.graph()[h][k]) by {
                let m = s.slot(h);
                s.lemma_slot(m);
                assert(s.objects@[m].parents->0@[k]@ == s.graph()[h][k]);
            }
        }
        Ok(s)
    }

    proof fn lemma_fault_dangling(&self, objects: Seq<Vec<u8>>, objs: Seq<Seq<u8>>, m: int, q: int)
        requires
            self.wf_entries(),
            objs == objects.map_values(|v: Vec<u8>| v@),
            0 <= m < self.objects@.len(),
            self.objects@[m].parents is Some,
            0 <= q < self.objects@[m].parents->0@.len(),
            !self.graph().contains_key(self.objects@[m].parents->0@[q]@),
            forall|k: int| 0 <= k < objects.len() ==> #[trigger] self@.contains_key(hash_of(objects[k]@)) && self@[hash_of(objects[k]@)] == objects[k]@,
            forall|h: Seq<char>| #[trigger] self@.contains_key(h) ==> exists|k: int| 0 <= k < objects.len() && hash_of(objects[k]@) == h,
        ensures
            load_fault(objs),
    {
        reveal(ObjectStore::graph);
        reveal(ObjectStore::view);
        let ent = self.objects@[m];
        let ps = ent.parents->0;
        let c = choose|c: Commit| encode(Object::Commit(c)) == ent.data@ && strs_view(c.parents@) == strs_view(ps@);
        self.lemma_slot(m);
        let km = choose|k: int| 0 <= k < objects.len() && hash_of(objects[k]@) == ent.hash@;
        assert(objs[km] == objects[km]@);
        assert(objects[km]@ == ent.data@);
        assert(c.parents@.len() == strs_view(c.parents@).len());
        let p = c.parents@[q]@;
        assert(p == strs_view(ps@)[q]);
        assert forall|jj: int| 0 <= jj < objs.len() implies hash_of(objs[jj]) != p
            || forall|c2: Commit| #[trigger] encode(Object::Commit(c2)) != objs[jj] by {
            assert(objs[jj] == objects[jj]@);
            if hash_of(objs[jj]) == p {
                assert(self@.contains_key(p));
                assert(self.has(p));
                let sl = self.slot(p);
                self.lemma_slot(sl);
                assert(self.objects@[sl].parents is None);
                assert forall|c2: Commit| #[trigger] encode(Object::Commit(c2)) != objs[jj] by {
                    assert(encode(Object::Commit(c2))[0] == 0);
                }
            }
        }
    }

    fn has_commit_entries(&self, h: &str) -> (r: bool)
        requires
            self.unique(),
        ensures
            r == self.graph().contains_key(h@),
    {
        reveal(ObjectStore::graph);
        reveal(ObjectStore::view);
        match self.find(h) {
            Some(i) => {
                proof {
                    self.lemma_slot(i as int);
                }
                self.objects[i].parents.is_some()
            },
            None => false,
        }
    }
}

/// Whether two byte strings are equal.
pub fn bytes_eq(a: &[u8], b: &[u8]) -> (r: bool)
    ensures
        r == (a@ == b@),
{
    reveal(ObjectStore::graph);
    reveal(ObjectStore::view);
    if a.len() != b.len() {
        return false;
    }
    let mut i: usize = 0;
    while i < a.len()
        invariant
            a@.len() == b@.len(),
            i <= a@.len(),
            forall|k: int| 0 <= k < i ==> a@[k] == b@[k],
        decreases a@.len() - i,
    {
        if a[i] != b[i] {
            return false;
        }
        i = i + 1;
    }
    assert(a@ =~= b@);
    true
}

/// Whether two lists of strings hold the same strings, in order.
pub fn strings_eq(a: &Vec<String>, b: &Vec<String>) -> (r: bool)
    ensures
        r == (strs_view(a@) == strs_view(b@)),
{
    reveal(ObjectStore::graph);
    reveal(ObjectStore::view);
    if a.len() != b.len() {
        proof {
            if strs_view(a@) == strs_view(b@) {
                assert(strs_view(a@).len() == strs_view(b@).len());
            }
        }
        return false;
    }
    let mut i: usize = 0;
    while i < a.len()
        invariant
            a@.len() == b@.len(),
            i <= a@.len(),
            forall|k: int| 0 <= k < i ==> (#[trigger] a@[k])@ == b@[k]@,
        decreases a@.len() - i,
    {
        if !str_eq(a[i].as_str(), b[i].as_str()) {
            proof {
                assert(strs_view(a@)[i as int] != strs_view(b@)[i as int]);
            }
            return false;
        }
        i = i + 1;
    }
    assert(strs_view(a@) =~= strs_view(b@));
    true
}

} // verus!
