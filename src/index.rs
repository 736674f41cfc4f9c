//! The staging area: the snapshot of paths and blob hashes that the next
//! commit will record.
use vstd::prelude::*;
use crate::object::Tree;
use crate::text::{seq_lt, str_eq};

verus! {

/// One staged path: the hash of its staged content, that content's size and
/// the file's modification time (seconds since the Unix epoch).
#[derive(Clone, Debug)]
pub struct IndexEntry {
    pub path: String,
    pub hash: String,
    pub size: u64,
    pub modified: i64,
}

/// Staged entries, at most one per path.
#[derive(Clone, Debug)]
pub struct Index {
    pub entries: Vec<IndexEntry>,
}

impl Index {
    pub open spec fn has(&self, p: Seq<char>) -> bool {
        exists|i: int| 0 <= i < self.entries@.len() && self.entries@[i].path@ == p
    }

    pub open spec fn slot(&self, p: Seq<char>) -> int {
        choose|i: int| 0 <= i < self.entries@.len() && self.entries@[i].path@ == p
    }

    /// The staged blob hash of each path.
    pub open spec fn view(&self) -> Map<Seq<char>, Seq<char>> {
        Map::new(|p: Seq<char>| self.has(p), |p: Seq<char>| self.entries@[self.slot(p)].hash@)
    }

    /// Each staged path's hash, size and modification time.
    pub open spec fn info(&self) -> Map<Seq<char>, (Seq<char>, u64, i64)> {
        Map::new(
            |p: Seq<char>| self.has(p),
            |p: Seq<char>| (self.entries@[self.slot(p)].hash@, self.entries@[self.slot(p)].size, self.entries@[self.slot(p)].modified),
        )
    }

    pub open spec fn wf(&self) -> bool {
        forall|i: int, j: int|
            0 <= i < self.entries@.len() && 0 <= j < self.entries@.len() && i != j
                ==> (#[trigger] self.entries@[i]).path@ != (#[trigger] self.entries@[j]).path@
    }

    pub proof fn lemma_slot(&self, i: int)
        requires
            self.wf(),
            0 <= i < self.entries@.len(),
        ensures
            self.has(self.entries@[i].path@),
            self.slot(self.entries@[i].path@) == i,
            self@.contains_key(self.entries@[i].path@),
            self@[self.entries@[i].path@] == self.entries@[i].hash@,
            self.info().contains_key(self.entries@[i].path@),
            self.info()[self.entries@[i].path@] == (self.entries@[i].hash@, self.entries@[i].size, self.entries@[i].modified),
    {
        let p = self.entries@[i].path@;
        assert(self.has(p));
        let j = self.slot(p);
        assert(self.entries@[j].path@ == p);
    }

    pub fn new() -> (r: Index)
        ensures
            r.wf(),
            r@ == Map::<Seq<char>, Seq<char>>::empty(),
            r.info() == Map::<Seq<char>, (Seq<char>, u64, i64)>::empty(),
    {
        let r = Index { entries: Vec::new() };
        assert(r@ =~= Map::<Seq<char>, Seq<char>>::empty());
        assert(r.info() =~= Map::<Seq<char>, (Seq<char>, u64, i64)>::empty());
        r
    }

    fn find(&self, path: &str) -> (r: Option<usize>)
        requires
            self.wf(),
        ensures
            r is Some <==> self@.contains_key(path@),
            r matches Some(i) ==> i < self.entries@.len() && self.entries@[i as int].path@ == path@,
    {
        let mut i: usize = 0;
        while i < self.entries.len()
            invariant
                i <= self.entries@.len(),
                forall|k: int| 0 <= k < i ==> (#[trigger] self.entries@[k]).path@ != path@,
            decreases self.entries@.len() - i,
        {
            if str_eq(self.entries[i].path.as_str(), path) {
                return Some(i);
            }
            i = i + 1;
        }
        None
    }

    /// Stages `entry`, replacing what was staged under its path.
    pub fn add_entry(&mut self, entry: IndexEntry)
        requires
            old(self).wf(),
        ensures
            final(self).wf(),
            final(self)@ == old(self)@.insert(entry.path@, entry.hash@),
            final(self).info() == old(self).info().insert(entry.path@, (entry.hash@, entry.size, entry.modified)),
    {
        let ghost iv = (entry.hash@, entry.size, entry.modified);
        let ghost p = entry.path@;
        let ghost h = entry.hash@;
        let ghost o = self.entries@;
        match self.find(entry.path.as_str()) {
            Some(i) => {
                self.entries.remove(i);
                self.entries.insert(i, entry);
                proof {
                    let n = self.entries@;
                    assert(n =~= o.update(i as int, entry));
                    assert forall|a: int, b: int| 0 <= a < n.len() && 0 <= b < n.len() && a != b
                        implies (#[trigger] n[a]).path@ != (#[trigger] n[b]).path@ by {
                        assert(o[a].path@ != o[b].path@);
                    }
                    assert forall|k: Seq<char>| #![auto] self.has(k) == (old(self).has(k) || k == p) by {
                        if self.has(k) {
                            let j = self.slot(k);
                            assert(n[j].path@ == k);
                            if j != i {
                                assert(o[j].path@ == k);
                            }
                        }
                        if old(self).has(k) {
                            let j = old(self).slot(k);
                            assert(o[j].path@ == k);
                            if j == i {
                                assert(n[j].path@ == k);
                            } else {
                                assert(n[j].path@ == k);
                            }
                        }
                        if k == p {
                            assert(n[i as int].path@ == k);
                        }
                    }
                    assert forall|k: Seq<char>| #[trigger] self@.contains_key(k) implies self@[k] == old(self)@.insert(p, h)[k] by {
                        let j = self.slot(k);
                        self.lemma_slot(j);
                        if j != i {
                            old(self).lemma_slot(j);
                        }
                    }
                    assert(self@ =~= old(self)@.insert(p, h));
                    assert forall|k: Seq<char>| #[trigger] self.info().contains_key(k) implies self.info()[k] == old(self).info().insert(p, iv)[k] by {
                        let j = self.slot(k);
                        self.lemma_slot(j);
                        if j != i {
                            old(self).lemma_slot(j);
                        }
                    }
                    assert(self.info() =~= old(self).info().insert(p, iv));
                }
            },
            None => {
                self.entries.push(entry);
                proof {
                    let n = self.entries@;
                    assert forall|a: int| 0 <= a < o.len() implies (#[trigger] o[a]).path@ != p by {
                        old(self).lemma_slot(a);
                    }
                    assert forall|a: int, b: int| 0 <= a < n.len() && 0 <= b < n.len() && a != b
                        implies (#[trigger] n[a]).path@ != (#[trigger] n[b]).path@ by {
                        if a < o.len() && b < o.len() {
                            assert(o[a].path@ != o[b].path@);
                        } else if a < o.len() {
                            assert(o[a].path@ != p);
                        } else {
                            assert(o[b].path@ != p);
                        }
                    }
                    assert forall|k: Seq<char>| #![auto] self.has(k) == (old(self).has(k) || k == p) by {
                        if self.has(k) && k != p {
                            let j = self.slot(k);
                            assert(o[j].path@ == k);
                        }
                        if old(self).has(k) {
                            let j = old(self).slot(k);
                            assert(n[j].path@ == k);
                        }
                        if k == p {
                            assert(n[o.len() as int].path@ == k);
                        }
                    }
                    assert forall|k: Seq<char>| #[trigger] self@.contains_key(k) implies self@[k] == old(self)@.insert(p, h)[k] by {
                        let j = self.slot(k);
                        self.lemma_slot(j);
                        if j < o.len() {
                            old(self).lemma_slot(j);
                        }
                    }
                    assert(self@ =~= old(self)@.insert(p, h));
                    assert forall|k: Seq<char>| #[trigger] self.info().contains_key(k) implies self.info()[k] == old(self).info().insert(p, iv)[k] by {
                        let j = self.slot(k);
                        self.lemma_slot(j);
                        if j < o.len() {
                            old(self).lemma_slot(j);
                        }
                    }
                    assert(self.info() =~= old(self).info().insert(p, iv));
                }
            },
        }
    }

    /// Unstages `path`; nothing happens if it is not staged.
    pub fn remove_file(&mut self, path: &str)
        requires
            old(self).wf(),
        ensures
            final(self).wf(),
            final(self)@ == old(self)@.remove(path@),
            final(self).info() == old(self).info().remove(path@),
    {
        let ghost o = self.entries@;
        match self.find(path) {
            Some(i) => {
                self.entries.remove(i);
                proof {
                    let n = self.entries@;
                    assert(n =~= o.remove(i as int));
                    assert forall|a: int, b: int| 0 <= a < n.len() && 0 <= b < n.len() && a != b
                        implies (#[trigger] n[a]).path@ != (#[trigger] n[b]).path@ by {
                        let a2 = if a < i { a } else { a + 1 };
                        let b2 = if b < i { b } else { b + 1 };
                        assert(n[a] == o[a2] && n[b] == o[b2]);
                        assert(o[a2].path@ != o[b2].path@);
                    }
                    assert forall|k: Seq<char>| #![auto] self.has(k) == (old(self).has(k) && k != path@) by {
                        if self.has(k) {
                            let j = self.slot(k);
                            let j2 = if j < i { j } else { j + 1 };
                            assert(o[j2].path@ == k);
                            if k == path@ {
                                assert(o[i as int].path@ == k);
                            }
                        }
                        if old(self).has(k) && k != path@ {
                            let j = old(self).slot(k);
                            if j < i {
                                assert(n[j].path@ == k);
                            } else {
                                assert(n[j - 1].path@ == k);
                            }
                        }
                    }
                    assert forall|k: Seq<char>| #[trigger] self@.contains_key(k) implies self@[k] == old(self)@.remove(path@)[k] by {
                        let j = self.slot(k);
                        self.lemma_slot(j);
                        let j2 = if j < i { j } else { j + 1 };
                        assert(n[j] == o[j2]);
                        old(self).lemma_slot(j2);
                    }
                    assert(self@ =~= old(self)@.remove(path@));
                    assert forall|k: Seq<char>| #[trigger] self.info().contains_key(k) implies self.info()[k] == old(self).info().remove(path@)[k] by {
                        let j = self.slot(k);
                        self.lemma_slot(j);
                        let j2 = if j < i { j } else { j + 1 };
                        assert(n[j] == o[j2]);
                        old(self).lemma_slot(j2);
                    }
                    assert(self.info() =~= old(self).info().remove(path@));
                }
            },
            None => {
                assert(self@ =~= old(self)@.remove(path@));
                assert(self.info() =~= old(self).info().remove(path@));
            },
        }
    }

    pub fn is_staged(&self, path: &str) -> (r: bool)
        requires
            self.wf(),
        ensures
            r == self@.contains_key(path@),
    {
        self.find(path).is_some()
    }

    /// The staged paths, each once, in increasing order.
    pub fn get_staged_files(&self) -> (r: Vec<String>)
        requires
            self.wf(),
        ensures
            forall|k: int| 0 <= k < r@.len() ==> self@.contains_key((#[trigger] r@[k])@),
            forall|p: Seq<char>| #[trigger] self@.contains_key(p) ==> exists|k: int| 0 <= k < r@.len() && r@[k]@ == p,
            forall|a: int, b: int| 0 <= a < b < r@.len() ==> seq_lt((#[trigger] r@[a])@, (#[trigger] r@[b])@),
    {
        let mut t = Tree::new();
        let mut i: usize = 0;
        while i < self.entries.len()
            invariant
                self.wf(),
                t.wf(),
                i <= self.entries@.len(),
                forall|n: Seq<char>| #[trigger] t@.contains_key(n) <==> exists|j: int| 0 <= j < i && self.entries@[j].path@ == n,
            decreases self.entries@.len() - i,
        {
            let ghost t0 = t@;
            t.add_entry(self.entries[i].path.clone(), self.entries[i].hash.clone(), true);
            proof {
                assert forall|n: Seq<char>| #[trigger] t@.contains_key(n) <==> exists|j: int| 0 <= j < i + 1 && self.entries@[j].path@ == n by {
                    if n == self.entries@[i as int].path@ {
                        assert(self.entries@[i as int].path@ == n);
                    }
                    if exists|j: int| 0 <= j < i + 1 && self.entries@[j].path@ == n {
                        let j = choose|j: int| 0 <= j < i + 1 && self.entries@[j].path@ == n;
                        if j < i {
                            assert(t0.contains_key(n));
                        }
                    }
                }
            }
            i = i + 1;
        }
        let mut r: Vec<String> = Vec::new();
        let mut k: usize = 0;
        while k < t.entries.len()
            invariant
                t.wf(),
                self.wf(),
                forall|n: Seq<char>| #[trigger] t@.contains_key(n) <==> exists|j: int| 0 <= j < self.entries@.len() && self.entries@[j].path@ == n,
                k <= t.entries@.len(),
                r@.len() == k,
                forall|q: int| 0 <= q < k ==> (#[trigger] r@[q])@ == t.entries@[q].name@,
            decreases t.entries@.len() - k,
        {
            r.push(t.entries[k].name.clone());
            k = k + 1;
        }
        proof {
            assert forall|q: int| 0 <= q < r@.len() implies self@.contains_key((#[trigger] r@[q])@) by {
                crate::object::lemma_entries_map_at(t.entries@, q);
                assert(r@[q]@ == t.entries@[q].name@);
                assert(t@.contains_key(r@[q]@));
                let j = choose|j: int| 0 <= j < self.entries@.len() && self.entries@[j].path@ == r@[q]@;
                self.lemma_slot(j);
            }
            assert forall|p: Seq<char>| #[trigger] self@.contains_key(p) implies exists|q: int| 0 <= q < r@.len() && r@[q]@ == p by {
                let j = self.slot(p);
                assert(self.entries@[j].path@ == p);
                assert(t@.contains_key(p));
                let q = choose|q: int| 0 <= q < t.entries@.len() && t.entries@[q].name@ == p;
                assert(r@[q]@ == p);
            }
            assert forall|a: int, b: int| 0 <= a < b < r@.len() implies seq_lt((#[trigger] r@[a])@, (#[trigger] r@[b])@) by {
                assert(seq_lt(t.entries@[a].name@, t.entries@[b].name@));
            }
        }
        r
    }

    pub fn clear(&mut self)
        ensures
            final(self).wf(),
            final(self)@ == Map::<Seq<char>, Seq<char>>::empty(),
            final(self).info() == Map::<Seq<char>, (Seq<char>, u64, i64)>::empty(),
    {
        self.entries.clear();
        assert(self@ =~= Map::<Seq<char>, Seq<char>>::empty());
        assert(self.info() =~= Map::<Seq<char>, (Seq<char>, u64, i64)>::empty());
    }

    pub fn is_empty(&self) -> (r: bool)
        requires
            self.wf(),
        ensures
            r == (self@ == Map::<Seq<char>, Seq<char>>::empty()),
    {
        proof {
            if self.entries@.len() > 0 {
                self.lemma_slot(0);
                assert(self@.contains_key(self.entries@[0].path@));
            } else {
                assert(self@ =~= Map::<Seq<char>, Seq<char>>::empty());
            }
        }
        self.entries.len() == 0
    }
}

impl Default for Index {
    fn default() -> (r: Index)
        ensures
            r.wf(),
            r@ == Map::<Seq<char>, Seq<char>>::empty(),
    {
        Index::new()
    }
}

} // verus!
