//! A repository: the object store, the branches, HEAD and the index, with the
//! operations that move them together.
use vstd::prelude::*;
use crate::codec::{blob_bytes, encode};
use crate::error::VcsError;
use crate::graph::{is_ancestor, is_merge_base, merge_base};
use crate::hash::hash_of;
use crate::index::{Index, IndexEntry};
use crate::merge::{merge_outcome, conflicts_of, merge_commits, merged_tree_of, root_corrupt, root_missing, root_tree, Conflict, MergeResult};
use crate::object::{Blob, Commit, EntryView, Object, Tree};
use crate::store::{load_fault, ObjectStore, put_spec};
use crate::text::{seq_lt, occurs_at, starts_with_str, str_eq, strs_view, trim, trim_str};
use vstd::string::StringExecFns;

verus! {

/// A named pointer to a commit.
#[derive(Clone, Debug)]
pub struct Branch {
    pub name: String,
    pub commit: String,
}

impl Branch {
    pub fn new(name: String, commit: String) -> (r: Branch)
        ensures
            r.name@ == name@,
            r.commit@ == commit@,
    {
        Branch { name, commit }
    }
}

/// What HEAD holds: a branch name, or a commit hash directly.
#[derive(Clone, Debug)]
pub enum Head {
    Branch(String),
    Detached(String),
}

pub struct Repository {
    pub store: ObjectStore,
    pub branches: Vec<Branch>,
    pub head: Head,
    pub index: Index,
}

/// The tree that records a staging snapshot: each path as a file with its staged hash.
pub open spec fn staged_tree(m: Map<Seq<char>, Seq<char>>) -> Map<Seq<char>, EntryView> {
    Map::new(|p: Seq<char>| m.contains_key(p), |p: Seq<char>| (m[p], true))
}

/// What a merge did.
pub enum MergeOutcome {
    /// The other branch points at the current commit already.
    UpToDate,
    /// A merge commit was made and the current branch moved to it.
    Merged(String),
    /// Paths conflicted: nothing was committed and no ref moved.
    Conflicts(MergeResult),
}

impl Repository {
    pub open spec fn has_branch(&self, n: Seq<char>) -> bool {
        exists|i: int| 0 <= i < self.branches@.len() && self.branches@[i].name@ == n
    }

    pub open spec fn branch_slot(&self, n: Seq<char>) -> int {
        choose|i: int| 0 <= i < self.branches@.len() && self.branches@[i].name@ == n
    }

    /// Branch names and the commits they name.
    pub open spec fn refs(&self) -> Map<Seq<char>, Seq<char>> {
        Map::new(|n: Seq<char>| self.has_branch(n), |n: Seq<char>| self.branches@[self.branch_slot(n)].commit@)
    }

    /// The commit HEAD resolves to, if any.
    pub open spec fn head_commit(&self) -> Option<Seq<char>> {
        match self.head {
            Head::Branch(b) => if self.refs().contains_key(b@) {
                Some(self.refs()[b@])
            } else {
                None
            },
            Head::Detached(h) => Some(h@),
        }
    }

    /// The checked-out branch, if HEAD names one.
    pub open spec fn current_branch(&self) -> Option<Seq<char>> {
        match self.head {
            Head::Branch(b) => Some(b@),
            Head::Detached(_) => None,
        }
    }

    pub open spec fn wf(&self) -> bool {
        &&& self.store.wf()
        &&& self.index.wf()
        &&& forall|i: int, j: int|
            0 <= i < self.branches@.len() && 0 <= j < self.branches@.len() && i != j
                ==> (#[trigger] self.branches@[i]).name@ != (#[trigger] self.branches@[j]).name@
        &&& forall|i: int| 0 <= i < self.branches@.len() ==> self.store.graph().contains_key((#[trigger] self.branches@[i]).commit@)
        &&& self.head matches Head::Detached(h) ==> self.store.graph().contains_key(h@)
    }

    proof fn lemma_branch_slot(&self, i: int)
        requires
            self.wf(),
            0 <= i < self.branches@.len(),
        ensures
            self.refs().contains_key(self.branches@[i].name@),
            self.branch_slot(self.branches@[i].name@) == i,
            self.refs()[self.branches@[i].name@] == self.branches@[i].commit@,
    {
        let n = self.branches@[i].name@;
        assert(self.has_branch(n));
        let j = self.branch_slot(n);
        assert(self.branches@[j].name@ == n);
    }

    proof fn lemma_refs_in_graph(&self)
        requires
            self.wf(),
        ensures
            forall|n: Seq<char>| #[trigger] self.refs().contains_key(n) ==> self.store.graph().contains_key(self.refs()[n]),
            self.head_commit() matches Some(h) ==> self.store.graph().contains_key(h),
    {
        assert forall|n: Seq<char>| #[trigger] self.refs().contains_key(n) implies self.store.graph().contains_key(self.refs()[n]) by {
            self.lemma_branch_slot(self.branch_slot(n));
        }
    }

    /// A new, empty repository: no objects, no branches, HEAD on `main`, nothing staged.
    pub fn new() -> (r: Repository)
        ensures
            r.wf(),
            r.store@ == Map::<Seq<char>, Seq<u8>>::empty(),
            r.refs() == Map::<Seq<char>, Seq<char>>::empty(),
            r.current_branch() == Some("main"@),
            r.head_commit() is None,
            r.index@ == Map::<Seq<char>, Seq<char>>::empty(),
    {
        let r = Repository { store: ObjectStore::new(), branches: Vec::new(), head: Head::Branch("main".to_string()), index: Index::new() };
        assert(r.refs() =~= Map::<Seq<char>, Seq<char>>::empty());
        r
    }

    fn find_branch(&self, name: &str) -> (r: Option<usize>)
        requires
            self.wf(),
        ensures
            r is Some <==> self.refs().contains_key(name@),
            r matches Some(i) ==> i < self.branches@.len() && self.branches@[i as int].name@ == name@,
    {
        let mut i: usize = 0;
        while i < self.branches.len()
            invariant
                i <= self.branches@.len(),
                forall|k: int| 0 <= k < i ==> (#[trigger] self.branches@[k]).name@ != name@,
            decreases self.branches@.len() - i,
        {
            if str_eq(self.branches[i].name.as_str(), name) {
                return Some(i);
            }
            i = i + 1;
        }
        None
    }

    /// The commit that branch `name` names.
    pub fn resolve_ref(&self, name: &str) -> (r: Option<String>)
        requires
            self.wf(),
        ensures
            r is Some <==> self.refs().contains_key(name@),
            r matches Some(h) ==> h@ == self.refs()[name@],
    {
        match self.find_branch(name) {
            Some(i) => {
                proof {
                    self.lemma_branch_slot(i as int);
                }
                Some(self.branches[i].commit.clone())
            },
            None => None,
        }
    }

    /// The checked-out branch; `None` when HEAD is detached.
    pub fn get_current_branch(&self) -> (r: Option<String>)
        ensures
            r matches Some(b) ==> self.current_branch() == Some(b@),
            r is None ==> self.current_branch() is None,
    {
        match &self.head {
            Head::Branch(b) => Some(b.clone()),
            Head::Detached(_) => None,
        }
    }

    /// The commit HEAD resolves to; `None` before the first commit on its branch.
    pub fn get_head(&self) -> (r: Option<String>)
        requires
            self.wf(),
        ensures
            r matches Some(h) ==> self.head_commit() == Some(h@),
            r is None ==> self.head_commit() is None,
    {
        match &self.head {
            Head::Branch(b) => self.resolve_ref(b.as_str()),
            Head::Detached(h) => Some(h.clone()),
        }
    }

    /// The branch names, in increasing order.
    pub fn list_branches(&self) -> (r: Vec<String>)
        requires
            self.wf(),
        ensures
            forall|k: int| 0 <= k < r@.len() ==> self.refs().contains_key((#[trigger] r@[k])@),
            forall|n: Seq<char>| #[trigger] self.refs().contains_key(n) ==> exists|k: int| 0 <= k < r@.len() && r@[k]@ == n,
            forall|a: int, b: int| 0 <= a < b < r@.len() ==> seq_lt((#[trigger] r@[a])@, (#[trigger] r@[b])@),
    {
        let mut t = Tree::new();
        let mut i: usize = 0;
        while i < self.branches.len()
            invariant
                self.wf(),
                t.wf(),
                i <= self.branches@.len(),
                forall|n: Seq<char>| #[trigger] t@.contains_key(n) <==> exists|j: int| 0 <= j < i && self.branches@[j].name@ == n,
            decreases self.branches@.len() - i,
        {
            let ghost t0 = t@;
            t.add_entry(self.branches[i].name.clone(), self.branches[i].commit.clone(), true);
            proof {
                assert forall|n: Seq<char>| #[trigger] t@.contains_key(n) <==> exists|j: int| 0 <= j < i + 1 && self.branches@[j].name@ == n by {
                    if n == self.branches@[i as int].name@ {
                        assert(self.branches@[i as int].name@ == n);
                    }
                    if exists|j: int| 0 <= j < i + 1 && self.branches@[j].name@ == n {
                        let j = choose|j: int| 0 <= j < i + 1 && self.branches@[j].name@ == n;
                        if j < i {
                            assert(t0.contains_key(n));
                        }
                    }
                }
            }
            i = i + 1;
        }
        let mut r: Vec<String> = Vec::new();
        let mut k: usize = 0;
        while k < t.entries.len()
            invariant
                t.wf(),
                self.wf(),
                forall|n: Seq<char>| #[trigger] t@.contains_key(n) <==> exists|j: int| 0 <= j < self.branches@.len() && self.branches@[j].name@ == n,
                k <= t.entries@.len(),
                r@.len() == k,
                forall|q: int| 0 <= q < k ==> (#[trigger] r@[q])@ == t.entries@[q].name@,
            decreases t.entries@.len() - k,
        {
            r.push(t.entries[k].name.clone());
            k = k + 1;
        }
        proof {
            assert forall|q: int| 0 <= q < r@.len() implies self.refs().contains_key((#[trigger] r@[q])@) by {
                crate::object::lemma_entries_map_at(t.entries@, q);
                assert(r@[q]@ == t.entries@[q].name@);
                assert(t@.contains_key(r@[q]@));
                let j = choose|j: int| 0 <= j < self.branches@.len() && self.branches@[j].name@ == r@[q]@;
                self.lemma_branch_slot(j);
            }
            assert forall|n: Seq<char>| #[trigger] self.refs().contains_key(n) implies exists|q: int| 0 <= q < r@.len() && r@[q]@ == n by {
                let j = self.branch_slot(n);
                assert(self.branches@[j].name@ == n);
                assert(t@.contains_key(n));
                let q = choose|q: int| 0 <= q < t.entries@.len() && t.entries@[q].name@ == n;
                assert(r@[q]@ == n);
            }
            assert forall|a: int, b: int| 0 <= a < b < r@.len() implies seq_lt((#[trigger] r@[a])@, (#[trigger] r@[b])@) by {
                assert(seq_lt(t.entries@[a].name@, t.entries@[b].name@));
            }
        }
        r
    }

    /// Points branch `name` at `hash`, creating it if needed. `NotFound` if
    /// `hash` is not a stored commit.
    pub fn update_branch(&mut self, name: &str, hash: &str) -> (r: Result<(), VcsError>)
        requires
            old(self).wf(),
        ensures
            final(self).wf(),
            final(self).store == old(self).store,
            final(self).index == old(self).index,
            final(self).head == old(self).head,
            r is Ok <==> old(self).store.graph().contains_key(hash@),
            r is Ok ==> final(self).refs() == old(self).refs().insert(name@, hash@),
            r is Err ==> r == Err::<(), VcsError>(VcsError::NotFound) && final(self).refs() == old(self).refs(),
    {
        if !self.store.has_commit(hash) {
            return Err(VcsError::NotFound);
        }
        let ghost o = self.branches@;
        let ghost n = name@;
        let b = Branch { name: name.to_string(), commit: hash.to_string() };
        match self.find_branch(name) {
            Some(i) => {
                self.branches.remove(i);
                self.branches.insert(i, b);
                proof {
                    let nb = self.branches@;
                    assert(nb =~= o.update(i as int, b));
                    assert forall|k: Seq<char>| #![auto] self.has_branch(k) == (old(self).has_branch(k) || k == n) by {
                        if self.has_branch(k) {
                            let j = self.branch_slot(k);
                            assert(nb[j].name@ == k);
                            if j != i {
                                assert(o[j].name@ == k);
                            }
                        }
                        if old(self).has_branch(k) {
                            let j = old(self).branch_slot(k);
                            assert(nb[j].name@ == k);
                        }
                        if k == n {
                            assert(nb[i as int].name@ == k);
                        }
                    }
                    assert forall|k: Seq<char>| #[trigger] self.refs().contains_key(k) implies self.refs()[k] == old(self).refs().insert(n, hash@)[k] by {
                        let j = self.branch_slot(k);
                        self.lemma_branch_slot(j);
                        if j != i {
                            old(self).lemma_branch_slot(j);
                        }
                    }
                    assert(self.refs() =~= old(self).refs().insert(n, hash@));
                }
            },
            None => {
                self.branches.push(b);
                proof {
                    let nb = self.branches@;
                    assert forall|a: int| 0 <= a < o.len() implies (#[trigger] o[a]).name@ != n by {
                        old(self).lemma_branch_slot(a);
                    }
                    assert forall|k: Seq<char>| #![auto] self.has_branch(k) == (old(self).has_branch(k) || k == n) by {
                        if self.has_branch(k) && k != n {
                            let j = self.branch_slot(k);
                            assert(o[j].name@ == k);
                        }
                        if old(self).has_branch(k) {
                            let j = old(self).branch_slot(k);
                            assert(nb[j].name@ == k);
                        }
                        if k == n {
                            assert(nb[o.len() as int].name@ == k);
                        }
                    }
                    assert forall|k: Seq<char>| #[trigger] self.refs().contains_key(k) implies self.refs()[k] == old(self).refs().insert(n, hash@)[k] by {
                        let j = self.branch_slot(k);
                        self.lemma_branch_slot(j);
                        if j < o.len() {
                            old(self).lemma_branch_slot(j);
                        }
                    }
                    assert(self.refs() =~= old(self).refs().insert(n, hash@));
                }
            },
        }
        Ok(())
    }

    /// Creates branch `name` at `hash`: `AlreadyExists` if the name is taken,
    /// else `NotFound` if `hash` is not a stored commit.
    pub fn create_branch(&mut self, name: &str, hash: &str) -> (r: Result<(), VcsError>)
        requires
            old(self).wf(),
        ensures
            final(self).wf(),
            final(self).store == old(self).store,
            final(self).index == old(self).index,
            final(self).head == old(self).head,
            old(self).refs().contains_key(name@) ==> r == Err::<(), VcsError>(VcsError::AlreadyExists),
            !old(self).refs().contains_key(name@) && !old(self).store.graph().contains_key(hash@) ==> r == Err::<(), VcsError>(VcsError::NotFound),
            r is Ok <==> !old(self).refs().contains_key(name@) && old(self).store.graph().contains_key(hash@),
            r is Ok ==> final(self).refs() == old(self).refs().insert(name@, hash@),
            r is Err ==> final(self).refs() == old(self).refs(),
    {
        if self.find_branch(name).is_some() {
            return Err(VcsError::AlreadyExists);
        }
        self.update_branch(name, hash)
    }

    /// Deletes branch `name`: `InvalidState` if it is checked out, else
    /// `NotFound` if there is no such branch.
    pub fn delete_branch(&mut self, name: &str) -> (r: Result<(), VcsError>)
        requires
            old(self).wf(),
        ensures
            final(self).wf(),
            final(self).store == old(self).store,
            final(self).index == old(self).index,
            final(self).head == old(self).head,
            old(self).current_branch() == Some(name@) ==> r == Err::<(), VcsError>(VcsError::InvalidState),
            old(self).current_branch() != Some(name@) && !old(self).refs().contains_key(name@) ==> r == Err::<(), VcsError>(VcsError::NotFound),
            r is Ok <==> old(self).current_branch() != Some(name@) && old(self).refs().contains_key(name@),
            r is Ok ==> final(self).refs() == old(self).refs().remove(name@),
            r is Err ==> final(self).refs() == old(self).refs(),
    {
        if let Head::Branch(b) = &self.head {
            if str_eq(b.as_str(), name) {
                return Err(VcsError::InvalidState);
            }
        }
        let ghost o = self.branches@;
        let ghost n = name@;
        match self.find_branch(name) {
            Some(i) => {
                self.branches.remove(i);
                proof {
                    let nb = self.branches@;
                    assert(nb =~= o.remove(i as int));
                    assert forall|k: Seq<char>| #![auto] self.has_branch(k) == (old(self).has_branch(k) && k != n) by {
                        if self.has_branch(k) {
                            let j = self.branch_slot(k);
                            let j2 = if j < i { j } else { j + 1 };
                            assert(o[j2].name@ == k);
                            if k == n {
                                assert(o[i as int].name@ == k);
                            }
                        }
                        if old(self).has_branch(k) && k != n {
                            let j = old(self).branch_slot(k);
                            if j < i {
                                assert(nb[j].name@ == k);
                            } else {
                                assert(nb[j - 1].name@ == k);
                            }
                        }
                    }
                    assert forall|k: Seq<char>| #[trigger] self.refs().contains_key(k) implies self.refs()[k] == old(self).refs().remove(n)[k] by {
                        let j = self.branch_slot(k);
                        self.lemma_branch_slot(j);
                        let j2 = if j < i { j } else { j + 1 };
                        assert(nb[j] == o[j2]);
                        old(self).lemma_branch_slot(j2);
                    }
                    assert(self.refs() =~= old(self).refs().remove(n));
                }
                Ok(())
            },
            None => Err(VcsError::NotFound),
        }
    }

    /// Checks out branch `name`: `NotFound` if there is no such branch.
    pub fn checkout_branch(&mut self, name: &str) -> (r: Result<(), VcsError>)
        requires
            old(self).wf(),
        ensures
            final(self).wf(),
            final(self).store == old(self).store,
            final(self).index == old(self).index,
            final(self).branches == old(self).branches,
            r is Ok <==> old(self).refs().contains_key(name@),
            r is Ok ==> final(self).current_branch() == Some(name@),
            r is Err ==> r == Err::<(), VcsError>(VcsError::NotFound) && final(self).head == old(self).head,
    {
        if self.find_branch(name).is_none() {
            return Err(VcsError::NotFound);
        }
        self.head = Head::Branch(name.to_string());
        Ok(())
    }

    /// Detaches HEAD at commit `hash`: `NotFound` if it is not a stored commit.
    pub fn checkout_detached(&mut self, hash: &str) -> (r: Result<(), VcsError>)
        requires
            old(self).wf(),
        ensures
            final(self).wf(),
            final(self).store == old(self).store,
            final(self).index == old(self).index,
            final(self).branches == old(self).branches,
            r is Ok <==> old(self).store.graph().contains_key(hash@),
            r is Ok ==> final(self).current_branch() is None && final(self).head_commit() == Some(hash@),
            r is Err ==> r == Err::<(), VcsError>(VcsError::NotFound) && final(self).head == old(self).head,
    {
        if !self.store.has_commit(hash) {
            return Err(VcsError::NotFound);
        }
        self.head = Head::Detached(hash.to_string());
        Ok(())
    }
}

/// `s` holds each of `objects` under its hash.
pub open spec fn holds_objects(s: ObjectStore, objects: Seq<Vec<u8>>) -> bool {
    forall|k: int| 0 <= k < objects.len() ==> #[trigger] s@.contains_key(hash_of(objects[k]@)) && s@[hash_of(objects[k]@)] == objects[k]@
}

/// The tree recording every staged path as a file with its staged hash.
pub fn tree_from_index(index: &Index) -> (t: Tree)
    requires
        index.wf(),
    ensures
        t.wf(),
        t@ == staged_tree(index@),
{
    let mut t = Tree::new();
    let mut i: usize = 0;
    while i < index.entries.len()
        invariant
            index.wf(),
            t.wf(),
            i <= index.entries@.len(),
            forall|p: Seq<char>| #[trigger] t@.contains_key(p) <==> exists|j: int| 0 <= j < i && index.entries@[j].path@ == p,
            forall|j: int| 0 <= j < i ==> t@[(#[trigger] index.entries@[j]).path@] == (index.entries@[j].hash@, true),
        decreases index.entries@.len() - i,
    {
        let e = &index.entries[i];
        let ghost t0 = t@;
        t.add_entry(e.path.clone(), e.hash.clone(), true);
        proof {
            assert forall|p: Seq<char>| #[trigger] t@.contains_key(p) <==> exists|j: int| 0 <= j < i + 1 && index.entries@[j].path@ == p by {
                if p == e.path@ {
                    assert(index.entries@[i as int].path@ == p);
                }
                if exists|j: int| 0 <= j < i + 1 && index.entries@[j].path@ == p {
                    let j = choose|j: int| 0 <= j < i + 1 && index.entries@[j].path@ == p;
                    if j < i {
                        assert(t0.contains_key(p));
                    }
                }
            }
            assert forall|j: int| 0 <= j < i + 1 implies t@[(#[trigger] index.entries@[j]).path@] == (index.entries@[j].hash@, true) by {
                if j < i {
                    assert(index.entries@[j].path@ != index.entries@[i as int].path@);
                }
            }
        }
        i = i + 1;
    }
    proof {
        assert forall|p: Seq<char>| #![auto] t@.contains_key(p) == index@.contains_key(p) by {
            if t@.contains_key(p) {
                let j = choose|j: int| 0 <= j < i && index.entries@[j].path@ == p;
                index.lemma_slot(j);
            }
            if index@.contains_key(p) {
                let j = index.slot(p);
                assert(index.entries@[j].path@ == p);
            }
        }
        assert forall|p: Seq<char>| #[trigger] t@.contains_key(p) implies t@[p] == staged_tree(index@)[p] by {
            let j = index.slot(p);
            index.lemma_slot(j);
        }
        assert(t@ =~= staged_tree(index@));
    }
    t
}

/// The parents a new commit takes from HEAD: its commit, if there is one.
pub open spec fn head_parents(h: Option<Seq<char>>) -> Seq<Seq<char>> {
    match h {
        Some(c) => seq![c],
        None => Seq::empty(),
    }
}

/// Puts the tree of `index` and a commit of it with `parents` in the store.
fn commit_snapshot(
    store: &mut ObjectStore,
    index: &Index,
    parents: Vec<String>,
    author: String,
    message: String,
    timestamp: i64,
) -> (r: Result<String, VcsError>)
    requires
        old(store).wf(),
        index.wf(),
        forall|k: int| 0 <= k < parents@.len() ==> old(store).graph().contains_key(#[trigger] parents@[k]@),
    ensures
        final(store).wf(),
        forall|h: Seq<char>| #[trigger] old(store).graph().contains_key(h) ==> final(store).graph().contains_key(h),
        r matches Err(e) ==> e == VcsError::Integrity,
        r is Err ==> (exists|t: Tree| t.wf() && t@ == staged_tree(index@) && old(store).collides(Object::Tree(t))
            && *final(store) == *old(store)) || (exists|t: Tree, c: Commit| {
            &&& t.wf() && t@ == staged_tree(index@) && final(store)@ == put_spec(old(store)@, encode(Object::Tree(t)))
            &&& c.tree@ == hash_of(encode(Object::Tree(t))) && strs_view(c.parents@) == strs_view(parents@)
            &&& c.author@ == author@ && c.message@ == message@ && c.timestamp == timestamp
            &&& final(store).collides(Object::Commit(c))
        }),
        r matches Ok(h) ==> final(store).graph().contains_key(h@),
        r matches Ok(h) ==> exists|t: Tree, c: Commit| {
            &&& t.wf()
            &&& t@ == staged_tree(index@)
            &&& c.tree@ == hash_of(encode(Object::Tree(t)))
            &&& final(store)@[c.tree@] == encode(Object::Tree(t))
            &&& strs_view(c.parents@) == strs_view(parents@)
            &&& c.author@ == author@ && c.message@ == message@ && c.timestamp == timestamp
            &&& h@ == hash_of(encode(Object::Commit(c)))
            &&& final(store)@[h@] == encode(Object::Commit(c))
            &&& final(store).graph()[h@] == strs_view(c.parents@)
        },
{
    let tree = tree_from_index(index);
    let ghost tv = tree;
    let th = match store.store_object(&Object::Tree(tree)) {
        Ok(h) => h,
        Err(e) => return Err(e),
    };
    let c = Commit::new(th, parents, author, message, timestamp);
    let ghost cv = c;
    let ghost s1 = *store;
    let ch = match store.store_object(&Object::Commit(c)) {
        Ok(h) => h,
        Err(e) => {
            assert(tv.wf() && tv@ == staged_tree(index@) && store@ == put_spec(old(store)@, encode(Object::Tree(tv))));
            return Err(e);
        },
    };
    assert(store@[cv.tree@] == encode(Object::Tree(tv)));
    Ok(ch)
}

impl Repository {
    /// Puts an object in the store (see `ObjectStore::store_object`). A commit's
    /// parents must be stored commits.
    pub fn store_object(&mut self, o: &Object) -> (r: Result<String, VcsError>)
        requires
            old(self).wf(),
            o.wf(),
            o matches Object::Commit(c) ==> forall|k: int| 0 <= k < c.parents@.len()
                ==> old(self).store.graph().contains_key(#[trigger] c.parents@[k]@),
        ensures
            final(self).wf(),
            final(self).branches == old(self).branches,
            final(self).head == old(self).head,
            final(self).index == old(self).index,
            r matches Ok(h) ==> h@ == hash_of(encode(*o)) && final(self).store@ == put_spec(old(self).store@, encode(*o))
                && final(self).store@[h@] == encode(*o),
            r matches Ok(h) ==> (o matches Object::Commit(c) ==> final(self).store.graph() == old(self).store.graph().insert(
                h@,
                strs_view(c.parents@),
            )),
            r matches Ok(h) ==> (!(o is Commit) ==> final(self).store.graph() == old(self).store.graph()),
            r matches Ok(h) ==> final(self).store.objects@.len() == old(self).store.objects@.len() + (if old(self).store@.contains_key(h@) {
                0int
            } else {
                1int
            }),
            r is Err <==> old(self).store.collides(*o),
            r matches Err(e) ==> e == VcsError::Integrity && final(self).store == old(self).store,
    {
        let ghost g0 = self.store.graph();
        let r = self.store.store_object(o);
        proof {
            assert forall|i: int| 0 <= i < self.branches@.len() implies self.store.graph().contains_key((#[trigger] self.branches@[i]).commit@) by {
                assert(g0.contains_key(self.branches@[i].commit@));
            }
        }
        r
    }

    /// Reads the object stored under `hash`: `NotFound` if there is none,
    /// `Integrity` if its bytes are not an object's encoding.
    pub fn load_object(&self, hash: &str) -> (r: Result<Object, VcsError>)
        requires
            self.wf(),
        ensures
            r == Err::<Object, VcsError>(VcsError::NotFound) <==> !self.store@.contains_key(hash@),
            r matches Err(e) ==> e == VcsError::NotFound || e == VcsError::Integrity,
            r == Err::<Object, VcsError>(VcsError::Integrity) ==> forall|o: Object| o.wf() ==> #[trigger] encode(o) != self.store@[hash@],
            self.store.graph().contains_key(hash@) ==> (r matches Ok(Object::Commit(c)) && strs_view(c.parents@) == self.store.graph()[hash@]),
            r matches Ok(o) ==> o.wf() && encode(o) == self.store@[hash@],
    {
        self.store.load_object(hash)
    }

    /// Stages `content` under `path`: puts it in the store as a blob and
    /// records its hash in the index.
    pub fn stage(&mut self, path: &str, content: Vec<u8>, modified: i64) -> (r: Result<String, VcsError>)
        requires
            old(self).wf(),
        ensures
            final(self).wf(),
            final(self).branches == old(self).branches,
            final(self).head == old(self).head,
            final(self).store.graph() == old(self).store.graph(),
            r matches Ok(h) ==> h@ == hash_of(blob_bytes(content@))
                && final(self).store@ == put_spec(old(self).store@, blob_bytes(content@))
                && final(self).index@ == old(self).index@.insert(path@, h@)
                && final(self).index.info() == old(self).index.info().insert(path@, (h@, content@.len() as u64, modified)),
            r matches Ok(h) ==> final(self).store@[h@] == blob_bytes(content@),
            r is Err <==> old(self).store@.contains_key(hash_of(blob_bytes(content@)))
                && old(self).store@[hash_of(blob_bytes(content@))] != blob_bytes(content@),
            r matches Err(e) ==> e == VcsError::Integrity && final(self).index == old(self).index
                && final(self).store == old(self).store,
    {
        let size = content.len() as u64;
        let blob = Object::Blob(Blob::new(content));
        let h = self.store.store_object(&blob)?;
        self.index.add_entry(IndexEntry { path: path.to_string(), hash: h.clone(), size, modified });
        Ok(h)
    }

    /// Removes `path` from the index; whether it was staged.
    pub fn unstage(&mut self, path: &str) -> (r: bool)
        requires
            old(self).wf(),
        ensures
            final(self).wf(),
            final(self).store == old(self).store,
            final(self).branches == old(self).branches,
            final(self).head == old(self).head,
            r == old(self).index@.contains_key(path@),
            final(self).index@ == old(self).index@.remove(path@),
            final(self).index.info() == old(self).index.info().remove(path@),
    {
        let staged = self.index.is_staged(path);
        self.index.remove_file(path);
        staged
    }

    /// Records the whole index as a new commit whose parent is HEAD's commit,
    /// moves the checked-out branch (or a detached HEAD) to it, and empties the
    /// index. `InvalidState` if nothing is staged.
    #[verifier::rlimit(100)]
    #[verifier::spinoff_prover]
    pub fn commit(&mut self, message: String, author: String, timestamp: i64) -> (r: Result<String, VcsError>)
        requires
            old(self).wf(),
        ensures
            final(self).wf(),
            r == Err::<String, VcsError>(VcsError::InvalidState) <==> old(self).index@ == Map::<Seq<char>, Seq<char>>::empty(),
            r matches Err(e) ==> e == VcsError::InvalidState || e == VcsError::Integrity,
            r is Err ==> final(self).index == old(self).index && final(self).branches == old(self).branches
                && final(self).head == old(self).head,
            r == Err::<String, VcsError>(VcsError::InvalidState) ==> final(self).store == old(self).store,
            r == Err::<String, VcsError>(VcsError::Integrity) ==> (exists|t: Tree| t.wf() && t@ == staged_tree(old(self).index@)
                && old(self).store.collides(Object::Tree(t)) && final(self).store == old(self).store) || (exists|t: Tree, c: Commit| {
                &&& t.wf() && t@ == staged_tree(old(self).index@) && final(self).store@ == put_spec(old(self).store@, encode(Object::Tree(t)))
                &&& c.tree@ == hash_of(encode(Object::Tree(t))) && strs_view(c.parents@) == head_parents(old(self).head_commit())
                &&& c.author@ == author@ && c.message@ == message@ && c.timestamp == timestamp
                &&& final(self).store.collides(Object::Commit(c))
            }),
            r matches Ok(h) ==> final(self).index.info() == Map::<Seq<char>, (Seq<char>, u64, i64)>::empty(),
            r matches Ok(h) ==> final(self).index@ == Map::<Seq<char>, Seq<char>>::empty()
                && final(self).head_commit() == Some(h@)
                && final(self).current_branch() == old(self).current_branch()
                && (old(self).current_branch() matches Some(b) ==> final(self).refs() == old(self).refs().insert(b, h@))
                && (old(self).current_branch() is None ==> final(self).refs() == old(self).refs()),
            r matches Ok(h) ==> exists|t: Tree, c: Commit| {
                &&& t.wf()
                &&& t@ == staged_tree(old(self).index@)
                &&& c.tree@ == hash_of(encode(Object::Tree(t)))
                &&& final(self).store@[c.tree@] == encode(Object::Tree(t))
                &&& strs_view(c.parents@) == head_parents(old(self).head_commit())
                &&& c.author@ == author@ && c.message@ == message@ && c.timestamp == timestamp
                &&& h@ == hash_of(encode(Object::Commit(c)))
                &&& final(self).store@[h@] == encode(Object::Commit(c))
                &&& final(self).store.graph()[h@] == strs_view(c.parents@)
            },
    {
        if self.index.is_empty() {
            return Err(VcsError::InvalidState);
        }
        proof {
            self.lemma_refs_in_graph();
        }
        let ghost head0 = self.head_commit();
        let mut parents: Vec<String> = Vec::new();
        match self.get_head() {
            Some(h) => parents.push(h),
            None => {},
        }
        assert(strs_view(parents@) =~= head_parents(head0));
        let ghost g0 = self.store.graph();
        let res = commit_snapshot(&mut self.store, &self.index, parents, author, message, timestamp);
        proof {
            assert forall|i: int| 0 <= i < self.branches@.len() implies self.store.graph().contains_key((#[trigger] self.branches@[i]).commit@) by {
                assert(g0.contains_key(self.branches@[i].commit@));
            }
            if let Head::Detached(h) = &self.head {
                assert(g0.contains_key(h@));
            }
        }
        let ch = match res {
            Ok(ch) => ch,
            Err(e) => return Err(e),
        };
        assert(self.branches == old(self).branches);
        assert(self.refs() =~= old(self).refs());
        assert(self.current_branch() == old(self).current_branch());
        self.advance_head(ch.as_str());
        let ghost refs1 = self.refs();
        self.index.clear();
        assert(self.refs() =~= refs1);
        Ok(ch)
    }

    /// Moves the checked-out branch, or a detached HEAD, to commit `ch`.
    fn advance_head(&mut self, ch: &str)
        requires
            old(self).wf(),
            old(self).store.graph().contains_key(ch@),
        ensures
            final(self).wf(),
            final(self).store == old(self).store,
            final(self).index == old(self).index,
            final(self).head_commit() == Some(ch@),
            final(self).current_branch() == old(self).current_branch(),
            old(self).current_branch() matches Some(b) ==> final(self).refs() == old(self).refs().insert(b, ch@),
            old(self).current_branch() is None ==> final(self).refs() == old(self).refs(),
    {
        match &self.head {
            Head::Branch(b) => {
                let b = b.clone();
                let _ = self.update_branch(b.as_str(), ch);
            },
            Head::Detached(_) => {
                self.head = Head::Detached(ch.to_string());
                assert(self.refs() =~= old(self).refs());
            },
        }
    }

    /// Up to `max_count` commits from `start` along first parents, `start` first.
    pub fn history(&self, start: &str, max_count: usize) -> (r: Vec<String>)
        requires
            self.wf(),
            self.store.graph().contains_key(start@),
        ensures
            r@.len() <= max_count,
            max_count > 0 ==> r@.len() > 0 && r@[0]@ == start@,
            forall|k: int| 0 <= k < r@.len() ==> self.store.graph().contains_key((#[trigger] r@[k])@),
            forall|k: int| 0 <= k < r@.len() - 1 ==> r@[k + 1]@ == self.store.graph()[(#[trigger] r@[k])@][0],
            r@.len() < max_count ==> r@.len() == 0 || self.store.graph()[r@[r@.len() - 1]@].len() == 0,
    {
        let mut r: Vec<String> = Vec::new();
        if max_count == 0 {
            return r;
        }
        let mut cur = start.to_string();
        loop
            invariant
                self.wf(),
                self.store.graph().contains_key(cur@),
                r@.len() < max_count,
                r@.len() == 0 ==> cur@ == start@,
                r@.len() > 0 ==> r@[0]@ == start@ && cur@ == self.store.graph()[r@[r@.len() - 1]@][0],
                forall|k: int| 0 <= k < r@.len() ==> self.store.graph().contains_key((#[trigger] r@[k])@),
                forall|k: int| 0 <= k < r@.len() - 1 ==> r@[k + 1]@ == self.store.graph()[(#[trigger] r@[k])@][0],
            decreases max_count - r@.len(),
        {
            let ps = match self.store.parents_of(cur.as_str()) {
                Some(ps) => ps,
                None => Vec::new(),
            };
            let ghost c0 = cur@;
            let ghost r0 = r@;
            r.push(cur);
            proof {
                assert forall|k: int| 0 <= k < r@.len() - 1 implies r@[k + 1]@ == self.store.graph()[(#[trigger] r@[k])@][0] by {
                    if k < r0.len() - 1 {
                        assert(r@[k] == r0[k] && r@[k + 1] == r0[k + 1]);
                    } else {
                        assert(r@[k] == r0[k]);
                    }
                }
            }
            if ps.len() == 0 || r.len() >= max_count {
                proof {
                    if ps.len() == 0 {
                        assert(strs_view(ps@).len() == 0);
                    }
                }
                return r;
            }
            proof {
                assert(strs_view(ps@)[0] == ps@[0]@);
                assert(self.store.graph().contains_key(self.store.graph()[c0][0]));
            }
            cur = ps[0].clone();
        }
    }
}

impl Repository {
    /// Merges branch `branch_name` into the checked-out branch. `InvalidState`
    /// when HEAD is detached, when the current branch has no commit yet, or
    /// when the two histories share no commit; `NotFound` when there is no
    /// such branch. Without conflicts a commit with parents (current, other)
    /// records the merged tree and the current branch moves to it; with
    /// conflicts no commit is made and no ref moves.
    #[verifier::rlimit(100)]
    #[verifier::spinoff_prover]
    pub fn merge(&mut self, branch_name: &str, author: String, message: String, timestamp: i64) -> (r: Result<MergeOutcome, VcsError>)
        requires
            old(self).wf(),
        ensures
            final(self).wf(),
            final(self).index == old(self).index,
            final(self).head == old(self).head,
            old(self).current_branch() is None ==> r == Err::<MergeOutcome, VcsError>(VcsError::InvalidState),
            old(self).current_branch() is Some && old(self).head_commit() is None ==> r == Err::<MergeOutcome, VcsError>(VcsError::InvalidState),
            old(self).head_commit() is Some && old(self).current_branch() is Some && !old(self).refs().contains_key(branch_name@)
                ==> r == Err::<MergeOutcome, VcsError>(VcsError::NotFound),
            old(self).head_commit() is Some && old(self).current_branch() is Some && old(self).refs().contains_key(branch_name@)
                && old(self).head_commit()->0 != old(self).refs()[branch_name@]
                && (forall|c: Seq<char>| !(is_ancestor(old(self).store.graph(), old(self).head_commit()->0, c)
                    && is_ancestor(old(self).store.graph(), old(self).refs()[branch_name@], c)))
                ==> r == Err::<MergeOutcome, VcsError>(VcsError::InvalidState),
            r == Err::<MergeOutcome, VcsError>(VcsError::InvalidState) ==> old(self).current_branch() is None
                || old(self).head_commit() is None || forall|c: Seq<char>|
                !(is_ancestor(old(self).store.graph(), old(self).head_commit()->0, c)
                    && is_ancestor(old(self).store.graph(), old(self).refs()[branch_name@], c)),
            r == Err::<MergeOutcome, VcsError>(VcsError::NotFound) ==> !old(self).refs().contains_key(branch_name@)
                || exists|base: Seq<char>| is_merge_base(old(self).store.graph(), old(self).store.objects@.len() as nat,
                    old(self).head_commit()->0, old(self).refs()[branch_name@], base) && (root_missing(old(self).store@, base)
                    || root_missing(old(self).store@, old(self).head_commit()->0) || root_missing(old(self).store@, old(self).refs()[branch_name@])),
            r == Err::<MergeOutcome, VcsError>(VcsError::Integrity) ==> (exists|base: Seq<char>| is_merge_base(old(self).store.graph(),
                old(self).store.objects@.len() as nat, old(self).head_commit()->0, old(self).refs()[branch_name@], base) && (
                root_corrupt(old(self).store@, base) || root_corrupt(old(self).store@, old(self).head_commit()->0)
                || root_corrupt(old(self).store@, old(self).refs()[branch_name@])
                || exists|b: Tree, o: Tree, t: Tree, mt: Tree| root_tree(old(self).store@, base, b)
                    && root_tree(old(self).store@, old(self).head_commit()->0, o) && root_tree(old(self).store@, old(self).refs()[branch_name@], t)
                    && conflicts_of(Seq::<Conflict>::empty(), b, o, t) && merged_tree_of(mt, b, o, t)
                    && old(self).store.collides(Object::Tree(mt))))
                || exists|c: Commit| final(self).store.collides(Object::Commit(c)),
            r is Err ==> final(self).refs() == old(self).refs(),
            r == Err::<MergeOutcome, VcsError>(VcsError::InvalidState) || r == Err::<MergeOutcome, VcsError>(VcsError::NotFound)
                ==> final(self).store == old(self).store,
            r matches Ok(MergeOutcome::UpToDate) ==> old(self).head_commit() == Some(old(self).refs()[branch_name@]),
            r matches Ok(MergeOutcome::UpToDate) ==> final(self).refs() == old(self).refs() && final(self).store == old(self).store,
            r matches Ok(MergeOutcome::Conflicts(m)) ==> !m.success && m.conflicts@.len() > 0 && final(self).refs() == old(self).refs()
                && final(self).store == old(self).store,
            r matches Ok(MergeOutcome::Conflicts(m)) ==> exists|base: Seq<char>, b: Tree, o: Tree, t: Tree| {
                &&& is_merge_base(old(self).store.graph(), old(self).store.objects@.len() as nat, old(self).head_commit()->0,
                    old(self).refs()[branch_name@], base)
                &&& root_tree(old(self).store@, base, b) && root_tree(old(self).store@, old(self).head_commit()->0, o)
                    && root_tree(old(self).store@, old(self).refs()[branch_name@], t)
                &&& conflicts_of(m.conflicts@, b, o, t)
            },
            r matches Ok(MergeOutcome::Merged(h)) ==> {
                &&& old(self).current_branch() matches Some(b) && final(self).refs() == old(self).refs().insert(b, h@)
                &&& final(self).store.graph()[h@] == seq![old(self).head_commit()->0, old(self).refs()[branch_name@]]
            },
            r matches Ok(MergeOutcome::Merged(h)) ==> exists|base: Seq<char>, b: Tree, o: Tree, t: Tree, mt: Tree, c: Commit| {
                &&& is_merge_base(old(self).store.graph(), old(self).store.objects@.len() as nat, old(self).head_commit()->0,
                    old(self).refs()[branch_name@], base)
                &&& root_tree(old(self).store@, base, b) && root_tree(old(self).store@, old(self).head_commit()->0, o)
                    && root_tree(old(self).store@, old(self).refs()[branch_name@], t)
                &&& conflicts_of(Seq::<Conflict>::empty(), b, o, t) && merged_tree_of(mt, b, o, t)
                &&& c.tree@ == hash_of(encode(Object::Tree(mt))) && final(self).store@[c.tree@] == encode(Object::Tree(mt))
                &&& strs_view(c.parents@) == seq![old(self).head_commit()->0, old(self).refs()[branch_name@]]
                &&& c.author@ == author@ && c.message@ == message@ && c.timestamp == timestamp
                &&& h@ == hash_of(encode(Object::Commit(c))) && final(self).store@[h@] == encode(Object::Commit(c))
            },
    {
        let current = match &self.head {
            Head::Branch(b) => b.clone(),
            Head::Detached(_) => return Err(VcsError::InvalidState),
        };
        let ours = match self.get_head() {
            Some(h) => h,
            None => return Err(VcsError::InvalidState),
        };
        let theirs = match self.resolve_ref(branch_name) {
            Some(h) => h,
            None => return Err(VcsError::NotFound),
        };
        if str_eq(ours.as_str(), theirs.as_str()) {
            return Ok(MergeOutcome::UpToDate);
        }
        proof {
            self.lemma_refs_in_graph();
        }
        let base = merge_base(&self.store, ours.as_str(), theirs.as_str())?;
        let ghost g0 = self.store.graph();
        let res = merge_commits(&mut self.store, base.as_str(), ours.as_str(), theirs.as_str());
        proof {
            assert forall|i: int| 0 <= i < self.branches@.len() implies self.store.graph().contains_key((#[trigger] self.branches@[i]).commit@) by {
                assert(g0.contains_key(self.branches@[i].commit@));
            }
        }
        let result = match res {
            Ok(m) => m,
            Err(e) => return Err(e),
        };
        let ghost s0 = old(self).store@;
        let ghost s1 = self.store@;
        let ghost (wb, wo, wt) = choose|b: Tree, o: Tree, t: Tree| merge_outcome(s0, s1, base@, ours@, theirs@, result, b, o, t);
        if !result.success {
            return Ok(MergeOutcome::Conflicts(result));
        }
        let ghost mt = choose|mt: Tree| merged_tree_of(mt, wb, wo, wt) && result.merged_tree->0@ == hash_of(encode(Object::Tree(mt)))
            && s1 == put_spec(s0, encode(Object::Tree(mt))) && s1[result.merged_tree->0@] == encode(Object::Tree(mt));
        assert(result.conflicts@ =~= Seq::<Conflict>::empty());
        let tree = match result.merged_tree {
            Some(t) => t,
            None => return Err(VcsError::Integrity),
        };
        let mut parents: Vec<String> = Vec::new();
        parents.push(ours);
        parents.push(theirs);
        let c = Commit::new(tree, parents, author, message, timestamp);
        let ghost cv = c;
        let ghost g1 = self.store.graph();
        let res2 = self.store.store_object(&Object::Commit(c));
        proof {
            assert forall|i: int| 0 <= i < self.branches@.len() implies self.store.graph().contains_key((#[trigger] self.branches@[i]).commit@) by {
                assert(g1.contains_key(self.branches@[i].commit@));
            }
        }
        let ch = match res2 {
            Ok(h) => h,
            Err(e) => return Err(e),
        };
        assert(strs_view(cv.parents@) =~= seq![old(self).head_commit()->0, old(self).refs()[branch_name@]]);
        assert(self.branches == old(self).branches);
        match self.update_branch(current.as_str(), ch.as_str()) {
            Ok(()) => {},
            Err(e) => return Err(e),
        }
        assert(self.store@[cv.tree@] == encode(Object::Tree(mt)));
        Ok(MergeOutcome::Merged(ch))
    }

    /// A repository from its stored parts. `Integrity` where an object is
    /// malformed, a commit's parent is missing, two branches share a name, a
    /// branch or a detached HEAD names no stored commit, or a path is staged twice.
    pub fn open(objects: Vec<Vec<u8>>, branches: Vec<Branch>, head: Head, index: Index) -> (r: Result<Repository, VcsError>)
        ensures
            r matches Ok(repo) ==> repo.wf() && repo.branches == branches && repo.head == head && repo.index == index
                && forall|k: int| 0 <= k < objects@.len() ==> #[trigger] repo.store@.contains_key(hash_of(objects@[k]@)),
            r matches Err(e) ==> e == VcsError::Integrity && (load_fault(objects@.map_values(|v: Vec<u8>| v@))
                || (exists|a: int, b: int| 0 <= a < b < branches@.len() && (#[trigger] branches@[a]).name@ == (#[trigger] branches@[b]).name@)
                || (exists|a: int, b: int| 0 <= a < b < index.entries@.len() && (#[trigger] index.entries@[a]).path@ == (#[trigger] index.entries@[b]).path@)
                || exists|s: ObjectStore| s.wf() && holds_objects(s, objects@) && ((exists|a: int| 0 <= a < branches@.len() && !s.graph().contains_key((#[trigger] branches@[a]).commit@))
                    || (head matches Head::Detached(h) && !s.graph().contains_key(h@)))),
    {
        let ghost ov = objects@;
        let res = ObjectStore::from_objects(objects);
        proof {
            if let Ok(s) = &res {
                assert forall|k: int| 0 <= k < ov.len() implies #[trigger] s@.contains_key(hash_of(ov[k]@)) && s@[hash_of(ov[k]@)] == ov[k]@ by {
                    assert(ov[k]@ == ov.map_values(|v: Vec<u8>| v@)[k]);
                }
                assert(holds_objects(*s, ov));
            }
        }
        let store = match res {
            Ok(s) => s,
            Err(e) => return Err(e),
        };
        let mut i: usize = 0;
        while i < branches.len()
            invariant
                store.wf(),
                holds_objects(store, ov),
                ov == objects@,
                i <= branches@.len(),
                forall|a: int, b: int| 0 <= a < i && 0 <= b < i && a != b ==> (#[trigger] branches@[a]).name@ != (#[trigger] branches@[b]).name@,
                forall|a: int| 0 <= a < i ==> store.graph().contains_key((#[trigger] branches@[a]).commit@),
            decreases branches@.len() - i,
        {
            if !store.has_commit(branches[i].commit.as_str()) {
                assert(!store.graph().contains_key(branches@[i as int].commit@));
                assert(ov == objects@);
                assert(store.wf() && holds_objects(store, objects@) && exists|a: int| 0 <= a < branches@.len()
                    && !store.graph().contains_key((#[trigger] branches@[a]).commit@));
                return Err(VcsError::Integrity);
            }
            let mut j: usize = 0;
            while j < i
                invariant
                    j <= i < branches@.len(),
                    forall|b: int| 0 <= b < j ==> (#[trigger] branches@[b]).name@ != branches@[i as int].name@,
                decreases i - j,
            {
                if str_eq(branches[j].name.as_str(), branches[i].name.as_str()) {
                    assert((branches@[j as int]).name@ == (branches@[i as int]).name@);
                    return Err(VcsError::Integrity);
                }
                j = j + 1;
            }
            i = i + 1;
        }
        assert(ov == objects@);
        if let Head::Detached(h) = &head {
            if !store.has_commit(h.as_str()) {
                assert(!store.graph().contains_key(h@));
                assert(ov == objects@);
                assert(store.wf() && holds_objects(store, objects@));
                return Err(VcsError::Integrity);
            }
        }
        let mut i: usize = 0;
        while i < index.entries.len()
            invariant
                i <= index.entries@.len(),
                forall|a: int, b: int| 0 <= a < i && 0 <= b < i && a != b ==> (#[trigger] index.entries@[a]).path@ != (#[trigger] index.entries@[b]).path@,
            decreases index.entries@.len() - i,
        {
            let mut j: usize = 0;
            while j < i
                invariant
                    j <= i < index.entries@.len(),
                    forall|b: int| 0 <= b < j ==> (#[trigger] index.entries@[b]).path@ != index.entries@[i as int].path@,
                decreases i - j,
            {
                if str_eq(index.entries[j].path.as_str(), index.entries[i].path.as_str()) {
                    assert((index.entries@[j as int]).path@ == (index.entries@[i as int]).path@);
                    return Err(VcsError::Integrity);
                }
                j = j + 1;
            }
            i = i + 1;
        }
        Ok(Repository { store, branches, head, index })
    }
}

/// How HEAD is written: `ref: refs/heads/<branch>` or a commit hash, then a newline.
pub open spec fn head_text(h: Head) -> Seq<char> {
    match h {
        Head::Branch(b) => "ref: refs/heads/"@ + b@ + "\n"@,
        Head::Detached(c) => c@ + "\n"@,
    }
}

impl Head {
    /// The text of the HEAD file.
    pub fn render(&self) -> (r: String)
        ensures
            r@ == head_text(*self),
    {
        let mut r = match self {
            Head::Branch(b) => {
                let mut r = String::from_str("ref: refs/heads/");
                r.append(b.as_str());
                r
            },
            Head::Detached(c) => String::from_str(c.as_str()),
        };
        r.append("\n");
        r
    }

    /// Reads the HEAD file's text: once white space at both ends is trimmed,
    /// `ref: refs/heads/<branch>` names a branch and anything else is a commit hash.
    pub fn parse(text: &str) -> (r: Head)
        ensures
            r matches Head::Branch(b) ==> occurs_at(trim(text@), "ref: refs/heads/"@, 0)
                && b@ == trim(text@).skip("ref: refs/heads/"@.len() as int),
            r matches Head::Detached(c) ==> !occurs_at(trim(text@), "ref: refs/heads/"@, 0)
                && c@ == trim(text@),
    {
        let t = trim_str(text);
        let prefix = "ref: refs/heads/";
        if starts_with_str(t.as_str(), prefix) {
            let pl = prefix.unicode_len();
            let tl = t.as_str().unicode_len();
            let b = String::from_str(t.as_str().substring_char(pl, tl));
            assert(b@ =~= t@.skip(pl as int));
            Head::Branch(b)
        } else {
            Head::Detached(t)
        }
    }
}

} // verus!
