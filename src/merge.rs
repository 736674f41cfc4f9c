use vstd::prelude::*;
use crate::codec::encode;
use crate::error::VcsError;
use crate::hash::hash_of;
use crate::object::{Commit, EntryView, Object, Tree, TreeEntry};
use crate::store::{put_spec, ObjectStore};
use crate::text::{seq_lt, str_eq};

verus! {

/// How a path's three versions failed to reconcile.
#[derive(Clone, Copy, Debug, PartialEq, Eq, Structural)]
pub enum ConflictKind {
    /// Both sides changed (or added) the path, differently.
    Content,
    /// One side deleted the path while the other changed it.
    DeleteModify,
}

/// A path that could not be merged, and why.
#[derive(Clone, Debug)]
pub struct Conflict {
    pub path: String,
    pub kind: ConflictKind,
}

/// The entry a map holds under `n`, if any.
pub open spec fn lookup(m: Map<Seq<char>, EntryView>, n: Seq<char>) -> Option<EntryView> {
    if m.contains_key(n) {
        Some(m[n])
    } else {
        None
    }
}

/// Three-way reconciliation of one path: what the merged tree holds there, and
/// the conflict, if any, given the base, our and their versions.
pub open spec fn classify(b: Option<EntryView>, o: Option<EntryView>, t: Option<EntryView>) -> (
    Option<EntryView>,
    Option<ConflictKind>,
) {
    match (b, o, t) {
        (Some(x), Some(y), Some(z)) => {
            if y == x {
                (Some(z), None)
            } else if z == x {
                (Some(y), None)
            } else if y == z {
                (Some(y), None)
            } else {
                (Some(y), Some(ConflictKind::Content))
            }
        },
        (None, Some(y), Some(z)) => {
            if y == z {
                (Some(y), None)
            } else {
                (Some(y), Some(ConflictKind::Content))
            }
        },
        (None, Some(y), None) => (Some(y), None),
        (None, None, Some(z)) => (Some(z), None),
        (Some(x), None, Some(z)) => {
            if z == x {
                (None, None)
            } else {
                (None, Some(ConflictKind::DeleteModify))
            }
        },
        (Some(x), Some(y), None) => {
            if y == x {
                (None, None)
            } else {
                (None, Some(ConflictKind::DeleteModify))
            }
        },
        _ => (None, None),
    }
}

/// What the merge of three trees holds at path `n`.
pub open spec fn merged_at(
    base: Map<Seq<char>, EntryView>,
    ours: Map<Seq<char>, EntryView>,
    theirs: Map<Seq<char>, EntryView>,
    n: Seq<char>,
) -> Option<EntryView> {
    classify(lookup(base, n), lookup(ours, n), lookup(theirs, n)).0
}

/// The conflict, if any, that the merge of three trees reports at path `n`.
pub open spec fn conflict_at(
    base: Map<Seq<char>, EntryView>,
    ours: Map<Seq<char>, EntryView>,
    theirs: Map<Seq<char>, EntryView>,
    n: Seq<char>,
) -> Option<ConflictKind> {
    classify(lookup(base, n), lookup(ours, n), lookup(theirs, n)).1
}

pub open spec fn opt_view(e: Option<&TreeEntry>) -> Option<EntryView> {
    match e {
        Some(x) => Some(x.entry_view()),
        None => None,
    }
}

fn same_entry(a: &TreeEntry, b: &TreeEntry) -> (r: bool)
    ensures
        r == (a.entry_view() == b.entry_view()),
{
    a.is_file == b.is_file && str_eq(a.hash.as_str(), b.hash.as_str())
}

/// Reconciles one path from its base, our and their entries.
fn classify_entry<'a>(b: Option<&'a TreeEntry>, o: Option<&'a TreeEntry>, t: Option<&'a TreeEntry>) -> (r: (
    Option<&'a TreeEntry>,
    Option<ConflictKind>,
))
    ensures
        opt_view(r.0) == classify(opt_view(b), opt_view(o), opt_view(t)).0,
        r.1 == classify(opt_view(b), opt_view(o), opt_view(t)).1,
{
    match (b, o, t) {
        (Some(x), Some(y), Some(z)) => {
            if same_entry(y, x) {
                (Some(z), None)
            } else if same_entry(z, x) {
                (Some(y), None)
            } else if same_entry(y, z) {
                (Some(y), None)
            } else {
                (Some(y), Some(ConflictKind::Content))
            }
        },
        (None, Some(y), Some(z)) => {
            if same_entry(y, z) {
                (Some(y), None)
            } else {
                (Some(y), Some(ConflictKind::Content))
            }
        },
        (None, Some(y), None) => (Some(y), None),
        (None, None, Some(z)) => (Some(z), None),
        (Some(x), None, Some(z)) => {
            if same_entry(z, x) {
                (None, None)
            } else {
                (None, Some(ConflictKind::DeleteModify))
            }
        },
        (Some(x), Some(y), None) => {
            if same_entry(y, x) {
                (None, None)
            } else {
                (None, Some(ConflictKind::DeleteModify))
            }
        },
        _ => (None, None),
    }
}

/// Adds every name of `t` to `all`.
fn add_names(all: &mut Tree, t: &Tree)
    requires
        old(all).wf(),
        t.wf(),
    ensures
        final(all).wf(),
        final(all)@.dom() == old(all)@.dom().union(t@.dom()),
{
    let mut i: usize = 0;
    while i < t.entries.len()
        invariant
            all.wf(),
            t.wf(),
            i <= t.entries@.len(),
            forall|n: Seq<char>| #[trigger] all@.contains_key(n) <==> (old(all)@.contains_key(n)
                || exists|j: int| 0 <= j < i && t.entries@[j].name@ == n),
        decreases t.entries@.len() - i,
    {
        let e = &t.entries[i];
        all.add_entry(e.name.clone(), e.hash.clone(), e.is_file);
        proof {
            assert forall|n: Seq<char>| #[trigger] all@.contains_key(n) <==> (old(all)@.contains_key(n)
                || exists|j: int| 0 <= j < i + 1 && t.entries@[j].name@ == n) by {
                if n == e.name@ {
                    assert(t.entries@[i as int].name@ == n);
                }
                if exists|j: int| 0 <= j < i + 1 && t.entries@[j].name@ == n {
                    let j = choose|j: int| 0 <= j < i + 1 && t.entries@[j].name@ == n;
                    if j < i {
                        assert(exists|j: int| 0 <= j < i && t.entries@[j].name@ == n);
                    }
                }
            }
        }
        i = i + 1;
    }
    assert(all@.dom() =~= old(all)@.dom().union(t@.dom()));
}

/// Three-way merge of trees: the merged tree holds at each path what
/// `classify` gives there, and the conflicts are exactly the paths where it
/// reports one, in increasing order of path.
pub fn reconcile_trees(base: &Tree, ours: &Tree, theirs: &Tree) -> (r: (Tree, Vec<Conflict>))
    requires
        base.wf(),
        ours.wf(),
        theirs.wf(),
    ensures
        r.0.wf(),
        forall|n: Seq<char>| #[trigger] lookup(r.0@, n) == merged_at(base@, ours@, theirs@, n),
        forall|k: int| 0 <= k < r.1@.len() ==> conflict_at(base@, ours@, theirs@, (#[trigger] r.1@[k]).path@)
            == Some(r.1@[k].kind),
        forall|n: Seq<char>| #[trigger] conflict_at(base@, ours@, theirs@, n) is Some
            ==> exists|k: int| 0 <= k < r.1@.len() && r.1@[k].path@ == n,
        forall|a: int, b: int| 0 <= a < b < r.1@.len() ==> seq_lt(
            (#[trigger] r.1@[a]).path@,
            (#[trigger] r.1@[b]).path@,
        ),
{
    let mut all = Tree::new();
    add_names(&mut all, base);
    add_names(&mut all, ours);
    add_names(&mut all, theirs);
    let mut merged = Tree::new();
    let mut conflicts: Vec<Conflict> = Vec::new();
    let ghost idx: Seq<int> = Seq::empty();
    let mut i: usize = 0;
    while i < all.entries.len()
        invariant
            all.wf(),
            base.wf(),
            ours.wf(),
            theirs.wf(),
            all@.dom() == base@.dom().union(ours@.dom()).union(theirs@.dom()),
            merged.wf(),
            i <= all.entries@.len(),
            forall|n: Seq<char>| #[trigger] merged@.contains_key(n)
                ==> exists|j: int| 0 <= j < i && all.entries@[j].name@ == n,
            forall|j: int| 0 <= j < i ==> lookup(merged@, (#[trigger] all.entries@[j]).name@)
                == merged_at(base@, ours@, theirs@, all.entries@[j].name@),
            idx.len() == conflicts@.len(),
            forall|k: int| 0 <= k < idx.len() ==> 0 <= #[trigger] idx[k] < i,
            forall|k: int| 0 <= k < idx.len() ==> (#[trigger] conflicts@[k]).path@ == all.entries@[idx[k]].name@,
            forall|k: int| 0 <= k < idx.len() ==> conflict_at(base@, ours@, theirs@, (#[trigger] conflicts@[k]).path@)
                == Some(conflicts@[k].kind),
            forall|a: int, b: int| 0 <= a < b < idx.len() ==> #[trigger] idx[a] < #[trigger] idx[b],
            forall|j: int| 0 <= j < i && conflict_at(base@, ours@, theirs@, (#[trigger] all.entries@[j]).name@) is Some
                ==> exists|k: int| 0 <= k < idx.len() && idx[k] == j,
        decreases all.entries@.len() - i,
    {
        let name = &all.entries[i].name;
        let ghost n = name@;
        let b = base.get(name.as_str());
        let o = ours.get(name.as_str());
        let t = theirs.get(name.as_str());
        assert(opt_view(b) == lookup(base@, n));
        assert(opt_view(o) == lookup(ours@, n));
        assert(opt_view(t) == lookup(theirs@, n));
        let (chosen, conflict) = classify_entry(b, o, t);
        let ghost m0 = merged@;
        match chosen {
            Some(e) => {
                merged.add_entry(name.clone(), e.hash.clone(), e.is_file);
            },
            None => {},
        }
        proof {
            assert forall|j: int| 0 <= j < i implies (#[trigger] all.entries@[j]).name@ != n by {
                assert(seq_lt(all.entries@[j].name@, all.entries@[i as int].name@));
                crate::text::lemma_lt_irreflexive(n);
            }
            assert(lookup(merged@, n) == merged_at(base@, ours@, theirs@, n));
            assert forall|j: int| 0 <= j < i + 1 implies lookup(merged@, (#[trigger] all.entries@[j]).name@)
                == merged_at(base@, ours@, theirs@, all.entries@[j].name@) by {
                if j < i {
                    assert(lookup(m0, all.entries@[j].name@) == lookup(merged@, all.entries@[j].name@));
                }
            }
            assert forall|k: Seq<char>| #[trigger] merged@.contains_key(k)
                implies exists|j: int| 0 <= j < i + 1 && all.entries@[j].name@ == k by {
                if k == n {
                    assert(all.entries@[i as int].name@ == k);
                } else {
                    assert(m0.contains_key(k));
                    let j = choose|j: int| 0 <= j < i && all.entries@[j].name@ == k;
                    assert(0 <= j < i + 1 && all.entries@[j].name@ == k);
                }
            }
        }
        match conflict {
            Some(kind) => {
                let ghost c0 = conflicts@;
                let ghost i0 = idx;
                conflicts.push(Conflict { path: name.clone(), kind });
                proof {
                    idx = idx.push(i as int);
                    assert forall|j: int| 0 <= j < i + 1 && conflict_at(base@, ours@, theirs@, (#[trigger] all.entries@[j]).name@) is Some
                        implies exists|k: int| 0 <= k < idx.len() && idx[k] == j by {
                        if j == i {
                            assert(idx[idx.len() - 1] == j);
                        } else {
                            let k = choose|k: int| 0 <= k < i0.len() && i0[k] == j;
                            assert(idx[k] == j);
                        }
                    }
                    assert forall|k: int| 0 <= k < idx.len() implies (#[trigger] conflicts@[k]).path@ == all.entries@[idx[k]].name@ by {
                        if k < i0.len() {
                            assert(conflicts@[k] == c0[k]);
                        }
                    }
                }
            },
            None => {
                proof {
                    assert forall|j: int| 0 <= j < i + 1 && conflict_at(base@, ours@, theirs@, (#[trigger] all.entries@[j]).name@) is Some
                        implies exists|k: int| 0 <= k < idx.len() && idx[k] == j by {
                        if j == i {
                            assert(false);
                        }
                    }
                }
            },
        }
        i = i + 1;
    }
    proof {
        assert forall|n: Seq<char>| #[trigger] lookup(merged@, n) == merged_at(base@, ours@, theirs@, n) by {
            if all@.contains_key(n) {
                let j = choose|j: int| 0 <= j < all.entries@.len() && all.entries@[j].name@ == n;
                assert(lookup(merged@, all.entries@[j].name@) == merged_at(base@, ours@, theirs@, all.entries@[j].name@));
            } else {
                assert(!merged@.contains_key(n));
            }
        }
        assert forall|n: Seq<char>| #[trigger] conflict_at(base@, ours@, theirs@, n) is Some
            implies exists|k: int| 0 <= k < conflicts@.len() && conflicts@[k].path@ == n by {
            assert(all@.contains_key(n));
            let j = choose|j: int| 0 <= j < all.entries@.len() && all.entries@[j].name@ == n;
            assert(conflict_at(base@, ours@, theirs@, all.entries@[j].name@) is Some);
            let k = choose|k: int| 0 <= k < idx.len() && idx[k] == j;
            assert(conflicts@[k].path@ == n);
        }
        assert forall|a: int, b: int| 0 <= a < b < conflicts@.len() implies seq_lt(
            (#[trigger] conflicts@[a]).path@,
            (#[trigger] conflicts@[b]).path@,
        ) by {
            assert(idx[a] < idx[b]);
            assert(seq_lt(all.entries@[idx[a]].name@, all.entries@[idx[b]].name@));
        }
    }
    (merged, conflicts)
}

/// `t` is the root tree of the commit stored under `h` in `m`.
#[verifier::opaque]
pub open spec fn root_tree(m: Map<Seq<char>, Seq<u8>>, h: Seq<char>, t: Tree) -> bool {
    exists|c: Commit|
        m.contains_key(h) && encode(Object::Commit(c)) == m[h] && m.contains_key(c.tree@) && encode(Object::Tree(t))
            == m[c.tree@]
}

/// The commit under `h`, or its tree, is not stored.
#[verifier::opaque]
pub open spec fn root_missing(m: Map<Seq<char>, Seq<u8>>, h: Seq<char>) -> bool {
    !m.contains_key(h) || exists|c: Commit| encode(Object::Commit(c)) == m[h] && !m.contains_key(c.tree@)
}

/// What is stored under `h` is no commit, or its tree is no tree.
#[verifier::opaque]
pub open spec fn root_corrupt(m: Map<Seq<char>, Seq<u8>>, h: Seq<char>) -> bool {
    m.contains_key(h) && ((forall|c: Commit| encode(Object::Commit(c)) != m[h]) || exists|c: Commit|
        encode(Object::Commit(c)) == m[h] && m.contains_key(c.tree@) && forall|t: Tree|
            t.wf() ==> encode(Object::Tree(t)) != m[c.tree@])
}

/// The outcome of merging two commits. `merged_tree` is present exactly when
/// there is no conflict.
pub struct MergeResult {
    pub success: bool,
    pub conflicts: Vec<Conflict>,
    pub merged_tree: Option<String>,
}

/// The conflicts are exactly those of merging `b`, `o` and `t`, in increasing order of path.
#[verifier::opaque]
pub open spec fn conflicts_of(cs: Seq<Conflict>, b: Tree, o: Tree, t: Tree) -> bool {
    &&& forall|k: int| 0 <= k < cs.len() ==> conflict_at(b@, o@, t@, (#[trigger] cs[k]).path@) == Some(cs[k].kind)
    &&& forall|n: Seq<char>| #[trigger] conflict_at(b@, o@, t@, n) is Some ==> exists|k: int| 0 <= k < cs.len() && cs[k].path@ == n
    &&& forall|a: int, c: int| 0 <= a < c < cs.len() ==> seq_lt((#[trigger] cs[a]).path@, (#[trigger] cs[c]).path@)
}

/// `mt` is the merge of `b`, `o` and `t`.
#[verifier::opaque]
pub open spec fn merged_tree_of(mt: Tree, b: Tree, o: Tree, t: Tree) -> bool {
    mt.wf() && forall|n: Seq<char>| #[trigger] lookup(mt@, n) == merged_at(b@, o@, t@, n)
}

/// `m` reports the merge of the root trees `b`, `o`, `t` of commits `base`,
/// `ours` and `theirs` in store `s0`; `s1` is the store afterwards.
pub open spec fn merge_outcome(
    s0: Map<Seq<char>, Seq<u8>>,
    s1: Map<Seq<char>, Seq<u8>>,
    base: Seq<char>,
    ours: Seq<char>,
    theirs: Seq<char>,
    m: MergeResult,
    b: Tree,
    o: Tree,
    t: Tree,
) -> bool {
    &&& b.wf() && o.wf() && t.wf()
    &&& root_tree(s0, base, b) && root_tree(s0, ours, o) && root_tree(s0, theirs, t)
    &&& conflicts_of(m.conflicts@, b, o, t)
    &&& m.merged_tree matches Some(h) ==> exists|mt: Tree| merged_tree_of(mt, b, o, t)
        && h@ == hash_of(encode(Object::Tree(mt))) && s1 == put_spec(s0, encode(Object::Tree(mt)))
        && s1[h@] == encode(Object::Tree(mt))
}

fn root_tree_of_decoded(store: &ObjectStore, o: Object, h: &str) -> (r: Result<Commit, VcsError>)
    requires
        store.wf(),
        o.wf() && encode(o) == store@[h@] && store@.contains_key(h@),
    ensures
        r matches Ok(c) ==> encode(Object::Commit(c)) == store@[h@],
        r is Err ==> r == Err::<Commit, VcsError>(VcsError::Integrity) && forall|c: Commit| #[trigger] encode(Object::Commit(c)) != store@[h@],
{
    match o {
        Object::Commit(c) => Ok(c),
        _ => {
            assert forall|c: Commit| #[trigger] encode(Object::Commit(c)) != store@[h@] by {
                assert(encode(Object::Commit(c))[0] != encode(o)[0]);
            }
            Err(VcsError::Integrity)
        },
    }
}

/// Loads the root tree of the commit stored under `h`: `NotFound` where the
/// commit or its tree is not stored, `Integrity` where either is of the wrong kind.
pub fn commit_tree(store: &ObjectStore, h: &str) -> (r: Result<Tree, VcsError>)
    requires
        store.wf(),
    ensures
        r matches Ok(t) ==> t.wf() && root_tree(store@, h@, t),
        r == Err::<Tree, VcsError>(VcsError::NotFound) ==> root_missing(store@, h@),
        !store@.contains_key(h@) ==> r == Err::<Tree, VcsError>(VcsError::NotFound),
        r == Err::<Tree, VcsError>(VcsError::Integrity) ==> root_corrupt(store@, h@),
        r is Err ==> r == Err::<Tree, VcsError>(VcsError::NotFound) || r == Err::<Tree, VcsError>(VcsError::Integrity),
{
    reveal(root_tree);
    reveal(root_missing);
    reveal(root_corrupt);
    let o = store.load_object(h)?;
    let c = root_tree_of_decoded(store, o, h)?;
    match store.load_object(c.tree.as_str()) {
        Ok(Object::Tree(t)) => Ok(t),
        Ok(other) => {
            proof {
                assert forall|t: Tree| t.wf() implies encode(Object::Tree(t)) != store@[c.tree@] by {
                    assert(encode(Object::Tree(t))[0] != encode(other)[0]);
                }
            }
            Err(VcsError::Integrity)
        },
        Err(e) => {
            proof {
                if e == VcsError::Integrity {
                    assert forall|t: Tree| t.wf() implies encode(Object::Tree(t)) != store@[c.tree@] by {
                        assert(Object::Tree(t).wf());
                    }
                }
            }
            Err(e)
        },
    }
}

/// Merges the root trees of three commits: `base_commit`, `our_commit` and
/// `their_commit`. Where no path conflicts, the merged tree is put in the
/// store and its hash returned; otherwise the store is left as it was.
#[verifier::rlimit(100)]
#[verifier::spinoff_prover]
pub fn merge_commits(store: &mut ObjectStore, base_commit: &str, our_commit: &str, their_commit: &str) -> (r: Result<MergeResult, VcsError>)
    requires
        old(store).wf(),
    ensures
        final(store).wf(),
        final(store).graph() == old(store).graph(),
        r matches Ok(m) ==> m.success == (m.conflicts@.len() == 0) && (m.merged_tree is Some <==> m.success),
        r matches Ok(m) ==> exists|b: Tree, o: Tree, t: Tree| merge_outcome(old(store)@, final(store)@, base_commit@, our_commit@, their_commit@, m, b, o, t),
        r matches Ok(m) ==> (m.merged_tree is None ==> *final(store) == *old(store)),
        r is Err ==> *final(store) == *old(store),
        r == Err::<MergeResult, VcsError>(VcsError::NotFound) ==> root_missing(old(store)@, base_commit@)
            || root_missing(old(store)@, our_commit@) || root_missing(old(store)@, their_commit@),
        r == Err::<MergeResult, VcsError>(VcsError::Integrity) ==> root_corrupt(old(store)@, base_commit@)
            || root_corrupt(old(store)@, our_commit@) || root_corrupt(old(store)@, their_commit@)
            || exists|b: Tree, o: Tree, t: Tree, mt: Tree| root_tree(old(store)@, base_commit@, b) && root_tree(old(store)@, our_commit@, o)
                && root_tree(old(store)@, their_commit@, t) && conflicts_of(Seq::<Conflict>::empty(), b, o, t)
                && merged_tree_of(mt, b, o, t) && old(store).collides(Object::Tree(mt)),
        !old(store)@.contains_key(base_commit@) ==> r == Err::<MergeResult, VcsError>(VcsError::NotFound),
        r is Err ==> r == Err::<MergeResult, VcsError>(VcsError::NotFound) || r == Err::<MergeResult, VcsError>(VcsError::Integrity),
{
    let base = match commit_tree(store, base_commit) {
        Ok(t) => t,
        Err(e) => return Err(e),
    };
    let ours = match commit_tree(store, our_commit) {
        Ok(t) => t,
        Err(e) => return Err(e),
    };
    let theirs = match commit_tree(store, their_commit) {
        Ok(t) => t,
        Err(e) => return Err(e),
    };
    let (merged, conflicts) = reconcile_trees(&base, &ours, &theirs);
    let success = conflicts.len() == 0;
    let ghost mt = merged;
    let ghost s0 = store@;
    assert(conflicts_of(conflicts@, base, ours, theirs)) by {
        reveal(conflicts_of);
    }
    assert(merged_tree_of(mt, base, ours, theirs)) by {
        reveal(merged_tree_of);
    }
    let merged_tree = if success {
        let h = match store.store_object(&Object::Tree(merged)) {
            Ok(h) => h,
            Err(e) => {
                assert(mt.wf()) by {
                    reveal(merged_tree_of);
                }
                assert(conflicts@ =~= Seq::<Conflict>::empty());
                assert(root_tree(s0, base_commit@, base) && root_tree(s0, our_commit@, ours) && root_tree(s0, their_commit@, theirs)
                    && conflicts_of(Seq::<Conflict>::empty(), base, ours, theirs) && merged_tree_of(mt, base, ours, theirs));
                return Err(e);
            },
        };
        Some(h)
    } else {
        None
    };
    assert(root_tree(s0, base_commit@, base) && root_tree(s0, our_commit@, ours) && root_tree(s0, their_commit@, theirs));
    proof {
        if let Some(h) = &merged_tree {
            assert(merged_tree_of(mt, base, ours, theirs) && h@ == hash_of(encode(Object::Tree(mt))) && store@ == put_spec(
                s0,
                encode(Object::Tree(mt)),
            ) && store@[h@] == encode(Object::Tree(mt)));
        }
    }
    let res = MergeResult { success, conflicts, merged_tree };
    assert(merge_outcome(s0, store@, base_commit@, our_commit@, their_commit@, res, base, ours, theirs));
    Ok(res)
}

} // verus!
