//! Properties that relate several operations of the library.
use vstd::prelude::*;
use crate::codec::{enc_texts, encode};
use crate::graph::{generation, is_ancestor};
use crate::hash::hash_of;
use crate::object::{Commit, Object};
use crate::store::{ObjectStore, put_spec};
use crate::text::{seq_lt, strs_view};

verus! {

/// Putting the same bytes twice stores them once: the second put changes
/// nothing, and both return the same hash.
pub proof fn lemma_put_idempotent(m: Map<Seq<char>, Seq<u8>>, data: Seq<u8>)
    ensures
        put_spec(put_spec(m, data), data) == put_spec(m, data),
        put_spec(m, data).contains_key(hash_of(data)),
{
}

proof fn lemma_enc_texts_by_view(a: Seq<String>, b: Seq<String>)
    requires
        strs_view(a) == strs_view(b),
    ensures
        enc_texts(a) == enc_texts(b),
    decreases a.len(),
{
    assert(a.len() == strs_view(a).len());
    assert(b.len() == strs_view(b).len());
    if a.len() > 0 {
        assert(strs_view(a.drop_last()) =~= strs_view(a).drop_last());
        assert(strs_view(b.drop_last()) =~= strs_view(b).drop_last());
        assert(a.last()@ == strs_view(a)[a.len() - 1]);
        assert(b.last()@ == strs_view(b)[b.len() - 1]);
        lemma_enc_texts_by_view(a.drop_last(), b.drop_last());
    }
}

/// Two commits with the same tree, parents, author, message and timestamp
/// have the same bytes, hence the same hash.
pub proof fn lemma_commit_hash_determined(c1: Commit, c2: Commit)
    requires
        c1.tree@ == c2.tree@,
        strs_view(c1.parents@) == strs_view(c2.parents@),
        c1.author@ == c2.author@,
        c1.message@ == c2.message@,
        c1.timestamp == c2.timestamp,
    ensures
        encode(Object::Commit(c1)) == encode(Object::Commit(c2)),
        hash_of(encode(Object::Commit(c1))) == hash_of(encode(Object::Commit(c2))),
{
    lemma_enc_texts_by_view(c1.parents@, c2.parents@);
    assert(c1.parents@.len() == strs_view(c1.parents@).len());
    assert(c2.parents@.len() == strs_view(c2.parents@).len());
}

/// Every parent of a stored commit is itself a stored commit.
pub proof fn lemma_dag_integrity(s: ObjectStore, h: Seq<char>, k: int)
    requires
        s.wf(),
        s.graph().contains_key(h),
        0 <= k < s.graph()[h].len(),
    ensures
        s.graph().contains_key(s.graph()[h][k]),
{
    assert(s.graph().contains_key(s.graph()[h][k]));
}

/// Where one common ancestor `x` of `ours` and `theirs` has a higher
/// generation than every other, a commit that meets the merge base's
/// guarantee is `x`.
pub proof fn lemma_merge_base_unique(
    g: Map<Seq<char>, Seq<Seq<char>>>,
    f: nat,
    ours: Seq<char>,
    theirs: Seq<char>,
    x: Seq<char>,
    m: Seq<char>,
)
    requires
        is_ancestor(g, ours, x) && is_ancestor(g, theirs, x),
        forall|c: Seq<char>| is_ancestor(g, ours, c) && is_ancestor(g, theirs, c) && c != x ==> generation(g, c, f) < generation(g, x, f),
        is_ancestor(g, ours, m) && is_ancestor(g, theirs, m),
        forall|c: Seq<char>| is_ancestor(g, ours, c) && is_ancestor(g, theirs, c) ==> {
            let gc = generation(g, c, f);
            let gm = generation(g, m, f);
            gc < gm || (gc == gm && (c == m || seq_lt(m, c)))
        },
    ensures
        m == x,
{
    if m != x {
        assert(generation(g, m, f) < generation(g, x, f));
    }
}

} // verus!
