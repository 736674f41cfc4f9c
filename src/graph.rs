//! Walks over the commit graph: ancestor sets, generation numbers and the
//! merge base of two commits.
use vstd::prelude::*;
use vstd::set_lib::lemma_len_subset;
use crate::error::VcsError;
use crate::store::ObjectStore;
use crate::text::{compare_str, seq_lt, str_eq, strs_view};

verus! {

/// The parents of `x` in `g`; none if `x` is not a commit there.
pub open spec fn parents_in(g: Map<Seq<char>, Seq<Seq<char>>>, x: Seq<char>) -> Seq<Seq<char>> {
    if g.contains_key(x) {
        g[x]
    } else {
        Seq::empty()
    }
}

/// A walk down the commit graph: each step goes from a commit to one of its parents.
pub open spec fn is_walk(g: Map<Seq<char>, Seq<Seq<char>>>, w: Seq<Seq<char>>) -> bool {
    &&& w.len() >= 1
    &&& forall|i: int| 0 <= i < w.len() - 1 ==> parents_in(g, #[trigger] w[i]).contains(w[i + 1])
}

/// `x` is `a` or an ancestor of `a`.
pub open spec fn is_ancestor(g: Map<Seq<char>, Seq<Seq<char>>>, a: Seq<char>, x: Seq<char>) -> bool {
    exists|w: Seq<Seq<char>>| is_walk(g, w) && w[0] == a && w.last() == x
}

proof fn lemma_walk_step(g: Map<Seq<char>, Seq<Seq<char>>>, a: Seq<char>, y: Seq<char>, i: int)
    requires
        is_ancestor(g, a, y),
        0 <= i < parents_in(g, y).len(),
    ensures
        is_ancestor(g, a, parents_in(g, y)[i]),
{
    let w = choose|w: Seq<Seq<char>>| is_walk(g, w) && w[0] == a && w.last() == y;
    let p = parents_in(g, y)[i];
    let w2 = w.push(p);
    assert(parents_in(g, y)[i] == p);
    assert forall|j: int| 0 <= j < w2.len() - 1 implies parents_in(g, #[trigger] w2[j]).contains(w2[j + 1]) by {
        if j < w.len() - 1 {
            assert(w2[j] == w[j] && w2[j + 1] == w[j + 1]);
        } else {
            assert(w2[j] == y);
        }
    }
    assert(is_walk(g, w2) && w2[0] == a && w2.last() == p);
}

proof fn lemma_walk_inside(g: Map<Seq<char>, Seq<Seq<char>>>, v: Seq<Seq<char>>, w: Seq<Seq<char>>, j: int)
    requires
        is_walk(g, w),
        v.contains(w[0]),
        0 <= j < w.len(),
        forall|y: Seq<char>, i: int| v.contains(y) && 0 <= i < parents_in(g, y).len() ==> v.contains(#[trigger] parents_in(g, y)[i]),
    ensures
        v.contains(w[j]),
    decreases j,
{
    if j > 0 {
        lemma_walk_inside(g, v, w, j - 1);
        assert(parents_in(g, w[j - 1]).contains(w[j]));
        let q = choose|q: int| 0 <= q < parents_in(g, w[j - 1]).len() && #[trigger] parents_in(g, w[j - 1])[q] == w[j];
        assert(v.contains(parents_in(g, w[j - 1])[q]));
    }
}

proof fn lemma_closed_contains(g: Map<Seq<char>, Seq<Seq<char>>>, v: Seq<Seq<char>>, a: Seq<char>, x: Seq<char>)
    requires
        v.contains(a),
        is_ancestor(g, a, x),
        forall|y: Seq<char>, i: int| v.contains(y) && 0 <= i < parents_in(g, y).len() ==> v.contains(#[trigger] parents_in(g, y)[i]),
    ensures
        v.contains(x),
{
    let w = choose|w: Seq<Seq<char>>| is_walk(g, w) && w[0] == a && w.last() == x;
    lemma_walk_inside(g, v, w, w.len() - 1);
}

proof fn lemma_closed_all(g: Map<Seq<char>, Seq<Seq<char>>>, v: Seq<Seq<char>>, a: Seq<char>)
    requires
        v.contains(a),
        forall|y: Seq<char>, i: int| v.contains(y) && 0 <= i < parents_in(g, y).len() ==> v.contains(#[trigger] parents_in(g, y)[i]),
    ensures
        forall|x: Seq<char>| #[trigger] is_ancestor(g, a, x) ==> v.contains(x),
{
    assert forall|x: Seq<char>| #[trigger] is_ancestor(g, a, x) implies v.contains(x) by {
        lemma_closed_contains(g, v, a, x);
    }
}

proof fn lemma_push_fresh(g: Map<Seq<char>, Seq<Seq<char>>>, start: Seq<char>, v: Seq<Seq<char>>, p: Seq<char>)
    requires
        v.no_duplicates(),
        !v.contains(p),
        g.contains_key(p),
        is_ancestor(g, start, p),
        forall|x: Seq<char>| v.contains(x) ==> g.contains_key(x) && is_ancestor(g, start, x),
    ensures
        v.push(p).no_duplicates(),
        forall|x: Seq<char>| v.push(p).contains(x) ==> g.contains_key(x) && is_ancestor(g, start, x),
        forall|x: Seq<char>| v.contains(x) ==> v.push(p).contains(x),
{
    let w = v.push(p);
    assert forall|x: Seq<char>| v.contains(x) implies w.contains(x) by {
        let j = choose|j: int| 0 <= j < v.len() && v[j] == x;
        assert(w[j] == x);
    }
    assert forall|x: Seq<char>| w.contains(x) implies g.contains_key(x) && is_ancestor(g, start, x) by {
        let j = choose|j: int| 0 <= j < w.len() && w[j] == x;
        if j < v.len() {
            assert(v[j] == x);
            assert(v.contains(x));
        } else {
            assert(x == p);
        }
    }
    assert forall|a: int, b: int| 0 <= a < b < w.len() implies w[a] != w[b] by {
        if b == v.len() {
            assert(w[a] == v[a]);
        } else {
            assert(w[a] == v[a] && w[b] == v[b]);
        }
    }
}

/// The position of `h` in `v`.
fn position(v: &Vec<String>, h: &str) -> (r: Option<usize>)
    ensures
        r is Some <==> strs_view(v@).contains(h@),
        r matches Some(i) ==> i < v@.len() && v@[i as int]@ == h@,
{
    let mut i: usize = 0;
    while i < v.len()
        invariant
            i <= v@.len(),
            forall|k: int| 0 <= k < i ==> (#[trigger] v@[k])@ != h@,
        decreases v@.len() - i,
    {
        if str_eq(v[i].as_str(), h) {
            proof {
                assert(strs_view(v@)[i as int] == h@);
            }
            return Some(i);
        }
        i = i + 1;
    }
    proof {
        if strs_view(v@).contains(h@) {
            let k = choose|k: int| 0 <= k < strs_view(v@).len() && strs_view(v@)[k] == h@;
            assert(v@[k]@ == h@);
        }
    }
    None
}

/// Every commit reachable from `start` over parent edges, `start` included,
/// each once.
#[verifier::rlimit(50)]
pub fn ancestors(store: &ObjectStore, start: &str) -> (r: Vec<String>)
    requires
        store.wf(),
        store.graph().contains_key(start@),
    ensures
        strs_view(r@).no_duplicates(),
        forall|x: Seq<char>| strs_view(r@).contains(x) <==> #[trigger] is_ancestor(store.graph(), start@, x),
        forall|x: Seq<char>| strs_view(r@).contains(x) ==> store.graph().contains_key(x),
{
    reveal(ObjectStore::graph);
    let ghost g = store.graph();
    let ghost keys = store.objects@.map_values(|o: crate::store::StoredObject| o.hash@).to_set();
    proof {
        store.objects@.map_values(|o: crate::store::StoredObject| o.hash@).lemma_cardinality_of_set();
        vstd::seq_lib::seq_to_set_is_finite(store.objects@.map_values(|o: crate::store::StoredObject| o.hash@));
    }
    let n = store.objects.len();
    let mut visited: Vec<String> = Vec::new();
    visited.push(start.to_string());
    proof {
        assert(is_walk(g, seq![start@]) && seq![start@][0] == start@ && seq![start@].last() == start@);
        assert(strs_view(visited@) =~= seq![start@]);
    }
    let mut i: usize = 0;
    while i < visited.len()
        invariant
            store.wf(),
            g == store.graph(),
            keys == store.objects@.map_values(|o: crate::store::StoredObject| o.hash@).to_set(),
            keys.finite(),
            keys.len() <= n,
            n == store.objects@.len(),
            strs_view(visited@).contains(start@),
            i <= visited@.len(),
            strs_view(visited@).no_duplicates(),
            forall|x: Seq<char>| #[trigger] strs_view(visited@).contains(x) ==> g.contains_key(x) && is_ancestor(g, start@, x),
            forall|y: Seq<char>, k: int| strs_view(visited@.take(i as int)).contains(y) && 0 <= k < parents_in(g, y).len()
                ==> strs_view(visited@).contains(#[trigger] parents_in(g, y)[k]),
        decreases n - i,
    {
        proof {
            reveal(ObjectStore::graph);
            let vs = strs_view(visited@).to_set();
            assert forall|x: Seq<char>| vs.contains(x) implies keys.contains(x) by {
                assert(g.contains_key(x));
                let m = store.slot(x);
                assert(store.objects@.map_values(|o: crate::store::StoredObject| o.hash@)[m] == x);
            }
            lemma_len_subset(vs, keys);
            strs_view(visited@).unique_seq_to_set();
        }
        let ps = match store.parents_of(visited[i].as_str()) {
            Some(ps) => ps,
            None => Vec::new(),
        };
        let ghost y = visited@[i as int]@;
        assert(strs_view(ps@) == parents_in(g, y));
        let ghost vi = visited@.take(i as int);
        assert(strs_view(visited@)[i as int] == y);
        let mut k: usize = 0;
        while k < ps.len()
            invariant
                store.wf(),
                g == store.graph(),
                i < visited@.len(),
                visited@.take(i as int) == vi,
                visited@[i as int]@ == y,
                strs_view(ps@) == parents_in(g, y),
                strs_view(visited@).contains(y),
                k <= ps@.len(),
                strs_view(visited@).contains(start@),
                strs_view(visited@).no_duplicates(),
                forall|x: Seq<char>| #[trigger] strs_view(visited@).contains(x) ==> g.contains_key(x) && is_ancestor(g, start@, x),
                forall|y2: Seq<char>, q: int| strs_view(vi).contains(y2) && 0 <= q < parents_in(g, y2).len()
                    ==> strs_view(visited@).contains(#[trigger] parents_in(g, y2)[q]),
                forall|q: int| 0 <= q < k ==> strs_view(visited@).contains(#[trigger] parents_in(g, y)[q]),
            decreases ps@.len() - k,
        {
            let p = &ps[k];
            assert(p@ == parents_in(g, y)[k as int]);
            if position(&visited, p.as_str()).is_none() {
                let ghost before = visited@;
                visited.push(p.clone());
                proof {
                    assert(strs_view(visited@) =~= strs_view(before).push(p@));
                    assert(visited@.take(i as int) =~= before.take(i as int));
                    lemma_walk_step(g, start@, y, k as int);
                    assert(g.contains_key(y));
                    assert(g.contains_key(g[y][k as int]));
                    lemma_push_fresh(g, start@, strs_view(before), p@);
                    assert(strs_view(visited@)[before.len() as int] == p@);
                }
            }
            assert(strs_view(visited@).contains(parents_in(g, y)[k as int]));
            k = k + 1;
        }
        proof {
            assert(visited@.take(i + 1) =~= vi.push(visited@[i as int]));
            assert(strs_view(visited@.take(i + 1)) =~= strs_view(vi).push(y));
        }
        i = i + 1;
    }
    proof {
        assert(visited@.take(i as int) =~= visited@);
        assert(strs_view(visited@.take(i as int)) == strs_view(visited@));
        assert forall|y: Seq<char>, q: int| strs_view(visited@).contains(y) && 0 <= q < parents_in(g, y).len()
            implies strs_view(visited@).contains(#[trigger] parents_in(g, y)[q]) by {
            assert(strs_view(visited@.take(i as int)).contains(y));
        }
        lemma_closed_all(g, strs_view(visited@), start@);
    }
    visited
}

/// Generation of `x`: 0 for a root, else one more than its highest parent,
/// counting at most `f` steps. On an acyclic graph of at most `f` commits this
/// is the length of the longest walk from `x` down to a root.
pub open spec fn generation(g: Map<Seq<char>, Seq<Seq<char>>>, x: Seq<char>, f: nat) -> nat
    decreases f, 0nat, 0nat,
{
    if f == 0 || parents_in(g, x).len() == 0 {
        0
    } else {
        1 + max_generation(g, parents_in(g, x), (f - 1) as nat)
    }
}

/// The highest generation among `ps`, 0 if there are none.
pub open spec fn max_generation(g: Map<Seq<char>, Seq<Seq<char>>>, ps: Seq<Seq<char>>, f: nat) -> nat
    decreases f, 1nat, ps.len(),
{
    if ps.len() == 0 {
        0
    } else {
        let a = generation(g, ps.last(), f);
        let b = max_generation(g, ps.drop_last(), f);
        if a >= b {
            a
        } else {
            b
        }
    }
}

proof fn lemma_generation_bound(g: Map<Seq<char>, Seq<Seq<char>>>, x: Seq<char>, f: nat)
    ensures
        generation(g, x, f) <= f,
    decreases f, 0nat, 0nat,
{
    if f > 0 && parents_in(g, x).len() > 0 {
        lemma_max_generation_bound(g, parents_in(g, x), (f - 1) as nat);
    }
}

proof fn lemma_max_generation_bound(g: Map<Seq<char>, Seq<Seq<char>>>, ps: Seq<Seq<char>>, f: nat)
    ensures
        max_generation(g, ps, f) <= f,
    decreases f, 1nat, ps.len(),
{
    if ps.len() > 0 {
        lemma_generation_bound(g, ps.last(), f);
        lemma_max_generation_bound(g, ps.drop_last(), f);
    }
}

/// The generation of each commit of `a`, which holds the parents of its members.
fn generations(store: &ObjectStore, a: &Vec<String>) -> (r: Vec<u64>)
    requires
        store.wf(),
        forall|x: Seq<char>, k: int| strs_view(a@).contains(x) && 0 <= k < parents_in(store.graph(), x).len()
            ==> strs_view(a@).contains(#[trigger] parents_in(store.graph(), x)[k]),
    ensures
        r@.len() == a@.len(),
        forall|j: int| 0 <= j < a@.len() ==> #[trigger] r@[j] == generation(store.graph(), a@[j]@, store.objects@.len() as nat),
{
    let ghost g = store.graph();
    let n = store.objects.len();
    let mut d: Vec<u64> = Vec::new();
    let mut j: usize = 0;
    while j < a.len()
        invariant
            j <= a@.len(),
            d@.len() == j,
            forall|q: int| 0 <= q < j ==> #[trigger] d@[q] == generation(g, a@[q]@, 0),
        decreases a@.len() - j,
    {
        d.push(0);
        j = j + 1;
    }
    let mut round: usize = 0;
    while round < n
        invariant
            store.wf(),
            g == store.graph(),
            n == store.objects@.len(),
            round <= n,
            d@.len() == a@.len(),
            forall|x: Seq<char>, k: int| strs_view(a@).contains(x) && 0 <= k < parents_in(g, x).len()
                ==> strs_view(a@).contains(#[trigger] parents_in(g, x)[k]),
            forall|q: int| 0 <= q < a@.len() ==> #[trigger] d@[q] == generation(g, a@[q]@, round as nat),
        decreases n - round,
    {
        let mut next: Vec<u64> = Vec::new();
        let mut j: usize = 0;
        while j < a.len()
            invariant
                store.wf(),
                g == store.graph(),
                n == store.objects@.len(),
                round < n,
                j <= a@.len(),
                d@.len() == a@.len(),
                next@.len() == j,
                forall|x: Seq<char>, k: int| strs_view(a@).contains(x) && 0 <= k < parents_in(g, x).len()
                    ==> strs_view(a@).contains(#[trigger] parents_in(g, x)[k]),
                forall|q: int| 0 <= q < a@.len() ==> #[trigger] d@[q] == generation(g, a@[q]@, round as nat),
                forall|q: int| 0 <= q < j ==> #[trigger] next@[q] == generation(g, a@[q]@, (round + 1) as nat),
            decreases a@.len() - j,
        {
            let ps = match store.parents_of(a[j].as_str()) {
                Some(ps) => ps,
                None => Vec::new(),
            };
            let ghost x = a@[j as int]@;
            assert(strs_view(ps@) == parents_in(g, x));
            assert(strs_view(a@)[j as int] == x);
            let mut m: u64 = 0;
            let mut k: usize = 0;
            while k < ps.len()
                invariant
                    j < a@.len(),
                    d@.len() == a@.len(),
                    x == a@[j as int]@,
                    strs_view(a@).contains(x),
                    strs_view(ps@) == parents_in(g, x),
                    k <= ps@.len(),
                    round < n,
                    forall|x2: Seq<char>, k2: int| strs_view(a@).contains(x2) && 0 <= k2 < parents_in(g, x2).len()
                        ==> strs_view(a@).contains(#[trigger] parents_in(g, x2)[k2]),
                    forall|q: int| 0 <= q < a@.len() ==> #[trigger] d@[q] == generation(g, a@[q]@, round as nat),
                    m as nat == max_generation(g, strs_view(ps@).take(k as int), round as nat),
                    m <= round,
                decreases ps@.len() - k,
            {
                assert(strs_view(a@).contains(parents_in(g, x)[k as int]));
                let pos = match position(a, ps[k].as_str()) {
                    Some(pos) => pos,
                    None => {
                        assert(false);
                        0
                    },
                };
                let v = d[pos];
                proof {
                    lemma_generation_bound(g, a@[pos as int]@, round as nat);
                    assert(strs_view(ps@).take(k + 1).drop_last() =~= strs_view(ps@).take(k as int));
                    assert(strs_view(ps@).take(k + 1).last() == ps@[k as int]@);
                }
                if v > m {
                    m = v;
                }
                k = k + 1;
            }
            assert(strs_view(ps@).take(k as int) =~= strs_view(ps@));
            let gj: u64 = if ps.len() == 0 { 0 } else { m + 1 };
            next.push(gj);
            j = j + 1;
        }
        d = next;
        round = round + 1;
    }
    d
}

/// `m` is a merge base of `a` and `b`: an ancestor of both whose generation
/// is highest among their common ancestors, with the least hash among equals.
pub open spec fn is_merge_base(g: Map<Seq<char>, Seq<Seq<char>>>, f: nat, a: Seq<char>, b: Seq<char>, m: Seq<char>) -> bool {
    &&& is_ancestor(g, a, m) && is_ancestor(g, b, m)
    &&& forall|c: Seq<char>|
        is_ancestor(g, a, c) && is_ancestor(g, b, c) ==> {
            let gc = generation(g, c, f);
            let gm = generation(g, m, f);
            gc < gm || (gc == gm && (c == m || seq_lt(m, c)))
        }
}

/// The merge base of `ours` and `theirs`: of the commits that are ancestors of
/// both (each commit counting as its own ancestor), the one of highest
/// generation, the least hash among equals. `InvalidState` where the two
/// histories share no commit.
pub fn merge_base(store: &ObjectStore, ours: &str, theirs: &str) -> (r: Result<String, VcsError>)
    requires
        store.wf(),
        store.graph().contains_key(ours@),
        store.graph().contains_key(theirs@),
    ensures
        r matches Ok(m) ==> is_merge_base(store.graph(), store.objects@.len() as nat, ours@, theirs@, m@),
        r matches Ok(m) ==> is_ancestor(store.graph(), ours@, m@) && is_ancestor(store.graph(), theirs@, m@),
        r matches Ok(m) ==> forall|c: Seq<char>|
            is_ancestor(store.graph(), ours@, c) && is_ancestor(store.graph(), theirs@, c) ==> {
                let gc = generation(store.graph(), c, store.objects@.len() as nat);
                let gm = generation(store.graph(), m@, store.objects@.len() as nat);
                gc < gm || (gc == gm && (c == m@ || seq_lt(m@, c)))
            },
        r matches Err(e) ==> e == VcsError::InvalidState && forall|c: Seq<char>|
            !(is_ancestor(store.graph(), ours@, c) && is_ancestor(store.graph(), theirs@, c)),
{
    let ghost g = store.graph();
    let ghost f = store.objects@.len() as nat;
    let a = ancestors(store, ours);
    let b = ancestors(store, theirs);
    proof {
        assert forall|x: Seq<char>, k: int| strs_view(a@).contains(x) && 0 <= k < parents_in(g, x).len()
            implies strs_view(a@).contains(#[trigger] parents_in(g, x)[k]) by {
            lemma_walk_step(g, ours@, x, k);
        }
    }
    let d = generations(store, &a);
    let mut best: Option<usize> = None;
    let mut j: usize = 0;
    while j < a.len()
        invariant
            j <= a@.len(),
            d@.len() == a@.len(),
            forall|q: int| 0 <= q < a@.len() ==> #[trigger] d@[q] == generation(g, a@[q]@, f),
            forall|x: Seq<char>| strs_view(a@).contains(x) <==> #[trigger] is_ancestor(g, ours@, x),
            forall|x: Seq<char>| strs_view(b@).contains(x) <==> #[trigger] is_ancestor(g, theirs@, x),
            best matches Some(i) ==> i < j && strs_view(b@).contains(a@[i as int]@),
            best matches Some(i) ==> forall|q: int| 0 <= q < j && strs_view(b@).contains(#[trigger] a@[q]@) ==> {
                d@[q] < d@[i as int] || (d@[q] == d@[i as int] && (a@[q]@ == a@[i as int]@ || seq_lt(a@[i as int]@, a@[q]@)))
            },
            best is None ==> forall|q: int| 0 <= q < j ==> !strs_view(b@).contains(#[trigger] a@[q]@),
        decreases a@.len() - j,
    {
        if position(&b, a[j].as_str()).is_some() {
            let take = match best {
                None => true,
                Some(i) => d[j] > d[i] || (d[j] == d[i] && compare_str(a[j].as_str(), a[i].as_str()) < 0),
            };
            if take {
                proof {
                    if let Some(i) = best {
                        assert forall|q: int| 0 <= q < j + 1 && strs_view(b@).contains(#[trigger] a@[q]@) implies {
                            d@[q] < d@[j as int] || (d@[q] == d@[j as int] && (a@[q]@ == a@[j as int]@ || seq_lt(a@[j as int]@, a@[q]@)))
                        } by {
                            if q < j && d@[q] == d@[j as int] && a@[q]@ != a@[j as int]@ {
                                if a@[q]@ != a@[i as int]@ {
                                    crate::text::lemma_lt_transitive(a@[j as int]@, a@[i as int]@, a@[q]@);
                                }
                            }
                        }
                    }
                }
                best = Some(j);
            } else {
                proof {
                    let i = best->0;
                    crate::text::lemma_lt_total(a@[i as int]@, a@[j as int]@);
                }
            }
        }
        j = j + 1;
    }
    match best {
        Some(i) => {
            proof {
                assert(strs_view(a@)[i as int] == a@[i as int]@);
                assert forall|c: Seq<char>| is_ancestor(g, ours@, c) && is_ancestor(g, theirs@, c) implies {
                    let gc = generation(g, c, f);
                    let gm = generation(g, a@[i as int]@, f);
                    gc < gm || (gc == gm && (c == a@[i as int]@ || seq_lt(a@[i as int]@, c)))
                } by {
                    assert(strs_view(a@).contains(c));
                    let q = choose|q: int| 0 <= q < strs_view(a@).len() && strs_view(a@)[q] == c;
                    assert(a@[q]@ == c);
                    assert(strs_view(b@).contains(a@[q]@));
                }
            }
            Ok(a[i].clone())
        },
        None => {
            proof {
                assert forall|c: Seq<char>| !(is_ancestor(g, ours@, c) && is_ancestor(g, theirs@, c)) by {
                    if is_ancestor(g, ours@, c) && is_ancestor(g, theirs@, c) {
                        assert(strs_view(a@).contains(c));
                        let q = choose|q: int| 0 <= q < strs_view(a@).len() && strs_view(a@)[q] == c;
                        assert(a@[q]@ == c);
                    }
                }
            }
            Err(VcsError::InvalidState)
        },
    }
}

} // verus!
