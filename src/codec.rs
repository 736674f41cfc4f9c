//! The canonical byte encoding of stored objects.
//!
//! Every number is eight bytes, most significant first; every piece of text
//! or content is its length followed by its bytes (text as UTF-8). An object
//! starts with one tag byte: 0 for a commit, 1 for a tree, 2 for a blob.
//! A tree gives its entry count, then for each entry its name, its hash and
//! one byte (1 for a file, 0 for a directory), in increasing order of name.
//! A commit gives its tree, its parent count and parents, its author, its
//! message and its timestamp. The index is stored the same way: its entry
//! count, then each entry's path, hash, size and modification time.
use vstd::prelude::*;
use crate::index::{Index, IndexEntry};
use crate::object::{Blob, Commit, Object, Tree, TreeEntry, sorted_entries};
use crate::text::{compare_str, seq_lt, string_from_utf8, strs_view};

verus! {

pub open spec fn u64_bytes(n: u64) -> Seq<u8> {
    seq![
        #[verifier::truncate] ((n >> 56u64) as u8),
        #[verifier::truncate] ((n >> 48u64) as u8),
        #[verifier::truncate] ((n >> 40u64) as u8),
        #[verifier::truncate] ((n >> 32u64) as u8),
        #[verifier::truncate] ((n >> 24u64) as u8),
        #[verifier::truncate] ((n >> 16u64) as u8),
        #[verifier::truncate] ((n >> 8u64) as u8),
        #[verifier::truncate] (n as u8),
    ]
}

/// A length-prefixed run of bytes.
pub open spec fn field(b: Seq<u8>) -> Seq<u8> {
    u64_bytes(b.len() as u64) + b
}

/// Text as a length-prefixed run of its UTF-8 bytes.
pub open spec fn text(s: Seq<char>) -> Seq<u8> {
    field(vstd::utf8::encode_utf8(s))
}

pub open spec fn enc_entry(e: TreeEntry) -> Seq<u8> {
    text(e.name@) + text(e.hash@) + seq![if e.is_file { 1u8 } else { 0u8 }]
}

pub open spec fn enc_entries(s: Seq<TreeEntry>) -> Seq<u8>
    decreases s.len(),
{
    if s.len() == 0 {
        Seq::empty()
    } else {
        enc_entries(s.drop_last()) + enc_entry(s.last())
    }
}

pub open spec fn enc_texts(s: Seq<String>) -> Seq<u8>
    decreases s.len(),
{
    if s.len() == 0 {
        Seq::empty()
    } else {
        enc_texts(s.drop_last()) + text(s.last()@)
    }
}

pub open spec fn enc_tree(t: Tree) -> Seq<u8> {
    u64_bytes(t.entries@.len() as u64) + enc_entries(t.entries@)
}

pub open spec fn enc_commit(c: Commit) -> Seq<u8> {
    text(c.tree@) + u64_bytes(c.parents@.len() as u64) + enc_texts(c.parents@) + text(c.author@)
        + text(c.message@) + u64_bytes(#[verifier::truncate] (c.timestamp as u64))
}

/// The canonical bytes of an object.
pub open spec fn encode(o: Object) -> Seq<u8> {
    match o {
        Object::Commit(c) => seq![0u8] + enc_commit(c),
        Object::Tree(t) => seq![1u8] + enc_tree(t),
        Object::Blob(b) => blob_bytes(b.content@),
    }
}

/// The canonical bytes of a blob holding `content`.
pub open spec fn blob_bytes(content: Seq<u8>) -> Seq<u8> {
    seq![2u8] + field(content)
}

/// `data` holds `x` from position `pos` on.
pub open spec fn starts(data: Seq<u8>, pos: int, x: Seq<u8>) -> bool {
    0 <= pos && pos + x.len() <= data.len() && data.subrange(pos, pos + x.len()) == x
}

proof fn lemma_starts_split(data: Seq<u8>, pos: int, x: Seq<u8>, y: Seq<u8>)
    requires
        starts(data, pos, x + y),
    ensures
        starts(data, pos, x),
        starts(data, pos + x.len(), y),
{
    let w = data.subrange(pos, pos + (x + y).len());
    assert(w == x + y);
    assert(data.subrange(pos, pos + x.len()) =~= w.subrange(0, x.len() as int));
    assert(w.subrange(0, x.len() as int) =~= x);
    assert(data.subrange(pos + x.len(), pos + x.len() + y.len()) =~= w.subrange(x.len() as int, (x.len() + y.len()) as int));
    assert(w.subrange(x.len() as int, (x.len() + y.len()) as int) =~= y);
}

proof fn lemma_u64_bytes_injective(a: u64, b: u64)
    requires
        u64_bytes(a) == u64_bytes(b),
    ensures
        a == b,
{
    assert(u64_bytes(a)[0] == u64_bytes(b)[0]);
    assert(u64_bytes(a)[1] == u64_bytes(b)[1]);
    assert(u64_bytes(a)[2] == u64_bytes(b)[2]);
    assert(u64_bytes(a)[3] == u64_bytes(b)[3]);
    assert(u64_bytes(a)[4] == u64_bytes(b)[4]);
    assert(u64_bytes(a)[5] == u64_bytes(b)[5]);
    assert(u64_bytes(a)[6] == u64_bytes(b)[6]);
    assert(u64_bytes(a)[7] == u64_bytes(b)[7]);
    assert(a == b) by (bit_vector)
        requires
            #[verifier::truncate] ((a >> 56u64) as u8) == #[verifier::truncate] ((b >> 56u64) as u8),
            #[verifier::truncate] ((a >> 48u64) as u8) == #[verifier::truncate] ((b >> 48u64) as u8),
            #[verifier::truncate] ((a >> 40u64) as u8) == #[verifier::truncate] ((b >> 40u64) as u8),
            #[verifier::truncate] ((a >> 32u64) as u8) == #[verifier::truncate] ((b >> 32u64) as u8),
            #[verifier::truncate] ((a >> 24u64) as u8) == #[verifier::truncate] ((b >> 24u64) as u8),
            #[verifier::truncate] ((a >> 16u64) as u8) == #[verifier::truncate] ((b >> 16u64) as u8),
            #[verifier::truncate] ((a >> 8u64) as u8) == #[verifier::truncate] ((b >> 8u64) as u8),
            #[verifier::truncate] (a as u8) == #[verifier::truncate] (b as u8),
    ;
}

fn push_u64(out: &mut Vec<u8>, n: u64)
    ensures
        final(out)@ == old(out)@ + u64_bytes(n),
{
    out.push(#[verifier::truncate] ((n >> 56u64) as u8));
    out.push(#[verifier::truncate] ((n >> 48u64) as u8));
    out.push(#[verifier::truncate] ((n >> 40u64) as u8));
    out.push(#[verifier::truncate] ((n >> 32u64) as u8));
    out.push(#[verifier::truncate] ((n >> 24u64) as u8));
    out.push(#[verifier::truncate] ((n >> 16u64) as u8));
    out.push(#[verifier::truncate] ((n >> 8u64) as u8));
    out.push(#[verifier::truncate] (n as u8));
    assert(out@ =~= old(out)@ + u64_bytes(n));
}

fn push_field(out: &mut Vec<u8>, b: &[u8])
    ensures
        final(out)@ == old(out)@ + field(b@),
{
    push_u64(out, b.len() as u64);
    let mut i: usize = 0;
    let ghost start = out@;
    while i < b.len()
        invariant
            i <= b@.len(),
            out@ == start + b@.take(i as int),
        decreases b@.len() - i,
    {
        out.push(b[i]);
        assert(b@.take(i + 1) =~= b@.take(i as int).push(b@[i as int]));
        i = i + 1;
    }
    assert(b@.take(i as int) =~= b@);
    assert(out@ =~= old(out)@ + field(b@));
}

fn push_text(out: &mut Vec<u8>, s: &String)
    ensures
        final(out)@ == old(out)@ + text(s@),
{
    let b = s.as_str().as_bytes_vec();
    push_field(out, b.as_slice());
}

/// The canonical bytes of `o`.
pub fn serialize(o: &Object) -> (r: Vec<u8>)
    ensures
        r@ == encode(*o),
{
    let mut out: Vec<u8> = Vec::new();
    match o {
        Object::Commit(c) => {
            out.push(0u8);
            push_text(&mut out, &c.tree);
            push_u64(&mut out, c.parents.len() as u64);
            let mut i: usize = 0;
            while i < c.parents.len()
                invariant
                    i <= c.parents@.len(),
                    out@ == seq![0u8] + text(c.tree@) + u64_bytes(c.parents@.len() as u64) + enc_texts(
                        c.parents@.take(i as int),
                    ),
                decreases c.parents@.len() - i,
            {
                push_text(&mut out, &c.parents[i]);
                assert(c.parents@.take(i + 1).drop_last() =~= c.parents@.take(i as int));
                i = i + 1;
            }
            assert(c.parents@.take(i as int) =~= c.parents@);
            push_text(&mut out, &c.author);
            push_text(&mut out, &c.message);
            push_u64(&mut out, #[verifier::truncate] (c.timestamp as u64));
            assert(out@ =~= encode(*o));
        },
        Object::Tree(t) => {
            out.push(1u8);
            push_u64(&mut out, t.entries.len() as u64);
            let mut i: usize = 0;
            while i < t.entries.len()
                invariant
                    i <= t.entries@.len(),
                    out@ == seq![1u8] + u64_bytes(t.entries@.len() as u64) + enc_entries(t.entries@.take(i as int)),
                decreases t.entries@.len() - i,
            {
                let e = &t.entries[i];
                push_text(&mut out, &e.name);
                push_text(&mut out, &e.hash);
                out.push(if e.is_file { 1u8 } else { 0u8 });
                assert(t.entries@.take(i + 1).drop_last() =~= t.entries@.take(i as int));
                assert(out@ =~= seq![1u8] + u64_bytes(t.entries@.len() as u64) + enc_entries(t.entries@.take(i + 1)));
                i = i + 1;
            }
            assert(t.entries@.take(i as int) =~= t.entries@);
            assert(out@ =~= encode(*o));
        },
        Object::Blob(b) => {
            out.push(2u8);
            push_field(&mut out, b.content.as_slice());
            assert(out@ =~= encode(*o));
        },
    }
    out
}

fn read_u64(data: &[u8], pos: usize, Ghost(want): Ghost<u64>) -> (r: Option<(u64, usize)>)
    requires
        pos <= data@.len(),
    ensures
        r matches Some((v, p)) ==> p == pos + 8 && p <= data@.len() && data@.subrange(pos as int, p as int)
            == u64_bytes(v),
        starts(data@, pos as int, u64_bytes(want)) ==> r == Some((want, (pos + 8) as usize)),
{
    if data.len() - pos < 8 {
        return None;
    }
    let b0 = data[pos];
    let b1 = data[pos + 1];
    let b2 = data[pos + 2];
    let b3 = data[pos + 3];
    let b4 = data[pos + 4];
    let b5 = data[pos + 5];
    let b6 = data[pos + 6];
    let b7 = data[pos + 7];
    let v: u64 = ((b0 as u64) << 56u64) | ((b1 as u64) << 48u64) | ((b2 as u64) << 40u64) | ((b3 as u64) << 32u64)
        | ((b4 as u64) << 24u64) | ((b5 as u64) << 16u64) | ((b6 as u64) << 8u64) | (b7 as u64);
    assert(#[verifier::truncate] ((v >> 56u64) as u8) == b0 && #[verifier::truncate] ((v >> 48u64) as u8) == b1
        && #[verifier::truncate] ((v >> 40u64) as u8) == b2 && #[verifier::truncate] ((v >> 32u64) as u8) == b3
        && #[verifier::truncate] ((v >> 24u64) as u8) == b4 && #[verifier::truncate] ((v >> 16u64) as u8) == b5
        && #[verifier::truncate] ((v >> 8u64) as u8) == b6 && #[verifier::truncate] (v as u8) == b7) by (bit_vector)
        requires
            v == ((b0 as u64) << 56u64) | ((b1 as u64) << 48u64) | ((b2 as u64) << 40u64) | ((b3 as u64) << 32u64)
                | ((b4 as u64) << 24u64) | ((b5 as u64) << 16u64) | ((b6 as u64) << 8u64) | (b7 as u64),
    ;
    assert(data@.subrange(pos as int, pos + 8) =~= u64_bytes(v));
    proof {
        if starts(data@, pos as int, u64_bytes(want)) {
            lemma_u64_bytes_injective(v, want);
        }
    }
    Some((v, pos + 8))
}

fn read_field(data: &[u8], pos: usize, Ghost(want): Ghost<Seq<u8>>) -> (r: Option<(Vec<u8>, usize)>)
    requires
        pos <= data@.len(),
    ensures
        r matches Some((b, p)) ==> pos <= p <= data@.len() && data@.subrange(pos as int, p as int) == field(b@),
        starts(data@, pos as int, field(want)) ==> (r matches Some((b, p)) && b@ == want && p == pos + field(want).len()),
{
    proof {
        if starts(data@, pos as int, field(want)) {
            lemma_starts_split(data@, pos as int, u64_bytes(want.len() as u64), want);
        }
    }
    let (n, p) = match read_u64(data, pos, Ghost(want.len() as u64)) {
        Some(x) => x,
        None => return None,
    };
    if ((data.len() - p) as u64) < n {
        return None;
    }
    let end = p + n as usize;
    let mut b: Vec<u8> = Vec::new();
    let mut i: usize = p;
    while i < end
        invariant
            p <= i <= end <= data@.len(),
            b@ == data@.subrange(p as int, i as int),
        decreases end - i,
    {
        b.push(data[i]);
        assert(data@.subrange(p as int, i + 1) =~= data@.subrange(p as int, i as int).push(data@[i as int]));
        i = i + 1;
    }
    assert(b@.len() as u64 == n);
    assert(data@.subrange(pos as int, end as int) =~= data@.subrange(pos as int, p as int) + b@);
    proof {
        if starts(data@, pos as int, field(want)) {
            assert(b@ =~= want);
        }
    }
    Some((b, end))
}

fn read_text(data: &[u8], pos: usize, Ghost(want): Ghost<Seq<char>>) -> (r: Option<(String, usize)>)
    requires
        pos <= data@.len(),
    ensures
        r matches Some((s, p)) ==> pos <= p <= data@.len() && data@.subrange(pos as int, p as int) == text(s@),
        starts(data@, pos as int, text(want)) ==> (r matches Some((s, p)) && s@ == want && p == pos + text(want).len()),
{
    proof {
        if starts(data@, pos as int, text(want)) {
            vstd::utf8::encode_utf8_valid_utf8(want);
            vstd::utf8::encode_utf8_decode_utf8(want);
        }
    }
    let (b, p) = match read_field(data, pos, Ghost(vstd::utf8::encode_utf8(want))) {
        Some(x) => x,
        None => return None,
    };
    match string_from_utf8(b.as_slice()) {
        Some(s) => {
            proof {
                vstd::utf8::decode_utf8_encode_utf8(b@);
            }
            Some((s, p))
        },
        None => None,
    }
}

/// Two entries that encode alike.
pub open spec fn same_entry(a: TreeEntry, b: TreeEntry) -> bool {
    a.name@ == b.name@ && a.hash@ == b.hash@ && a.is_file == b.is_file
}

fn read_entry(data: &[u8], pos: usize, Ghost(want): Ghost<TreeEntry>) -> (r: Option<(TreeEntry, usize)>)
    requires
        pos <= data@.len(),
    ensures
        r matches Some((e, p)) ==> pos <= p <= data@.len() && data@.subrange(pos as int, p as int) == enc_entry(e),
        starts(data@, pos as int, enc_entry(want)) ==> (r matches Some((e, p)) && same_entry(e, want) && p == pos
            + enc_entry(want).len()),
{
    let ghost fl = seq![if want.is_file { 1u8 } else { 0u8 }];
    proof {
        if starts(data@, pos as int, enc_entry(want)) {
            lemma_starts_split(data@, pos as int, text(want.name@) + text(want.hash@), fl);
            lemma_starts_split(data@, pos as int, text(want.name@), text(want.hash@));
        }
    }
    let (name, p1) = match read_text(data, pos, Ghost(want.name@)) {
        Some(x) => x,
        None => return None,
    };
    let (hash, p2) = match read_text(data, p1, Ghost(want.hash@)) {
        Some(x) => x,
        None => return None,
    };
    if p2 >= data.len() {
        return None;
    }
    let flag = data[p2];
    proof {
        if starts(data@, pos as int, enc_entry(want)) {
            assert(data@.subrange(p2 as int, p2 + 1)[0] == flag);
        }
    }
    if flag > 1 {
        return None;
    }
    let e = TreeEntry { name, hash, is_file: flag == 1 };
    assert(data@.subrange(pos as int, p2 + 1) =~= data@.subrange(pos as int, p1 as int) + data@.subrange(
        p1 as int,
        p2 as int,
    ) + seq![flag]);
    Some((e, p2 + 1))
}

proof fn lemma_enc_entries_take(s: Seq<TreeEntry>, k: int)
    requires
        0 <= k < s.len(),
    ensures
        enc_entries(s.take(k + 1)) == enc_entries(s.take(k)) + enc_entry(s[k]),
{
    assert(s.take(k + 1).drop_last() =~= s.take(k));
}

proof fn lemma_enc_texts_take(s: Seq<String>, k: int)
    requires
        0 <= k < s.len(),
    ensures
        enc_texts(s.take(k + 1)) == enc_texts(s.take(k)) + text(s[k]@),
{
    assert(s.take(k + 1).drop_last() =~= s.take(k));
}

fn read_tree(data: &[u8], pos: usize, Ghost(want): Ghost<Tree>) -> (r: Option<(Tree, usize)>)
    requires
        pos <= data@.len(),
    ensures
        r matches Some((t, p)) ==> t.wf() && pos <= p <= data@.len() && data@.subrange(pos as int, p as int)
            == enc_tree(t),
        want.wf() && starts(data@, pos as int, enc_tree(want)) ==> (r matches Some((t, p)) && p == pos + enc_tree(want).len()),
{
    let ghost ok = want.wf() && starts(data@, pos as int, enc_tree(want));
    let ghost ws = want.entries@;
    // Bounds the lengths below by what `data` can hold.
    let _len = data.len();
    proof {
        lemma_enc_entries_len(ws);
        if ok {
            lemma_starts_split(data@, pos as int, u64_bytes(ws.len() as u64), enc_entries(ws));
        }
    }
    let (n, p0) = match read_u64(data, pos, Ghost(ws.len() as u64)) {
        Some(x) => x,
        None => return None,
    };
    let mut entries: Vec<TreeEntry> = Vec::new();
    let mut p = p0;
    let mut k: u64 = 0;
    assert(ws.take(0) =~= Seq::<TreeEntry>::empty());
    assert(data@.subrange(p0 as int, p0 as int) =~= Seq::<u8>::empty());
    while k < n
        invariant
            p0 <= p <= data@.len(),
            k <= n,
            entries@.len() == k,
            sorted_entries(entries@),
            data@.subrange(p0 as int, p as int) == enc_entries(entries@),
            ok == (want.wf() && starts(data@, pos as int, enc_tree(want))),
            ws == want.entries@,
            ok ==> n == ws.len() && starts(data@, p0 as int, enc_entries(ws)),
            ok ==> p == p0 + enc_entries(ws.take(k as int)).len(),
            ok ==> forall|q: int| 0 <= q < k ==> same_entry(#[trigger] entries@[q], ws[q]),
            ok ==> sorted_entries(ws),
        decreases n - k,
    {
        proof {
            if ok {
                lemma_enc_entries_split(ws, k as int);
                let ek = enc_entries(ws.take(k as int));
                let rest = enc_entries(ws).subrange(ek.len() as int, enc_entries(ws).len() as int);
                assert(enc_entries(ws) == ek + rest);
                assert(starts(data@, p0 as int, ek + rest));
                assert(rest.take(enc_entry(ws[k as int]).len() as int) == enc_entry(ws[k as int]));
                lemma_starts_inner(data@, p0 as int, ek, rest, enc_entry(ws[k as int]));
                assert(starts(data@, p as int, enc_entry(ws[k as int])));
                lemma_enc_entries_take(ws, k as int);
            }
        }
        let (e, q) = match read_entry(data, p, Ghost(ws[k as int])) {
            Some(x) => x,
            None => return None,
        };
        if entries.len() > 0 {
            let last = entries.len() - 1;
            proof {
                if ok {
                    assert(same_entry(entries@[last as int], ws[last as int]));
                    assert(same_entry(e, ws[k as int]));
                    assert(seq_lt(ws[last as int].name@, ws[k as int].name@));
                    crate::text::lemma_lt_asymmetric(ws[last as int].name@, ws[k as int].name@);
                }
            }
            if compare_str(entries[last].name.as_str(), e.name.as_str()) >= 0 {
                return None;
            }
            proof {
                assert forall|a: int| 0 <= a < entries@.len() implies seq_lt(#[trigger] entries@[a].name@, e.name@) by {
                    if a < last {
                        assert(seq_lt(entries@[a].name@, entries@[last as int].name@));
                        crate::text::lemma_lt_transitive(entries@[a].name@, entries@[last as int].name@, e.name@);
                    }
                }
            }
        }
        let ghost before = entries@;
        entries.push(e);
        assert(entries@.drop_last() =~= before);
        proof {
            if ok {
                assert forall|q: int| 0 <= q < k + 1 implies same_entry(#[trigger] entries@[q], ws[q]) by {
                    if q < k {
                        assert(entries@[q] == before[q]);
                    }
                }
            }
        }
        assert(data@.subrange(p0 as int, q as int) =~= data@.subrange(p0 as int, p as int) + data@.subrange(
            p as int,
            q as int,
        ));
        p = q;
        k = k + 1;
    }
    let t = Tree { entries };
    assert(data@.subrange(pos as int, p as int) =~= data@.subrange(pos as int, p0 as int) + data@.subrange(
        p0 as int,
        p as int,
    ));
    proof {
        if ok {
            assert(ws.take(k as int) =~= ws);
            assert(p == pos + 8 + enc_entries(ws).len());
            assert(enc_tree(want).len() == 8 + enc_entries(ws).len());
        }
    }
    Some((t, p))
}

proof fn lemma_enc_entries_len(s: Seq<TreeEntry>)
    ensures
        enc_entries(s).len() >= s.len(),
    decreases s.len(),
{
    if s.len() > 0 {
        lemma_enc_entries_len(s.drop_last());
    }
}

proof fn lemma_enc_texts_len(s: Seq<String>)
    ensures
        enc_texts(s).len() >= s.len(),
    decreases s.len(),
{
    if s.len() > 0 {
        lemma_enc_texts_len(s.drop_last());
    }
}

proof fn lemma_starts_inner(data: Seq<u8>, pos: int, x: Seq<u8>, y: Seq<u8>, z: Seq<u8>)
    requires
        starts(data, pos, x + y),
        z.len() <= y.len(),
        y.take(z.len() as int) == z,
    ensures
        starts(data, pos + x.len(), z),
{
    lemma_starts_split(data, pos, x, y);
    assert(data.subrange(pos + x.len(), pos + x.len() + z.len()) =~= y.take(z.len() as int));
}

/// The encoding of a prefix of entries, followed by the rest, is the whole.
proof fn lemma_enc_entries_split(s: Seq<TreeEntry>, k: int)
    requires
        0 <= k <= s.len(),
    ensures
        enc_entries(s) == enc_entries(s.take(k)) + enc_entries(s).subrange(
            enc_entries(s.take(k)).len() as int,
            enc_entries(s).len() as int,
        ),
        enc_entries(s).len() >= enc_entries(s.take(k)).len(),
        k < s.len() ==> enc_entry(s[k]).len() <= enc_entries(s).len() - enc_entries(s.take(k)).len(),
        k < s.len() ==> enc_entries(s).subrange(enc_entries(s.take(k)).len() as int, enc_entries(s).len() as int).take(
            enc_entry(s[k]).len() as int,
        ) == enc_entry(s[k]),
    decreases s.len() - k,
{
    if k == s.len() {
        assert(s.take(k) =~= s);
        assert(enc_entries(s).subrange(enc_entries(s).len() as int, enc_entries(s).len() as int) =~= Seq::<u8>::empty());
        assert(enc_entries(s) =~= enc_entries(s) + Seq::<u8>::empty());
    } else {
        lemma_enc_entries_split(s, k + 1);
        lemma_enc_entries_take(s, k);
        let a = enc_entries(s.take(k));
        let b = enc_entry(s[k]);
        let c = enc_entries(s).subrange(enc_entries(s.take(k + 1)).len() as int, enc_entries(s).len() as int);
        assert(enc_entries(s) == a + b + c);
        assert(enc_entries(s).subrange(a.len() as int, enc_entries(s).len() as int) =~= b + c);
        assert((b + c).take(b.len() as int) =~= b);
        assert(enc_entries(s) =~= a + (b + c));
    }
}

proof fn lemma_enc_texts_split(s: Seq<String>, k: int)
    requires
        0 <= k <= s.len(),
    ensures
        enc_texts(s) == enc_texts(s.take(k)) + enc_texts(s).subrange(
            enc_texts(s.take(k)).len() as int,
            enc_texts(s).len() as int,
        ),
        enc_texts(s).len() >= enc_texts(s.take(k)).len(),
        k < s.len() ==> text(s[k]@).len() <= enc_texts(s).len() - enc_texts(s.take(k)).len(),
        k < s.len() ==> enc_texts(s).subrange(enc_texts(s.take(k)).len() as int, enc_texts(s).len() as int).take(
            text(s[k]@).len() as int,
        ) == text(s[k]@),
    decreases s.len() - k,
{
    if k == s.len() {
        assert(s.take(k) =~= s);
        assert(enc_texts(s).subrange(enc_texts(s).len() as int, enc_texts(s).len() as int) =~= Seq::<u8>::empty());
        assert(enc_texts(s) =~= enc_texts(s) + Seq::<u8>::empty());
    } else {
        lemma_enc_texts_split(s, k + 1);
        lemma_enc_texts_take(s, k);
        let a = enc_texts(s.take(k));
        let b = text(s[k]@);
        let c = enc_texts(s).subrange(enc_texts(s.take(k + 1)).len() as int, enc_texts(s).len() as int);
        assert(enc_texts(s) == a + b + c);
        assert(enc_texts(s).subrange(a.len() as int, enc_texts(s).len() as int) =~= b + c);
        assert((b + c).take(b.len() as int) =~= b);
        assert(enc_texts(s) =~= a + (b + c));
    }
}

#[verifier::rlimit(50)]
fn read_commit(data: &[u8], pos: usize, Ghost(want): Ghost<Commit>) -> (r: Option<(Commit, usize)>)
    requires
        pos <= data@.len(),
    ensures
        r matches Some((c, p)) ==> pos <= p <= data@.len() && data@.subrange(pos as int, p as int) == enc_commit(c),
        starts(data@, pos as int, enc_commit(want)) ==> (r matches Some((c, p)) && p == pos + enc_commit(want).len()),
{
    let ghost ok = starts(data@, pos as int, enc_commit(want));
    let ghost ws = want.parents@;
    let ghost a = text(want.tree@);
    let ghost b = u64_bytes(ws.len() as u64);
    let ghost c = enc_texts(ws);
    let ghost d = text(want.author@);
    let ghost e = text(want.message@);
    let ghost f = u64_bytes(#[verifier::truncate] (want.timestamp as u64));
    // Bounds the lengths below by what `data` can hold.
    let _len = data.len();
    proof {
        lemma_enc_texts_len(ws);
        if ok {
            assert(enc_commit(want) == a + b + c + d + e + f);
            lemma_starts_split(data@, pos as int, a + b + c + d + e, f);
            lemma_starts_split(data@, pos as int, a + b + c + d, e);
            lemma_starts_split(data@, pos as int, a + b + c, d);
            lemma_starts_split(data@, pos as int, a + b, c);
            lemma_starts_split(data@, pos as int, a, b);
        }
    }
    let (tree, p1) = match read_text(data, pos, Ghost(want.tree@)) {
        Some(x) => x,
        None => return None,
    };
    let (n, p2) = match read_u64(data, p1, Ghost(ws.len() as u64)) {
        Some(x) => x,
        None => return None,
    };
    let mut parents: Vec<String> = Vec::new();
    let mut p = p2;
    let mut k: u64 = 0;
    assert(ws.take(0) =~= Seq::<String>::empty());
    assert(data@.subrange(p2 as int, p2 as int) =~= Seq::<u8>::empty());
    while k < n
        invariant
            p2 <= p <= data@.len(),
            k <= n,
            parents@.len() == k,
            data@.subrange(p2 as int, p as int) == enc_texts(parents@),
            ok == starts(data@, pos as int, enc_commit(want)),
            ws == want.parents@,
            ok ==> n == ws.len() && starts(data@, p2 as int, enc_texts(ws)),
            ok ==> p == p2 + enc_texts(ws.take(k as int)).len(),
        decreases n - k,
    {
        proof {
            if ok {
                lemma_enc_texts_split(ws, k as int);
                let ek = enc_texts(ws.take(k as int));
                let rest = enc_texts(ws).subrange(ek.len() as int, enc_texts(ws).len() as int);
                lemma_starts_inner(data@, p2 as int, ek, rest, text(ws[k as int]@));
                lemma_enc_texts_take(ws, k as int);
            }
        }
        let (s, q) = match read_text(data, p, Ghost(ws[k as int]@)) {
            Some(x) => x,
            None => return None,
        };
        let ghost before = parents@;
        parents.push(s);
        assert(parents@.drop_last() =~= before);
        assert(data@.subrange(p2 as int, q as int) =~= data@.subrange(p2 as int, p as int) + data@.subrange(
            p as int,
            q as int,
        ));
        p = q;
        k = k + 1;
    }
    proof {
        if ok {
            assert(ws.take(k as int) =~= ws);
        }
    }
    let (author, p3) = match read_text(data, p, Ghost(want.author@)) {
        Some(x) => x,
        None => return None,
    };
    let (message, p4) = match read_text(data, p3, Ghost(want.message@)) {
        Some(x) => x,
        None => return None,
    };
    let (ts, p5) = match read_u64(data, p4, Ghost(#[verifier::truncate] (want.timestamp as u64))) {
        Some(x) => x,
        None => return None,
    };
    let timestamp = #[verifier::truncate] (ts as i64);
    assert(#[verifier::truncate] ((#[verifier::truncate] (ts as i64)) as u64) == ts) by (bit_vector);
    let cm = Commit { tree, parents, author, message, timestamp };
    assert(data@.subrange(pos as int, p5 as int) =~= data@.subrange(pos as int, p1 as int) + data@.subrange(
        p1 as int,
        p2 as int,
    ) + data@.subrange(p2 as int, p as int) + data@.subrange(p as int, p3 as int) + data@.subrange(
        p3 as int,
        p4 as int,
    ) + data@.subrange(p4 as int, p5 as int));
    Some((cm, p5))
}

/// Two texts encoded at the same place are the same text.
pub proof fn lemma_text_unique(d: Seq<u8>, pos: int, a: Seq<char>, b: Seq<char>)
    requires
        starts(d, pos, text(a)),
        starts(d, pos, text(b)),
        d.len() <= 0xffff_ffff_ffff_ffff,
    ensures
        a == b,
{
    let ea = vstd::utf8::encode_utf8(a);
    let eb = vstd::utf8::encode_utf8(b);
    lemma_starts_split(d, pos, u64_bytes(ea.len() as u64), ea);
    lemma_starts_split(d, pos, u64_bytes(eb.len() as u64), eb);
    lemma_u64_bytes_injective(ea.len() as u64, eb.len() as u64);
    assert(ea.len() == eb.len());
    assert(ea =~= eb);
    vstd::utf8::encode_utf8_decode_utf8(a);
    vstd::utf8::encode_utf8_decode_utf8(b);
}

proof fn lemma_texts_unique(d: Seq<u8>, pos: int, s1: Seq<String>, s2: Seq<String>, k: int)
    requires
        starts(d, pos, enc_texts(s1)),
        starts(d, pos, enc_texts(s2)),
        s1.len() == s2.len(),
        0 <= k <= s1.len(),
        d.len() <= 0xffff_ffff_ffff_ffff,
    ensures
        strs_view(s1.take(k)) == strs_view(s2.take(k)),
        enc_texts(s1.take(k)).len() == enc_texts(s2.take(k)).len(),
    decreases k,
{
    if k == 0 {
        assert(s1.take(0) =~= Seq::<String>::empty());
        assert(s2.take(0) =~= Seq::<String>::empty());
        assert(strs_view(s1.take(0)) =~= strs_view(s2.take(0)));
    } else {
        lemma_texts_unique(d, pos, s1, s2, k - 1);
        lemma_enc_texts_split(s1, k - 1);
        lemma_enc_texts_split(s2, k - 1);
        let e1 = enc_texts(s1.take(k - 1));
        let e2 = enc_texts(s2.take(k - 1));
        let r1 = enc_texts(s1).subrange(e1.len() as int, enc_texts(s1).len() as int);
        let r2 = enc_texts(s2).subrange(e2.len() as int, enc_texts(s2).len() as int);
        lemma_starts_inner(d, pos, e1, r1, text(s1[k - 1]@));
        lemma_starts_inner(d, pos, e2, r2, text(s2[k - 1]@));
        lemma_text_unique(d, pos + e1.len(), s1[k - 1]@, s2[k - 1]@);
        lemma_enc_texts_take(s1, k - 1);
        lemma_enc_texts_take(s2, k - 1);
        assert(s1.take(k) =~= s1.take(k - 1).push(s1[k - 1]));
        assert(s2.take(k) =~= s2.take(k - 1).push(s2[k - 1]));
        assert(strs_view(s1.take(k)) =~= strs_view(s1.take(k - 1)).push(s1[k - 1]@));
        assert(strs_view(s2.take(k)) =~= strs_view(s2.take(k - 1)).push(s2[k - 1]@));
    }
}

proof fn lemma_commit_parts(d: Seq<u8>, c: Commit)
    requires
        starts(d, 1, enc_commit(c)),
    ensures
        starts(d, 1, text(c.tree@)),
        starts(d, 1 + text(c.tree@).len() as int, u64_bytes(c.parents@.len() as u64)),
        starts(d, 1 + text(c.tree@).len() as int + 8, enc_texts(c.parents@)),
{
    let a = text(c.tree@);
    let b = u64_bytes(c.parents@.len() as u64);
    let x = enc_texts(c.parents@);
    let rest = text(c.author@) + text(c.message@) + u64_bytes(#[verifier::truncate] (c.timestamp as u64));
    assert(enc_commit(c) =~= a + (b + (x + rest)));
    lemma_starts_split(d, 1int, a, b + (x + rest));
    lemma_starts_split(d, 1 + a.len() as int, b, x + rest);
    lemma_starts_split(d, 1 + a.len() as int + b.len() as int, x, rest);
}

proof fn lemma_commit_body(c: Commit)
    ensures
        starts(encode(Object::Commit(c)), 1, enc_commit(c)),
{
    let d = encode(Object::Commit(c));
    assert(d.subrange(1, 1 + enc_commit(c).len() as int) =~= enc_commit(c));
}

proof fn lemma_parents_from_parts(d: Seq<u8>, c1: Commit, c2: Commit)
    requires
        d.len() <= 0xffff_ffff_ffff_ffff,
        starts(d, 1, text(c1.tree@)),
        starts(d, 1 + text(c1.tree@).len() as int, u64_bytes(c1.parents@.len() as u64)),
        starts(d, 1 + text(c1.tree@).len() as int + 8, enc_texts(c1.parents@)),
        starts(d, 1, text(c2.tree@)),
        starts(d, 1 + text(c2.tree@).len() as int, u64_bytes(c2.parents@.len() as u64)),
        starts(d, 1 + text(c2.tree@).len() as int + 8, enc_texts(c2.parents@)),
    ensures
        strs_view(c1.parents@) == strs_view(c2.parents@),
{
    lemma_text_unique(d, 1int, c1.tree@, c2.tree@);
    let p: int = 1 + text(c1.tree@).len() as int;
    assert(d.subrange(p, p + 8) == u64_bytes(c1.parents@.len() as u64));
    assert(d.subrange(p, p + 8) == u64_bytes(c2.parents@.len() as u64));
    lemma_enc_texts_len(c1.parents@);
    lemma_enc_texts_len(c2.parents@);
    lemma_u64_bytes_injective(c1.parents@.len() as u64, c2.parents@.len() as u64);
    assert(c1.parents@.len() == c2.parents@.len());
    lemma_texts_unique(d, p + 8, c1.parents@, c2.parents@, c1.parents@.len() as int);
    assert(c1.parents@.take(c1.parents@.len() as int) =~= c1.parents@);
    assert(c2.parents@.take(c2.parents@.len() as int) =~= c2.parents@);
}

/// A commit's bytes determine its parents.
pub proof fn lemma_commit_parents_determined(c1: Commit, c2: Commit)
    requires
        encode(Object::Commit(c1)) == encode(Object::Commit(c2)),
        encode(Object::Commit(c1)).len() <= 0xffff_ffff_ffff_ffff,
    ensures
        strs_view(c1.parents@) == strs_view(c2.parents@),
{
    let d = encode(Object::Commit(c1));
    lemma_commit_body(c1);
    lemma_commit_body(c2);
    lemma_commit_parts(d, c1);
    lemma_commit_parts(d, c2);
    lemma_parents_from_parts(d, c1, c2);
}

/// The tag byte that starts each kind's encoding.
pub open spec fn tag_of(o: Object) -> u8 {
    match o {
        Object::Commit(_) => 0,
        Object::Tree(_) => 1,
        Object::Blob(_) => 2,
    }
}

pub open spec fn commit_part(o: Object) -> Commit {
    match o {
        Object::Commit(c) => c,
        _ => arbitrary(),
    }
}

pub open spec fn tree_part(o: Object) -> Tree {
    match o {
        Object::Tree(t) => t,
        _ => arbitrary(),
    }
}

pub open spec fn blob_part(o: Object) -> Seq<u8> {
    match o {
        Object::Blob(b) => b.content@,
        _ => arbitrary(),
    }
}

/// Reads an object back from its canonical bytes: `None` exactly where the
/// bytes are not the encoding of an object (a bad tag, a short or overlong
/// input, text that is not UTF-8, a flag other than 0 or 1, tree names out of order).
pub fn deserialize(data: &[u8]) -> (r: Option<Object>)
    ensures
        r matches Some(o) ==> o.wf() && encode(o) == data@,
        r is None ==> forall|o: Object| o.wf() ==> #[trigger] encode(o) != data@,
{
    let ghost encodes = exists|o: Object| o.wf() && #[trigger] encode(o) == data@;
    let ghost want = choose|o: Object| o.wf() && #[trigger] encode(o) == data@;
    proof {
        if encodes {
            assert(data@[0] == tag_of(want));
        }
    }
    if data.len() == 0 {
        return None;
    }
    let tag = data[0];
    let (o, p) = if tag == 0 {
        proof {
            if encodes {
                assert(data@.subrange(1, data@.len() as int) =~= enc_commit(commit_part(want)));
            }
        }
        match read_commit(data, 1, Ghost(commit_part(want))) {
            Some((c, p)) => (Object::Commit(c), p),
            None => return None,
        }
    } else if tag == 1 {
        proof {
            if encodes {
                assert(data@.subrange(1, data@.len() as int) =~= enc_tree(tree_part(want)));
            }
        }
        match read_tree(data, 1, Ghost(tree_part(want))) {
            Some((t, p)) => (Object::Tree(t), p),
            None => return None,
        }
    } else if tag == 2 {
        proof {
            if encodes {
                assert(data@.subrange(1, data@.len() as int) =~= field(blob_part(want)));
            }
        }
        match read_field(data, 1, Ghost(blob_part(want))) {
            Some((b, p)) => (Object::Blob(Blob { content: b }), p),
            None => return None,
        }
    } else {
        return None;
    };
    if p != data.len() {
        return None;
    }
    assert(data@ =~= seq![tag] + data@.subrange(1, p as int));
    Some(o)
}

impl Object {
    /// The canonical bytes of the object.
    pub fn serialize(&self) -> (r: Vec<u8>)
        ensures
            r@ == encode(*self),
    {
        serialize(self)
    }

    /// The object that `data` encodes; `Integrity` exactly where it encodes none.
    pub fn deserialize(data: &[u8]) -> (r: Result<Object, crate::error::VcsError>)
        ensures
            r matches Ok(o) ==> o.wf() && encode(o) == data@,
            r is Err ==> r == Err::<Object, crate::error::VcsError>(crate::error::VcsError::Integrity)
                && forall|o: Object| o.wf() ==> #[trigger] encode(o) != data@,
    {
        match deserialize(data) {
            Some(o) => Ok(o),
            None => Err(crate::error::VcsError::Integrity),
        }
    }

    /// The object's identity: the hash of its canonical bytes.
    pub fn hash(&self) -> (r: String)
        ensures
            r@ == crate::hash::hash_of(encode(*self)),
    {
        crate::hash::calculate_hash(serialize(self).as_slice())
    }
}

/// One staged entry: path, hash, size and modification time.
pub open spec fn enc_index_entry(e: IndexEntry) -> Seq<u8> {
    text(e.path@) + text(e.hash@) + u64_bytes(e.size) + u64_bytes(#[verifier::truncate] (e.modified as u64))
}

pub open spec fn enc_index_entries(s: Seq<IndexEntry>) -> Seq<u8>
    decreases s.len(),
{
    if s.len() == 0 {
        Seq::empty()
    } else {
        enc_index_entries(s.drop_last()) + enc_index_entry(s.last())
    }
}

/// The stored form of the index: its entry count, then its entries in order.
pub open spec fn enc_index(i: Index) -> Seq<u8> {
    u64_bytes(i.entries@.len() as u64) + enc_index_entries(i.entries@)
}

impl Index {
    /// The index's stored form.
    pub fn serialize(&self) -> (r: Vec<u8>)
        ensures
            r@ == enc_index(*self),
    {
        let mut out: Vec<u8> = Vec::new();
        push_u64(&mut out, self.entries.len() as u64);
        let mut i: usize = 0;
        while i < self.entries.len()
            invariant
                i <= self.entries@.len(),
                out@ == u64_bytes(self.entries@.len() as u64) + enc_index_entries(self.entries@.take(i as int)),
            decreases self.entries@.len() - i,
        {
            let e = &self.entries[i];
            push_text(&mut out, &e.path);
            push_text(&mut out, &e.hash);
            push_u64(&mut out, e.size);
            push_u64(&mut out, #[verifier::truncate] (e.modified as u64));
            assert(self.entries@.take(i + 1).drop_last() =~= self.entries@.take(i as int));
            assert(out@ =~= u64_bytes(self.entries@.len() as u64) + enc_index_entries(self.entries@.take(i + 1)));
            i = i + 1;
        }
        assert(self.entries@.take(i as int) =~= self.entries@);
        out
    }

    /// Reads an index back from its stored form; `None` exactly where the
    /// bytes are no index's stored form. Whether paths are unique is for the
    /// caller to check.
    #[verifier::rlimit(100)]
    #[verifier::spinoff_prover]
    pub fn deserialize(data: &[u8]) -> (r: Option<Index>)
        ensures
            r matches Some(i) ==> enc_index(i) == data@,
            r is None ==> forall|i: Index| #[trigger] enc_index(i) != data@,
    {
        let ghost encodes = exists|i: Index| #[trigger] enc_index(i) == data@;
        let ghost want = choose|i: Index| #[trigger] enc_index(i) == data@;
        let ghost ws = want.entries@;
        let _len = data.len();
        proof {
            lemma_enc_index_entries_len(ws);
            if encodes {
                assert(data@.subrange(0, data@.len() as int) =~= data@);
                assert(starts(data@, 0, u64_bytes(ws.len() as u64) + enc_index_entries(ws)));
                lemma_starts_split(data@, 0, u64_bytes(ws.len() as u64), enc_index_entries(ws));
            }
        }
        let (n, p0) = match read_u64(data, 0, Ghost(ws.len() as u64)) {
            Some(x) => x,
            None => return None,
        };
        let mut entries: Vec<IndexEntry> = Vec::new();
        let mut p = p0;
        let mut k: u64 = 0;
        assert(ws.take(0) =~= Seq::<IndexEntry>::empty());
        assert(data@.subrange(p0 as int, p0 as int) =~= Seq::<u8>::empty());
        while k < n
            invariant
                p0 <= p <= data@.len(),
                k <= n,
                entries@.len() == k,
                data@.subrange(p0 as int, p as int) == enc_index_entries(entries@),
                ws == want.entries@,
                !encodes ==> forall|i: Index| #[trigger] enc_index(i) != data@,
                encodes ==> n == ws.len() && starts(data@, p0 as int, enc_index_entries(ws)),
                encodes ==> p == p0 + enc_index_entries(ws.take(k as int)).len(),
            decreases n - k,
        {
            let ghost w = ws[k as int];
            proof {
                if encodes {
                    lemma_enc_index_entries_split(ws, k as int);
                    let ek = enc_index_entries(ws.take(k as int));
                    let rest = enc_index_entries(ws).subrange(ek.len() as int, enc_index_entries(ws).len() as int);
                    lemma_starts_inner(data@, p0 as int, ek, rest, enc_index_entry(w));
                    lemma_enc_index_entries_take(ws, k as int);
                    let a1 = text(w.path@);
                    let a2 = text(w.hash@);
                    let a3 = u64_bytes(w.size);
                    let a4 = u64_bytes(#[verifier::truncate] (w.modified as u64));
                    assert(enc_index_entry(w) == a1 + a2 + a3 + a4);
                    lemma_starts_split(data@, p as int, a1 + a2 + a3, a4);
                    lemma_starts_split(data@, p as int, a1 + a2, a3);
                    lemma_starts_split(data@, p as int, a1, a2);
                }
            }
            let (path, p1) = match read_text(data, p, Ghost(w.path@)) {
                Some(x) => x,
                None => return None,
            };
            let (hash, p2) = match read_text(data, p1, Ghost(w.hash@)) {
                Some(x) => x,
                None => return None,
            };
            let (size, p3) = match read_u64(data, p2, Ghost(w.size)) {
                Some(x) => x,
                None => return None,
            };
            let (m, p4) = match read_u64(data, p3, Ghost(#[verifier::truncate] (w.modified as u64))) {
                Some(x) => x,
                None => return None,
            };
            let modified = #[verifier::truncate] (m as i64);
            assert(#[verifier::truncate] ((#[verifier::truncate] (m as i64)) as u64) == m) by (bit_vector);
            let e = IndexEntry { path, hash, size, modified };
            let ghost before = entries@;
            entries.push(e);
            assert(entries@.drop_last() =~= before);
            assert(data@.subrange(p0 as int, p4 as int) =~= data@.subrange(p0 as int, p as int) + data@.subrange(
                p as int,
                p1 as int,
            ) + data@.subrange(p1 as int, p2 as int) + data@.subrange(p2 as int, p3 as int) + data@.subrange(
                p3 as int,
                p4 as int,
            ));
            p = p4;
            k = k + 1;
        }
        proof {
            if encodes {
                assert(ws.take(k as int) =~= ws);
            }
        }
        if p != data.len() {
            return None;
        }
        assert(data@ =~= data@.subrange(0, p0 as int) + data@.subrange(p0 as int, p as int));
        Some(Index { entries })
    }
}

proof fn lemma_enc_index_entries_len(s: Seq<IndexEntry>)
    ensures
        enc_index_entries(s).len() >= s.len(),
    decreases s.len(),
{
    if s.len() > 0 {
        lemma_enc_index_entries_len(s.drop_last());
    }
}

proof fn lemma_enc_index_entries_take(s: Seq<IndexEntry>, k: int)
    requires
        0 <= k < s.len(),
    ensures
        enc_index_entries(s.take(k + 1)) == enc_index_entries(s.take(k)) + enc_index_entry(s[k]),
{
    assert(s.take(k + 1).drop_last() =~= s.take(k));
}

proof fn lemma_enc_index_entries_split(s: Seq<IndexEntry>, k: int)
    requires
        0 <= k <= s.len(),
    ensures
        enc_index_entries(s) == enc_index_entries(s.take(k)) + enc_index_entries(s).subrange(
            enc_index_entries(s.take(k)).len() as int,
            enc_index_entries(s).len() as int,
        ),
        enc_index_entries(s).len() >= enc_index_entries(s.take(k)).len(),
        k < s.len() ==> enc_index_entry(s[k]).len() <= enc_index_entries(s).len() - enc_index_entries(s.take(k)).len(),
        k < s.len() ==> enc_index_entries(s).subrange(enc_index_entries(s.take(k)).len() as int, enc_index_entries(s).len() as int).take(
            enc_index_entry(s[k]).len() as int,
        ) == enc_index_entry(s[k]),
    decreases s.len() - k,
{
    if k == s.len() {
        assert(s.take(k) =~= s);
        assert(enc_index_entries(s).subrange(enc_index_entries(s).len() as int, enc_index_entries(s).len() as int) =~= Seq::<u8>::empty());
        assert(enc_index_entries(s) =~= enc_index_entries(s) + Seq::<u8>::empty());
    } else {
        lemma_enc_index_entries_split(s, k + 1);
        lemma_enc_index_entries_take(s, k);
        let a = enc_index_entries(s.take(k));
        let b = enc_index_entry(s[k]);
        let c = enc_index_entries(s).subrange(enc_index_entries(s.take(k + 1)).len() as int, enc_index_entries(s).len() as int);
        assert(enc_index_entries(s) == a + b + c);
        assert(enc_index_entries(s).subrange(a.len() as int, enc_index_entries(s).len() as int) =~= b + c);
        assert((b + c).take(b.len() as int) =~= b);
        assert(enc_index_entries(s) =~= a + (b + c));
    }
}

} // verus!
