use vstd::prelude::*;

verus! {

/// Strict lexicographic order on character sequences, by code point.
pub open spec fn seq_lt(a: Seq<char>, b: Seq<char>) -> bool
    decreases a.len(),
{
    if a.len() == 0 {
        b.len() > 0
    } else if b.len() == 0 {
        false
    } else if a[0] != b[0] {
        (a[0] as u32) < (b[0] as u32)
    } else {
        seq_lt(a.drop_first(), b.drop_first())
    }
}

pub proof fn lemma_lt_irreflexive(a: Seq<char>)
    ensures
        !seq_lt(a, a),
    decreases a.len(),
{
    if a.len() > 0 {
        lemma_lt_irreflexive(a.drop_first());
    }
}

pub proof fn lemma_lt_asymmetric(a: Seq<char>, b: Seq<char>)
    requires
        seq_lt(a, b),
    ensures
        !seq_lt(b, a),
        a != b,
    decreases a.len(),
{
    if a.len() > 0 && b.len() > 0 && a[0] == b[0] {
        lemma_lt_asymmetric(a.drop_first(), b.drop_first());
    }
    if a == b {
        lemma_lt_irreflexive(a);
    }
}

pub proof fn lemma_lt_transitive(a: Seq<char>, b: Seq<char>, c: Seq<char>)
    requires
        seq_lt(a, b),
        seq_lt(b, c),
    ensures
        seq_lt(a, c),
    decreases a.len(),
{
    if a.len() > 0 && b.len() > 0 && c.len() > 0 && a[0] == b[0] && b[0] == c[0] {
        lemma_lt_transitive(a.drop_first(), b.drop_first(), c.drop_first());
    }
}

pub proof fn lemma_lt_total(a: Seq<char>, b: Seq<char>)
    ensures
        a == b || seq_lt(a, b) || seq_lt(b, a),
    decreases a.len(),
{
    if a.len() > 0 && b.len() > 0 && a[0] == b[0] {
        lemma_lt_total(a.drop_first(), b.drop_first());
        if a.drop_first() == b.drop_first() {
            assert(a =~= seq![a[0]] + a.drop_first());
            assert(b =~= seq![b[0]] + b.drop_first());
        }
    } else if a.len() > 0 && b.len() > 0 {
        lemma_char_code_injective(a[0], b[0]);
    } else if a.len() == 0 && b.len() == 0 {
        assert(a =~= b);
    }
}

proof fn lemma_char_code_injective(c: char, d: char)
    requires
        c != d,
    ensures
        (c as u32) != (d as u32),
{
    vstd::utf8::char_u32_cast(c, c as u32);
    vstd::utf8::char_u32_cast(d, d as u32);
}

proof fn lemma_lt_skip(a: Seq<char>, b: Seq<char>, i: int)
    requires
        0 <= i <= a.len(),
        i <= b.len(),
        a.take(i) == b.take(i),
    ensures
        seq_lt(a, b) == seq_lt(a.skip(i), b.skip(i)),
    decreases i,
{
    if i > 0 {
        assert(a[0] == a.take(i)[0]);
        assert(b[0] == b.take(i)[0]);
        assert(a.drop_first().take(i - 1) =~= a.take(i).drop_first());
        assert(b.drop_first().take(i - 1) =~= b.take(i).drop_first());
        lemma_lt_skip(a.drop_first(), b.drop_first(), i - 1);
        assert(a.drop_first().skip(i - 1) =~= a.skip(i));
        assert(b.drop_first().skip(i - 1) =~= b.skip(i));
    } else {
        assert(a.skip(0) =~= a);
        assert(b.skip(0) =~= b);
    }
}

/// Compares two strings: -1, 0 or 1 as `a` sorts before, equal to or after `b`.
pub fn compare_str(a: &str, b: &str) -> (r: i8)
    ensures
        r == 0 <==> a@ == b@,
        r < 0 <==> seq_lt(a@, b@),
        r > 0 <==> seq_lt(b@, a@),
{
    let la = a.unicode_len();
    let lb = b.unicode_len();
    let mut i: usize = 0;
    while i < la && i < lb
        invariant
            la == a@.len(),
            lb == b@.len(),
            i <= la,
            i <= lb,
            a@.take(i as int) == b@.take(i as int),
        decreases la - i,
    {
        let ca = a.get_char(i);
        let cb = b.get_char(i);
        if ca != cb {
            proof {
                lemma_lt_skip(a@, b@, i as int);
                lemma_lt_skip(b@, a@, i as int);
                assert(a@.skip(i as int)[0] == ca);
                assert(b@.skip(i as int)[0] == cb);
                lemma_char_code_injective(ca, cb);
            }
            if (ca as u32) < (cb as u32) {
                return -1;
            } else {
                return 1;
            }
        }
        assert(a@.take(i + 1) =~= a@.take(i as int).push(ca));
        assert(b@.take(i + 1) =~= b@.take(i as int).push(cb));
        i = i + 1;
    }
    proof {
        lemma_lt_skip(a@, b@, i as int);
        lemma_lt_skip(b@, a@, i as int);
        if la == lb {
            assert(a@ =~= a@.take(i as int));
            assert(b@ =~= b@.take(i as int));
        }
    }
    if la == lb {
        0
    } else if la < lb {
        proof {
            assert(a@ =~= a@.take(i as int));
            assert(b@.take(i as int) != b@);
        }
        -1
    } else {
        proof {
            assert(b@ =~= b@.take(i as int));
        }
        1
    }
}

/// Whether two strings hold the same characters.
pub fn str_eq(a: &str, b: &str) -> (r: bool)
    ensures
        r == (a@ == b@),
{
    compare_str(a, b) == 0
}

} // verus!

verus! {

/// Relies on String::from_utf8: it succeeds exactly on valid UTF-8, and the
/// string then holds the decoded characters.
#[verifier::external_body]
pub(crate) fn string_from_utf8(b: &[u8]) -> (r: Option<String>)
    ensures
        r is Some <==> vstd::utf8::valid_utf8(b@),
        r matches Some(s) ==> s@ == vstd::utf8::decode_utf8(b@),
{
    String::from_utf8(b.to_vec()).ok()
}

} // verus!

verus! {

/// The characters of each string.
pub open spec fn strs_view(v: Seq<String>) -> Seq<Seq<char>> {
    v.map_values(|s: String| s@)
}

/// A copy of a list of strings.
pub fn copy_strings(v: &Vec<String>) -> (r: Vec<String>)
    ensures
        strs_view(r@) == strs_view(v@),
{
    let mut r: Vec<String> = Vec::new();
    let mut i: usize = 0;
    while i < v.len()
        invariant
            i <= v@.len(),
            r@.len() == i,
            forall|j: int| 0 <= j < i ==> (#[trigger] r@[j])@ == v@[j]@,
        decreases v@.len() - i,
    {
        r.push(v[i].clone());
        i = i + 1;
    }
    assert(strs_view(r@) =~= strs_view(v@));
    r
}

} // verus!

verus! {

/// `n` occurs in `h` starting at position `i`.
pub open spec fn occurs_at(h: Seq<char>, n: Seq<char>, i: int) -> bool {
    0 <= i && i + n.len() <= h.len() && h.subrange(i, i + n.len()) == n
}

/// `n` occurs somewhere in `h`.
pub open spec fn contains_seq(h: Seq<char>, n: Seq<char>) -> bool {
    exists|i: int| occurs_at(h, n, i)
}

fn occurs_at_exec(h: &str, n: &str, i: usize, hl: usize, nl: usize) -> (r: bool)
    requires
        hl == h@.len(),
        nl == n@.len(),
        i + nl <= hl,
    ensures
        r == occurs_at(h@, n@, i as int),
{
    let mut k: usize = 0;
    while k < nl
        invariant
            hl == h@.len(),
            nl == n@.len(),
            i + nl <= hl,
            k <= nl,
            forall|q: int| 0 <= q < k ==> h@[i + q] == n@[q],
        decreases nl - k,
    {
        if h.get_char(i + k) != n.get_char(k) {
            proof {
                assert(h@.subrange(i as int, i + nl)[k as int] != n@[k as int]);
            }
            return false;
        }
        k = k + 1;
    }
    assert(h@.subrange(i as int, i + nl) =~= n@);
    true
}

/// Whether `n` occurs in `h`.
pub fn contains_str(h: &str, n: &str) -> (r: bool)
    ensures
        r == contains_seq(h@, n@),
{
    let hl = h.unicode_len();
    let nl = n.unicode_len();
    if nl > hl {
        return false;
    }
    let last = hl - nl;
    let mut i: usize = 0;
    loop
        invariant
            hl == h@.len(),
            nl == n@.len(),
            last == hl - nl,
            i <= last,
            forall|q: int| 0 <= q < i ==> !occurs_at(h@, n@, q),
        ensures
            forall|q: int| 0 <= q <= last ==> !occurs_at(h@, n@, q),
        decreases last - i,
    {
        if occurs_at_exec(h, n, i, hl, nl) {
            return true;
        }
        if i == last {
            break;
        }
        i = i + 1;
    }
    false
}

/// Whether `h` starts with `n`.
pub fn starts_with_str(h: &str, n: &str) -> (r: bool)
    ensures
        r == occurs_at(h@, n@, 0),
{
    let hl = h.unicode_len();
    let nl = n.unicode_len();
    if nl > hl {
        return false;
    }
    occurs_at_exec(h, n, 0, hl, nl)
}

/// Whether `h` ends with `n`.
pub fn ends_with_str(h: &str, n: &str) -> (r: bool)
    ensures
        r == (n@.len() <= h@.len() && occurs_at(h@, n@, h@.len() - n@.len())),
{
    let hl = h.unicode_len();
    let nl = n.unicode_len();
    if nl > hl {
        return false;
    }
    occurs_at_exec(h, n, hl - nl, hl, nl)
}

} // verus!

verus! {

/// Whether `c` is white space in the Unicode sense, as `char::is_whitespace` decides.
pub open spec fn is_ws(c: char) -> bool {
    let u = c as u32;
    (0x9 <= u && u <= 0xd) || u == 0x20 || u == 0x85 || u == 0xa0 || u == 0x1680 || (0x2000 <= u && u <= 0x200a)
        || u == 0x2028 || u == 0x2029 || u == 0x202f || u == 0x205f || u == 0x3000
}

pub open spec fn trim_start(s: Seq<char>) -> Seq<char>
    decreases s.len(),
{
    if s.len() > 0 && is_ws(s[0]) {
        trim_start(s.drop_first())
    } else {
        s
    }
}

pub open spec fn trim_end(s: Seq<char>) -> Seq<char>
    decreases s.len(),
{
    if s.len() > 0 && is_ws(s.last()) {
        trim_end(s.drop_last())
    } else {
        s
    }
}

/// Text without white space at either end.
pub open spec fn trim(s: Seq<char>) -> Seq<char> {
    trim_end(trim_start(s))
}

fn is_ws_exec(c: char) -> (r: bool)
    ensures
        r == is_ws(c),
{
    let u = c as u32;
    (0x9 <= u && u <= 0xd) || u == 0x20 || u == 0x85 || u == 0xa0 || u == 0x1680 || (0x2000 <= u && u <= 0x200a)
        || u == 0x2028 || u == 0x2029 || u == 0x202f || u == 0x205f || u == 0x3000
}

/// `text` without white space at either end.
pub fn trim_str(text: &str) -> (r: String)
    ensures
        r@ == trim(text@),
{
    let n = text.unicode_len();
    let mut lo: usize = 0;
    assert(text@.skip(0) =~= text@);
    while lo < n && is_ws_exec(text.get_char(lo))
        invariant
            n == text@.len(),
            lo <= n,
            trim_start(text@) == trim_start(text@.skip(lo as int)),
        decreases n - lo,
    {
        assert(text@.skip(lo as int).drop_first() =~= text@.skip(lo + 1));
        lo = lo + 1;
    }
    assert(text@.skip(lo as int) =~= text@.subrange(lo as int, n as int));
    if lo < n {
        assert(text@.skip(lo as int)[0] == text@[lo as int]);
    }
    assert(trim_start(text@.skip(lo as int)) == text@.skip(lo as int));
    assert(trim_start(text@) == text@.subrange(lo as int, n as int));
    assert(trim(text@) == trim_end(text@.subrange(lo as int, n as int)));
    let mut hi: usize = n;
    while hi > lo && is_ws_exec(text.get_char(hi - 1))
        invariant
            n == text@.len(),
            lo <= hi <= n,
            trim(text@) == trim_end(text@.subrange(lo as int, hi as int)),
        decreases hi - lo,
    {
        assert(text@.subrange(lo as int, hi as int).drop_last() =~= text@.subrange(lo as int, hi - 1));
        hi = hi - 1;
    }
    String::from_str(text.substring_char(lo, hi))
}

} // verus!
