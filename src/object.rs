use vstd::prelude::*;
use crate::text::{compare_str, lemma_lt_irreflexive, lemma_lt_transitive, seq_lt};

verus! {

/// The kind of a stored object.
#[derive(Clone, Copy, Debug, PartialEq, Eq, Structural)]
pub enum ObjectType {
    Commit,
    Tree,
    Blob,
}

/// The bytes of one version of a file.
#[derive(Clone, Debug)]
pub struct Blob {
    pub content: Vec<u8>,
}

impl Blob {
    pub fn new(content: Vec<u8>) -> (r: Blob)
        ensures
            r.content@ == content@,
    {
        Blob { content }
    }

    /// A blob holding the UTF-8 bytes of `content`.
    pub fn from_string(content: String) -> (r: Blob)
        ensures
            r.content@ == vstd::utf8::encode_utf8(content@),
    {
        Blob::new(content.as_str().as_bytes_vec())
    }

    /// The content as text, when it is valid UTF-8.
    pub fn to_string(&self) -> (r: Option<String>)
        ensures
            r is Some <==> vstd::utf8::valid_utf8(self.content@),
            r matches Some(s) ==> s@ == vstd::utf8::decode_utf8(self.content@),
    {
        crate::text::string_from_utf8(self.content.as_slice())
    }

    pub fn size(&self) -> (r: usize)
        ensures
            r == self.content@.len(),
    {
        self.content.len()
    }

    pub fn copied(&self) -> (r: Blob)
        ensures
            r.content@ == self.content@,
    {
        Blob { content: self.content.clone() }
    }
}

/// What a tree records for one name: the child's hash and whether it is a file.
pub type EntryView = (Seq<char>, bool);

/// One named child of a tree.
#[derive(Clone, Debug)]
pub struct TreeEntry {
    pub name: String,
    pub hash: String,
    pub is_file: bool,
}

impl TreeEntry {
    pub open spec fn entry_view(&self) -> EntryView {
        (self.hash@, self.is_file)
    }

    pub fn copied(&self) -> (r: TreeEntry)
        ensures
            r.name@ == self.name@,
            r.hash@ == self.hash@,
            r.is_file == self.is_file,
    {
        TreeEntry { name: self.name.clone(), hash: self.hash.clone(), is_file: self.is_file }
    }
}

/// A directory snapshot: entries kept in strictly increasing order of name,
/// so that names are unique and the layout is canonical.
#[derive(Clone, Debug)]
pub struct Tree {
    pub entries: Vec<TreeEntry>,
}

impl Default for Tree {
    fn default() -> (r: Tree)
        ensures
            r.wf(),
            r@ == Map::<Seq<char>, EntryView>::empty(),
    {
        Tree::new()
    }
}

/// Entries whose names strictly increase.
pub open spec fn sorted_entries(s: Seq<TreeEntry>) -> bool {
    forall|i: int, j: int| 0 <= i < j < s.len() ==> seq_lt(#[trigger] s[i].name@, #[trigger] s[j].name@)
}

/// The name-to-entry map of a sequence of entries.
pub open spec fn entries_map(s: Seq<TreeEntry>) -> Map<Seq<char>, EntryView> {
    Map::new(
        |n: Seq<char>| exists|i: int| 0 <= i < s.len() && s[i].name@ == n,
        |n: Seq<char>| s[choose|i: int| 0 <= i < s.len() && s[i].name@ == n].entry_view(),
    )
}

/// In sorted entries, the map holds at each entry's name exactly that entry.
pub proof fn lemma_entries_map_at(s: Seq<TreeEntry>, i: int)
    requires
        sorted_entries(s),
        0 <= i < s.len(),
    ensures
        entries_map(s).contains_key(s[i].name@),
        entries_map(s)[s[i].name@] == s[i].entry_view(),
{
    let n = s[i].name@;
    assert(exists|k: int| 0 <= k < s.len() && s[k].name@ == n);
    let j = choose|k: int| 0 <= k < s.len() && s[k].name@ == n;
    if j < i {
        assert(seq_lt(s[j].name@, s[i].name@));
        lemma_lt_irreflexive(n);
    } else if i < j {
        assert(seq_lt(s[i].name@, s[j].name@));
        lemma_lt_irreflexive(n);
    }
    assert forall|k: int| 0 <= k < s.len() && #[trigger] s[k].name@ == n implies k == i by {
        if k < i {
            assert(seq_lt(s[k].name@, s[i].name@));
            lemma_lt_irreflexive(n);
        } else if i < k {
            assert(seq_lt(s[i].name@, s[k].name@));
            lemma_lt_irreflexive(n);
        }
    }
}

impl Tree {
    pub open spec fn wf(&self) -> bool {
        sorted_entries(self.entries@)
    }

    /// The tree as a map from names to entries.
    pub open spec fn view(&self) -> Map<Seq<char>, EntryView> {
        entries_map(self.entries@)
    }

    /// The names, in order.
    pub open spec fn names(&self) -> Seq<Seq<char>> {
        self.entries@.map_values(|e: TreeEntry| e.name@)
    }

    pub fn new() -> (r: Tree)
        ensures
            r.wf(),
            r@ == Map::<Seq<char>, EntryView>::empty(),
    {
        let r = Tree { entries: Vec::new() };
        assert(r@ =~= Map::<Seq<char>, EntryView>::empty());
        r
    }

    /// Where `name` stands, or would stand: `(true, i)` if entry `i` has it,
    /// else `(false, i)` with every earlier name before it and every later one after.
    pub fn find(&self, name: &str) -> (r: (bool, usize))
        requires
            self.wf(),
        ensures
            r.1 <= self.entries@.len(),
            r.0 ==> r.1 < self.entries@.len() && self.entries@[r.1 as int].name@ == name@,
            !r.0 ==> forall|k: int| 0 <= k < r.1 ==> seq_lt(#[trigger] self.entries@[k].name@, name@),
            !r.0 ==> forall|k: int| r.1 <= k < self.entries@.len() ==> seq_lt(name@, #[trigger] self.entries@[k].name@),
            r.0 == self@.contains_key(name@),
    {
        let mut i: usize = 0;
        while i < self.entries.len()
            invariant
                self.wf(),
                i <= self.entries@.len(),
                forall|k: int| 0 <= k < i ==> seq_lt(#[trigger] self.entries@[k].name@, name@),
            decreases self.entries@.len() - i,
        {
            let c = compare_str(self.entries[i].name.as_str(), name);
            if c == 0 {
                proof {
                    lemma_entries_map_at(self.entries@, i as int);
                }
                return (true, i);
            }
            if c > 0 {
                proof {
                    assert forall|k: int| i <= k < self.entries@.len() implies seq_lt(name@, #[trigger] self.entries@[k].name@) by {
                        if k > i {
                            lemma_lt_transitive(name@, self.entries@[i as int].name@, self.entries@[k].name@);
                        }
                    }
                    self.lemma_absent(name@, i as int);
                }
                return (false, i);
            }
            i = i + 1;
        }
        proof {
            self.lemma_absent(name@, i as int);
        }
        (false, i)
    }

    proof fn lemma_absent(&self, n: Seq<char>, p: int)
        requires
            0 <= p <= self.entries@.len(),
            forall|k: int| 0 <= k < p ==> seq_lt(#[trigger] self.entries@[k].name@, n),
            forall|k: int| p <= k < self.entries@.len() ==> seq_lt(n, #[trigger] self.entries@[k].name@),
        ensures
            !self@.contains_key(n),
    {
        if self@.contains_key(n) {
            let j = choose|k: int| 0 <= k < self.entries@.len() && self.entries@[k].name@ == n;
            lemma_lt_irreflexive(n);
        }
    }

    /// The entry under `name`, if any.
    pub fn get(&self, name: &str) -> (r: Option<&TreeEntry>)
        requires
            self.wf(),
        ensures
            r is Some <==> self@.contains_key(name@),
            r matches Some(e) ==> e.name@ == name@ && self@[name@] == e.entry_view(),
    {
        let (found, i) = self.find(name);
        if found {
            proof {
                lemma_entries_map_at(self.entries@, i as int);
            }
            Some(&self.entries[i])
        } else {
            None
        }
    }

    /// Records `name` with `hash`, replacing any entry of that name.
    pub fn add_entry(&mut self, name: String, hash: String, is_file: bool)
        requires
            old(self).wf(),
        ensures
            final(self).wf(),
            final(self)@ == old(self)@.insert(name@, (hash@, is_file)),
    {
        let (found, i) = self.find(name.as_str());
        let ghost n = name@;
        let ghost v: EntryView = (hash@, is_file);
        let ghost before = self.entries@;
        let entry = TreeEntry { name, hash, is_file };
        if found {
            self.entries.remove(i);
            self.entries.insert(i, entry);
            assert(self.entries@ =~= before.update(i as int, entry));
        } else {
            self.entries.insert(i, entry);
            assert(self.entries@ =~= before.insert(i as int, entry));
        }
        let ghost after = self.entries@;
        assert(sorted_entries(after)) by {
            assert forall|a: int, b: int| 0 <= a < b < after.len() implies seq_lt(#[trigger] after[a].name@, #[trigger] after[b].name@) by {
                if found {
                    if a == i {
                        assert(seq_lt(before[a].name@, before[b].name@));
                    } else if b == i {
                        assert(seq_lt(before[a].name@, before[b].name@));
                    } else {
                        assert(seq_lt(before[a].name@, before[b].name@));
                    }
                } else {
                    if b < i {
                        assert(seq_lt(before[a].name@, before[b].name@));
                    } else if a < i && b == i {
                    } else if a < i && b > i {
                        assert(seq_lt(before[a].name@, n));
                        assert(seq_lt(n, before[b - 1].name@));
                        lemma_lt_transitive(after[a].name@, n, after[b].name@);
                    } else if a == i {
                        assert(seq_lt(n, before[b - 1].name@));
                    } else {
                        assert(seq_lt(before[a - 1].name@, before[b - 1].name@));
                    }
                }
            }
        }
        assert(self@ =~= old(self)@.insert(n, v)) by {
            assert forall|k: Seq<char>| #![auto] self@.contains_key(k) <==> old(self)@.insert(n, v).contains_key(k) by {
                if self@.contains_key(k) {
                    let j = choose|j: int| 0 <= j < after.len() && after[j].name@ == k;
                    if k != n {
                        if found {
                            assert(before[j].name@ == k);
                        } else if j < i {
                            assert(before[j].name@ == k);
                        } else {
                            assert(before[j - 1].name@ == k);
                        }
                    }
                }
                if old(self)@.contains_key(k) && k != n {
                    let j = choose|j: int| 0 <= j < before.len() && before[j].name@ == k;
                    if found || j < i {
                        assert(after[j].name@ == k);
                    } else {
                        assert(after[j + 1].name@ == k);
                    }
                }
                if k == n {
                    assert(after[i as int].name@ == n);
                }
            }
            assert forall|k: Seq<char>| #[trigger] self@.contains_key(k) implies self@[k] == old(self)@.insert(n, v)[k] by {
                let j = choose|j: int| 0 <= j < after.len() && after[j].name@ == k;
                lemma_entries_map_at(after, j);
                if k != n {
                    if found || j < i {
                        lemma_entries_map_at(before, j);
                    } else {
                        lemma_entries_map_at(before, j - 1);
                    }
                } else {
                    lemma_entries_map_at(after, i as int);
                }
            }
        }
    }

    /// The entries that are files, in name order.
    pub fn get_files(&self) -> (r: Vec<TreeEntry>)
        requires
            self.wf(),
        ensures
            r@.len() <= self.entries@.len(),
            forall|k: int| 0 <= k < r@.len() ==> (#[trigger] r@[k]).is_file,
            forall|k: int| 0 <= k < r@.len() ==> self@.contains_key((#[trigger] r@[k]).name@)
                && self@[r@[k].name@] == r@[k].entry_view(),
            forall|k: int| 0 <= k < self.entries@.len() && (#[trigger] self.entries@[k]).is_file
                ==> exists|m: int| 0 <= m < r@.len() && r@[m].name@ == self.entries@[k].name@,
            forall|a: int, b: int| 0 <= a < b < r@.len() ==> seq_lt((#[trigger] r@[a]).name@, (#[trigger] r@[b]).name@),
    {
        self.select(true)
    }

    /// The entries that are directories, in name order.
    pub fn get_directories(&self) -> (r: Vec<TreeEntry>)
        requires
            self.wf(),
        ensures
            r@.len() <= self.entries@.len(),
            forall|k: int| 0 <= k < r@.len() ==> !(#[trigger] r@[k]).is_file,
            forall|k: int| 0 <= k < r@.len() ==> self@.contains_key((#[trigger] r@[k]).name@)
                && self@[r@[k].name@] == r@[k].entry_view(),
            forall|k: int| 0 <= k < self.entries@.len() && !(#[trigger] self.entries@[k]).is_file
                ==> exists|m: int| 0 <= m < r@.len() && r@[m].name@ == self.entries@[k].name@,
            forall|a: int, b: int| 0 <= a < b < r@.len() ==> seq_lt((#[trigger] r@[a]).name@, (#[trigger] r@[b]).name@),
    {
        self.select(false)
    }

    fn select(&self, files: bool) -> (r: Vec<TreeEntry>)
        requires
            self.wf(),
        ensures
            r@.len() <= self.entries@.len(),
            forall|k: int| 0 <= k < r@.len() ==> (#[trigger] r@[k]).is_file == files,
            forall|k: int| 0 <= k < r@.len() ==> self@.contains_key((#[trigger] r@[k]).name@)
                && self@[r@[k].name@] == r@[k].entry_view(),
            forall|k: int| 0 <= k < self.entries@.len() && (#[trigger] self.entries@[k]).is_file == files
                ==> exists|m: int| 0 <= m < r@.len() && r@[m].name@ == self.entries@[k].name@,
            forall|a: int, b: int| 0 <= a < b < r@.len() ==> seq_lt((#[trigger] r@[a]).name@, (#[trigger] r@[b]).name@),
    {
        let mut r: Vec<TreeEntry> = Vec::new();
        let mut i: usize = 0;
        while i < self.entries.len()
            invariant
                self.wf(),
                i <= self.entries@.len(),
                r@.len() <= i,
                forall|k: int| 0 <= k < r@.len() ==> (#[trigger] r@[k]).is_file == files,
                forall|k: int| 0 <= k < r@.len() ==> self@.contains_key((#[trigger] r@[k]).name@)
                    && self@[r@[k].name@] == r@[k].entry_view(),
                forall|k: int| 0 <= k < i && (#[trigger] self.entries@[k]).is_file == files
                    ==> exists|m: int| 0 <= m < r@.len() && r@[m].name@ == self.entries@[k].name@,
                forall|a: int, b: int| 0 <= a < b < r@.len() ==> seq_lt((#[trigger] r@[a]).name@, (#[trigger] r@[b]).name@),
                forall|a: int, j: int| 0 <= a < r@.len() && i <= j < self.entries@.len()
                    ==> seq_lt((#[trigger] r@[a]).name@, (#[trigger] self.entries@[j]).name@),
            decreases self.entries@.len() - i,
        {
            if self.entries[i].is_file == files {
                let e = self.entries[i].copied();
                proof {
                    lemma_entries_map_at(self.entries@, i as int);
                }
                let ghost r0 = r@;
                r.push(e);
                assert forall|a: int, j: int| 0 <= a < r@.len() && i + 1 <= j < self.entries@.len()
                    implies seq_lt((#[trigger] r@[a]).name@, (#[trigger] self.entries@[j]).name@) by {
                    assert(seq_lt(self.entries@[i as int].name@, self.entries@[j].name@));
                    if a < r0.len() {
                        assert(r@[a] == r0[a]);
                    }
                }
                assert forall|a: int, b: int| 0 <= a < b < r@.len() implies seq_lt((#[trigger] r@[a]).name@, (#[trigger] r@[b]).name@) by {
                    assert(r@[a] == r0[a] || a == r0.len());
                    if b == r0.len() {
                        assert(seq_lt(r0[a].name@, self.entries@[i as int].name@));
                    } else {
                        assert(r@[b] == r0[b]);
                    }
                }
                assert forall|k: int| 0 <= k < i + 1 && (#[trigger] self.entries@[k]).is_file == files
                    implies exists|m: int| 0 <= m < r@.len() && r@[m].name@ == self.entries@[k].name@ by {
                    if k == i {
                        assert(r@[r@.len() - 1].name@ == self.entries@[k].name@);
                    } else {
                        let m = choose|m: int| 0 <= m < r0.len() && r0[m].name@ == self.entries@[k].name@;
                        assert(r@[m] == r0[m]);
                    }
                }
            }
            i = i + 1;
        }
        r
    }
}

} // verus!

verus! {

/// A snapshot: its tree, its parents in order, who made it, why, and when
/// (seconds since the Unix epoch).
#[derive(Clone, Debug)]
pub struct Commit {
    pub tree: String,
    pub parents: Vec<String>,
    pub author: String,
    pub message: String,
    pub timestamp: i64,
}

impl Commit {
    pub fn new(tree: String, parents: Vec<String>, author: String, message: String, timestamp: i64) -> (r: Commit)
        ensures
            r.tree@ == tree@,
            r.parents@ == parents@,
            r.author@ == author@,
            r.message@ == message@,
            r.timestamp == timestamp,
    {
        Commit { tree, parents, author, message, timestamp }
    }

    /// Whether the commit has two parents or more.
    pub fn is_merge(&self) -> (r: bool)
        ensures
            r == (self.parents@.len() > 1),
    {
        self.parents.len() > 1
    }
}

/// A stored object: a closed union of the three kinds.
#[derive(Clone, Debug)]
pub enum Object {
    Commit(Commit),
    Tree(Tree),
    Blob(Blob),
}

impl Object {
    /// Trees keep their names in order; the other kinds have no constraint.
    pub open spec fn wf(&self) -> bool {
        match self {
            Object::Tree(t) => t.wf(),
            _ => true,
        }
    }

    pub fn object_type(&self) -> (r: ObjectType)
        ensures
            r == (match self {
                Object::Commit(_) => ObjectType::Commit,
                Object::Tree(_) => ObjectType::Tree,
                Object::Blob(_) => ObjectType::Blob,
            }),
    {
        match self {
            Object::Commit(_) => ObjectType::Commit,
            Object::Tree(_) => ObjectType::Tree,
            Object::Blob(_) => ObjectType::Blob,
        }
    }

    pub fn as_commit(&self) -> (r: Option<&Commit>)
        ensures
            self is Commit <==> r is Some,
            r matches Some(c) ==> *self == Object::Commit(*c),
    {
        match self {
            Object::Commit(c) => Some(c),
            _ => None,
        }
    }

    pub fn as_tree(&self) -> (r: Option<&Tree>)
        ensures
            self is Tree <==> r is Some,
            r matches Some(t) ==> *self == Object::Tree(*t),
    {
        match self {
            Object::Tree(t) => Some(t),
            _ => None,
        }
    }

    pub fn as_blob(&self) -> (r: Option<&Blob>)
        ensures
            self is Blob <==> r is Some,
            r matches Some(b) ==> *self == Object::Blob(*b),
    {
        match self {
            Object::Blob(b) => Some(b),
            _ => None,
        }
    }
}

} // verus!
