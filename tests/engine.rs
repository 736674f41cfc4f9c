use nvcs::codec::{deserialize, serialize};
use nvcs::files::is_ignored;
use nvcs::graph::{ancestors, merge_base};
use nvcs::hash::calculate_hash;
use nvcs::merge::reconcile_trees;
use nvcs::store::ObjectStore;
use nvcs::text::compare_str;
use nvcs::{Blob, Commit, ConflictKind, Head, Index, IndexEntry, MergeOutcome, Object, Repository, Tree, VcsError};

fn tree(entries: &[(&str, &str)]) -> Tree {
    let mut t = Tree::new();
    for (n, h) in entries {
        t.add_entry(n.to_string(), h.to_string(), true);
    }
    t
}

fn commit_obj(tree: &str, parents: &[&str], msg: &str, ts: i64) -> Object {
    Object::Commit(Commit::new(
        tree.to_string(),
        parents.iter().map(|p| p.to_string()).collect(),
        "tester".to_string(),
        msg.to_string(),
        ts,
    ))
}

#[test]
fn conflicting_changes_give_one_conflict() {
    let (merged, conflicts) = reconcile_trees(&tree(&[("a", "1")]), &tree(&[("a", "2")]), &tree(&[("a", "3")]));
    assert_eq!(conflicts.len(), 1);
    assert_eq!(conflicts[0].path, "a");
    assert_eq!(conflicts[0].kind, ConflictKind::Content);
    assert_eq!(merged.get("a").unwrap().hash, "2");
}

#[test]
fn one_sided_change_is_taken() {
    let (merged, conflicts) = reconcile_trees(&tree(&[("a", "1")]), &tree(&[("a", "2")]), &tree(&[("a", "1")]));
    assert!(conflicts.is_empty());
    assert_eq!(merged.get("a").unwrap().hash, "2");
    let (merged, conflicts) = reconcile_trees(&tree(&[("a", "1")]), &tree(&[("a", "1")]), &tree(&[("a", "3")]));
    assert!(conflicts.is_empty());
    assert_eq!(merged.get("a").unwrap().hash, "3");
}

#[test]
fn delete_against_modify_conflicts() {
    let (merged, conflicts) = reconcile_trees(&tree(&[("a", "1")]), &tree(&[]), &tree(&[("a", "2")]));
    assert_eq!(conflicts.len(), 1);
    assert_eq!(conflicts[0].path, "a");
    assert_eq!(conflicts[0].kind, ConflictKind::DeleteModify);
    assert!(merged.get("a").is_none());
    let (_, conflicts) = reconcile_trees(&tree(&[("a", "1")]), &tree(&[("a", "2")]), &tree(&[]));
    assert_eq!(conflicts.len(), 1);
    assert_eq!(conflicts[0].kind, ConflictKind::DeleteModify);
}

#[test]
fn deletions_and_additions_reconcile() {
    let base = tree(&[("gone", "1"), ("kept", "1"), ("ours_del", "1")]);
    let ours = tree(&[("kept", "1"), ("new_o", "5"), ("same", "7")]);
    let theirs = tree(&[("kept", "1"), ("ours_del", "1"), ("new_t", "6"), ("same", "7")]);
    let (merged, conflicts) = reconcile_trees(&base, &ours, &theirs);
    assert!(conflicts.is_empty());
    let names: Vec<&str> = merged.entries.iter().map(|e| e.name.as_str()).collect();
    assert_eq!(names, vec!["kept", "new_o", "new_t", "same"]);
}

#[test]
fn added_differently_conflicts_and_conflicts_are_sorted() {
    let (_, conflicts) = reconcile_trees(&tree(&[]), &tree(&[("z", "1"), ("b", "1")]), &tree(&[("z", "2"), ("b", "2")]));
    let paths: Vec<&str> = conflicts.iter().map(|c| c.path.as_str()).collect();
    assert_eq!(paths, vec!["b", "z"]);
}

#[test]
fn tree_keeps_names_sorted_and_unique() {
    let mut t = tree(&[("b", "1"), ("a", "2"), ("c", "3")]);
    t.add_entry("b".to_string(), "9".to_string(), false);
    let names: Vec<&str> = t.entries.iter().map(|e| e.name.as_str()).collect();
    assert_eq!(names, vec!["a", "b", "c"]);
    assert_eq!(t.get("b").unwrap().hash, "9");
    assert_eq!(t.get_directories().len(), 1);
    assert_eq!(t.get_files().len(), 2);
}

#[test]
fn round_trip_is_byte_identical() {
    let objs = vec![
        Object::Blob(Blob::new(vec![0, 1, 2, 255])),
        Object::Tree(tree(&[("a.txt", "abc"), ("dir/b", "def")])),
        commit_obj("t", &["p1", "p2"], "héllo\nworld", -5),
    ];
    for o in &objs {
        let bytes = serialize(o);
        let back = deserialize(&bytes).expect("decodes");
        assert_eq!(serialize(&back), bytes);
    }
}

#[test]
fn malformed_bytes_are_refused() {
    assert!(deserialize(&[]).is_none());
    assert!(deserialize(&[7]).is_none());
    let mut bytes = serialize(&Object::Blob(Blob::new(vec![1, 2, 3])));
    bytes.push(0);
    assert!(deserialize(&bytes).is_none());
    let unsorted = vec![1u8, 0, 0, 0, 0, 0, 0, 0, 2, 0, 0, 0, 0, 0, 0, 0, 1, b'b', 0, 0, 0, 0, 0, 0, 0, 0, 1, 0, 0, 0, 0, 0, 0, 0, 1, b'a', 0, 0, 0, 0, 0, 0, 0, 0, 1];
    assert!(deserialize(&unsorted).is_none());
}

#[test]
fn blob_encoding_is_exact() {
    let bytes = serialize(&Object::Blob(Blob::from_string("hi".to_string())));
    assert_eq!(bytes, vec![2, 0, 0, 0, 0, 0, 0, 0, 2, b'h', b'i']);
}

#[test]
fn hash_is_sha256_hex() {
    assert_eq!(calculate_hash(b"abc"), "ba7816bf8f01cfea414140de5dae2223b00361a396177a9cb410ff61f20015ad");
    assert_eq!(calculate_hash(b"").len(), 64);
}

#[test]
fn storing_twice_keeps_one_copy() {
    let mut s = ObjectStore::new();
    let o = Object::Blob(Blob::new(b"same".to_vec()));
    let h1 = s.store_object(&o).unwrap();
    let h2 = s.store_object(&o).unwrap();
    assert_eq!(h1, h2);
    assert_eq!(s.objects.len(), 1);
    assert_eq!(h1, calculate_hash(&serialize(&o)));
}

#[test]
fn identical_commits_hash_identically() {
    let mut s = ObjectStore::new();
    let root = s.store_object(&commit_obj("t", &[], "root", 1)).unwrap();
    let a = s.store_object(&commit_obj("t", &[root.as_str()], "m", 42)).unwrap();
    let b = s.store_object(&commit_obj("t", &[root.as_str()], "m", 42)).unwrap();
    assert_eq!(a, b);
    let c = s.store_object(&commit_obj("t", &[root.as_str()], "m", 43)).unwrap();
    assert_ne!(a, c);
}

#[test]
fn load_reports_missing_and_corrupt() {
    let s = ObjectStore::from_objects(vec![vec![9, 9]]).unwrap();
    assert!(matches!(s.load_object("nope"), Err(VcsError::NotFound)));
    let h = calculate_hash(&[9, 9]);
    assert!(matches!(s.load_object(&h), Err(VcsError::Integrity)));
}

#[test]
fn dangling_parent_is_refused_on_load() {
    let bytes = serialize(&commit_obj("t", &["missing"], "x", 0));
    assert!(matches!(ObjectStore::from_objects(vec![bytes]), Err(VcsError::Integrity)));
}

#[test]
fn merge_base_is_closest_common_ancestor() {
    let mut s = ObjectStore::new();
    let c1 = s.store_object(&commit_obj("t", &[], "1", 1)).unwrap();
    let c2 = s.store_object(&commit_obj("t", &[c1.as_str()], "2", 2)).unwrap();
    let c3 = s.store_object(&commit_obj("t", &[c2.as_str()], "3", 3)).unwrap();
    let c4 = s.store_object(&commit_obj("t", &[c2.as_str()], "4", 4)).unwrap();
    let c5 = s.store_object(&commit_obj("t", &[c4.as_str()], "5", 5)).unwrap();
    assert_eq!(merge_base(&s, &c3, &c5).unwrap(), c2);
    assert_eq!(merge_base(&s, &c5, &c1).unwrap(), c1);
    let anc = ancestors(&s, &c5);
    assert_eq!(anc.len(), 4);
    assert!(!anc.contains(&c3));
    let other = s.store_object(&commit_obj("u", &[], "other root", 9)).unwrap();
    assert!(matches!(merge_base(&s, &c3, &other), Err(VcsError::InvalidState)));
}

#[test]
fn commit_empties_index_and_records_it() {
    let mut repo = Repository::new();
    assert!(matches!(repo.commit("m".to_string(), "a".to_string(), 0), Err(VcsError::InvalidState)));
    let ha = repo.stage("a.txt", b"one".to_vec(), 0).unwrap();
    let hb = repo.stage("b.txt", b"two".to_vec(), 0).unwrap();
    let c = repo.commit("m".to_string(), "a".to_string(), 0).unwrap();
    assert!(repo.index.entries.is_empty());
    assert_eq!(repo.get_head(), Some(c.clone()));
    assert_eq!(repo.resolve_ref("main"), Some(c.clone()));
    let t = nvcs::merge::commit_tree(&repo.store, &c).unwrap();
    assert_eq!(t.get("a.txt").unwrap().hash, ha);
    assert_eq!(t.get("b.txt").unwrap().hash, hb);
}

#[test]
fn branch_safety() {
    let mut repo = Repository::new();
    repo.stage("a", b"x".to_vec(), 0).unwrap();
    let c = repo.commit("m".to_string(), "a".to_string(), 0).unwrap();
    assert!(matches!(repo.delete_branch("main"), Err(VcsError::InvalidState)));
    assert!(matches!(repo.delete_branch("nope"), Err(VcsError::NotFound)));
    repo.create_branch("f", &c).unwrap();
    assert!(matches!(repo.create_branch("f", &c), Err(VcsError::AlreadyExists)));
    assert!(matches!(repo.create_branch("g", "zz"), Err(VcsError::NotFound)));
    repo.delete_branch("f").unwrap();
    assert_eq!(repo.list_branches(), vec!["main".to_string()]);
}

#[test]
fn index_operations() {
    let mut idx = Index::new();
    idx.add_entry(IndexEntry { path: "a".to_string(), hash: "h1".to_string(), size: 1, modified: 0 });
    idx.add_entry(IndexEntry { path: "a".to_string(), hash: "h2".to_string(), size: 1, modified: 0 });
    assert_eq!(idx.entries.len(), 1);
    assert!(idx.is_staged("a"));
    assert!(!idx.is_staged("b"));
    assert_eq!(idx.get_staged_files(), vec!["a".to_string()]);
    idx.remove_file("a");
    assert!(idx.is_empty());
}

#[test]
fn history_follows_first_parents() {
    let mut repo = Repository::new();
    repo.stage("a", b"1".to_vec(), 0).unwrap();
    let c1 = repo.commit("1".to_string(), "a".to_string(), 1).unwrap();
    repo.stage("a", b"2".to_vec(), 0).unwrap();
    let c2 = repo.commit("2".to_string(), "a".to_string(), 2).unwrap();
    assert_eq!(repo.history(&c2, 10), vec![c2.clone(), c1.clone()]);
    assert_eq!(repo.history(&c2, 1), vec![c2]);
}

#[test]
fn end_to_end_conflicting_merge() {
    let mut repo = Repository::new();
    repo.stage("a.txt", b"hello".to_vec(), 0).unwrap();
    let c1 = repo.commit("c1".to_string(), "t".to_string(), 1).unwrap();
    repo.create_branch("feature", &c1).unwrap();
    repo.stage("a.txt", b"hello-main".to_vec(), 0).unwrap();
    let c2 = repo.commit("c2".to_string(), "t".to_string(), 2).unwrap();
    repo.checkout_branch("feature").unwrap();
    repo.stage("a.txt", b"hello-feature".to_vec(), 0).unwrap();
    let c3 = repo.commit("c3".to_string(), "t".to_string(), 3).unwrap();
    assert_eq!(repo.history(&c2, 5), vec![c2.clone(), c1.clone()]);
    assert_eq!(repo.history(&c3, 5), vec![c3.clone(), c1.clone()]);
    repo.checkout_branch("main").unwrap();
    assert_eq!(merge_base(&repo.store, &c2, &c3).unwrap(), c1);
    let before = repo.store.objects.len();
    match repo.merge("feature", "t".to_string(), "merge".to_string(), 4).unwrap() {
        MergeOutcome::Conflicts(m) => {
            assert!(!m.success);
            assert!(m.merged_tree.is_none());
            let paths: Vec<&str> = m.conflicts.iter().map(|c| c.path.as_str()).collect();
            assert_eq!(paths, vec!["a.txt"]);
        }
        _ => panic!("expected conflicts"),
    }
    assert_eq!(repo.store.objects.len(), before);
    assert_eq!(repo.resolve_ref("main"), Some(c2));
}

#[test]
fn clean_merge_makes_two_parent_commit() {
    let mut repo = Repository::new();
    repo.stage("a.txt", b"hello".to_vec(), 0).unwrap();
    let c1 = repo.commit("c1".to_string(), "t".to_string(), 1).unwrap();
    repo.create_branch("feature", &c1).unwrap();
    repo.stage("a.txt", b"hello".to_vec(), 0).unwrap();
    repo.stage("b.txt", b"main".to_vec(), 0).unwrap();
    let c2 = repo.commit("c2".to_string(), "t".to_string(), 2).unwrap();
    repo.checkout_branch("feature").unwrap();
    repo.stage("a.txt", b"hello".to_vec(), 0).unwrap();
    repo.stage("c.txt", b"feature".to_vec(), 0).unwrap();
    let c3 = repo.commit("c3".to_string(), "t".to_string(), 3).unwrap();
    repo.checkout_branch("main").unwrap();
    let m = match repo.merge("feature", "t".to_string(), "merge".to_string(), 4).unwrap() {
        MergeOutcome::Merged(h) => h,
        _ => panic!("expected a merge commit"),
    };
    assert_eq!(repo.resolve_ref("main"), Some(m.clone()));
    assert_eq!(repo.store.parents_of(&m), Some(vec![c2, c3]));
    let t = nvcs::merge::commit_tree(&repo.store, &m).unwrap();
    let names: Vec<&str> = t.entries.iter().map(|e| e.name.as_str()).collect();
    assert_eq!(names, vec!["a.txt", "b.txt", "c.txt"]);
    assert!(matches!(repo.merge("feature", "t".to_string(), "again".to_string(), 5).unwrap(), MergeOutcome::Merged(_)));
}

#[test]
fn merge_errors() {
    let mut repo = Repository::new();
    assert!(matches!(repo.merge("x", "t".to_string(), "m".to_string(), 0), Err(VcsError::InvalidState)));
    repo.stage("a", b"1".to_vec(), 0).unwrap();
    let c = repo.commit("1".to_string(), "a".to_string(), 1).unwrap();
    assert!(matches!(repo.merge("x", "t".to_string(), "m".to_string(), 0), Err(VcsError::NotFound)));
    repo.create_branch("same", &c).unwrap();
    assert!(matches!(repo.merge("same", "t".to_string(), "m".to_string(), 0), Ok(MergeOutcome::UpToDate)));
    repo.checkout_detached(&c).unwrap();
    assert!(matches!(repo.merge("same", "t".to_string(), "m".to_string(), 0), Err(VcsError::InvalidState)));
}

#[test]
fn string_order_is_by_code_point() {
    assert!(compare_str("a", "b") < 0);
    assert!(compare_str("ab", "a") > 0);
    assert_eq!(compare_str("x", "x"), 0);
}

#[test]
fn blob_accessors() {
    let b = Blob::from_string("héllo".to_string());
    assert_eq!(b.size(), 6);
    assert_eq!(b.to_string(), Some("héllo".to_string()));
    assert_eq!(Blob::new(vec![0xff]).to_string(), None);
}

#[test]
fn ignore_rules() {
    assert!(is_ignored(".nvcs/objects/ab/cd"));
    assert!(is_ignored("src/.nvcs/x"));
    assert!(is_ignored("target/debug/app"));
    assert!(is_ignored("notes.log"));
    assert!(is_ignored("a/.DS_Store"));
    assert!(!is_ignored("src/main.rs"));
    assert!(!is_ignored("log.txt"));
    assert!(!is_ignored("x.nvcs/y"));
}

#[test]
fn object_methods_agree_with_codec() {
    let o = Object::Tree(tree(&[("a", "1")]));
    assert_eq!(o.serialize(), serialize(&o));
    assert_eq!(o.hash(), calculate_hash(&serialize(&o)));
    assert!(matches!(Object::deserialize(&[5]), Err(VcsError::Integrity)));
    let back = Object::deserialize(&o.serialize()).unwrap();
    assert_eq!(back.object_type(), nvcs::ObjectType::Tree);
    assert!(back.as_tree().is_some() && back.as_commit().is_none() && back.as_blob().is_none());
    assert!(Tree::default().entries.is_empty());
    assert!(Index::default().entries.is_empty());
}

#[test]
fn head_file_format() {
    let h = Head::parse("ref: refs/heads/main\n");
    assert!(matches!(&h, Head::Branch(b) if b == "main"));
    assert_eq!(h.render(), "ref: refs/heads/main\n");
    let d = Head::parse("abc123\n");
    assert!(matches!(&d, Head::Detached(c) if c == "abc123"));
    assert_eq!(d.render(), "abc123\n");
    assert!(matches!(Head::parse("ref: refs/heads/x"), Head::Branch(b) if b == "x"));
    assert!(matches!(Head::parse("  ref: refs/heads/main \n"), Head::Branch(b) if b == "main"));
    assert!(matches!(Head::parse("abc\r\n"), Head::Detached(c) if c == "abc"));
}

#[test]
fn index_round_trip() {
    let mut idx = Index::new();
    idx.add_entry(IndexEntry { path: "a/b.txt".to_string(), hash: "h1".to_string(), size: 12, modified: -3 });
    idx.add_entry(IndexEntry { path: "c".to_string(), hash: "h2".to_string(), size: 0, modified: 99 });
    let bytes = idx.serialize();
    let back = Index::deserialize(&bytes).unwrap();
    assert_eq!(back.entries.len(), 2);
    assert_eq!(back.entries[0].path, "a/b.txt");
    assert_eq!(back.entries[0].modified, -3);
    assert_eq!(back.entries[1].size, 0);
    assert_eq!(back.serialize(), bytes);
    assert!(Index::deserialize(&bytes[..bytes.len() - 1]).is_none());
}

#[test]
fn merge_reports_unrelated_histories() {
    let mut repo = Repository::new();
    repo.stage("a", b"1".to_vec(), 0).unwrap();
    repo.commit("1".to_string(), "a".to_string(), 1).unwrap();
    let other = repo.store_object(&Object::Tree(Tree::new())).unwrap();
    let root = repo
        .store_object(&Object::Commit(Commit::new(other, vec![], "b".to_string(), "r".to_string(), 2)))
        .unwrap();
    repo.update_branch("other", &root).unwrap();
    let before = repo.store.objects.len();
    assert!(matches!(repo.merge("other", "t".to_string(), "m".to_string(), 3), Err(VcsError::InvalidState)));
    assert_eq!(repo.store.objects.len(), before);
}

#[test]
fn stage_twice_is_idempotent() {
    let mut repo = Repository::new();
    let h1 = repo.stage("a", b"same".to_vec(), 0).unwrap();
    let n = repo.store.objects.len();
    let h2 = repo.stage("a", b"same".to_vec(), 0).unwrap();
    assert_eq!(h1, h2);
    assert_eq!(repo.store.objects.len(), n);
}

#[test]
fn branches_are_listed_in_order() {
    let mut repo = Repository::new();
    repo.stage("a", b"1".to_vec(), 0).unwrap();
    let c = repo.commit("1".to_string(), "a".to_string(), 1).unwrap();
    repo.create_branch("zeta", &c).unwrap();
    repo.create_branch("alpha", &c).unwrap();
    assert_eq!(repo.list_branches(), vec!["alpha".to_string(), "main".to_string(), "zeta".to_string()]);
}

#[test]
fn stage_records_size_and_time() {
    let mut repo = Repository::new();
    repo.stage("b.txt", b"12345".to_vec(), 77).unwrap();
    repo.stage("a.txt", b"xy".to_vec(), 5).unwrap();
    assert_eq!(repo.index.get_staged_files(), vec!["a.txt".to_string(), "b.txt".to_string()]);
    let e = repo.index.entries.iter().find(|e| e.path == "b.txt").unwrap();
    assert_eq!(e.size, 5);
    assert_eq!(e.modified, 77);
    assert!(repo.unstage("a.txt"));
    assert!(!repo.unstage("a.txt"));
    assert_eq!(repo.index.entries.len(), 1);
}

#[test]
fn parents_of_loaded_commits_load_as_commits() {
    let mut repo = Repository::new();
    repo.stage("a", b"1".to_vec(), 0).unwrap();
    let c1 = repo.commit("1".to_string(), "a".to_string(), 1).unwrap();
    repo.stage("a", b"2".to_vec(), 0).unwrap();
    let c2 = repo.commit("2".to_string(), "a".to_string(), 2).unwrap();
    let c = match repo.load_object(&c2).unwrap() {
        Object::Commit(c) => c,
        _ => panic!("expected a commit"),
    };
    assert_eq!(c.parents, vec![c1.clone()]);
    for p in &c.parents {
        assert!(matches!(repo.load_object(p), Ok(Object::Commit(_))));
    }
}
