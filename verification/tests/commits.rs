use ugit::base::{
    self, checkout, commit, decode_commit, encode_commit, get_commit, get_tree, Entry,
};
use ugit::data::{get_object, get_ref, hash_object};
use ugit::error::Error;
use ugit::graph::{
    get_commits_and_parents, get_merge_base, get_objects_in_commits, get_objects_in_tree,
    is_ancestor_of,
};
use ugit::oid::generate_oid;
use ugit::Commit;

fn one_file(contents: &[u8]) -> Vec<Entry> {
    vec![Entry::File { name: b"a.txt".to_vec(), contents: contents.to_vec() }]
}

fn raw_commit(repo: &mut ugit::data::Repository, parents: &[&[u8]], message: &[u8]) -> Vec<u8> {
    let tree = hash_object(repo, b"", b"tree");
    let record = Commit {
        tree,
        parents: parents.iter().map(|p| p.to_vec()).collect(),
        message: message.to_vec(),
    };
    hash_object(repo, &encode_commit(&record), b"commit")
}

#[test]
fn commit_payload_has_headers_blank_line_and_message() {
    let record = Commit {
        tree: b"1111".to_vec(),
        parents: vec![b"2222".to_vec(), b"3333".to_vec()],
        message: b"two\nlines".to_vec(),
    };
    let payload = encode_commit(&record);
    assert_eq!(payload, b"tree 1111\nparent 2222\nparent 3333\n\ntwo\nlines".to_vec());
    assert_eq!(decode_commit(&payload).unwrap(), record);
    let root = Commit { tree: b"1111".to_vec(), parents: vec![], message: b"".to_vec() };
    assert_eq!(encode_commit(&root), b"tree 1111\n\n".to_vec());
    assert_eq!(decode_commit(b"tree 1111\n\n").unwrap(), root);
    assert_eq!(decode_commit(b"tree 1111\n").unwrap(), root);
    assert_eq!(decode_commit(b"tree 1111").unwrap(), root);
}

#[test]
fn commit_without_tree_is_malformed() {
    assert_eq!(decode_commit(b"parent 2222\n\nmessage").unwrap_err(), Error::MalformedCommit);
    assert_eq!(decode_commit(b"").unwrap_err(), Error::MalformedCommit);
    assert_eq!(decode_commit(b"\ntree 1111\n").unwrap_err(), Error::MalformedCommit);
    assert_eq!(decode_commit(b"tree\n\n").unwrap_err(), Error::MalformedCommit);
}

#[test]
fn commit_with_unknown_header_is_malformed() {
    assert_eq!(
        decode_commit(b"tree 1111\nauthor me\n\nmessage").unwrap_err(),
        Error::MalformedCommit
    );
    assert_eq!(decode_commit(b"tree 1111\n   \n\nmessage").unwrap_err(), Error::MalformedCommit);
}

#[test]
fn parent_header_without_value_is_passed_over() {
    let record = decode_commit(b"tree 1111\nparent\nparent 2222\n\nm").unwrap();
    assert_eq!(record.parents, vec![b"2222".to_vec()]);
    assert_eq!(record.message, b"m".to_vec());
}

#[test]
fn reading_a_commit_checks_the_type() {
    let mut repo = base::init();
    let blob = hash_object(&mut repo, b"tree 1111\n\n", b"blob");
    assert_eq!(get_commit(&repo, &blob).unwrap_err(), Error::TypeMismatch);
    assert_eq!(get_commit(&repo, b"absent").unwrap_err(), Error::ObjectNotFound);
    let bad = hash_object(&mut repo, b"no headers here\n\n", b"commit");
    assert_eq!(get_commit(&repo, &bad).unwrap_err(), Error::MalformedCommit);
}

#[test]
fn first_commit_has_no_parent_and_moves_master() {
    let mut repo = base::init();
    let oid = commit(&mut repo, b"/work", &one_file(b"hello"), b"first").unwrap();
    let record = get_commit(&repo, &oid).unwrap();
    assert!(record.parents.is_empty());
    assert_eq!(record.message, b"first".to_vec());
    let blob = generate_oid(b"blob\0hello");
    assert_eq!(get_tree(&repo, Some(&record.tree), None).unwrap(), vec![(blob, b"a.txt".to_vec())]);
    assert_eq!(repo.refs.get(b"refs/heads/master"), Some(oid.clone()));
    assert_eq!(repo.refs.get(b"HEAD"), Some(b"ref: refs/heads/master".to_vec()));
    let mut expected = b"tree ".to_vec();
    expected.extend_from_slice(&record.tree);
    expected.extend_from_slice(b"\n\nfirst");
    assert_eq!(get_object(&repo, &oid, Some(b"commit")).unwrap().1, expected);
}

#[test]
fn committing_inside_the_metadata_directory_fails() {
    let mut repo = base::init();
    assert_eq!(
        commit(&mut repo, b"/work/.ugit", &one_file(b"hello"), b"first"),
        Err(Error::MalformedTree)
    );
    assert_eq!(repo.objects.len(), 0);
    assert_eq!(repo.refs.len(), 1);
}

#[test]
fn branch_and_commit_example() {
    let mut repo = base::init();
    let h1 = commit(&mut repo, b"", &one_file(b"hello"), b"first").unwrap();
    base::create_branch(&mut repo, b"feature", &h1).unwrap();
    let files = checkout(&mut repo, b"feature").unwrap();
    assert_eq!(files, vec![(b"a.txt".to_vec(), b"hello".to_vec())]);
    assert_eq!(base::get_branch_name(&repo), Some(b"feature".to_vec()));
    let h2 = commit(&mut repo, b"", &one_file(b"hello world"), b"second").unwrap();
    assert_ne!(h1, h2);
    assert_eq!(get_commit(&repo, &h2).unwrap().parents, vec![h1.clone()]);
    assert_eq!(get_commit(&repo, &h2).unwrap().message, b"second".to_vec());
    assert_eq!(get_merge_base(&repo, &h1, &h2).unwrap(), Some(h1.clone()));
    assert_eq!(get_commits_and_parents(&repo, &vec![h2.clone()]).unwrap(), vec![h2.clone(), h1.clone()]);
    assert_eq!(repo.refs.get(b"refs/heads/feature"), Some(h2));
    assert_eq!(repo.refs.get(b"refs/heads/master"), Some(h1));
}

#[test]
fn checkout_of_a_commit_detaches_head() {
    let mut repo = base::init();
    let h1 = commit(&mut repo, b"", &one_file(b"one"), b"first").unwrap();
    let h2 = commit(&mut repo, b"", &one_file(b"two"), b"second").unwrap();
    let files = checkout(&mut repo, &h1).unwrap();
    assert_eq!(files, vec![(b"a.txt".to_vec(), b"one".to_vec())]);
    assert_eq!(repo.refs.get(b"HEAD"), Some(h1));
    assert_eq!(repo.refs.get(b"refs/heads/master"), Some(h2));
    assert_eq!(base::get_branch_name(&repo), None);
}

#[test]
fn checkout_of_nothing_fails_and_changes_nothing() {
    let mut repo = base::init();
    assert_eq!(checkout(&mut repo, b"nowhere").unwrap_err(), Error::UnknownRevision);
    assert_eq!(checkout(&mut repo, b"@").unwrap_err(), Error::UnknownRevision);
    assert_eq!(repo.refs.get(b"HEAD"), Some(b"ref: refs/heads/master".to_vec()));
}

#[test]
fn a_commit_is_its_own_ancestor() {
    let mut repo = base::init();
    let a = raw_commit(&mut repo, &[], b"a");
    let b = raw_commit(&mut repo, &[&a], b"b");
    assert_eq!(is_ancestor_of(&repo, &b, &b), Ok(true));
    assert_eq!(is_ancestor_of(&repo, &b, &a), Ok(true));
    assert_eq!(is_ancestor_of(&repo, &a, &b), Ok(false));
    assert_eq!(is_ancestor_of(&repo, b"absent", &a), Err(Error::ObjectNotFound));
}

#[test]
fn merge_base_of_a_line_of_history() {
    let mut repo = base::init();
    let a = raw_commit(&mut repo, &[], b"a");
    let b = raw_commit(&mut repo, &[&a], b"b");
    let c = raw_commit(&mut repo, &[&b], b"c");
    assert_eq!(get_merge_base(&repo, &c, &a).unwrap(), Some(a.clone()));
    assert_eq!(get_merge_base(&repo, &a, &c).unwrap(), Some(a.clone()));
    assert_eq!(get_merge_base(&repo, &c, &b).unwrap(), Some(b.clone()));
    assert_eq!(get_merge_base(&repo, &c, &c).unwrap(), Some(c));
}

#[test]
fn merge_base_of_two_branches_is_the_fork() {
    let mut repo = base::init();
    let root = raw_commit(&mut repo, &[], b"root");
    let fork = raw_commit(&mut repo, &[&root], b"fork");
    let left = raw_commit(&mut repo, &[&fork], b"left");
    let right = raw_commit(&mut repo, &[&fork], b"right");
    assert_eq!(get_merge_base(&repo, &left, &right).unwrap(), Some(fork));
    let lonely = raw_commit(&mut repo, &[], b"lonely");
    assert_eq!(get_merge_base(&repo, &left, &lonely).unwrap(), None);
}

#[test]
fn ancestors_follow_all_parents_once() {
    let mut repo = base::init();
    let root = raw_commit(&mut repo, &[], b"root");
    let left = raw_commit(&mut repo, &[&root], b"left");
    let right = raw_commit(&mut repo, &[&root], b"right");
    let merged = raw_commit(&mut repo, &[&left, &right], b"merged");
    let listed = get_commits_and_parents(&repo, &vec![merged.clone()]).unwrap();
    assert_eq!(listed, vec![merged.clone(), right.clone(), root.clone(), left.clone()]);
    let several = get_commits_and_parents(&repo, &vec![left.clone(), right.clone()]).unwrap();
    assert_eq!(several, vec![right, root, left]);
    assert!(get_commits_and_parents(&repo, &vec![]).unwrap().is_empty());
    assert_eq!(
        get_commits_and_parents(&repo, &vec![b"absent".to_vec()]).unwrap_err(),
        Error::ObjectNotFound
    );
}

#[test]
fn ancestors_stop_at_a_commit_that_names_itself() {
    let mut repo = base::init();
    repo.objects.insert(b"loop".to_vec(), b"commit\0tree 1111\nparent loop\n\nm".to_vec());
    assert_eq!(get_commits_and_parents(&repo, &vec![b"loop".to_vec()]).unwrap(), vec![b"loop".to_vec()]);
}

#[test]
fn objects_of_a_tree_and_of_commits() {
    let mut repo = base::init();
    let entries = vec![
        Entry::File { name: b"a".to_vec(), contents: b"1".to_vec() },
        Entry::Dir {
            name: b"d".to_vec(),
            entries: vec![
                Entry::File { name: b"b".to_vec(), contents: b"2".to_vec() },
                Entry::File { name: b"same".to_vec(), contents: b"1".to_vec() },
            ],
        },
    ];
    let h1 = commit(&mut repo, b"", &entries, b"first").unwrap();
    let tree = get_commit(&repo, &h1).unwrap().tree;
    let blob1 = generate_oid(b"blob\x001");
    let blob2 = generate_oid(b"blob\x002");
    let in_tree = get_objects_in_tree(&repo, &tree).unwrap();
    assert_eq!(in_tree.len(), 4);
    assert_eq!(in_tree[0], tree);
    assert_eq!(in_tree[1], blob1);
    assert_eq!(in_tree[3], blob2);
    let h2 = commit(&mut repo, b"", &one_file(b"1"), b"second").unwrap();
    let tree2 = get_commit(&repo, &h2).unwrap().tree;
    let all = get_objects_in_commits(&repo, &vec![h2.clone()]).unwrap();
    assert_eq!(all.len(), 7);
    assert_eq!(all[0], h2);
    assert_eq!(all[1], tree2);
    assert_eq!(all[2], blob1);
    assert_eq!(all[3], h1);
    assert_eq!(all[4], tree);
    assert_eq!(all.len(), repo.objects.len());
    assert_eq!(get_objects_in_tree(&repo, b"absent").unwrap_err(), Error::ObjectNotFound);
}

#[test]
fn head_value_is_followed_for_the_parent() {
    let mut repo = base::init();
    let h1 = commit(&mut repo, b"", &one_file(b"one"), b"first").unwrap();
    assert_eq!(get_ref(&repo, b"HEAD", true).unwrap().value, Some(h1.clone()));
    let h2 = commit(&mut repo, b"", &one_file(b"two"), b"second").unwrap();
    assert_eq!(get_commit(&repo, &h2).unwrap().parents, vec![h1]);
}

#[test]
fn carriage_returns_before_line_feeds_are_passed_over() {
    let record = decode_commit(b"tree 1111\r\nparent 2222\r\n\r\nmessage\r\n").unwrap();
    assert_eq!(record.tree, b"1111".to_vec());
    assert_eq!(record.parents, vec![b"2222".to_vec()]);
    assert_eq!(record.message, b"message\r\n".to_vec());
    assert_eq!(decode_commit(b"tree 1111\n\r").unwrap_err(), Error::MalformedCommit);
}
