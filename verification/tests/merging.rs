use ugit::base::{self, commit, get_commit, merge, read_tree_merged, Entry, MergeKind};
use ugit::data::get_ref;
use ugit::diff::{merge_blobs, merge_trees};
use ugit::error::Error;
use ugit::text::merge_text;

fn tree_of(files: &[(&[u8], &[u8])]) -> Vec<Entry> {
    files
        .iter()
        .map(|(name, contents)| Entry::File { name: name.to_vec(), contents: contents.to_vec() })
        .collect()
}

#[test]
fn identical_change_on_both_sides_merges_cleanly() {
    let merged = merge_text(b"one\ntwo\nthree\n", b"one\nTWO\nthree\n", b"one\nTWO\nthree\n");
    assert_eq!(merged, b"one\nTWO\nthree\n".to_vec());
    let without_newline = merge_text(b"a\nb", b"a\nc", b"a\nc");
    assert_eq!(without_newline, b"a\nc".to_vec());
}

#[test]
fn different_change_of_one_line_is_a_conflict() {
    let merged = merge_text(b"one\ntwo\nthree\n", b"one\nOURS\nthree\n", b"one\nTHEIRS\nthree\n");
    assert_eq!(
        merged,
        b"one\n<<<<<<< HEAD\nOURS\n=======\nTHEIRS\n>>>>>>> MERGE_HEAD\nthree\n".to_vec()
    );
}

#[test]
fn changes_in_different_places_are_both_kept() {
    let merged = merge_text(b"a\nb\nc\n", b"A\nb\nc\n", b"a\nb\nC\n");
    assert_eq!(merged, b"A\nb\nC\n".to_vec());
    let added = merge_text(b"a\nb\n", b"first\na\nb\n", b"a\nb\nlast\n");
    assert_eq!(added, b"first\na\nb\nlast\n".to_vec());
    let removed = merge_text(b"a\nb\nc\nd\n", b"b\nc\nd\n", b"a\nb\nc\n");
    assert_eq!(removed, b"b\nc\n".to_vec());
}

#[test]
fn unchanged_side_gives_way() {
    assert_eq!(merge_text(b"a\nb\n", b"a\nb\n", b"x\ny\nz\n"), b"x\ny\nz\n".to_vec());
    assert_eq!(merge_text(b"a\nb\n", b"x\n", b"a\nb\n"), b"x\n".to_vec());
    assert_eq!(merge_text(b"a\nb\n", b"", b"a\nb\n"), b"".to_vec());
    assert_eq!(merge_text(b"", b"", b""), b"".to_vec());
    assert_eq!(merge_text(b"same", b"same", b"same"), b"same".to_vec());
}

#[test]
fn conflict_lines_end_in_a_line_feed() {
    let merged = merge_text(b"", b"ours", b"theirs");
    assert_eq!(merged, b"<<<<<<< HEAD\nours\n=======\ntheirs\n>>>>>>> MERGE_HEAD\n".to_vec());
}

#[test]
fn missing_blobs_count_as_empty() {
    let mut repo = base::init();
    let ours = ugit::data::hash_object(&mut repo, b"mine\n", b"blob");
    let merged = merge_blobs(&repo, &None, &Some(ours.clone()), &None).unwrap();
    assert_eq!(merged, b"mine\n".to_vec());
    assert_eq!(
        merge_blobs(&repo, &None, &Some(b"absent".to_vec()), &None).unwrap_err(),
        Error::ObjectNotFound
    );
    let tree = ugit::data::hash_object(&mut repo, b"", b"tree");
    assert_eq!(merge_blobs(&repo, &Some(tree), &None, &None).unwrap_err(), Error::TypeMismatch);
}

#[test]
fn trees_merge_path_by_path() {
    let mut repo = base::init();
    let base_blob = ugit::data::hash_object(&mut repo, b"a\nb\n", b"blob");
    let ours_blob = ugit::data::hash_object(&mut repo, b"A\nb\n", b"blob");
    let theirs_blob = ugit::data::hash_object(&mut repo, b"a\nB\n", b"blob");
    let new_blob = ugit::data::hash_object(&mut repo, b"new\n", b"blob");
    let base_tree = vec![(base_blob.clone(), b"f".to_vec()), (base_blob.clone(), b"gone".to_vec())];
    let ours_tree = vec![(ours_blob, b"f".to_vec()), (base_blob.clone(), b"gone".to_vec())];
    let theirs_tree = vec![(theirs_blob, b"f".to_vec()), (new_blob, b"extra".to_vec())];
    let merged = merge_trees(&repo, &base_tree, &ours_tree, &theirs_tree).unwrap();
    assert_eq!(
        merged,
        vec![
            (b"f".to_vec(), b"A\nB\n".to_vec()),
            (b"gone".to_vec(), b"".to_vec()),
            (b"extra".to_vec(), b"new\n".to_vec()),
        ]
    );
}

#[test]
fn fast_forward_moves_head_and_makes_no_commit() {
    let mut repo = base::init();
    let h1 = commit(&mut repo, b"", &tree_of(&[(b"a.txt", b"one\n")]), b"first").unwrap();
    let h2 = commit(&mut repo, b"", &tree_of(&[(b"a.txt", b"two\n")]), b"second").unwrap();
    base::reset(&mut repo, &h1).unwrap();
    let objects = repo.objects.len();
    let (kind, files) = merge(&mut repo, &h2).unwrap();
    assert_eq!(kind, MergeKind::FastForward);
    assert_eq!(files, vec![(b"a.txt".to_vec(), b"two\n".to_vec())]);
    assert_eq!(get_ref(&repo, b"HEAD", true).unwrap().value, Some(h2.clone()));
    assert_eq!(repo.refs.get(b"HEAD"), Some(h2));
    assert!(!repo.refs.contains_key(b"MERGE_HEAD"));
    assert_eq!(repo.objects.len(), objects);
}

#[test]
fn merge_of_two_branches_prepares_a_commit_with_two_parents() {
    let mut repo = base::init();
    let root =
        commit(&mut repo, b"", &tree_of(&[(b"a.txt", b"a\nb\nc\n")]), b"root").unwrap();
    base::create_branch(&mut repo, b"other", &root).unwrap();
    let ours = commit(&mut repo, b"", &tree_of(&[(b"a.txt", b"A\nb\nc\n")]), b"ours").unwrap();
    base::checkout(&mut repo, b"other").unwrap();
    let theirs = commit(
        &mut repo,
        b"",
        &tree_of(&[(b"a.txt", b"a\nb\nC\n"), (b"b.txt", b"new\n")]),
        b"theirs",
    )
    .unwrap();
    base::checkout(&mut repo, b"master").unwrap();
    let objects = repo.objects.len();
    let (kind, files) = merge(&mut repo, &theirs).unwrap();
    assert_eq!(kind, MergeKind::Merged);
    assert_eq!(
        files,
        vec![(b"a.txt".to_vec(), b"A\nb\nC\n".to_vec()), (b"b.txt".to_vec(), b"new\n".to_vec())]
    );
    assert_eq!(repo.refs.get(b"MERGE_HEAD"), Some(theirs.clone()));
    assert_eq!(repo.refs.get(b"refs/heads/master"), Some(ours.clone()));
    assert_eq!(repo.objects.len(), objects);
    let merged = commit(
        &mut repo,
        b"",
        &tree_of(&[(b"a.txt", b"A\nb\nC\n"), (b"b.txt", b"new\n")]),
        b"merge",
    )
    .unwrap();
    assert_eq!(get_commit(&repo, &merged).unwrap().parents, vec![ours, theirs]);
    assert!(!repo.refs.contains_key(b"MERGE_HEAD"));
    assert_eq!(repo.refs.get(b"refs/heads/master"), Some(merged));
}

#[test]
fn merge_with_conflict_does_not_fail() {
    let mut repo = base::init();
    let root = commit(&mut repo, b"", &tree_of(&[(b"a.txt", b"line\n")]), b"root").unwrap();
    base::create_branch(&mut repo, b"other", &root).unwrap();
    commit(&mut repo, b"", &tree_of(&[(b"a.txt", b"ours\n")]), b"ours").unwrap();
    base::checkout(&mut repo, b"other").unwrap();
    let theirs = commit(&mut repo, b"", &tree_of(&[(b"a.txt", b"theirs\n")]), b"theirs").unwrap();
    base::checkout(&mut repo, b"master").unwrap();
    let (kind, files) = merge(&mut repo, &theirs).unwrap();
    assert_eq!(kind, MergeKind::Merged);
    assert_eq!(
        files,
        vec![(
            b"a.txt".to_vec(),
            b"<<<<<<< HEAD\nours\n=======\ntheirs\n>>>>>>> MERGE_HEAD\n".to_vec()
        )]
    );
}

#[test]
fn merge_without_common_ancestor_fails() {
    let mut repo = base::init();
    let ours = commit(&mut repo, b"", &tree_of(&[(b"a", b"1")]), b"ours").unwrap();
    base::create_branch(&mut repo, b"fresh", &ours).unwrap();
    repo.refs.remove(b"refs/heads/master");
    let theirs = commit(&mut repo, b"", &tree_of(&[(b"b", b"2")]), b"theirs").unwrap();
    assert!(get_commit(&repo, &theirs).unwrap().parents.is_empty());
    base::checkout(&mut repo, b"fresh").unwrap();
    assert_eq!(merge(&mut repo, &theirs).unwrap_err(), Error::NoCommonAncestor);
    assert!(!repo.refs.contains_key(b"MERGE_HEAD"));
}

#[test]
fn merge_needs_a_commit_at_head() {
    let mut repo = base::init();
    assert_eq!(merge(&mut repo, b"anything").unwrap_err(), Error::UnknownRevision);
}

#[test]
fn merged_tree_is_read_without_storing() {
    let mut repo = base::init();
    let h1 = commit(&mut repo, b"", &tree_of(&[(b"a", b"x\n")]), b"one").unwrap();
    let h2 = commit(&mut repo, b"", &tree_of(&[(b"a", b"y\n")]), b"two").unwrap();
    let t1 = get_commit(&repo, &h1).unwrap().tree;
    let t2 = get_commit(&repo, &h2).unwrap().tree;
    let objects = repo.objects.len();
    let files = read_tree_merged(&repo, &t1, &t1, &t2).unwrap();
    assert_eq!(files, vec![(b"a".to_vec(), b"y\n".to_vec())]);
    assert_eq!(repo.objects.len(), objects);
    assert_eq!(read_tree_merged(&repo, &t1, b"absent", &t2).unwrap_err(), Error::ObjectNotFound);
}

#[test]
fn deleting_a_line_that_the_other_side_replaced_is_a_conflict() {
    let merged = merge_text(b"a\nb\nc\n", b"a\nc\n", b"a\nB\nc\n");
    assert_eq!(merged, b"a\n<<<<<<< HEAD\n=======\nB\n>>>>>>> MERGE_HEAD\nc\n".to_vec());
    let mirrored = merge_text(b"a\nb\nc\n", b"a\nB\nc\n", b"a\nc\n");
    assert_eq!(mirrored, b"a\n<<<<<<< HEAD\nB\n=======\n>>>>>>> MERGE_HEAD\nc\n".to_vec());
}

#[test]
fn deleting_the_same_line_on_both_sides_is_no_conflict() {
    assert_eq!(merge_text(b"a\nb\nc\n", b"a\nc\n", b"a\nc\n"), b"a\nc\n".to_vec());
    assert_eq!(merge_text(b"a\nb\nc\n", b"a\nc\n", b"a\nb\nc\nd\n"), b"a\nc\nd\n".to_vec());
}

#[test]
fn insertion_beside_a_deletion_is_kept() {
    let merged = merge_text(b"a\nb\nc\n", b"a\nc\n", b"a\nb\nnew\nc\n");
    assert_eq!(merged, b"a\nnew\nc\n".to_vec());
}
