use ugit::base::{self, commit, get_working_files, Entry};
use ugit::data::{direct_value, update_ref, RefValue};
use ugit::diff::Change;
use ugit::error::Error;
use ugit::inspect::{diff, k, log, shorten_oid, show, status};

fn files(list: &[(&[u8], &[u8])]) -> Vec<Entry> {
    list.iter()
        .map(|(name, contents)| Entry::File { name: name.to_vec(), contents: contents.to_vec() })
        .collect()
}

#[test]
fn short_oid_is_the_first_ten_bytes() {
    assert_eq!(shorten_oid(b"0123456789abcdef"), b"0123456789".to_vec());
    assert_eq!(shorten_oid(b"0123456789"), b"0123456789".to_vec());
    assert_eq!(shorten_oid(b"0123"), b"0123".to_vec());
    assert_eq!(shorten_oid(b""), Vec::<u8>::new());
}

#[test]
fn log_lists_commits_with_their_refs() {
    let mut repo = base::init();
    let h1 = commit(&mut repo, b"", &files(&[(b"a", b"1\n")]), b"first").unwrap();
    base::create_tag(&mut repo, b"v1", &h1).unwrap();
    let h2 = commit(&mut repo, b"", &files(&[(b"a", b"2\n")]), b"second").unwrap();
    let entries = log(&repo, &h2).unwrap();
    assert_eq!(entries.len(), 2);
    assert_eq!(entries[0].oid, h2);
    assert_eq!(entries[0].commit.message, b"second".to_vec());
    assert_eq!(entries[0].refs, vec![b"refs/heads/master".to_vec(), b"HEAD".to_vec()]);
    assert_eq!(entries[1].oid, h1);
    assert_eq!(entries[1].commit.message, b"first".to_vec());
    assert_eq!(entries[1].refs, vec![b"refs/tags/v1".to_vec()]);
    assert_eq!(log(&repo, b"absent").unwrap_err(), Error::ObjectNotFound);
}

#[test]
fn show_reports_what_a_commit_changed() {
    let mut repo = base::init();
    let h1 = commit(&mut repo, b"", &files(&[(b"a", b"1\n")]), b"first").unwrap();
    let h2 = commit(&mut repo, b"", &files(&[(b"a", b"2\n")]), b"second").unwrap();
    let (record, changes) = show(&repo, &h2).unwrap();
    assert_eq!(record.message, b"second".to_vec());
    assert_eq!(changes, b"--- a/a\n+++ b/a\n@@ -1,1 +1,1 @@\n-1\n+2\n".to_vec());
    let (root, created) = show(&repo, &h1).unwrap();
    assert!(root.parents.is_empty());
    assert_eq!(created, b"--- a/a\n+++ b/a\n@@ -0,0 +1,1 @@\n+1\n".to_vec());
}

#[test]
fn status_names_branch_and_changes() {
    let mut repo = base::init();
    let h1 =
        commit(&mut repo, b"", &files(&[(b"kept", b"k"), (b"old", b"o"), (b"edit", b"1")]), b"c")
            .unwrap();
    let work = files(&[(b"kept", b"k"), (b"edit", b"2"), (b"new", b"n")]);
    let state = status(&repo, &work).unwrap();
    assert_eq!(state.head, h1);
    assert_eq!(state.branch, Some(b"master".to_vec()));
    assert_eq!(state.merging, None);
    assert_eq!(
        state.changes,
        vec![
            (b"old".to_vec(), Change::Deleted),
            (b"edit".to_vec(), Change::Modified),
            (b"new".to_vec(), Change::Added),
        ]
    );
    update_ref(&mut repo, b"MERGE_HEAD", &direct_value(b"feedbeef"), true).unwrap();
    base::checkout(&mut repo, &h1).unwrap();
    let detached = status(&repo, &work).unwrap();
    assert_eq!(detached.branch, None);
    assert_eq!(detached.merging, Some(b"feedbeef".to_vec()));
}

#[test]
fn status_needs_a_commit() {
    let repo = base::init();
    assert_eq!(status(&repo, &files(&[])).unwrap_err(), Error::UnknownRevision);
}

#[test]
fn graph_has_refs_and_first_parents() {
    let mut repo = base::init();
    let h1 = commit(&mut repo, b"", &files(&[(b"a", b"1")]), b"first").unwrap();
    let h2 = commit(&mut repo, b"", &files(&[(b"a", b"2")]), b"second").unwrap();
    let (refs, commits) = k(&repo).unwrap();
    assert_eq!(
        refs,
        vec![
            (b"refs/heads/master".to_vec(), RefValue { symbolic: false, value: Some(h2.clone()) }),
            (
                b"HEAD".to_vec(),
                RefValue { symbolic: true, value: Some(b"refs/heads/master".to_vec()) }
            ),
        ]
    );
    assert_eq!(commits, vec![(h2, Some(h1.clone())), (h1, None)]);
}

#[test]
fn working_tree_is_compared_with_a_commit() {
    let mut repo = base::init();
    let h1 = commit(&mut repo, b"", &files(&[(b"a", b"one\n"), (b"b", b"same\n")]), b"c").unwrap();
    let objects = repo.objects.len();
    let work = files(&[(b"a", b"two\n"), (b"b", b"same\n"), (b"c", b"new\n")]);
    let text = diff(&repo, &h1, &work).unwrap();
    let mut expected = b"--- a/a\n+++ b/a\n@@ -1,1 +1,1 @@\n-one\n+two\n".to_vec();
    expected.extend_from_slice(b"--- a/c\n+++ b/c\n@@ -0,0 +1,1 @@\n+new\n");
    assert_eq!(text, expected);
    assert_eq!(repo.objects.len(), objects);
    assert_eq!(
        diff(&repo, &h1, &files(&[(b"a", b"one\n"), (b"b", b"same\n")])).unwrap(),
        Vec::<u8>::new()
    );
}

#[test]
fn working_files_are_listed_with_contents() {
    let entries = vec![
        Entry::File { name: b"a".to_vec(), contents: b"1".to_vec() },
        Entry::Dir {
            name: b"d".to_vec(),
            entries: vec![Entry::File { name: b"b".to_vec(), contents: b"2".to_vec() }],
        },
        Entry::Dir {
            name: b".ugit".to_vec(),
            entries: vec![Entry::File { name: b"HEAD".to_vec(), contents: b"x".to_vec() }],
        },
    ];
    assert_eq!(
        get_working_files(&entries),
        vec![(b"a".to_vec(), b"1".to_vec()), (b"d/b".to_vec(), b"2".to_vec())]
    );
}
