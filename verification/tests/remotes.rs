use ugit::base::{self, commit, Entry};
use ugit::data::{get_object, get_ref, symbolic_value, update_ref};
use ugit::error::Error;
use ugit::remote::{fetch, get_remote_refs, push};

fn work(contents: &[u8]) -> Vec<Entry> {
    vec![
        Entry::File { name: b"a.txt".to_vec(), contents: contents.to_vec() },
        Entry::Dir {
            name: b"sub".to_vec(),
            entries: vec![Entry::File { name: b"b.txt".to_vec(), contents: b"fixed".to_vec() }],
        },
    ]
}

#[test]
fn remote_refs_are_listed_with_their_values() {
    let mut remote = base::init();
    let h1 = commit(&mut remote, b"", &work(b"one"), b"first").unwrap();
    base::create_tag(&mut remote, b"v1", &h1).unwrap();
    let heads = get_remote_refs(&remote, Some(b"refs/heads/")).unwrap();
    assert_eq!(heads, vec![(b"refs/heads/master".to_vec(), h1.clone())]);
    let all = get_remote_refs(&remote, None).unwrap();
    assert_eq!(
        all,
        vec![
            (b"refs/heads/master".to_vec(), h1.clone()),
            (b"refs/tags/v1".to_vec(), h1.clone()),
            (b"HEAD".to_vec(), h1),
        ]
    );
}

#[test]
fn fetch_copies_objects_and_records_branches() {
    let mut remote = base::init();
    let h1 = commit(&mut remote, b"", &work(b"one"), b"first").unwrap();
    let h2 = commit(&mut remote, b"", &work(b"two"), b"second").unwrap();
    base::create_branch(&mut remote, b"old", &h1).unwrap();
    let mut local = base::init();
    assert_eq!(fetch(&mut local, &remote), Ok(()));
    assert_eq!(local.objects.len(), remote.objects.len());
    assert_eq!(local.refs.get(b"refs/remote/master"), Some(h2.clone()));
    assert_eq!(local.refs.get(b"refs/remote/old"), Some(h1));
    assert_eq!(local.refs.get(b"HEAD"), Some(b"ref: refs/heads/master".to_vec()));
    assert!(!local.refs.contains_key(b"refs/heads/master"));
    let files = base::read_tree(&local, &base::get_commit(&local, &h2).unwrap().tree).unwrap();
    assert_eq!(
        files,
        vec![(b"a.txt".to_vec(), b"two".to_vec()), (b"sub/b.txt".to_vec(), b"fixed".to_vec())]
    );
}

#[test]
fn fetching_twice_changes_nothing_more() {
    let mut remote = base::init();
    commit(&mut remote, b"", &work(b"one"), b"first").unwrap();
    commit(&mut remote, b"", &work(b"two"), b"second").unwrap();
    let mut local = base::init();
    commit(&mut local, b"", &work(b"mine"), b"local work").unwrap();
    assert_eq!(fetch(&mut local, &remote), Ok(()));
    let objects = local.objects.len();
    let refs_before: Vec<(Vec<u8>, Vec<u8>)> = (0..local.refs.len())
        .map(|i| (local.refs.key(i).clone(), local.refs.value(i).clone()))
        .collect();
    assert_eq!(fetch(&mut local, &remote), Ok(()));
    assert_eq!(local.objects.len(), objects);
    let refs_after: Vec<(Vec<u8>, Vec<u8>)> = (0..local.refs.len())
        .map(|i| (local.refs.key(i).clone(), local.refs.value(i).clone()))
        .collect();
    assert_eq!(refs_before, refs_after);
}

#[test]
fn fetch_from_an_empty_remote_does_nothing() {
    let remote = base::init();
    let mut local = base::init();
    assert_eq!(fetch(&mut local, &remote), Ok(()));
    assert_eq!(local.objects.len(), 0);
    assert_eq!(local.refs.len(), 1);
}

#[test]
fn fetch_of_a_broken_remote_fails_before_copying() {
    let mut remote = base::init();
    base::create_branch(&mut remote, b"master", b"absent").unwrap();
    let mut local = base::init();
    assert_eq!(fetch(&mut local, &remote), Err(Error::ObjectNotFound));
    assert_eq!(local.objects.len(), 0);
    assert_eq!(local.refs.len(), 1);
}

#[test]
fn fetch_writes_through_a_local_symbolic_reference() {
    let mut remote = base::init();
    let h1 = commit(&mut remote, b"", &work(b"one"), b"first").unwrap();
    let mut local = base::init();
    update_ref(&mut local, b"refs/remote/master", &symbolic_value(b"refs/mirror"), false).unwrap();
    assert_eq!(fetch(&mut local, &remote), Ok(()));
    assert_eq!(local.refs.get(b"refs/mirror"), Some(h1));
    assert_eq!(local.refs.get(b"refs/remote/master"), Some(b"ref: refs/mirror".to_vec()));
}

#[test]
fn push_copies_what_the_remote_lacks_and_sets_its_ref() {
    let mut local = base::init();
    let h1 = commit(&mut local, b"", &work(b"one"), b"first").unwrap();
    let mut remote = base::init();
    assert_eq!(push(&local, &mut remote, b"refs/heads/master"), Ok(()));
    assert_eq!(remote.objects.len(), local.objects.len());
    assert_eq!(remote.refs.get(b"refs/heads/master"), Some(h1.clone()));
    let h2 = commit(&mut local, b"", &work(b"two"), b"second").unwrap();
    let before = remote.objects.len();
    assert_eq!(push(&local, &mut remote, b"refs/heads/master"), Ok(()));
    assert_eq!(remote.refs.get(b"refs/heads/master"), Some(h2.clone()));
    assert_eq!(remote.objects.len(), before + 3);
    assert_eq!(get_ref(&remote, b"HEAD", true).unwrap().value, Some(h2.clone()));
    assert_eq!(
        get_object(&remote, &h2, Some(b"commit")).unwrap(),
        get_object(&local, &h2, Some(b"commit")).unwrap()
    );
}

#[test]
fn push_does_not_send_what_the_remote_refs_account_for() {
    let mut remote = base::init();
    let h1 = commit(&mut remote, b"", &work(b"one"), b"first").unwrap();
    let mut local = base::init();
    assert_eq!(ugit::remote::fetch(&mut local, &remote), Ok(()));
    base::reset(&mut local, &h1).unwrap();
    let h2 = commit(&mut local, b"", &work(b"two"), b"second").unwrap();
    let blob = ugit::oid::generate_oid(b"blob\0fixed");
    remote.objects.insert(blob.clone(), b"blob\0kept as the remote has it".to_vec());
    let before = remote.objects.len();
    assert_eq!(push(&local, &mut remote, b"refs/heads/master"), Ok(()));
    assert_eq!(remote.refs.get(b"refs/heads/master"), Some(h2.clone()));
    assert!(remote.objects.contains_key(&h2));
    assert_eq!(remote.objects.len(), before + 3);
    assert_eq!(
        get_object(&remote, &blob, None).unwrap().1,
        b"kept as the remote has it".to_vec()
    );
}

#[test]
fn push_reads_the_history_of_remote_refs_from_the_remote() {
    let mut remote = base::init();
    let old = commit(&mut remote, b"", &work(b"old"), b"old").unwrap();
    let side = commit(&mut remote, b"", &work(b"side"), b"side").unwrap();
    base::create_branch(&mut remote, b"side", &side).unwrap();
    let mut local = base::init();
    let mine = commit(&mut local, b"", &work(b"mine"), b"mine").unwrap();
    let raw = remote.objects.get(&side).unwrap();
    local.objects.insert(side.clone(), raw);
    assert!(!local.objects.contains_key(&old));
    assert_eq!(push(&local, &mut remote, b"refs/heads/master"), Ok(()));
    assert_eq!(remote.refs.get(b"refs/heads/master"), Some(mine.clone()));
    assert_eq!(remote.refs.get(b"refs/heads/side"), Some(side));
    assert!(remote.objects.contains_key(&mine));
    let files = base::read_tree(&remote, &base::get_commit(&remote, &mine).unwrap().tree).unwrap();
    assert_eq!(files[0], (b"a.txt".to_vec(), b"mine".to_vec()));
}

#[test]
fn push_to_a_remote_that_lacks_its_own_history_fails() {
    let mut local = base::init();
    let h1 = commit(&mut local, b"", &work(b"one"), b"first").unwrap();
    commit(&mut local, b"", &work(b"two"), b"second").unwrap();
    let mut remote = base::init();
    base::create_branch(&mut remote, b"master", &h1).unwrap();
    assert_eq!(push(&local, &mut remote, b"refs/heads/master"), Err(Error::ObjectNotFound));
    assert_eq!(remote.objects.len(), 0);
    assert_eq!(remote.refs.get(b"refs/heads/master"), Some(h1));
}

#[test]
fn push_of_an_unknown_ref_fails() {
    let local = base::init();
    let mut remote = base::init();
    assert_eq!(push(&local, &mut remote, b"refs/heads/master"), Err(Error::UnknownRevision));
    assert_eq!(remote.objects.len(), 0);
    assert_eq!(remote.refs.len(), 1);
}

#[test]
fn push_fails_where_an_object_is_missing_locally() {
    let mut local = base::init();
    let h1 = commit(&mut local, b"", &work(b"one"), b"first").unwrap();
    let tree = base::get_commit(&local, &h1).unwrap().tree;
    local.objects.remove(&tree);
    let mut remote = base::init();
    assert_eq!(push(&local, &mut remote, b"refs/heads/master"), Err(Error::ObjectNotFound));
    assert_eq!(remote.objects.len(), 0);
    assert!(!remote.refs.contains_key(b"refs/heads/master"));
}
