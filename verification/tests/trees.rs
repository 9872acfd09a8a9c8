use ugit::base::{
    self, decode_tree, encode_tree, get_tree, get_tree_entries, get_working_tree, is_ignored,
    is_illegal, read_tree, write_tree, Entry, EntryKind, TreeEntry,
};
use ugit::data::{get_object, hash_object};
use ugit::error::Error;
use ugit::oid::generate_oid;

fn file(name: &[u8], contents: &[u8]) -> Entry {
    Entry::File { name: name.to_vec(), contents: contents.to_vec() }
}

fn dir(name: &[u8], entries: Vec<Entry>) -> Entry {
    Entry::Dir { name: name.to_vec(), entries }
}

fn sample_directory() -> Vec<Entry> {
    vec![
        file(b"a.txt", b"hello"),
        dir(b"src", vec![file(b"main.rs", b"fn main() {}\n"), dir(b"deep", vec![file(b"x", b"")])]),
        dir(b"empty", vec![]),
        dir(b".ugit", vec![file(b"HEAD", b"ref: refs/heads/master")]),
        file(b"z.bin", b"\0\x01\x02\n\xff"),
    ]
}

#[test]
fn tree_round_trip() {
    let mut repo = base::init();
    let oid = write_tree(&mut repo, b"/work", &sample_directory()).unwrap();
    let files = read_tree(&repo, &oid).unwrap();
    assert_eq!(
        files,
        vec![
            (b"a.txt".to_vec(), b"hello".to_vec()),
            (b"src/main.rs".to_vec(), b"fn main() {}\n".to_vec()),
            (b"src/deep/x".to_vec(), b"".to_vec()),
            (b"z.bin".to_vec(), b"\0\x01\x02\n\xff".to_vec()),
        ]
    );
}

#[test]
fn tree_object_lists_kind_oid_and_name() {
    let mut repo = base::init();
    let entries = vec![file(b"a.txt", b"hello"), dir(b"sub", vec![file(b"b", b"bee")])];
    let oid = write_tree(&mut repo, b"", &entries).unwrap();
    let blob_a = generate_oid(b"blob\0hello");
    let blob_b = generate_oid(b"blob\0bee");
    let mut sub_payload = b"blob ".to_vec();
    sub_payload.extend_from_slice(&blob_b);
    sub_payload.extend_from_slice(b" b\n");
    let mut sub_raw = b"tree\0".to_vec();
    sub_raw.extend_from_slice(&sub_payload);
    let sub_oid = generate_oid(&sub_raw);
    let mut payload = b"blob ".to_vec();
    payload.extend_from_slice(&blob_a);
    payload.extend_from_slice(b" a.txt\ntree ");
    payload.extend_from_slice(&sub_oid);
    payload.extend_from_slice(b" sub\n");
    assert_eq!(get_object(&repo, &oid, Some(b"tree")).unwrap().1, payload);
    assert_eq!(get_object(&repo, &sub_oid, Some(b"tree")).unwrap().1, sub_payload);
    assert_eq!(repo.objects.len(), 4);
}

#[test]
fn empty_directories_leave_no_entry() {
    let mut repo = base::init();
    let entries = vec![dir(b"empty", vec![]), dir(b"hollow", vec![dir(b"inner", vec![])])];
    let oid = write_tree(&mut repo, b"", &entries).unwrap();
    assert_eq!(get_tree_entries(&repo, Some(&oid)).unwrap(), Vec::<TreeEntry>::new());
    assert_eq!(repo.objects.len(), 1);
    assert_eq!(oid, generate_oid(b"tree\0"));
}

#[test]
fn metadata_directory_is_never_recorded() {
    let mut repo = base::init();
    let entries = vec![
        dir(b".ugit", vec![file(b"HEAD", b"x")]),
        file(b".ugit", b"a file of that name"),
        dir(b"sub", vec![dir(b".ugit", vec![file(b"y", b"y")]), file(b"kept", b"k")]),
    ];
    let oid = write_tree(&mut repo, b"", &entries).unwrap();
    let files = read_tree(&repo, &oid).unwrap();
    assert_eq!(files, vec![(b"sub/kept".to_vec(), b"k".to_vec())]);
}

#[test]
fn ignored_path_writes_nothing() {
    let mut repo = base::init();
    let entries = vec![file(b"a", b"a")];
    assert_eq!(write_tree(&mut repo, b"/work/.ugit/objects", &entries), None);
    assert_eq!(write_tree(&mut repo, b".ugit", &entries), None);
    assert_eq!(repo.objects.len(), 0);
}

#[test]
fn ignored_means_a_component_is_the_metadata_directory() {
    assert!(is_ignored(b".ugit"));
    assert!(is_ignored(b"a/.ugit/b"));
    assert!(is_ignored(b"/.ugit"));
    assert!(!is_ignored(b"a/.ugitx/b"));
    assert!(!is_ignored(b"x.ugit"));
    assert!(!is_ignored(b""));
}

#[test]
fn illegal_names() {
    assert!(is_illegal(b""));
    assert!(is_illegal(b"."));
    assert!(is_illegal(b".."));
    assert!(is_illegal(b"a/b"));
    assert!(is_illegal(b"/root"));
    assert!(!is_illegal(b"..."));
    assert!(!is_illegal(b".hidden"));
    assert!(!is_illegal(b"a.txt"));
}

#[test]
fn tree_codec_round_trip() {
    let entries = vec![
        TreeEntry { kind: EntryKind::Blob, oid: b"1111".to_vec(), name: b"a.txt".to_vec() },
        TreeEntry { kind: EntryKind::Tree, oid: b"2222".to_vec(), name: b"sub".to_vec() },
    ];
    let payload = encode_tree(&entries);
    assert_eq!(payload, b"blob 1111 a.txt\ntree 2222 sub\n".to_vec());
    assert_eq!(decode_tree(&payload).unwrap(), entries);
}

#[test]
fn tree_lines_are_split_on_white_space() {
    let entries = decode_tree(b"blob\t1111   a.txt trailing words\r\ntree 2222 sub").unwrap();
    assert_eq!(
        entries,
        vec![
            TreeEntry { kind: EntryKind::Blob, oid: b"1111".to_vec(), name: b"a.txt".to_vec() },
            TreeEntry { kind: EntryKind::Tree, oid: b"2222".to_vec(), name: b"sub".to_vec() },
        ]
    );
    assert_eq!(decode_tree(b"").unwrap(), Vec::<TreeEntry>::new());
}

#[test]
fn broken_tree_lines_are_malformed() {
    assert_eq!(decode_tree(b"blob 1111\n").unwrap_err(), Error::MalformedTree);
    assert_eq!(decode_tree(b"blob 1111 a\n\nblob 2222 b\n").unwrap_err(), Error::MalformedTree);
    assert_eq!(decode_tree(b"link 1111 a\n").unwrap_err(), Error::MalformedTree);
    assert_eq!(decode_tree(b"\n").unwrap_err(), Error::MalformedTree);
}

#[test]
fn flattening_joins_paths_below_the_base() {
    let mut repo = base::init();
    let entries = vec![file(b"a", b"1"), dir(b"d", vec![file(b"b", b"2")])];
    let oid = write_tree(&mut repo, b"", &entries).unwrap();
    let plain = get_tree(&repo, Some(&oid), None).unwrap();
    assert_eq!(
        plain,
        vec![
            (generate_oid(b"blob\x001"), b"a".to_vec()),
            (generate_oid(b"blob\x002"), b"d/b".to_vec()),
        ]
    );
    let based = get_tree(&repo, Some(&oid), Some(b"top")).unwrap();
    assert_eq!(based[0].1, b"top/a".to_vec());
    assert_eq!(based[1].1, b"top/d/b".to_vec());
    assert!(get_tree(&repo, None, None).unwrap().is_empty());
}

#[test]
fn illegal_entry_name_is_rejected_when_read() {
    let mut repo = base::init();
    let blob = hash_object(&mut repo, b"x", b"blob");
    for name in [&b".."[..], &b"."[..], &b"a/b"[..]] {
        let mut payload = b"blob ".to_vec();
        payload.extend_from_slice(&blob);
        payload.push(b' ');
        payload.extend_from_slice(name);
        payload.push(b'\n');
        let oid = hash_object(&mut repo, &payload, b"tree");
        assert_eq!(get_tree(&repo, Some(&oid), None).unwrap_err(), Error::MalformedTree);
        assert_eq!(read_tree(&repo, &oid).unwrap_err(), Error::MalformedTree);
    }
}

#[test]
fn tree_that_holds_itself_is_malformed() {
    let mut repo = base::init();
    repo.objects.insert(b"loop".to_vec(), b"tree\0tree loop again\n".to_vec());
    assert_eq!(get_tree(&repo, Some(b"loop"), None).unwrap_err(), Error::MalformedTree);
}

#[test]
fn reading_a_blob_as_tree_is_a_mismatch() {
    let mut repo = base::init();
    let blob = hash_object(&mut repo, b"x", b"blob");
    assert_eq!(get_tree(&repo, Some(&blob), None).unwrap_err(), Error::TypeMismatch);
    assert_eq!(get_tree_entries(&repo, Some(b"absent")).unwrap_err(), Error::ObjectNotFound);
}

#[test]
fn reading_a_tree_with_a_missing_blob_fails() {
    let mut repo = base::init();
    let oid = hash_object(&mut repo, b"blob 1234 a\n", b"tree");
    assert_eq!(get_tree(&repo, Some(&oid), None).unwrap().len(), 1);
    assert_eq!(read_tree(&repo, &oid).unwrap_err(), Error::ObjectNotFound);
}

#[test]
fn working_tree_is_listed_like_a_stored_tree() {
    let mut repo = base::init();
    let entries = sample_directory();
    let listed = get_working_tree(&entries);
    assert_eq!(repo.objects.len(), 0);
    let oid = write_tree(&mut repo, b"", &entries).unwrap();
    assert_eq!(get_tree(&repo, Some(&oid), None).unwrap(), listed);
    assert_eq!(listed.len(), 4);
    assert_eq!(listed[0], (generate_oid(b"blob\0hello"), b"a.txt".to_vec()));
}

#[test]
fn emptying_spares_ignored_directories() {
    let entries = vec![
        file(b"a.txt", b"x"),
        dir(b".ugit", vec![]),
        dir(b"src", vec![file(b"deep", b"y")]),
        file(b".ugit", b"a file is no metadata directory"),
    ];
    assert_eq!(
        base::empty_directory(b"/work", &entries),
        vec![b"a.txt".to_vec(), b"src".to_vec(), b".ugit".to_vec()]
    );
    assert_eq!(
        base::empty_directory(b"/work/.ugit", &entries),
        vec![b"a.txt".to_vec(), b".ugit".to_vec()]
    );
    assert!(base::empty_directory(b"", &vec![]).is_empty());
}

#[test]
fn base_path_must_give_legal_paths() {
    let mut repo = base::init();
    let entries = vec![file(b"a", b"1"), dir(b"d", vec![file(b"b", b"2")])];
    let oid = write_tree(&mut repo, b"", &entries).unwrap();
    for bad in [
        &b".."[..],
        &b"."[..],
        &b"/"[..],
        &b"/abs"[..],
        &b"../up"[..],
        &b"top/../up"[..],
        &b"top/./sub"[..],
        &b"./top"[..],
        &b"top/.."[..],
    ] {
        assert_eq!(get_tree(&repo, Some(&oid), Some(bad)).unwrap_err(), Error::MalformedTree);
    }
    for good in [&b"top"[..], &b"top/sub"[..], &b"..."[..], &b".hidden/x"[..], &b"a..b"[..]] {
        let files = get_tree(&repo, Some(&oid), Some(good)).unwrap();
        assert_eq!(files.len(), 2);
        let mut expected = good.to_vec();
        expected.extend_from_slice(b"/d/b");
        assert_eq!(files[1].1, expected);
    }
}

#[test]
fn base_path_is_not_looked_at_without_entries() {
    let mut repo = base::init();
    let empty = write_tree(&mut repo, b"", &vec![]).unwrap();
    assert!(get_tree(&repo, Some(&empty), Some(b"..")).unwrap().is_empty());
    assert!(get_tree(&repo, None, Some(b"/abs")).unwrap().is_empty());
}

#[test]
fn paths_are_legal_or_not() {
    assert!(base::is_illegal_path(b"/"));
    assert!(base::is_illegal_path(b"/a"));
    assert!(base::is_illegal_path(b"."));
    assert!(base::is_illegal_path(b".."));
    assert!(base::is_illegal_path(b"a/../b"));
    assert!(base::is_illegal_path(b"a/."));
    assert!(!base::is_illegal_path(b""));
    assert!(!base::is_illegal_path(b"a"));
    assert!(!base::is_illegal_path(b"a/b.c/..d"));
    assert!(!base::is_illegal_path(b"a//b"));
}
