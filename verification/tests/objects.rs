use sha1::{Digest, Sha1};
use ugit::data::{
    fetch_object_if_missing, get_object, get_object_path, hash_object, init, object_exists,
    push_object,
};
use ugit::error::Error;
use ugit::oid::{generate_oid, is_oid_shaped, to_hex};

#[test]
fn oid_is_hex_of_sha1() {
    let oid = generate_oid(b"hello world");
    assert_eq!(oid, b"2aae6c35c94fcfb415dbe95f408b9ce91ee846ed".to_vec());
}

#[test]
fn oid_matches_the_digest_of_the_same_bytes() {
    let digest = Sha1::digest(b"blob\0hello");
    let mut expected = String::new();
    for byte in digest.iter() {
        expected.push_str(&format!("{:02x}", byte));
    }
    assert_eq!(generate_oid(b"blob\0hello"), expected.into_bytes());
}

#[test]
fn hex_has_two_lowercase_digits_per_byte() {
    assert_eq!(to_hex(&[0x00, 0x0f, 0xa5, 0xff]), b"000fa5ff".to_vec());
    assert_eq!(to_hex(&[]), Vec::<u8>::new());
}

#[test]
fn oid_shape_is_forty_hex_digits() {
    assert!(is_oid_shaped(b"2aae6c35c94fcfb415dbe95f408b9ce91ee846ed"));
    assert!(is_oid_shaped(b"2AAE6C35C94FCFB415DBE95F408B9CE91EE846ED"));
    assert!(!is_oid_shaped(b"2aae6c35c94fcfb415dbe95f408b9ce91ee846e"));
    assert!(!is_oid_shaped(b"2aae6c35c94fcfb415dbe95f408b9ce91ee846edd"));
    assert!(!is_oid_shaped(b"zaae6c35c94fcfb415dbe95f408b9ce91ee846ed"));
    assert!(!is_oid_shaped(b""));
}

#[test]
fn put_then_get_returns_payload() {
    let mut repo = init();
    let oid = hash_object(&mut repo, b"hello", b"blob");
    assert_eq!(oid, generate_oid(b"blob\0hello"));
    assert!(object_exists(&repo, &oid));
    let (tag, payload) = get_object(&repo, &oid, Some(b"blob")).unwrap();
    assert_eq!(tag, b"blob".to_vec());
    assert_eq!(payload, b"hello".to_vec());
    let (tag, payload) = get_object(&repo, &oid, None).unwrap();
    assert_eq!(tag, b"blob".to_vec());
    assert_eq!(payload, b"hello".to_vec());
}

#[test]
fn payload_may_hold_zero_bytes_and_be_empty() {
    let mut repo = init();
    let oid = hash_object(&mut repo, b"a\0b\0", b"blob");
    assert_eq!(get_object(&repo, &oid, Some(b"blob")).unwrap().1, b"a\0b\0".to_vec());
    let empty = hash_object(&mut repo, b"", b"blob");
    assert_eq!(get_object(&repo, &empty, Some(b"blob")).unwrap().1, Vec::<u8>::new());
}

#[test]
fn equal_content_has_one_oid_and_other_content_another() {
    let mut first = init();
    let mut second = init();
    hash_object(&mut second, b"something else", b"blob");
    let a = hash_object(&mut first, b"same bytes", b"blob");
    let b = hash_object(&mut second, b"same bytes", b"blob");
    assert_eq!(a, b);
    let c = hash_object(&mut first, b"same bytes!", b"blob");
    assert_ne!(a, c);
    let d = hash_object(&mut first, b"same bytes", b"tree");
    assert_ne!(a, d);
}

#[test]
fn storing_twice_keeps_one_object() {
    let mut repo = init();
    let first = hash_object(&mut repo, b"hello", b"blob");
    assert_eq!(repo.objects.len(), 1);
    let second = hash_object(&mut repo, b"hello", b"blob");
    assert_eq!(first, second);
    assert_eq!(repo.objects.len(), 1);
    assert_eq!(get_object(&repo, &first, Some(b"blob")).unwrap().1, b"hello".to_vec());
}

#[test]
fn putting_keeps_what_is_stored_under_the_oid() {
    let mut repo = init();
    let oid = generate_oid(b"blob\0hello");
    repo.objects.insert(oid.clone(), b"blob\0other".to_vec());
    let returned = hash_object(&mut repo, b"hello", b"blob");
    assert_eq!(returned, oid);
    assert_eq!(get_object(&repo, &oid, None).unwrap().1, b"other".to_vec());
}

#[test]
fn missing_object_is_not_found() {
    let repo = init();
    let oid = generate_oid(b"nothing");
    assert!(!object_exists(&repo, &oid));
    assert_eq!(get_object(&repo, &oid, None).unwrap_err(), Error::ObjectNotFound);
}

#[test]
fn other_type_is_a_mismatch() {
    let mut repo = init();
    let oid = hash_object(&mut repo, b"hello", b"blob");
    assert_eq!(get_object(&repo, &oid, Some(b"tree")).unwrap_err(), Error::TypeMismatch);
    assert_eq!(get_object(&repo, &oid, Some(b"blo")).unwrap_err(), Error::TypeMismatch);
}

#[test]
fn object_without_separator_is_malformed() {
    let mut repo = init();
    repo.objects.insert(b"abc".to_vec(), b"no separator here".to_vec());
    assert_eq!(get_object(&repo, b"abc", None).unwrap_err(), Error::MalformedObject);
    assert_eq!(get_object(&repo, b"abc", Some(b"blob")).unwrap_err(), Error::MalformedObject);
}

#[test]
fn object_path_is_below_objects() {
    assert_eq!(get_object_path(b"abc123"), b"objects/abc123".to_vec());
}

#[test]
fn fetching_an_object_copies_it_once() {
    let mut remote = init();
    let oid = hash_object(&mut remote, b"from afar", b"blob");
    let mut local = init();
    assert_eq!(fetch_object_if_missing(&mut local, &remote, &oid), Ok(()));
    assert_eq!(get_object(&local, &oid, Some(b"blob")).unwrap().1, b"from afar".to_vec());
    assert_eq!(fetch_object_if_missing(&mut local, &remote, &oid), Ok(()));
    assert_eq!(local.objects.len(), 1);
}

#[test]
fn fetching_keeps_the_local_object() {
    let mut remote = init();
    remote.objects.insert(b"key".to_vec(), b"blob\0remote".to_vec());
    let mut local = init();
    local.objects.insert(b"key".to_vec(), b"blob\0local".to_vec());
    assert_eq!(fetch_object_if_missing(&mut local, &remote, b"key"), Ok(()));
    assert_eq!(get_object(&local, b"key", None).unwrap().1, b"local".to_vec());
}

#[test]
fn fetching_what_nobody_has_fails() {
    let remote = init();
    let mut local = init();
    assert_eq!(
        fetch_object_if_missing(&mut local, &remote, b"missing"),
        Err(Error::ObjectNotFound)
    );
    assert_eq!(local.objects.len(), 0);
}

#[test]
fn pushing_an_object_overwrites() {
    let mut local = init();
    local.objects.insert(b"key".to_vec(), b"blob\0local".to_vec());
    let mut remote = init();
    remote.objects.insert(b"key".to_vec(), b"blob\0remote".to_vec());
    assert_eq!(push_object(&local, &mut remote, b"key"), Ok(()));
    assert_eq!(get_object(&remote, b"key", None).unwrap().1, b"local".to_vec());
    assert_eq!(push_object(&local, &mut remote, b"absent"), Err(Error::ObjectNotFound));
}

#[test]
fn errors_describe_themselves() {
    assert_eq!(Error::ObjectNotFound.message(), "object not found");
    assert_eq!(Error::TypeMismatch.message(), "object has another type");
    assert_eq!(Error::MalformedObject.message(), "object has no type separator");
    assert_eq!(Error::MalformedCommit.message(), "malformed commit");
    assert_eq!(Error::MalformedTree.message(), "malformed tree");
    assert_eq!(Error::UnknownRevision.message(), "unknown revision");
    assert_eq!(Error::NotARepository.message(), "not a repository");
    assert_eq!(Error::IoFailure.message(), "input or output failed");
    assert_eq!(Error::RefCycle.message(), "symbolic references form a cycle");
    assert_eq!(Error::NoCommonAncestor.message(), "no common ancestor");
}

#[test]
fn two_payloads_are_two_objects() {
    let mut repo = init();
    let a = hash_object(&mut repo, b"first payload", b"blob");
    let b = hash_object(&mut repo, b"second payload", b"blob");
    assert_ne!(a, b);
    assert_eq!(repo.objects.len(), 2);
    assert_eq!(get_object(&repo, &a, Some(b"blob")).unwrap().1, b"first payload".to_vec());
    assert_eq!(get_object(&repo, &b, Some(b"blob")).unwrap().1, b"second payload".to_vec());
}
