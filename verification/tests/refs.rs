use ugit::base;
use ugit::data::{
    delete_ref, direct_value, get_ref, get_ref_internal, get_refs, symbolic_value, update_ref,
    RefValue,
};
use ugit::error::Error;

fn oid_of_a() -> Vec<u8> {
    b"aaaaaaaaaaaaaaaaaaaaaaaaaaaaaaaaaaaaaaaa".to_vec()
}

fn oid_of_b() -> Vec<u8> {
    b"bbbbbbbbbbbbbbbbbbbbbbbbbbbbbbbbbbbbbbbb".to_vec()
}

#[test]
fn new_repository_is_on_master() {
    let repo = base::init();
    assert_eq!(repo.objects.len(), 0);
    assert_eq!(repo.refs.len(), 1);
    assert_eq!(repo.refs.get(b"HEAD"), Some(b"ref: refs/heads/master".to_vec()));
    let head = get_ref(&repo, b"HEAD", false).unwrap();
    assert_eq!(head, RefValue { symbolic: true, value: Some(b"refs/heads/master".to_vec()) });
    let followed = get_ref(&repo, b"HEAD", true).unwrap();
    assert_eq!(followed, RefValue { symbolic: false, value: None });
    assert_eq!(base::get_branch_name(&repo), Some(b"master".to_vec()));
}

#[test]
fn update_follows_symbolic_head() {
    let mut repo = base::init();
    update_ref(&mut repo, b"HEAD", &direct_value(&oid_of_a()), true).unwrap();
    assert_eq!(repo.refs.get(b"HEAD"), Some(b"ref: refs/heads/master".to_vec()));
    assert_eq!(repo.refs.get(b"refs/heads/master"), Some(oid_of_a()));
    assert_eq!(get_ref(&repo, b"HEAD", true).unwrap().value, Some(oid_of_a()));
    let (name, value) = get_ref_internal(&repo, b"HEAD", true).unwrap();
    assert_eq!(name, b"refs/heads/master".to_vec());
    assert_eq!(value, RefValue { symbolic: false, value: Some(oid_of_a()) });
}

#[test]
fn update_without_following_replaces_head() {
    let mut repo = base::init();
    update_ref(&mut repo, b"HEAD", &direct_value(&oid_of_a()), false).unwrap();
    assert_eq!(repo.refs.get(b"HEAD"), Some(oid_of_a()));
    assert!(!repo.refs.contains_key(b"refs/heads/master"));
    assert_eq!(base::get_branch_name(&repo), None);
}

#[test]
fn symbolic_value_is_written_with_prefix() {
    let mut repo = base::init();
    update_ref(&mut repo, b"refs/alias", &symbolic_value(b"refs/heads/master"), false).unwrap();
    assert_eq!(repo.refs.get(b"refs/alias"), Some(b"ref: refs/heads/master".to_vec()));
}

#[test]
fn missing_ref_has_no_value() {
    let repo = base::init();
    let value = get_ref(&repo, b"refs/heads/nowhere", true).unwrap();
    assert_eq!(value, RefValue { symbolic: false, value: None });
}

#[test]
fn symbolic_chain_is_followed_to_its_end() {
    let mut repo = base::init();
    update_ref(&mut repo, b"refs/one", &symbolic_value(b"refs/two"), false).unwrap();
    update_ref(&mut repo, b"refs/two", &symbolic_value(b"refs/three"), false).unwrap();
    update_ref(&mut repo, b"refs/three", &direct_value(&oid_of_b()), false).unwrap();
    assert_eq!(get_ref(&repo, b"refs/one", true).unwrap().value, Some(oid_of_b()));
    let shallow = get_ref(&repo, b"refs/one", false).unwrap();
    assert_eq!(shallow, RefValue { symbolic: true, value: Some(b"refs/two".to_vec()) });
}

#[test]
fn symbolic_cycle_is_an_error() {
    let mut repo = base::init();
    update_ref(&mut repo, b"refs/one", &symbolic_value(b"refs/two"), false).unwrap();
    update_ref(&mut repo, b"refs/two", &symbolic_value(b"refs/one"), false).unwrap();
    assert_eq!(get_ref(&repo, b"refs/one", true).unwrap_err(), Error::RefCycle);
    assert!(get_ref(&repo, b"refs/one", false).is_ok());
    let before = repo.refs.len();
    assert_eq!(
        update_ref(&mut repo, b"refs/one", &direct_value(&oid_of_a()), true),
        Err(Error::RefCycle)
    );
    assert_eq!(repo.refs.len(), before);
    assert_eq!(get_refs(&repo, None, true).unwrap_err(), Error::RefCycle);
    assert_eq!(delete_ref(&mut repo, b"refs/one", true), Err(Error::RefCycle));
}

#[test]
fn self_reference_is_a_cycle() {
    let mut repo = base::init();
    update_ref(&mut repo, b"refs/self", &symbolic_value(b"refs/self"), false).unwrap();
    assert_eq!(get_ref(&repo, b"refs/self", true).unwrap_err(), Error::RefCycle);
}

#[test]
fn delete_removes_the_reference() {
    let mut repo = base::init();
    update_ref(&mut repo, b"MERGE_HEAD", &direct_value(&oid_of_a()), true).unwrap();
    assert!(repo.refs.contains_key(b"MERGE_HEAD"));
    assert_eq!(delete_ref(&mut repo, b"MERGE_HEAD", false), Ok(()));
    assert!(!repo.refs.contains_key(b"MERGE_HEAD"));
    assert_eq!(delete_ref(&mut repo, b"MERGE_HEAD", false), Err(Error::IoFailure));
}

#[test]
fn delete_follows_symbolic_references() {
    let mut repo = base::init();
    update_ref(&mut repo, b"HEAD", &direct_value(&oid_of_a()), true).unwrap();
    assert_eq!(delete_ref(&mut repo, b"HEAD", true), Ok(()));
    assert!(repo.refs.contains_key(b"HEAD"));
    assert!(!repo.refs.contains_key(b"refs/heads/master"));
}

#[test]
fn listing_has_refs_then_head_then_merge_head() {
    let mut repo = base::init();
    base::create_branch(&mut repo, b"master", &oid_of_a()).unwrap();
    base::create_tag(&mut repo, b"v1", &oid_of_b()).unwrap();
    base::create_branch(&mut repo, b"feature", &oid_of_b()).unwrap();
    let all = get_refs(&repo, None, true).unwrap();
    let names: Vec<Vec<u8>> = all.iter().map(|entry| entry.0.clone()).collect();
    assert_eq!(
        names,
        vec![
            b"refs/heads/master".to_vec(),
            b"refs/tags/v1".to_vec(),
            b"refs/heads/feature".to_vec(),
            b"HEAD".to_vec(),
        ]
    );
    assert_eq!(all[3].1, RefValue { symbolic: false, value: Some(oid_of_a()) });
    let shallow = get_refs(&repo, None, false).unwrap();
    assert_eq!(
        shallow[3].1,
        RefValue { symbolic: true, value: Some(b"refs/heads/master".to_vec()) }
    );
    update_ref(&mut repo, b"MERGE_HEAD", &direct_value(&oid_of_b()), true).unwrap();
    let with_merge = get_refs(&repo, None, true).unwrap();
    assert_eq!(with_merge.len(), 5);
    assert_eq!(with_merge[4].0, b"MERGE_HEAD".to_vec());
}

#[test]
fn listing_filters_by_prefix() {
    let mut repo = base::init();
    base::create_branch(&mut repo, b"master", &oid_of_a()).unwrap();
    base::create_tag(&mut repo, b"v1", &oid_of_b()).unwrap();
    let heads = get_refs(&repo, Some(b"refs/heads/"), true).unwrap();
    assert_eq!(heads.len(), 1);
    assert_eq!(heads[0].0, b"refs/heads/master".to_vec());
    let only_head = get_refs(&repo, Some(b"HEAD"), true).unwrap();
    assert_eq!(only_head.len(), 1);
    let none = get_refs(&repo, Some(b"refs/remote/"), true).unwrap();
    assert!(none.is_empty());
}

#[test]
fn listing_leaves_out_what_has_no_value() {
    let repo = base::init();
    assert!(get_refs(&repo, None, true).unwrap().is_empty());
    assert_eq!(get_refs(&repo, None, false).unwrap().len(), 1);
}

#[test]
fn names_resolve_in_order() {
    let mut repo = base::init();
    base::create_branch(&mut repo, b"master", &oid_of_a()).unwrap();
    base::create_tag(&mut repo, b"v1", &oid_of_b()).unwrap();
    base::create_branch(&mut repo, b"v1", &oid_of_a()).unwrap();
    assert_eq!(base::get_oid(&repo, b"@").unwrap(), Some(oid_of_a()));
    assert_eq!(base::get_oid(&repo, b"HEAD").unwrap(), Some(oid_of_a()));
    assert_eq!(base::get_oid(&repo, b"master").unwrap(), Some(oid_of_a()));
    assert_eq!(base::get_oid(&repo, b"v1").unwrap(), Some(oid_of_b()));
    assert_eq!(base::get_oid(&repo, b"heads/v1").unwrap(), Some(oid_of_a()));
    assert_eq!(base::get_oid(&repo, b"refs/tags/v1").unwrap(), Some(oid_of_b()));
}

#[test]
fn forty_hex_digits_name_themselves() {
    let repo = base::init();
    let oid = b"0123456789abcdef0123456789abcdef01234567".to_vec();
    assert_eq!(base::get_oid(&repo, &oid).unwrap(), Some(oid));
}

#[test]
fn unknown_name_is_an_unknown_revision() {
    let repo = base::init();
    assert_eq!(base::get_oid(&repo, b"nothing").unwrap_err(), Error::UnknownRevision);
    assert_eq!(
        base::get_oid(&repo, b"0123456789abcdef0123456789abcdef0123456").unwrap_err(),
        Error::UnknownRevision
    );
}

#[test]
fn head_of_new_repository_names_no_commit() {
    let repo = base::init();
    assert_eq!(base::get_oid(&repo, b"@").unwrap(), None);
}

#[test]
fn branches_are_listed_by_short_name() {
    let mut repo = base::init();
    assert_eq!(base::get_branch_names(&repo).unwrap(), Vec::<Vec<u8>>::new());
    base::create_branch(&mut repo, b"master", &oid_of_a()).unwrap();
    base::create_branch(&mut repo, b"topic/one", &oid_of_b()).unwrap();
    base::create_tag(&mut repo, b"v1", &oid_of_b()).unwrap();
    assert_eq!(
        base::get_branch_names(&repo).unwrap(),
        vec![b"master".to_vec(), b"topic/one".to_vec()]
    );
    assert_eq!(base::is_branch(&repo, b"master"), Ok(true));
    assert_eq!(base::is_branch(&repo, b"v1"), Ok(false));
}

#[test]
fn reset_moves_the_branch() {
    let mut repo = base::init();
    base::reset(&mut repo, &oid_of_a()).unwrap();
    assert_eq!(repo.refs.get(b"refs/heads/master"), Some(oid_of_a()));
    base::reset(&mut repo, &oid_of_b()).unwrap();
    assert_eq!(repo.refs.get(b"refs/heads/master"), Some(oid_of_b()));
    assert_eq!(repo.refs.get(b"HEAD"), Some(b"ref: refs/heads/master".to_vec()));
}

#[test]
fn detached_head_is_on_no_branch() {
    let mut repo = base::init();
    update_ref(&mut repo, b"HEAD", &symbolic_value(b"refs/tags/v1"), false).unwrap();
    assert_eq!(base::get_branch_name(&repo), None);
}
