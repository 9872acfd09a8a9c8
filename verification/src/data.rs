//! The repository: a content-addressed object store and a namespace of
//! references.
//!
//! An object is stored as its type tag, a zero byte and its payload, under
//! the identifier of those bytes. A reference is a name with a content:
//! either a value (an object identifier) or the name of another reference
//! behind the prefix `ref: `.

use crate::assoc::ByteMap;
use crate::bytes::{
    add_unique, ascii, bytes_eq, copy, find, find_from, join_bytes, lemma_find_from_is, lit,
    opt_view, slice, starts_with,
};
use crate::error::Error;
use crate::oid::{generate_oid, is_oid, oid_of};
use vstd::prelude::*;

verus! {

/// A map from byte strings to byte strings: identifiers to stored objects,
/// or reference names to their contents.
pub type Store = Map<Seq<u8>, Seq<u8>>;

/// A repository: its objects by identifier and its references by name.
pub struct Repository {
    pub objects: ByteMap,
    pub refs: ByteMap,
}

/// What a reference holds: a value, or nothing where the reference does not
/// exist. A symbolic reference's value is the name of another reference.
#[derive(Debug, Clone, PartialEq, Eq)]
pub struct RefValue {
    pub symbolic: bool,
    pub value: Option<Vec<u8>>,
}

/// A [`RefValue`] as a mathematical value.
pub struct RefValueView {
    pub symbolic: bool,
    pub value: Option<Seq<u8>>,
}

impl View for RefValue {
    type V = RefValueView;

    open spec fn view(&self) -> RefValueView {
        RefValueView { symbolic: self.symbolic, value: opt_view(self.value) }
    }
}

impl Repository {
    /// Both maps are well-formed.
    pub open spec fn wf(&self) -> bool {
        self.objects.wf() && self.refs.wf()
    }
}

// ---------------------------------------------------------------------
// Objects
// ---------------------------------------------------------------------

/// The stored form of an object: its type tag, a zero byte, its payload.
pub open spec fn encode_object(tag: Seq<u8>, payload: Seq<u8>) -> Seq<u8> {
    tag + seq![0u8] + payload
}

/// The identifier under which an object of type `tag` with `payload` is
/// stored.
pub open spec fn object_id(tag: Seq<u8>, payload: Seq<u8>) -> Seq<u8> {
    oid_of(encode_object(tag, payload))
}

/// Whether stored bytes hold a zero byte, which ends the type tag.
pub open spec fn has_separator(raw: Seq<u8>) -> bool {
    find_from(raw, 0, 0) < raw.len()
}

/// The type tag of stored bytes: what stands before the first zero byte.
pub open spec fn object_tag(raw: Seq<u8>) -> Seq<u8> {
    raw.subrange(0, find_from(raw, 0, 0))
}

/// The payload of stored bytes: what stands after the first zero byte.
pub open spec fn object_payload(raw: Seq<u8>) -> Seq<u8> {
    raw.subrange(find_from(raw, 0, 0) + 1, raw.len() as int)
}

/// The store after an object was put into it: unchanged where the
/// identifier is already there, else with the object under its identifier.
pub open spec fn put_object(objects: Store, tag: Seq<u8>, payload: Seq<u8>) -> Store {
    let oid = object_id(tag, payload);
    if objects.contains_key(oid) {
        objects
    } else {
        objects.insert(oid, encode_object(tag, payload))
    }
}

/// The type tag and payload stored under `oid`, or why they cannot be had.
pub open spec fn read_object(objects: Store, oid: Seq<u8>, expected: Option<Seq<u8>>) -> Result<
    (Seq<u8>, Seq<u8>),
    Error,
> {
    if !objects.contains_key(oid) {
        Err(Error::ObjectNotFound)
    } else if !has_separator(objects[oid]) {
        Err(Error::MalformedObject)
    } else if expected is Some && expected->0 != object_tag(objects[oid]) {
        Err(Error::TypeMismatch)
    } else {
        Ok((object_tag(objects[oid]), object_payload(objects[oid])))
    }
}

/// The payload stored under `oid`, where it can be had with type `tag`.
pub open spec fn read_payload(objects: Store, oid: Seq<u8>, tag: Seq<u8>) -> Result<
    Seq<u8>,
    Error,
> {
    match read_object(objects, oid, Some(tag)) {
        Ok(p) => Ok(p.1),
        Err(e) => Err(e),
    }
}

/// A repository without objects or references.
pub fn init() -> (repo: Repository)
    ensures
        repo.wf(),
        repo.objects@ == Store::empty(),
        repo.refs@ == Store::empty(),
        repo.objects.keys().len() == 0,
        repo.refs.keys().len() == 0,
{
    Repository { objects: ByteMap::new(), refs: ByteMap::new() }
}

/// Adds an object of type `object_type` with payload `data` to the store and
/// returns its identifier. Where the identifier is already there, the store
/// stays as it is.
pub fn hash_object(repo: &mut Repository, data: &[u8], object_type: &[u8]) -> (oid: Vec<u8>)
    requires
        old(repo).wf(),
    ensures
        final(repo).wf(),
        oid@ == object_id(object_type@, data@),
        is_oid(oid@),
        final(repo).objects@ == put_object(old(repo).objects@, object_type@, data@),
        final(repo).objects.keys() == add_unique(old(repo).objects.keys(), oid@),
        final(repo).refs == old(repo).refs,
{
    let raw = encode(object_type, data);
    let oid = generate_oid(raw.as_slice());
    proof {
        repo.objects.lemma_wf();
    }
    if !repo.objects.contains_key(oid.as_slice()) {
        repo.objects.insert(copy(oid.as_slice()), raw);
    }
    oid
}

/// The stored form of an object.
pub fn encode(object_type: &[u8], data: &[u8]) -> (raw: Vec<u8>)
    ensures
        raw@ == encode_object(object_type@, data@),
{
    let mut raw = copy(object_type);
    raw.push(0u8);
    raw.extend_from_slice(data);
    assert(raw@ =~= encode_object(object_type@, data@));
    raw
}

/// The type tag and payload of the object stored under `oid`. Fails with
/// `ObjectNotFound` where nothing is stored there, with `MalformedObject`
/// where the stored bytes hold no zero byte, and with `TypeMismatch` where
/// `expected_type` is given and is not the stored tag.
pub fn get_object(repo: &Repository, oid: &[u8], expected_type: Option<&[u8]>) -> (r: Result<
    (Vec<u8>, Vec<u8>),
    Error,
>)
    requires
        repo.wf(),
    ensures
        match r {
            Ok(p) => read_object(
                repo.objects@,
                oid@,
                match expected_type {
                    Some(t) => Some(t@),
                    None => None,
                },
            ) == Ok::<_, Error>((p.0@, p.1@)),
            Err(e) => read_object(
                repo.objects@,
                oid@,
                match expected_type {
                    Some(t) => Some(t@),
                    None => None,
                },
            ) == Err::<(Seq<u8>, Seq<u8>), _>(e),
        },
{
    let raw = match repo.objects.get(oid) {
        Some(raw) => raw,
        None => {
            return Err(Error::ObjectNotFound);
        },
    };
    let sep = find(raw.as_slice(), 0u8, 0);
    if sep >= raw.len() {
        return Err(Error::MalformedObject);
    }
    let tag = slice(raw.as_slice(), 0, sep);
    match expected_type {
        Some(t) => {
            if !bytes_eq(t, tag.as_slice()) {
                return Err(Error::TypeMismatch);
            }
        },
        None => {},
    }
    let payload = slice(raw.as_slice(), sep + 1, raw.len());
    Ok((tag, payload))
}

/// Whether an object is stored under `oid`.
pub fn object_exists(repo: &Repository, oid: &[u8]) -> (r: bool)
    ensures
        r == repo.objects@.contains_key(oid@),
{
    repo.objects.contains_key(oid)
}

/// The place of the object `oid` below the metadata directory.
pub open spec fn object_path(oid: Seq<u8>) -> Seq<u8> {
    ascii("objects/"@) + oid
}

/// The path, relative to the metadata directory, of the file that holds the
/// object `oid`.
pub fn get_object_path(oid: &[u8]) -> (path: Vec<u8>)
    ensures
        path@ == object_path(oid@),
{
    proof {
        reveal_strlit("objects/");
    }
    let dir = lit("objects/");
    join_bytes(dir.as_slice(), oid)
}

/// The store `to` with the object `oid` of `from` under the same
/// identifier, or `ObjectNotFound` where `from` does not hold it.
pub open spec fn copy_object(to: Store, from: Store, oid: Seq<u8>) -> Result<Store, Error> {
    if from.contains_key(oid) {
        Ok(to.insert(oid, from[oid]))
    } else {
        Err(Error::ObjectNotFound)
    }
}

/// The store `local` after the object `oid` was fetched from `remote`:
/// unchanged where `local` holds the identifier already.
pub open spec fn fetch_object(local: Store, remote: Store, oid: Seq<u8>) -> Result<Store, Error> {
    if local.contains_key(oid) {
        Ok(local)
    } else {
        copy_object(local, remote, oid)
    }
}

/// Copies the object `oid` from `remote` into `local` unless `local` holds
/// that identifier already. The bytes are copied as they are. Fails with
/// `ObjectNotFound`, leaving `local` as it was, where neither holds it.
pub fn fetch_object_if_missing(local: &mut Repository, remote: &Repository, oid: &[u8]) -> (r:
    Result<(), Error>)
    requires
        old(local).wf(),
        remote.wf(),
    ensures
        final(local).wf(),
        final(local).refs == old(local).refs,
        match r {
            Ok(_) => fetch_object(old(local).objects@, remote.objects@, oid@) == Ok::<_, Error>(
                final(local).objects@,
            ) && final(local).objects.keys() == add_unique(old(local).objects.keys(), oid@),
            Err(e) => fetch_object(old(local).objects@, remote.objects@, oid@) == Err::<Store, _>(e)
                && *final(local) == *old(local),
        },
{
    proof {
        local.objects.lemma_wf();
    }
    if local.objects.contains_key(oid) {
        return Ok(());
    }
    match remote.objects.get(oid) {
        Some(raw) => {
            local.objects.insert(copy(oid), raw);
            Ok(())
        },
        None => Err(Error::ObjectNotFound),
    }
}

/// Copies the object `oid` from `local` into `remote`, over whatever
/// `remote` holds there. Fails with `ObjectNotFound`, leaving `remote` as it
/// was, where `local` does not hold it.
pub fn push_object(local: &Repository, remote: &mut Repository, oid: &[u8]) -> (r: Result<
    (),
    Error,
>)
    requires
        local.wf(),
        old(remote).wf(),
    ensures
        final(remote).wf(),
        final(remote).refs == old(remote).refs,
        match r {
            Ok(_) => copy_object(old(remote).objects@, local.objects@, oid@) == Ok::<_, Error>(
                final(remote).objects@,
            ) && final(remote).objects.keys() == add_unique(old(remote).objects.keys(), oid@),
            Err(e) => copy_object(old(remote).objects@, local.objects@, oid@) == Err::<Store, _>(e)
                && *final(remote) == *old(remote),
        },
{
    proof {
        remote.objects.lemma_wf();
    }
    match local.objects.get(oid) {
        Some(raw) => {
            remote.objects.insert(copy(oid), raw);
            Ok(())
        },
        None => Err(Error::ObjectNotFound),
    }
}

// ---------------------------------------------------------------------
// References
// ---------------------------------------------------------------------

/// The prefix that marks the content of a symbolic reference.
pub open spec fn symbolic_prefix() -> Seq<u8> {
    ascii("ref: "@)
}

/// The name of the reference to the current commit or branch.
pub open spec fn head_name() -> Seq<u8> {
    ascii("HEAD"@)
}

/// The name of the reference that exists while a merge is in progress.
pub open spec fn merge_head_name() -> Seq<u8> {
    ascii("MERGE_HEAD"@)
}

/// The prefix of the names that [`get_refs`] lists beside `HEAD` and
/// `MERGE_HEAD`.
pub open spec fn refs_dir() -> Seq<u8> {
    ascii("refs/"@)
}

/// Whether the content of a reference names another reference.
pub open spec fn is_symbolic(content: Seq<u8>) -> bool {
    symbolic_prefix().is_prefix_of(content)
}

/// The name that the content of a symbolic reference holds.
pub open spec fn symbolic_target(content: Seq<u8>) -> Seq<u8> {
    content.skip(symbolic_prefix().len() as int)
}

/// The content that stands for a reference value.
pub open spec fn ref_content(value: RefValueView) -> Seq<u8> {
    if value.symbolic {
        symbolic_prefix() + value.value->0
    } else {
        value.value->0
    }
}

/// The value of the reference `name` and the name under which it was found,
/// following at most `depth` symbolic references where `deref` is set. A
/// reference that does not exist has no value. Where `depth` symbolic
/// references were followed and the next is symbolic again, the result is
/// `RefCycle`.
pub open spec fn resolve_ref(refs: Store, name: Seq<u8>, deref: bool, depth: nat) -> Result<
    (Seq<u8>, RefValueView),
    Error,
>
    decreases depth,
{
    if !refs.contains_key(name) {
        Ok((name, RefValueView { symbolic: false, value: None }))
    } else if !is_symbolic(refs[name]) {
        Ok((name, RefValueView { symbolic: false, value: Some(refs[name]) }))
    } else if !deref {
        Ok((name, RefValueView { symbolic: true, value: Some(symbolic_target(refs[name])) }))
    } else if depth == 0 {
        Err(Error::RefCycle)
    } else {
        resolve_ref(refs, symbolic_target(refs[name]), deref, (depth - 1) as nat)
    }
}

/// [`resolve_ref`] with as many steps as there are references: enough for
/// every chain that does not return to itself.
pub open spec fn lookup_ref(refs: Store, name: Seq<u8>, deref: bool) -> Result<
    (Seq<u8>, RefValueView),
    Error,
> {
    resolve_ref(refs, name, deref, refs.dom().len())
}

/// The value that [`lookup_ref`] finds.
pub open spec fn ref_value(refs: Store, name: Seq<u8>, deref: bool) -> Result<RefValueView, Error> {
    match lookup_ref(refs, name, deref) {
        Ok(p) => Ok(p.1),
        Err(e) => Err(e),
    }
}

/// The references after `value` was written to `name`, or to the reference
/// at the end of the chain of symbolic references that starts at `name`
/// where `deref` is set.
pub open spec fn write_ref(refs: Store, name: Seq<u8>, value: RefValueView, deref: bool) -> Result<
    Store,
    Error,
> {
    match lookup_ref(refs, name, deref) {
        Ok(p) => Ok(refs.insert(p.0, ref_content(value))),
        Err(e) => Err(e),
    }
}

/// The references after `name`, or the reference at the end of its chain,
/// was removed. Removing a reference that does not exist is an `IoFailure`.
pub open spec fn remove_ref(refs: Store, name: Seq<u8>, deref: bool) -> Result<Store, Error> {
    match lookup_ref(refs, name, deref) {
        Ok(p) => if refs.contains_key(p.0) {
            Ok(refs.remove(p.0))
        } else {
            Err(Error::IoFailure)
        },
        Err(e) => Err(e),
    }
}

/// Those of the first `n` keys that begin with `refs/`, in order.
pub open spec fn names_under_refs(keys: Seq<Seq<u8>>, n: nat) -> Seq<Seq<u8>>
    decreases n,
{
    if n == 0 {
        Seq::empty()
    } else {
        let rest = names_under_refs(keys, (n - 1) as nat);
        if refs_dir().is_prefix_of(keys[n - 1]) {
            rest.push(keys[n - 1])
        } else {
            rest
        }
    }
}

/// The names that a listing looks at: the keys below `refs/` in their
/// order, then `HEAD`, then `MERGE_HEAD`.
pub open spec fn listed_names(keys: Seq<Seq<u8>>) -> Seq<Seq<u8>> {
    names_under_refs(keys, keys.len()).push(head_name()).push(merge_head_name())
}

/// The listing of the first `n` of `names`: each name that begins with
/// `prefix` and has a value, with that value. The first name whose chain of
/// symbolic references returns to itself makes the listing fail.
pub open spec fn list_refs(
    refs: Store,
    names: Seq<Seq<u8>>,
    n: nat,
    prefix: Option<Seq<u8>>,
    deref: bool,
) -> Result<Seq<(Seq<u8>, RefValueView)>, Error>
    decreases n,
{
    if n == 0 {
        Ok(Seq::empty())
    } else {
        match list_refs(refs, names, (n - 1) as nat, prefix, deref) {
            Err(e) => Err(e),
            Ok(rest) => {
                let name = names[n - 1];
                if prefix is Some && !prefix->0.is_prefix_of(name) {
                    Ok(rest)
                } else {
                    match ref_value(refs, name, deref) {
                        Err(e) => Err(e),
                        Ok(v) => if v.value is Some {
                            Ok(rest.push((name, v)))
                        } else {
                            Ok(rest)
                        },
                    }
                }
            },
        }
    }
}

/// A listing that failed on its first `n` names fails in the same way on
/// more of them.
pub proof fn lemma_list_refs_err(
    refs: Store,
    names: Seq<Seq<u8>>,
    n: nat,
    m: nat,
    prefix: Option<Seq<u8>>,
    deref: bool,
)
    requires
        n <= m,
        list_refs(refs, names, n, prefix, deref) is Err,
    ensures
        list_refs(refs, names, m, prefix, deref) == list_refs(refs, names, n, prefix, deref),
    decreases m,
{
    if n < m {
        lemma_list_refs_err(refs, names, n, (m - 1) as nat, prefix, deref);
    }
}

/// What [`get_refs`] returns for a repository with these references, keyed
/// in this order.
pub open spec fn all_refs(refs: Store, keys: Seq<Seq<u8>>, prefix: Option<Seq<u8>>, deref: bool)
    -> Result<Seq<(Seq<u8>, RefValueView)>, Error> {
    list_refs(refs, listed_names(keys), listed_names(keys).len(), prefix, deref)
}

/// The named values that a list holds.
pub open spec fn named_views(v: Seq<(Vec<u8>, RefValue)>) -> Seq<(Seq<u8>, RefValueView)> {
    Seq::new(v.len(), |i: int| (v[i].0@, v[i].1@))
}

/// The prefix `ref: `.
pub fn symbolic_prefix_bytes() -> (r: Vec<u8>)
    ensures
        r@ == symbolic_prefix(),
        r@.len() == 5,
{
    proof {
        reveal_strlit("ref: ");
    }
    lit("ref: ")
}

/// The name `HEAD`.
pub fn head() -> (r: Vec<u8>)
    ensures
        r@ == head_name(),
{
    proof {
        reveal_strlit("HEAD");
    }
    lit("HEAD")
}

/// The name `MERGE_HEAD`.
pub fn merge_head() -> (r: Vec<u8>)
    ensures
        r@ == merge_head_name(),
{
    proof {
        reveal_strlit("MERGE_HEAD");
    }
    lit("MERGE_HEAD")
}

/// Looks the reference up and returns the name under which its value was
/// found together with the value. With `deref`, symbolic references are
/// followed to the end of their chain; a chain that returns to itself fails
/// with `RefCycle`. A reference that does not exist has no value.
pub fn get_ref_internal(repo: &Repository, reference: &[u8], deref: bool) -> (r: Result<
    (Vec<u8>, RefValue),
    Error,
>)
    requires
        repo.wf(),
    ensures
        match r {
            Ok(p) => lookup_ref(repo.refs@, reference@, deref) == Ok::<_, Error>((p.0@, p.1@)),
            Err(e) => lookup_ref(repo.refs@, reference@, deref) == Err::<
                (Seq<u8>, RefValueView),
                _,
            >(e),
        },
{
    let prefix = symbolic_prefix_bytes();
    let mut name = copy(reference);
    let mut depth = repo.refs.len();
    proof {
        repo.refs.lemma_wf();
    }
    loop
        invariant
            repo.wf(),
            prefix@ == symbolic_prefix(),
            prefix@.len() == 5,
            lookup_ref(repo.refs@, reference@, deref) == resolve_ref(
                repo.refs@,
                name@,
                deref,
                depth as nat,
            ),
        decreases depth,
    {
        match repo.refs.get(name.as_slice()) {
            None => {
                return Ok((name, RefValue { symbolic: false, value: None }));
            },
            Some(content) => {
                if !starts_with(content.as_slice(), prefix.as_slice()) {
                    return Ok((name, RefValue { symbolic: false, value: Some(content) }));
                }
                let target = slice(content.as_slice(), 5, content.len());
                assert(target@ =~= symbolic_target(content@));
                if !deref {
                    return Ok((name, RefValue { symbolic: true, value: Some(target) }));
                }
                if depth == 0 {
                    return Err(Error::RefCycle);
                }
                name = target;
                depth -= 1;
            },
        }
    }
}

/// The value of the reference, as [`get_ref_internal`] finds it.
pub fn get_ref(repo: &Repository, reference: &[u8], deref: bool) -> (r: Result<RefValue, Error>)
    requires
        repo.wf(),
    ensures
        match r {
            Ok(v) => ref_value(repo.refs@, reference@, deref) == Ok::<_, Error>(v@),
            Err(e) => ref_value(repo.refs@, reference@, deref) == Err::<RefValueView, _>(e),
        },
{
    match get_ref_internal(repo, reference, deref) {
        Ok(p) => Ok(p.1),
        Err(e) => Err(e),
    }
}

/// Writes `value` to the reference. With `deref`, the write goes to the
/// reference at the end of the chain of symbolic references that starts at
/// `reference`, so that a symbolic `HEAD` moves its branch. A reference
/// that is new goes to the end of the list of keys. Fails with `RefCycle`,
/// leaving the repository as it was, where that chain returns to itself.
pub fn update_ref(repo: &mut Repository, reference: &[u8], value: &RefValue, deref: bool) -> (r:
    Result<(), Error>)
    requires
        old(repo).wf(),
        value.value is Some,
    ensures
        final(repo).wf(),
        final(repo).objects == old(repo).objects,
        match r {
            Ok(_) => write_ref(old(repo).refs@, reference@, value@, deref) == Ok::<_, Error>(
                final(repo).refs@,
            ) && final(repo).refs.keys() == add_unique(
                old(repo).refs.keys(),
                lookup_ref(old(repo).refs@, reference@, deref)->Ok_0.0,
            ),
            Err(e) => write_ref(old(repo).refs@, reference@, value@, deref) == Err::<Store, _>(e)
                && *final(repo) == *old(repo),
        },
{
    proof {
        repo.refs.lemma_wf();
    }
    let target = match get_ref_internal(repo, reference, deref) {
        Ok(p) => p.0,
        Err(e) => {
            return Err(e);
        },
    };
    let content = match &value.value {
        Some(v) => {
            if value.symbolic {
                let prefix = symbolic_prefix_bytes();
                join_bytes(prefix.as_slice(), v.as_slice())
            } else {
                copy(v.as_slice())
            }
        },
        None => Vec::new(),
    };
    repo.refs.insert(target, content);
    Ok(())
}

/// Removes the reference, or with `deref` the one at the end of its chain.
/// Fails with `RefCycle` where the chain returns to itself and with
/// `IoFailure` where there is no such reference; the repository then stays
/// as it was.
pub fn delete_ref(repo: &mut Repository, reference: &[u8], deref: bool) -> (r: Result<(), Error>)
    requires
        old(repo).wf(),
    ensures
        final(repo).wf(),
        final(repo).objects == old(repo).objects,
        match r {
            Ok(_) => remove_ref(old(repo).refs@, reference@, deref) == Ok::<_, Error>(
                final(repo).refs@,
            ) && final(repo).refs.keys() == old(repo).refs.keys().remove(
                old(repo).refs.keys().index_of(
                    lookup_ref(old(repo).refs@, reference@, deref)->Ok_0.0,
                ),
            ),
            Err(e) => remove_ref(old(repo).refs@, reference@, deref) == Err::<Store, _>(e)
                && *final(repo) == *old(repo),
        },
{
    let target = match get_ref_internal(repo, reference, deref) {
        Ok(p) => p.0,
        Err(e) => {
            return Err(e);
        },
    };
    if !repo.refs.contains_key(target.as_slice()) {
        return Err(Error::IoFailure);
    }
    repo.refs.remove(target.as_slice());
    Ok(())
}

/// The names of the references below `refs/`, in the order in which the
/// repository keeps them.
pub fn find_ref_names(repo: &Repository) -> (names: Vec<Vec<u8>>)
    ensures
        crate::bytes::views(names@) == names_under_refs(
            repo.refs.keys(),
            repo.refs.keys().len(),
        ),
{
    proof {
        reveal_strlit("refs/");
    }
    let dir = lit("refs/");
    let mut names: Vec<Vec<u8>> = Vec::new();
    let mut i: usize = 0;
    while i < repo.refs.len()
        invariant
            i <= repo.refs.keys().len(),
            dir@ == refs_dir(),
            crate::bytes::views(names@) == names_under_refs(repo.refs.keys(), i as nat),
        decreases repo.refs.keys().len() - i,
    {
        let key = repo.refs.key(i);
        if starts_with(key.as_slice(), dir.as_slice()) {
            names.push(copy(key.as_slice()));
            assert(crate::bytes::views(names@) =~= names_under_refs(
                repo.refs.keys(),
                i as nat,
            ).push(key@));
        }
        i += 1;
    }
    names
}

/// Lists the references below `refs/`, then `HEAD` and `MERGE_HEAD`: each
/// one whose name begins with `prefix`, where one is given, and that has a
/// value, with that value. Fails with `RefCycle` at the first listed name
/// whose chain of symbolic references returns to itself.
pub fn get_refs(repo: &Repository, prefix: Option<&[u8]>, deref: bool) -> (r: Result<
    Vec<(Vec<u8>, RefValue)>,
    Error,
>)
    requires
        repo.wf(),
    ensures
        match r {
            Ok(v) => all_refs(
                repo.refs@,
                repo.refs.keys(),
                match prefix {
                    Some(p) => Some(p@),
                    None => None,
                },
                deref,
            ) == Ok::<_, Error>(named_views(v@)),
            Err(e) => all_refs(
                repo.refs@,
                repo.refs.keys(),
                match prefix {
                    Some(p) => Some(p@),
                    None => None,
                },
                deref,
            ) == Err::<Seq<(Seq<u8>, RefValueView)>, _>(e),
        },
{
    let mut names = find_ref_names(repo);
    names.push(head());
    names.push(merge_head());
    let ghost all = crate::bytes::views(names@);
    let ghost pre: Option<Seq<u8>> = match prefix {
        Some(p) => Some(p@),
        None => None,
    };
    assert(all =~= listed_names(repo.refs.keys()));
    let mut out: Vec<(Vec<u8>, RefValue)> = Vec::new();
    let mut i: usize = 0;
    assert(named_views(out@) =~= Seq::empty());
    while i < names.len()
        invariant
            repo.wf(),
            i <= names.len(),
            all == crate::bytes::views(names@),
            all == listed_names(repo.refs.keys()),
            pre == match prefix {
                Some(p) => Some(p@),
                None => None,
            },
            list_refs(repo.refs@, all, i as nat, pre, deref) == Ok::<_, Error>(
                named_views(out@),
            ),
        decreases names.len() - i,
    {
        let name = &names[i];
        assert(all[i as int] == name@);
        let skip = match prefix {
            Some(p) => !starts_with(name.as_slice(), p),
            None => false,
        };
        if !skip {
            match get_ref(repo, name.as_slice(), deref) {
                Err(e) => {
                    proof {
                        assert(list_refs(repo.refs@, all, (i + 1) as nat, pre, deref) == Err::<
                            Seq<(Seq<u8>, RefValueView)>,
                            _,
                        >(e));
                        lemma_list_refs_err(
                            repo.refs@,
                            all,
                            (i + 1) as nat,
                            all.len(),
                            pre,
                            deref,
                        );
                    }
                    return Err(e);
                },
                Ok(v) => {
                    if v.value.is_some() {
                        let ghost before = named_views(out@);
                        out.push((copy(name.as_slice()), v));
                        assert(named_views(out@) =~= before.push((name@, v@)));
                    }
                },
            }
        }
        i += 1;
    }
    Ok(out)
}

/// A reference value that is an object identifier.
pub open spec fn direct(oid: Seq<u8>) -> RefValueView {
    RefValueView { symbolic: false, value: Some(oid) }
}

/// A reference value that names another reference.
pub open spec fn symbolic(name: Seq<u8>) -> RefValueView {
    RefValueView { symbolic: true, value: Some(name) }
}

/// A reference value that holds the identifier `oid`.
pub fn direct_value(oid: &[u8]) -> (r: RefValue)
    ensures
        r@ == direct(oid@),
{
    RefValue { symbolic: false, value: Some(copy(oid)) }
}

/// A reference value that names the reference `name`.
pub fn symbolic_value(name: &[u8]) -> (r: RefValue)
    ensures
        r@ == symbolic(name@),
{
    RefValue { symbolic: true, value: Some(copy(name)) }
}

/// Without following symbolic references a lookup cannot fail, and its
/// value is found under the name itself.
pub proof fn lemma_lookup_shallow(refs: Store, name: Seq<u8>, depth: nat)
    ensures
        resolve_ref(refs, name, false, depth) is Ok,
        resolve_ref(refs, name, false, depth)->Ok_0.0 == name,
        resolve_ref(refs, name, false, depth)->Ok_0.1.value is Some <==> refs.contains_key(name),
{
}

/// Every name in a listing with a prefix begins with that prefix.
pub proof fn lemma_listed_prefix(
    refs: Store,
    names: Seq<Seq<u8>>,
    n: nat,
    prefix: Seq<u8>,
    deref: bool,
)
    requires
        list_refs(refs, names, n, Some(prefix), deref) is Ok,
    ensures
        forall|i: int|
            0 <= i < list_refs(refs, names, n, Some(prefix), deref)->Ok_0.len()
                ==> prefix.is_prefix_of(
                (#[trigger] list_refs(refs, names, n, Some(prefix), deref)->Ok_0[i]).0,
            ),
    decreases n,
{
    if n > 0 {
        lemma_listed_prefix(refs, names, (n - 1) as nat, prefix, deref);
    }
}

// ---------------------------------------------------------------------
// What holds of the object store
// ---------------------------------------------------------------------

/// Content addressing: the identifier of an object depends on its type
/// and payload alone, so equal payloads of one type are stored under one
/// identifier, whatever the store holds.
pub proof fn lemma_content_addressing(
    first: Store,
    second: Store,
    tag: Seq<u8>,
    a: Seq<u8>,
    b: Seq<u8>,
)
    requires
        a == b,
    ensures
        object_id(tag, a) == object_id(tag, b),
        put_object(first, tag, a).contains_key(object_id(tag, a)),
        put_object(second, tag, b).contains_key(object_id(tag, a)),
{
}

/// The stored form of an object with a type tag that holds no zero byte
/// splits into that tag and the payload.
pub proof fn lemma_encode_splits(tag: Seq<u8>, payload: Seq<u8>)
    requires
        !tag.contains(0u8),
    ensures
        has_separator(encode_object(tag, payload)),
        object_tag(encode_object(tag, payload)) == tag,
        object_payload(encode_object(tag, payload)) == payload,
{
    let raw = encode_object(tag, payload);
    assert forall|j: int| 0 <= j < tag.len() implies raw[j] != 0u8 by {
        assert(raw[j] == tag[j]);
        assert(tag.contains(tag[j]));
    }
    assert(raw[tag.len() as int] == 0u8);
    lemma_find_from_is(raw, 0u8, 0, tag.len() as int);
    assert(raw.subrange(0, tag.len() as int) =~= tag);
    assert(raw.subrange(tag.len() as int + 1, raw.len() as int) =~= payload);
}

/// Round trip: what was put into the store is what is got from it under
/// the identifier that putting returned, with its type. This holds for a
/// type tag without a zero byte, and unless the store held other bytes
/// under that identifier before, which putting leaves in place.
pub proof fn lemma_put_then_get(objects: Store, tag: Seq<u8>, payload: Seq<u8>)
    requires
        !tag.contains(0u8),
        objects.contains_key(object_id(tag, payload)) ==> objects[object_id(tag, payload)]
            == encode_object(tag, payload),
    ensures
        read_object(put_object(objects, tag, payload), object_id(tag, payload), Some(tag)) == Ok::<
            _,
            Error,
        >((tag, payload)),
        read_object(put_object(objects, tag, payload), object_id(tag, payload), None) == Ok::<
            _,
            Error,
        >((tag, payload)),
{
    lemma_encode_splits(tag, payload);
}

/// Putting is idempotent: putting an object a second time changes
/// nothing, so that the store holds it once. The first time adds at most
/// the one identifier.
pub proof fn lemma_put_twice(objects: Store, tag: Seq<u8>, payload: Seq<u8>)
    ensures
        put_object(put_object(objects, tag, payload), tag, payload) == put_object(
            objects,
            tag,
            payload,
        ),
        put_object(objects, tag, payload).dom() == objects.dom().insert(object_id(tag, payload)),
        objects.dom().finite() ==> put_object(objects, tag, payload).dom().len() == objects.dom().len()
            + if objects.contains_key(object_id(tag, payload)) {
            0nat
        } else {
            1nat
        },
{
    assert(put_object(objects, tag, payload).dom() =~= objects.dom().insert(
        object_id(tag, payload),
    ));
}

/// Different identifiers, different objects: where two payloads of one
/// type have different identifiers, the store holds both after they were
/// put, each under its own identifier, and each is read back as it was
/// put. That different payloads have different identifiers is a property
/// of the digest, which is taken as given here. As for one object, the tag
/// must hold no zero byte and the store no other bytes under either
/// identifier.
pub proof fn lemma_put_two(objects: Store, tag: Seq<u8>, a: Seq<u8>, b: Seq<u8>)
    requires
        !tag.contains(0u8),
        object_id(tag, a) != object_id(tag, b),
        objects.contains_key(object_id(tag, a)) ==> objects[object_id(tag, a)] == encode_object(
            tag,
            a,
        ),
        objects.contains_key(object_id(tag, b)) ==> objects[object_id(tag, b)] == encode_object(
            tag,
            b,
        ),
    ensures
        a != b,
        put_object(put_object(objects, tag, a), tag, b).dom() == objects.dom().insert(
            object_id(tag, a),
        ).insert(object_id(tag, b)),
        read_object(
            put_object(put_object(objects, tag, a), tag, b),
            object_id(tag, a),
            Some(tag),
        ) == Ok::<_, Error>((tag, a)),
        read_object(
            put_object(put_object(objects, tag, a), tag, b),
            object_id(tag, b),
            Some(tag),
        ) == Ok::<_, Error>((tag, b)),
{
    let first = put_object(objects, tag, a);
    let both = put_object(first, tag, b);
    lemma_encode_splits(tag, a);
    lemma_encode_splits(tag, b);
    assert(both.dom() =~= objects.dom().insert(object_id(tag, a)).insert(object_id(tag, b)));
}

/// Putting an object leaves every other object as it was.
pub proof fn lemma_put_keeps(objects: Store, tag: Seq<u8>, payload: Seq<u8>, oid: Seq<u8>)
    requires
        objects.contains_key(oid),
    ensures
        put_object(objects, tag, payload).contains_key(oid),
        put_object(objects, tag, payload)[oid] == objects[oid],
{
}

// ---------------------------------------------------------------------
// What holds of references
// ---------------------------------------------------------------------

/// What following symbolic references finds is no symbolic reference: its
/// value, if it has one, is the content of the reference at the end of the
/// chain, and that reference is there and not symbolic. Where it has no
/// value, the chain ends at a name that is no reference.
pub proof fn lemma_resolved(refs: Store, name: Seq<u8>, depth: nat)
    requires
        resolve_ref(refs, name, true, depth) is Ok,
    ensures
        !resolve_ref(refs, name, true, depth)->Ok_0.1.symbolic,
        resolve_ref(refs, name, true, depth)->Ok_0.1.value is Some ==> {
            let found = resolve_ref(refs, name, true, depth)->Ok_0;
            refs.contains_key(found.0) && refs[found.0] == found.1.value->0 && !is_symbolic(
                found.1.value->0,
            )
        },
        resolve_ref(refs, name, true, depth)->Ok_0.1.value is None ==> !refs.contains_key(
            resolve_ref(refs, name, true, depth)->Ok_0.0,
        ),
    decreases depth,
{
    if refs.contains_key(name) && is_symbolic(refs[name]) && depth > 0 {
        lemma_resolved(refs, symbolic_target(refs[name]), (depth - 1) as nat);
    }
}

/// A chain of symbolic references that was followed to its end with some
/// number of steps is followed to the same end with more.
pub proof fn lemma_resolve_deeper(refs: Store, name: Seq<u8>, depth: nat, more: nat)
    requires
        resolve_ref(refs, name, true, depth) is Ok,
        depth <= more,
    ensures
        resolve_ref(refs, name, true, more) == resolve_ref(refs, name, true, depth),
    decreases depth,
{
    if refs.contains_key(name) && is_symbolic(refs[name]) {
        lemma_resolve_deeper(
            refs,
            symbolic_target(refs[name]),
            (depth - 1) as nat,
            (more - 1) as nat,
        );
    }
}

/// Writing a content that is not symbolic to a name that is no symbolic
/// reference leaves every chain of symbolic references with the end that
/// it had.
pub proof fn lemma_resolve_after_write(
    refs: Store,
    target: Seq<u8>,
    content: Seq<u8>,
    name: Seq<u8>,
    depth: nat,
)
    requires
        !refs.contains_key(target) || !is_symbolic(refs[target]),
        !is_symbolic(content),
        resolve_ref(refs, name, true, depth) is Ok,
    ensures
        resolve_ref(refs.insert(target, content), name, true, depth) is Ok,
        resolve_ref(refs.insert(target, content), name, true, depth)->Ok_0.0 == resolve_ref(
            refs,
            name,
            true,
            depth,
        )->Ok_0.0,
    decreases depth,
{
    if refs.contains_key(name) && is_symbolic(refs[name]) {
        lemma_resolve_after_write(
            refs,
            target,
            content,
            symbolic_target(refs[name]),
            (depth - 1) as nat,
        );
    }
}

/// A write that follows symbolic references and writes a content that is
/// not symbolic leaves every lookup that went well with the name under
/// which it found its value.
pub proof fn lemma_lookup_after_write(
    refs: Store,
    written: Seq<u8>,
    content: Seq<u8>,
    name: Seq<u8>,
)
    requires
        refs.dom().finite(),
        lookup_ref(refs, written, true) is Ok,
        !is_symbolic(content),
        lookup_ref(refs, name, true) is Ok,
    ensures
        lookup_ref(refs.insert(lookup_ref(refs, written, true)->Ok_0.0, content), name, true)
            is Ok,
        lookup_ref(
            refs.insert(lookup_ref(refs, written, true)->Ok_0.0, content),
            name,
            true,
        )->Ok_0.0 == lookup_ref(refs, name, true)->Ok_0.0,
{
    let target = lookup_ref(refs, written, true)->Ok_0.0;
    let after = refs.insert(target, content);
    lemma_resolved(refs, written, refs.dom().len());
    lemma_resolve_after_write(refs, target, content, name, refs.dom().len());
    assert(after.dom() =~= refs.dom().insert(target));
    lemma_resolve_deeper(after, name, refs.dom().len(), after.dom().len());
}

/// Every value in a listing that follows symbolic references is there and
/// is not symbolic.
pub proof fn lemma_listed_direct(
    refs: Store,
    names: Seq<Seq<u8>>,
    n: nat,
    prefix: Option<Seq<u8>>,
)
    requires
        list_refs(refs, names, n, prefix, true) is Ok,
    ensures
        forall|i: int|
            0 <= i < list_refs(refs, names, n, prefix, true)->Ok_0.len() ==> {
                let value = (#[trigger] list_refs(refs, names, n, prefix, true)->Ok_0[i]).1.value;
                value is Some && !is_symbolic(value->0)
            },
    decreases n,
{
    if n > 0 {
        lemma_listed_direct(refs, names, (n - 1) as nat, prefix);
        let name = names[n - 1];
        if !(prefix is Some && !prefix->0.is_prefix_of(name)) {
            if ref_value(refs, name, true) is Ok {
                lemma_resolved(refs, name, refs.dom().len());
            }
        }
    }
}

/// The name that is reached from `name` by following `k` symbolic
/// references.
pub open spec fn chain_name(refs: Store, name: Seq<u8>, k: nat) -> Seq<u8>
    decreases k,
{
    if k == 0 {
        name
    } else {
        symbolic_target(refs[chain_name(refs, name, (k - 1) as nat)])
    }
}

/// Following `k` symbolic references from the target of a symbolic
/// reference is following one more from the reference.
pub proof fn lemma_chain_shift(refs: Store, name: Seq<u8>, k: nat)
    ensures
        chain_name(refs, symbolic_target(refs[name]), k) == chain_name(refs, name, k + 1),
    decreases k,
{
    if k > 0 {
        lemma_chain_shift(refs, name, (k - 1) as nat);
    } else {
        assert(chain_name(refs, name, 0) == name);
        assert(chain_name(refs, name, 1) == symbolic_target(refs[chain_name(refs, name, 0)]));
    }
}

/// A lookup that fails after `depth` steps has followed symbolic
/// references only, and the next name is one too.
pub proof fn lemma_failed_chain(refs: Store, name: Seq<u8>, depth: nat, k: nat)
    requires
        resolve_ref(refs, name, true, depth) is Err,
        k <= depth,
    ensures
        resolve_ref(refs, name, true, depth) == Err::<(Seq<u8>, RefValueView), _>(Error::RefCycle),
        refs.contains_key(chain_name(refs, name, k)),
        is_symbolic(refs[chain_name(refs, name, k)]),
    decreases depth,
{
    if depth > 0 {
        let next = symbolic_target(refs[name]);
        if k > 0 {
            lemma_failed_chain(refs, next, (depth - 1) as nat, (k - 1) as nat);
            lemma_chain_shift(refs, name, (k - 1) as nat);
        } else {
            lemma_failed_chain(refs, next, (depth - 1) as nat, 0);
        }
    }
}

/// `RefCycle` means a cycle: where a lookup fails, the chain of symbolic
/// references from the name comes to one name twice.
pub proof fn lemma_ref_cycle(refs: Store, name: Seq<u8>)
    requires
        refs.dom().finite(),
        lookup_ref(refs, name, true) is Err,
    ensures
        lookup_ref(refs, name, true) == Err::<(Seq<u8>, RefValueView), _>(Error::RefCycle),
        exists|i: nat, j: nat|
            i < j <= refs.dom().len() && #[trigger] chain_name(refs, name, i) == #[trigger] chain_name(
                refs,
                name,
                j,
            ),
{
    let n = refs.dom().len();
    lemma_failed_chain(refs, name, n, 0);
    let names = Seq::new(n + 1, |i: int| chain_name(refs, name, i as nat));
    if names.no_duplicates() {
        names.unique_seq_to_set();
        assert forall|x: Seq<u8>| names.to_set().contains(x) implies refs.dom().contains(x) by {
            let i = names.index_of(x);
            lemma_failed_chain(refs, name, n, i as nat);
        }
        vstd::set_lib::lemma_len_subset(names.to_set(), refs.dom());
        assert(names.len() <= n);
    } else {
        let (i, j) = choose|i: int, j: int|
            0 <= i < names.len() && 0 <= j < names.len() && i != j && names[i] == names[j];
        let (low, high): (nat, nat) = if i < j {
            (i as nat, j as nat)
        } else {
            (j as nat, i as nat)
        };
        assert(names[low as int] == names[high as int]);
        assert(low < high <= n && chain_name(refs, name, low) == chain_name(refs, name, high));
    }
}

} // verus!
