//! Exchanging objects and references between two repositories.

use crate::base::{heads_dir, heads_prefix};
use crate::bytes::{ascii, join_bytes, copy, list_contains, lit, slice, views, pair_views};
use crate::data::{
    all_refs, copy_object, direct, direct_value, fetch_object, fetch_object_if_missing, get_ref,
    get_refs, is_symbolic, lemma_listed_direct, lemma_listed_prefix, lemma_lookup_after_write,
    lemma_resolved, listed_names, lookup_ref, named_views, object_exists, push_object, ref_value,
    update_ref, write_ref, RefValueView, Repository, Store,
};
use crate::error::Error;
use crate::graph::{get_objects_in_commits, reachable_objects};
use vstd::prelude::*;

verus! {

// ---------------------------------------------------------------------
// References of the other repository
// ---------------------------------------------------------------------

/// The prefix of the names under which the branches of a remote repository
/// are kept.
pub open spec fn remote_dir() -> Seq<u8> {
    ascii("refs/remote/"@)
}

/// The entries of a listing as names with their values.
pub open spec fn name_values(listing: Seq<(Seq<u8>, RefValueView)>) -> Seq<(Seq<u8>, Seq<u8>)> {
    Seq::new(listing.len(), |i: int| (listing[i].0, listing[i].1.value->0))
}

/// The references of a repository whose names begin with `prefix`, each
/// with the value that it has once symbolic references are followed.
pub open spec fn remote_refs(refs: Store, keys: Seq<Seq<u8>>, prefix: Option<Seq<u8>>) -> Result<
    Seq<(Seq<u8>, Seq<u8>)>,
    Error,
> {
    match all_refs(refs, keys, prefix, true) {
        Ok(listing) => Ok(name_values(listing)),
        Err(e) => Err(e),
    }
}

/// Every listed reference has a value.
pub proof fn lemma_listed_values(
    refs: Store,
    names: Seq<Seq<u8>>,
    n: nat,
    prefix: Option<Seq<u8>>,
    deref: bool,
)
    requires
        crate::data::list_refs(refs, names, n, prefix, deref) is Ok,
    ensures
        forall|i: int|
            0 <= i < crate::data::list_refs(refs, names, n, prefix, deref)->Ok_0.len() ==> (
            #[trigger] crate::data::list_refs(refs, names, n, prefix, deref)->Ok_0[i]).1.value
                is Some,
    decreases n,
{
    if n > 0 {
        lemma_listed_values(refs, names, (n - 1) as nat, prefix, deref);
    }
}

/// Lists the references of `remote` whose names begin with `prefix`, each
/// with the value that it has once symbolic references are followed, in
/// the order of [`get_refs`]. Fails with `RefCycle` where a chain of
/// symbolic references returns to itself.
pub fn get_remote_refs(remote: &Repository, prefix: Option<&[u8]>) -> (r: Result<
    Vec<(Vec<u8>, Vec<u8>)>,
    Error,
>)
    requires
        remote.wf(),
    ensures
        match r {
            Ok(v) => remote_refs(
                remote.refs@,
                remote.refs.keys(),
                match prefix {
                    Some(p) => Some(p@),
                    None => None,
                },
            ) == Ok::<_, Error>(pair_views(v@)),
            Err(e) => remote_refs(
                remote.refs@,
                remote.refs.keys(),
                match prefix {
                    Some(p) => Some(p@),
                    None => None,
                },
            ) == Err::<Seq<(Seq<u8>, Seq<u8>)>, _>(e),
        },
{
    let listing = match get_refs(remote, prefix, true) {
        Ok(listing) => listing,
        Err(e) => {
            return Err(e);
        },
    };
    let ghost list = named_views(listing@);
    proof {
        let names = listed_names(remote.refs.keys());
        lemma_listed_values(
            remote.refs@,
            names,
            names.len(),
            match prefix {
                Some(p) => Some(p@),
                None => None,
            },
            true,
        );
    }
    let mut out: Vec<(Vec<u8>, Vec<u8>)> = Vec::new();
    let mut i: usize = 0;
    assert(pair_views(out@) =~= name_values(list).take(0));
    while i < listing.len()
        invariant
            i <= listing.len(),
            list == named_views(listing@),
            forall|j: int| 0 <= j < list.len() ==> (#[trigger] list[j]).1.value is Some,
            out@.len() == i,
            pair_views(out@) == name_values(list).take(i as int),
        decreases listing.len() - i,
    {
        let ghost before = pair_views(out@);
        assert(list[i as int] == (listing@[i as int].0@, listing@[i as int].1@));
        assert(list[i as int].1.value is Some);
        match &listing[i].1.value {
            Some(value) => {
                out.push((copy(listing[i].0.as_slice()), copy(value.as_slice())));
                assert(pair_views(out@) =~= before.push((listing@[i as int].0@, value@)));
            },
            None => {},
        }
        assert(pair_views(out@) =~= name_values(list).take(i + 1));
        i += 1;
    }
    assert(name_values(list).take(list.len() as int) =~= name_values(list));
    Ok(out)
}

/// The second parts of pairs.
pub open spec fn seconds(pairs: Seq<(Seq<u8>, Seq<u8>)>) -> Seq<Seq<u8>> {
    Seq::new(pairs.len(), |i: int| pairs[i].1)
}

/// The values of a list of named values.
fn values_of(pairs: &Vec<(Vec<u8>, Vec<u8>)>) -> (r: Vec<Vec<u8>>)
    ensures
        views(r@) == seconds(pair_views(pairs@)),
{
    let mut out: Vec<Vec<u8>> = Vec::new();
    let mut i: usize = 0;
    assert(views(out@) =~= seconds(pair_views(pairs@)).take(0));
    while i < pairs.len()
        invariant
            i <= pairs.len(),
            views(out@) == seconds(pair_views(pairs@)).take(i as int),
        decreases pairs.len() - i,
    {
        let ghost before = views(out@);
        out.push(copy(pairs[i].1.as_slice()));
        assert(views(out@) =~= before.push(pairs@[i as int].1@));
        assert(views(out@) =~= seconds(pair_views(pairs@)).take(i + 1));
        i += 1;
    }
    assert(seconds(pair_views(pairs@)).take(pairs@.len() as int) =~= seconds(pair_views(pairs@)));
    out
}

// ---------------------------------------------------------------------
// Fetching
// ---------------------------------------------------------------------

/// The store `local` after the first `n` of `oids` were fetched from
/// `remote` one after the other, and whether that went well. The first
/// object that neither store holds stops the transfer with
/// `ObjectNotFound`; what was copied before stays.
pub open spec fn fetched(local: Store, remote: Store, oids: Seq<Seq<u8>>, n: nat) -> (Store, Result<
    (),
    Error,
>)
    decreases n,
{
    if n == 0 {
        (local, Ok(()))
    } else {
        let (store, so_far) = fetched(local, remote, oids, (n - 1) as nat);
        match so_far {
            Err(e) => (store, Err(e)),
            Ok(_) => match fetch_object(store, remote, oids[n - 1]) {
                Ok(next) => (next, Ok(())),
                Err(e) => (store, Err(e)),
            },
        }
    }
}

/// A transfer that failed on its first `n` objects is the same for more.
pub proof fn lemma_fetched_err(local: Store, remote: Store, oids: Seq<Seq<u8>>, n: nat, m: nat)
    requires
        n <= m,
        fetched(local, remote, oids, n).1 is Err,
    ensures
        fetched(local, remote, oids, m) == fetched(local, remote, oids, n),
    decreases m,
{
    if n < m {
        lemma_fetched_err(local, remote, oids, n, (m - 1) as nat);
    }
}

/// The name under which the remote branch `name` is kept locally: what
/// follows `refs/heads/` in it, behind `refs/remote/`.
pub open spec fn tracking_name(name: Seq<u8>) -> Seq<u8> {
    remote_dir() + name.skip(heads_dir().len() as int)
}

/// The references after the first `n` remote branches were recorded under
/// their tracking names, and whether that went well. A local chain of
/// symbolic references that returns to itself stops the updates with
/// `RefCycle`; what was written before stays.
pub open spec fn recorded(refs: Store, branches: Seq<(Seq<u8>, Seq<u8>)>, n: nat) -> (Store, Result<
    (),
    Error,
>)
    decreases n,
{
    if n == 0 {
        (refs, Ok(()))
    } else {
        let (store, so_far) = recorded(refs, branches, (n - 1) as nat);
        match so_far {
            Err(e) => (store, Err(e)),
            Ok(_) => match write_ref(
                store,
                tracking_name(branches[n - 1].0),
                direct(branches[n - 1].1),
                true,
            ) {
                Ok(next) => (next, Ok(())),
                Err(e) => (store, Err(e)),
            },
        }
    }
}

/// Updates that failed on the first `n` branches are the same for more.
pub proof fn lemma_recorded_err(refs: Store, branches: Seq<(Seq<u8>, Seq<u8>)>, n: nat, m: nat)
    requires
        n <= m,
        recorded(refs, branches, n).1 is Err,
    ensures
        recorded(refs, branches, m) == recorded(refs, branches, n),
    decreases m,
{
    if n < m {
        lemma_recorded_err(refs, branches, n, (m - 1) as nat);
    }
}

/// What fetching from a remote repository does to the local objects and
/// references, and whether it goes well. The branches of the remote are
/// listed and the objects that they need are collected in the remote
/// store; a failure there changes nothing. Then the objects that the local
/// store lacks are copied, and then each branch is recorded under its
/// tracking name.
pub open spec fn fetch_result(
    objects: Store,
    refs: Store,
    remote_objects: Store,
    remote_references: Store,
    remote_keys: Seq<Seq<u8>>,
) -> (Store, Store, Result<(), Error>) {
    match remote_refs(remote_references, remote_keys, Some(heads_dir())) {
        Err(e) => (objects, refs, Err(e)),
        Ok(branches) => match reachable_objects(
            remote_objects,
            seconds(branches),
        ) {
            Err(e) => (objects, refs, Err(e)),
            Ok(oids) => {
                let (objects1, copied) = fetched(objects, remote_objects, oids, oids.len());
                match copied {
                    Err(e) => (objects1, refs, Err(e)),
                    Ok(_) => {
                        let (refs1, written) = recorded(refs, branches, branches.len());
                        (objects1, refs1, written)
                    },
                }
            },
        }
    }
}

/// Fetches from `remote`: copies every object that the branches of
/// `remote` need and that `local` lacks, byte for byte, and then records
/// each branch of `remote` under `refs/remote/` with its value. Where a
/// step fails, what was done before it stays: objects that were copied
/// are kept, and references are written only after all objects.
pub fn fetch(local: &mut Repository, remote: &Repository) -> (r: Result<(), Error>)
    requires
        old(local).wf(),
        remote.wf(),
    ensures
        final(local).wf(),
        fetch_result(
            old(local).objects@,
            old(local).refs@,
            remote.objects@,
            remote.refs@,
            remote.refs.keys(),
        ) == (final(local).objects@, final(local).refs@, r),
{
    proof {
        reveal_strlit("refs/remote/");
    }
    let prefix = heads_prefix();
    let branches = match get_remote_refs(remote, Some(prefix.as_slice())) {
        Ok(branches) => branches,
        Err(e) => {
            return Err(e);
        },
    };
    let roots = values_of(&branches);
    let oids = match get_objects_in_commits(remote, &roots) {
        Ok(oids) => oids,
        Err(e) => {
            return Err(e);
        },
    };
    let ghost start_objects = local.objects@;
    let ghost start_refs = local.refs@;
    let ghost list = views(oids@);
    let ghost named = pair_views(branches@);
    let mut i: usize = 0;
    while i < oids.len()
        invariant
            i <= oids.len(),
            local.wf(),
            remote.wf(),
            list == views(oids@),
            named == pair_views(branches@),
            start_objects == old(local).objects@,
            start_refs == old(local).refs@,
            remote_refs(remote.refs@, remote.refs.keys(), Some(heads_dir())) == Ok::<_, Error>(
                named,
            ),
            reachable_objects(remote.objects@, seconds(named)) == Ok::<_, Error>(
                list,
            ),
            local.refs@ == start_refs,
            fetched(start_objects, remote.objects@, list, i as nat) == (
                local.objects@,
                Ok::<(), Error>(()),
            ),
        decreases oids.len() - i,
    {
        assert(list[i as int] == oids@[i as int]@);
        match fetch_object_if_missing(local, remote, oids[i].as_slice()) {
            Ok(_) => {},
            Err(e) => {
                proof {
                    lemma_fetched_err(
                        start_objects,
                        remote.objects@,
                        list,
                        (i + 1) as nat,
                        list.len(),
                    );
                }
                return Err(e);
            },
        }
        i += 1;
    }
    proof {
        let names = listed_names(remote.refs.keys());
        lemma_listed_prefix(remote.refs@, names, names.len(), heads_dir(), true);
        let all = all_refs(remote.refs@, remote.refs.keys(), Some(heads_dir()), true)->Ok_0;
        assert forall|x: int| 0 <= x < named.len() implies heads_dir().is_prefix_of(
            (#[trigger] named[x]).0,
        ) by {
            assert(named[x].0 == all[x].0);
        }
    }
    let base = lit("refs/remote/");
    let mut j: usize = 0;
    while j < branches.len()
        invariant
            j <= branches.len(),
            local.wf(),
            named == pair_views(branches@),
            list == views(oids@),
            base@ == remote_dir(),
            heads_dir().len() == 11,
            start_objects == old(local).objects@,
            start_refs == old(local).refs@,
            forall|x: int|
                0 <= x < named.len() ==> heads_dir().is_prefix_of((#[trigger] named[x]).0),
            remote_refs(remote.refs@, remote.refs.keys(), Some(heads_dir())) == Ok::<_, Error>(
                named,
            ),
            reachable_objects(remote.objects@, seconds(named)) == Ok::<_, Error>(
                list,
            ),
            fetched(start_objects, remote.objects@, list, list.len()).1 is Ok,
            local.objects@ == fetched(start_objects, remote.objects@, list, list.len()).0,
            recorded(start_refs, named, j as nat) == (local.refs@, Ok::<(), Error>(())),
        decreases branches.len() - j,
    {
        let name = &branches[j].0;
        assert(named[j as int] == (branches@[j as int].0@, branches@[j as int].1@));
        let short = if name.len() >= 11 {
            slice(name.as_slice(), 11, name.len())
        } else {
            Vec::new()
        };
        let target = join_bytes(base.as_slice(), short.as_slice());
        let value = direct_value(branches[j].1.as_slice());
        proof {
            assert(heads_dir().is_prefix_of(named[j as int].0));
            assert(short@ =~= name@.skip(11));
        }
        match update_ref(local, target.as_slice(), &value, true) {
            Ok(_) => {},
            Err(e) => {
                proof {
                    lemma_recorded_err(start_refs, named, (j + 1) as nat, named.len());
                }
                return Err(e);
            },
        }
        j += 1;
    }
    Ok(())
}

// ---------------------------------------------------------------------
// Pushing
// ---------------------------------------------------------------------

/// Those of the first `n` of `oids` that the store holds, in order.
pub open spec fn known(objects: Store, oids: Seq<Seq<u8>>, n: nat) -> Seq<Seq<u8>>
    decreases n,
{
    if n == 0 {
        Seq::empty()
    } else if objects.contains_key(oids[n - 1]) {
        known(objects, oids, (n - 1) as nat).push(oids[n - 1])
    } else {
        known(objects, oids, (n - 1) as nat)
    }
}

/// Those of the first `n` of `list` that are not in `other`, in order.
pub open spec fn without(list: Seq<Seq<u8>>, other: Seq<Seq<u8>>, n: nat) -> Seq<Seq<u8>>
    decreases n,
{
    if n == 0 {
        Seq::empty()
    } else if other.contains(list[n - 1]) {
        without(list, other, (n - 1) as nat)
    } else {
        without(list, other, (n - 1) as nat).push(list[n - 1])
    }
}

/// The store `remote` after the first `n` of `oids` were copied to it from
/// `local` one after the other, and whether that went well. The first
/// object that `local` does not hold stops the transfer with
/// `ObjectNotFound`; what was copied before stays.
pub open spec fn pushed(remote: Store, local: Store, oids: Seq<Seq<u8>>, n: nat) -> (Store, Result<
    (),
    Error,
>)
    decreases n,
{
    if n == 0 {
        (remote, Ok(()))
    } else {
        let (store, so_far) = pushed(remote, local, oids, (n - 1) as nat);
        match so_far {
            Err(e) => (store, Err(e)),
            Ok(_) => match copy_object(store, local, oids[n - 1]) {
                Ok(next) => (next, Ok(())),
                Err(e) => (store, Err(e)),
            },
        }
    }
}

/// A transfer that failed on its first `n` objects is the same for more.
pub proof fn lemma_pushed_err(remote: Store, local: Store, oids: Seq<Seq<u8>>, n: nat, m: nat)
    requires
        n <= m,
        pushed(remote, local, oids, n).1 is Err,
    ensures
        pushed(remote, local, oids, m) == pushed(remote, local, oids, n),
    decreases m,
{
    if n < m {
        lemma_pushed_err(remote, local, oids, n, (m - 1) as nat);
    }
}

/// What pushing the reference `name` does to the objects and references
/// of the remote repository, and whether it goes well. The remote
/// references are listed and the local one is resolved; one without a
/// value is an `UnknownRevision`. The objects that the remote has are
/// taken to be those that its references need, as far as the local store
/// holds their commits; they are collected in the remote store. The
/// objects that the pushed commit needs are collected in the local store.
/// A failure up to here changes nothing. Then the objects that the remote
/// lacks are copied, and last the remote reference `name` is set to the
/// commit.
pub open spec fn push_result(
    objects: Store,
    refs: Store,
    remote_objects: Store,
    remote_references: Store,
    remote_keys: Seq<Seq<u8>>,
    name: Seq<u8>,
) -> (Store, Store, Result<(), Error>) {
    match remote_refs(remote_references, remote_keys, None) {
        Err(e) => (remote_objects, remote_references, Err(e)),
        Ok(listing) => match ref_value(refs, name, true) {
            Err(e) => (remote_objects, remote_references, Err(e)),
            Ok(value) => match value.value {
                None => (remote_objects, remote_references, Err(Error::UnknownRevision)),
                Some(oid) => {
                    let values = seconds(listing);
                    match reachable_objects(
                        remote_objects,
                        known(objects, values, values.len()),
                    ) {
                        Err(e) => (remote_objects, remote_references, Err(e)),
                        Ok(there) => match reachable_objects(objects, seq![oid]) {
                            Err(e) => (remote_objects, remote_references, Err(e)),
                            Ok(here) => {
                                let missing = without(here, there, here.len());
                                let (objects1, copied) = pushed(
                                    remote_objects,
                                    objects,
                                    missing,
                                    missing.len(),
                                );
                                match copied {
                                    Err(e) => (objects1, remote_references, Err(e)),
                                    Ok(_) => match write_ref(
                                        remote_references,
                                        name,
                                        direct(oid),
                                        true,
                                    ) {
                                        Err(e) => (objects1, remote_references, Err(e)),
                                        Ok(refs1) => (objects1, refs1, Ok(())),
                                    },
                                }
                            },
                        },
                    }
                },
            },
        }
    }
}

/// Pushes the local reference `ref_name` to `remote`: copies every object
/// that its commit needs and that the references of `remote` do not
/// already account for, and then sets the reference `ref_name` of
/// `remote` to the commit. What the references of `remote` account for is
/// read from `remote` itself, for those of them whose commit the local
/// store holds. Where a step fails, what was done before it
/// stays: objects that were copied are kept, and the reference is written
/// only after all objects.
pub fn push(local: &Repository, remote: &mut Repository, ref_name: &[u8]) -> (r: Result<
    (),
    Error,
>)
    requires
        local.wf(),
        old(remote).wf(),
    ensures
        final(remote).wf(),
        push_result(
            local.objects@,
            local.refs@,
            old(remote).objects@,
            old(remote).refs@,
            old(remote).refs.keys(),
            ref_name@,
        ) == (final(remote).objects@, final(remote).refs@, r),
{
    let listing = match get_remote_refs(remote, None) {
        Ok(listing) => listing,
        Err(e) => {
            return Err(e);
        },
    };
    let oid = match get_ref(local, ref_name, true) {
        Ok(value) => match value.value {
            Some(oid) => oid,
            None => {
                return Err(Error::UnknownRevision);
            },
        },
        Err(e) => {
            return Err(e);
        },
    };
    let values = values_of(&listing);
    let ghost all = views(values@);
    let mut roots: Vec<Vec<u8>> = Vec::new();
    let mut i: usize = 0;
    assert(views(roots@) =~= Seq::<Seq<u8>>::empty());
    while i < values.len()
        invariant
            i <= values.len(),
            all == views(values@),
            views(roots@) == known(local.objects@, all, i as nat),
        decreases values.len() - i,
    {
        let ghost before = views(roots@);
        assert(all[i as int] == values@[i as int]@);
        if object_exists(local, values[i].as_slice()) {
            roots.push(copy(values[i].as_slice()));
            assert(views(roots@) =~= before.push(values@[i as int]@));
        }
        i += 1;
    }
    let there = match get_objects_in_commits(remote, &roots) {
        Ok(there) => there,
        Err(e) => {
            return Err(e);
        },
    };
    let mut own: Vec<Vec<u8>> = Vec::new();
    own.push(copy(oid.as_slice()));
    assert(views(own@) =~= seq![oid@]);
    let here = match get_objects_in_commits(local, &own) {
        Ok(here) => here,
        Err(e) => {
            return Err(e);
        },
    };
    let mut missing: Vec<Vec<u8>> = Vec::new();
    let mut j: usize = 0;
    assert(views(missing@) =~= Seq::<Seq<u8>>::empty());
    while j < here.len()
        invariant
            j <= here.len(),
            views(missing@) == without(views(here@), views(there@), j as nat),
        decreases here.len() - j,
    {
        let ghost before = views(missing@);
        assert(views(here@)[j as int] == here@[j as int]@);
        if !list_contains(&there, here[j].as_slice()) {
            missing.push(copy(here[j].as_slice()));
            assert(views(missing@) =~= before.push(here@[j as int]@));
        }
        j += 1;
    }
    let ghost start = remote.objects@;
    let ghost list = views(missing@);
    let ghost named = pair_views(listing@);
    let mut k: usize = 0;
    while k < missing.len()
        invariant
            k <= missing.len(),
            local.wf(),
            remote.wf(),
            list == views(missing@),
            named == pair_views(listing@),
            start == old(remote).objects@,
            remote.refs == old(remote).refs,
            remote_refs(old(remote).refs@, old(remote).refs.keys(), None) == Ok::<_, Error>(
                named,
            ),
            ref_value(local.refs@, ref_name@, true) is Ok,
            ref_value(local.refs@, ref_name@, true)->Ok_0.value == Some(oid@),
            all == seconds(named),
            reachable_objects(start, known(local.objects@, all, all.len())) == Ok::<_, Error>(
                views(there@),
            ),
            reachable_objects(local.objects@, seq![oid@]) == Ok::<_, Error>(views(here@)),
            list == without(views(here@), views(there@), views(here@).len()),
            pushed(start, local.objects@, list, k as nat) == (
                remote.objects@,
                Ok::<(), Error>(()),
            ),
        decreases missing.len() - k,
    {
        assert(list[k as int] == missing@[k as int]@);
        match push_object(local, remote, missing[k].as_slice()) {
            Ok(_) => {},
            Err(e) => {
                proof {
                    lemma_pushed_err(start, local.objects@, list, (k + 1) as nat, list.len());
                }
                return Err(e);
            },
        }
        k += 1;
    }
    let value = direct_value(oid.as_slice());
    match update_ref(remote, ref_name, &value, true) {
        Ok(_) => Ok(()),
        Err(e) => Err(e),
    }
}

// ---------------------------------------------------------------------
// What holds of fetching
// ---------------------------------------------------------------------

/// A transfer that went well leaves every object that it was asked for in
/// the store, and keeps what the store held.
pub proof fn lemma_fetched_holds(local: Store, remote: Store, oids: Seq<Seq<u8>>, n: nat)
    requires
        fetched(local, remote, oids, n).1 is Ok,
    ensures
        forall|i: int|
            0 <= i < n ==> fetched(local, remote, oids, n).0.contains_key(#[trigger] oids[i]),
        forall|oid: Seq<u8>| #[trigger]
            local.contains_key(oid) ==> fetched(local, remote, oids, n).0.contains_key(oid)
                && fetched(local, remote, oids, n).0[oid] == local[oid],
    decreases n,
{
    if n > 0 {
        let m = (n - 1) as nat;
        let before = fetched(local, remote, oids, m).0;
        let after = fetched(local, remote, oids, n).0;
        assert(fetched(local, remote, oids, m).1 is Ok);
        lemma_fetched_holds(local, remote, oids, m);
        assert(fetch_object(before, remote, oids[m as int]) == Ok::<_, Error>(after));
        assert forall|oid: Seq<u8>| before.contains_key(oid) implies after.contains_key(oid)
            && after[oid] == before[oid] by {}
        assert forall|i: int| 0 <= i < n implies after.contains_key(#[trigger] oids[i]) by {
            if i < m {
                assert(before.contains_key(oids[i]));
            }
        }
        assert forall|oid: Seq<u8>| #[trigger] local.contains_key(oid) implies after.contains_key(
            oid,
        ) && after[oid] == local[oid] by {
            assert(before.contains_key(oid));
        }
    }
}

/// A store that holds the objects that it is asked to fetch stays as it is.
pub proof fn lemma_fetched_present(local: Store, remote: Store, oids: Seq<Seq<u8>>, n: nat)
    requires
        forall|i: int| 0 <= i < n ==> local.contains_key(#[trigger] oids[i]),
    ensures
        fetched(local, remote, oids, n) == (local, Ok::<(), Error>(())),
    decreases n,
{
    if n > 0 {
        lemma_fetched_present(local, remote, oids, (n - 1) as nat);
    }
}

/// The name to which the update for branch `i` wrote: the end of the chain
/// of symbolic references that began at its tracking name when the
/// branches before it were recorded.
pub open spec fn written_name(refs: Store, branches: Seq<(Seq<u8>, Seq<u8>)>, i: nat) -> Seq<u8> {
    lookup_ref(recorded(refs, branches, i).0, tracking_name(branches[i as int].0), true)->Ok_0.0
}

/// The references after the values of the first `n` branches were written,
/// one after the other, to the names in `names`.
pub open spec fn written(
    refs: Store,
    names: Seq<Seq<u8>>,
    branches: Seq<(Seq<u8>, Seq<u8>)>,
    n: nat,
) -> Store
    decreases n,
{
    if n == 0 {
        refs
    } else {
        written(refs, names, branches, (n - 1) as nat).insert(names[n - 1], branches[n - 1].1)
    }
}

/// The value that the last of the first `n` writes to `key` wrote, if one
/// of them wrote to it.
pub open spec fn last_written(
    names: Seq<Seq<u8>>,
    branches: Seq<(Seq<u8>, Seq<u8>)>,
    n: nat,
    key: Seq<u8>,
) -> Option<Seq<u8>>
    decreases n,
{
    if n == 0 {
        None
    } else if names[n - 1] == key {
        Some(branches[n - 1].1)
    } else {
        last_written(names, branches, (n - 1) as nat, key)
    }
}

/// After some writes a name holds what the last write to it wrote, or what
/// it held before where none wrote to it.
pub proof fn lemma_written_holds(
    refs: Store,
    names: Seq<Seq<u8>>,
    branches: Seq<(Seq<u8>, Seq<u8>)>,
    n: nat,
    key: Seq<u8>,
)
    ensures
        written(refs, names, branches, n).contains_key(key) <==> (refs.contains_key(key)
            || last_written(names, branches, n, key) is Some),
        last_written(names, branches, n, key) is Some ==> written(refs, names, branches, n)[key]
            == last_written(names, branches, n, key)->0,
        last_written(names, branches, n, key) is None && refs.contains_key(key) ==> written(
            refs,
            names,
            branches,
            n,
        )[key] == refs[key],
        refs.dom().finite() ==> written(refs, names, branches, n).dom().finite(),
    decreases n,
{
    if n > 0 {
        lemma_written_holds(refs, names, branches, (n - 1) as nat, key);
    }
}

/// Writing the same values to the same names a second time changes
/// nothing.
pub proof fn lemma_written_twice(
    refs: Store,
    names: Seq<Seq<u8>>,
    branches: Seq<(Seq<u8>, Seq<u8>)>,
    n: nat,
)
    ensures
        written(written(refs, names, branches, n), names, branches, n) == written(
            refs,
            names,
            branches,
            n,
        ),
{
    let once = written(refs, names, branches, n);
    let twice = written(once, names, branches, n);
    assert forall|key: Seq<u8>| #[trigger]
        twice.dom().contains(key) == once.dom().contains(key) by {
        lemma_written_holds(refs, names, branches, n, key);
        lemma_written_holds(once, names, branches, n, key);
    }
    assert(twice.dom() =~= once.dom());
    assert forall|key: Seq<u8>| once.dom().contains(key) implies #[trigger] twice[key]
        == once[key] by {
        lemma_written_holds(refs, names, branches, n, key);
        lemma_written_holds(once, names, branches, n, key);
    }
    assert(twice =~= once);
}

/// Whether each value of the first `n` branches is no symbolic content.
pub open spec fn direct_values(branches: Seq<(Seq<u8>, Seq<u8>)>, n: nat) -> bool {
    forall|i: int| 0 <= i < n ==> !is_symbolic((#[trigger] branches[i]).1)
}

/// Updates that went well wrote the values of the branches to the names
/// at the ends of their chains; and the chain of each branch that was
/// recorded before or is still to be recorded ends, after them, where it
/// ended when that branch was recorded.
proof fn lemma_recorded_written(refs: Store, branches: Seq<(Seq<u8>, Seq<u8>)>, n: nat, i: nat)
    requires
        refs.dom().finite(),
        n <= branches.len(),
        i < branches.len(),
        direct_values(branches, branches.len()),
        recorded(refs, branches, branches.len()).1 is Ok,
        i >= n ==> recorded(refs, branches, i).1 is Ok,
    ensures
        recorded(refs, branches, n).1 is Ok,
        recorded(refs, branches, n).0 == written(
            refs,
            Seq::new(branches.len(), |k: int| written_name(refs, branches, k as nat)),
            branches,
            n,
        ),
        recorded(refs, branches, n).0.dom().finite(),
        i < n ==> {
            &&& lookup_ref(
                recorded(refs, branches, n).0,
                tracking_name(branches[i as int].0),
                true,
            ) is Ok
            &&& lookup_ref(
                recorded(refs, branches, n).0,
                tracking_name(branches[i as int].0),
                true,
            )->Ok_0.0 == written_name(refs, branches, i)
        },
    decreases n,
{
    let names = Seq::new(branches.len(), |k: int| written_name(refs, branches, k as nat));
    if recorded(refs, branches, n).1 is Err {
        lemma_recorded_err(refs, branches, n, branches.len());
    }
    if n > 0 {
        let m = (n - 1) as nat;
        lemma_recorded_written(refs, branches, m, i);
        let before = recorded(refs, branches, m).0;
        assert(names[m as int] == written_name(refs, branches, m));
        assert(!is_symbolic(branches[m as int].1));
        if i <= m {
            lemma_lookup_after_write(
                before,
                tracking_name(branches[m as int].0),
                branches[m as int].1,
                tracking_name(branches[i as int].0),
            );
        }
    }
}

/// After all updates went well, doing the first `n` of them again goes
/// well and writes to the names to which they wrote before; and the
/// chains of the branches that are still to be recorded again end where
/// they ended.
proof fn lemma_recorded_again(refs: Store, branches: Seq<(Seq<u8>, Seq<u8>)>, n: nat, i: nat)
    requires
        refs.dom().finite(),
        n <= branches.len(),
        n <= i < branches.len(),
        direct_values(branches, branches.len()),
        recorded(refs, branches, branches.len()).1 is Ok,
    ensures
        recorded(recorded(refs, branches, branches.len()).0, branches, n) == (
            written(
                recorded(refs, branches, branches.len()).0,
                Seq::new(branches.len(), |k: int| written_name(refs, branches, k as nat)),
                branches,
                n,
            ),
            Ok::<(), Error>(()),
        ),
        recorded(recorded(refs, branches, branches.len()).0, branches, n).0.dom().finite(),
        lookup_ref(
            recorded(recorded(refs, branches, branches.len()).0, branches, n).0,
            tracking_name(branches[i as int].0),
            true,
        ) is Ok,
        lookup_ref(
            recorded(recorded(refs, branches, branches.len()).0, branches, n).0,
            tracking_name(branches[i as int].0),
            true,
        )->Ok_0.0 == written_name(refs, branches, i),
    decreases n,
{
    let names = Seq::new(branches.len(), |k: int| written_name(refs, branches, k as nat));
    let first = recorded(refs, branches, branches.len()).0;
    if n == 0 {
        lemma_recorded_written(refs, branches, branches.len(), i);
    } else {
        let m = (n - 1) as nat;
        lemma_recorded_again(refs, branches, m, m);
        lemma_recorded_again(refs, branches, m, i);
        let before = recorded(first, branches, m).0;
        assert(names[m as int] == written_name(refs, branches, m));
        assert(!is_symbolic(branches[m as int].1));
        lemma_lookup_after_write(
            before,
            tracking_name(branches[m as int].0),
            branches[m as int].1,
            tracking_name(branches[i as int].0),
        );
    }
}

/// Recording the branches a second time, after it went well once, goes
/// well and leaves the references as the first time left them.
pub proof fn lemma_recorded_twice(refs: Store, branches: Seq<(Seq<u8>, Seq<u8>)>)
    requires
        refs.dom().finite(),
        direct_values(branches, branches.len()),
        recorded(refs, branches, branches.len()).1 is Ok,
    ensures
        recorded(recorded(refs, branches, branches.len()).0, branches, branches.len()) == (
            recorded(refs, branches, branches.len()).0,
            Ok::<(), Error>(()),
        ),
{
    let n = branches.len();
    let names = Seq::new(n, |k: int| written_name(refs, branches, k as nat));
    let first = recorded(refs, branches, n).0;
    if n == 0 {
    } else {
        let last = (n - 1) as nat;
        lemma_recorded_written(refs, branches, n, last);
        lemma_recorded_again(refs, branches, last, last);
        let before = recorded(first, branches, last).0;
        assert(names[last as int] == written_name(refs, branches, last));
        assert(recorded(first, branches, n) == (
            written(first, names, branches, n),
            Ok::<(), Error>(()),
        ));
        lemma_written_twice(refs, names, branches, n);
    }
}

/// The values of the branches of a repository are no symbolic contents.
pub proof fn lemma_remote_refs_direct(refs: Store, keys: Seq<Seq<u8>>, prefix: Option<Seq<u8>>)
    requires
        remote_refs(refs, keys, prefix) is Ok,
    ensures
        direct_values(remote_refs(refs, keys, prefix)->Ok_0, remote_refs(refs, keys, prefix)->Ok_0.len()),
{
    let names = listed_names(keys);
    let listing = all_refs(refs, keys, prefix, true)->Ok_0;
    let branches = remote_refs(refs, keys, prefix)->Ok_0;
    lemma_listed_direct(refs, names, names.len(), prefix);
    assert forall|i: int| 0 <= i < branches.len() implies !is_symbolic(
        (#[trigger] branches[i]).1,
    ) by {
        assert(branches[i].1 == listing[i].1.value->0);
        assert(listing[i].1.value is Some);
    }
}

/// Fetching is idempotent: where fetching from a remote repository went
/// well, fetching from it again, while it is as it was, goes well and
/// leaves the local objects and references as they were after the first
/// time.
pub proof fn lemma_fetch_twice(
    objects: Store,
    refs: Store,
    remote_objects: Store,
    remote_references: Store,
    remote_keys: Seq<Seq<u8>>,
)
    requires
        refs.dom().finite(),
        fetch_result(objects, refs, remote_objects, remote_references, remote_keys).2 is Ok,
    ensures
        fetch_result(
            fetch_result(objects, refs, remote_objects, remote_references, remote_keys).0,
            fetch_result(objects, refs, remote_objects, remote_references, remote_keys).1,
            remote_objects,
            remote_references,
            remote_keys,
        ) == fetch_result(objects, refs, remote_objects, remote_references, remote_keys),
{
    let branches = remote_refs(remote_references, remote_keys, Some(heads_dir()))->Ok_0;
    let oids = reachable_objects(remote_objects, seconds(branches))->Ok_0;
    let objects1 = fetched(objects, remote_objects, oids, oids.len()).0;
    lemma_fetched_holds(objects, remote_objects, oids, oids.len());
    lemma_fetched_present(objects1, remote_objects, oids, oids.len());
    lemma_remote_refs_direct(remote_references, remote_keys, Some(heads_dir()));
    lemma_recorded_twice(refs, branches);
}

// ---------------------------------------------------------------------
// What holds of pushing
// ---------------------------------------------------------------------

/// A transfer that went well leaves every object that it was asked for in
/// the other store, with the bytes that it has here, and keeps every
/// identifier that the other store held, with its bytes where the
/// identifier was not among those asked for.
pub proof fn lemma_pushed_holds(remote: Store, local: Store, oids: Seq<Seq<u8>>, n: nat)
    requires
        n <= oids.len(),
        pushed(remote, local, oids, n).1 is Ok,
    ensures
        forall|i: int|
            0 <= i < n ==> pushed(remote, local, oids, n).0.contains_key(#[trigger] oids[i])
                && pushed(remote, local, oids, n).0[oids[i]] == local[oids[i]],
        forall|oid: Seq<u8>| #[trigger]
            remote.contains_key(oid) ==> pushed(remote, local, oids, n).0.contains_key(oid),
        forall|oid: Seq<u8>|
            #[trigger] remote.contains_key(oid) && !oids.take(n as int).contains(oid) ==> pushed(
                remote,
                local,
                oids,
                n,
            ).0[oid] == remote[oid],
    decreases n,
{
    if n > 0 {
        let m = (n - 1) as nat;
        let before = pushed(remote, local, oids, m).0;
        let after = pushed(remote, local, oids, n).0;
        assert(pushed(remote, local, oids, m).1 is Ok);
        lemma_pushed_holds(remote, local, oids, m);
        assert(copy_object(before, local, oids[m as int]) == Ok::<_, Error>(after));
        assert forall|i: int| 0 <= i < n implies after.contains_key(#[trigger] oids[i])
            && after[oids[i]] == local[oids[i]] by {
            if i < m {
                assert(before.contains_key(oids[i]));
            }
        }
        assert forall|oid: Seq<u8>| #[trigger] remote.contains_key(oid) implies after.contains_key(
            oid,
        ) by {
            assert(before.contains_key(oid));
        }
        assert forall|oid: Seq<u8>|
            #[trigger] remote.contains_key(oid) && !oids.take(n as int).contains(
                oid,
            ) implies after[oid] == remote[oid] by {
            assert(oids.take(n as int)[m as int] == oids[m as int]);
            if oids.take(m as int).contains(oid) {
                let i = oids.take(m as int).index_of(oid);
                assert(oids.take(n as int)[i] == oid);
            }
        }
    }
}

/// What is in a list is in a second list or among those of the first that
/// are not in the second.
pub proof fn lemma_without(list: Seq<Seq<u8>>, other: Seq<Seq<u8>>, n: nat, x: Seq<u8>)
    requires
        n <= list.len(),
        list.take(n as int).contains(x),
    ensures
        other.contains(x) || without(list, other, n).contains(x),
        forall|y: Seq<u8>| without(list, other, n).contains(y) ==> !other.contains(y),
    decreases n,
{
    lemma_without_outside(list, other, n);
    let i = list.take(n as int).index_of(x);
    assert(list[i] == x);
    if n > 0 {
        let m = (n - 1) as nat;
        if i < m {
            assert(list.take(m as int)[i] == x);
            lemma_without(list, other, m, x);
            if !other.contains(x) && !other.contains(list[m as int]) {
                crate::bytes::lemma_push_contains(without(list, other, m), list[m as int], x);
            }
        } else if !other.contains(x) {
            crate::bytes::lemma_push_contains(without(list, other, m), list[m as int], x);
        }
    }
}

/// None of those of a list that are not in a second list is in the
/// second.
pub proof fn lemma_without_outside(list: Seq<Seq<u8>>, other: Seq<Seq<u8>>, n: nat)
    ensures
        forall|y: Seq<u8>| without(list, other, n).contains(y) ==> !other.contains(y),
    decreases n,
{
    if n > 0 {
        let m = (n - 1) as nat;
        lemma_without_outside(list, other, m);
        assert forall|y: Seq<u8>| without(list, other, n).contains(y) implies !other.contains(
            y,
        ) by {
            if !other.contains(list[m as int]) {
                crate::bytes::lemma_push_contains(without(list, other, m), list[m as int], y);
            }
        }
    }
}

/// What a push that went well leaves on the remote. The remote reference
/// stands for the pushed commit. The remote holds every object that it
/// held before. Of the objects that the pushed commit needs, it holds
/// each one that its references did not account for, with the bytes that
/// the object has locally, and so holds every one of them unless one that
/// its references account for was missing from it before.
pub proof fn lemma_push_leaves(
    objects: Store,
    refs: Store,
    remote_objects: Store,
    remote_references: Store,
    remote_keys: Seq<Seq<u8>>,
    name: Seq<u8>,
)
    requires
        remote_references.dom().finite(),
        push_result(objects, refs, remote_objects, remote_references, remote_keys, name).2 is Ok,
    ensures
        ({
            let after = push_result(
                objects,
                refs,
                remote_objects,
                remote_references,
                remote_keys,
                name,
            );
            let commit = ref_value(refs, name, true)->Ok_0.value->0;
            let values = seconds(remote_refs(remote_references, remote_keys, None)->Ok_0);
            let there = reachable_objects(
                remote_objects,
                known(objects, values, values.len()),
            )->Ok_0;
            let here = reachable_objects(objects, seq![commit])->Ok_0;
            &&& ref_value(after.1, name, true) == Ok::<_, Error>(direct(commit))
            &&& forall|oid: Seq<u8>| #[trigger]
                remote_objects.contains_key(oid) ==> after.0.contains_key(oid)
            &&& forall|oid: Seq<u8>|
                #[trigger] here.contains(oid) && !there.contains(oid) ==> after.0.contains_key(oid)
                    && after.0[oid] == objects[oid]
            &&& forall|oid: Seq<u8>|
                #[trigger] here.contains(oid) && !after.0.contains_key(oid) ==> there.contains(oid)
                    && !remote_objects.contains_key(oid)
        }),
{
    let after = push_result(objects, refs, remote_objects, remote_references, remote_keys, name);
    let commit = ref_value(refs, name, true)->Ok_0.value->0;
    let values = seconds(remote_refs(remote_references, remote_keys, None)->Ok_0);
    let there = reachable_objects(remote_objects, known(objects, values, values.len()))->Ok_0;
    let here = reachable_objects(objects, seq![commit])->Ok_0;
    let missing = without(here, there, here.len());
    lemma_pushed_holds(remote_objects, objects, missing, missing.len());
    assert(here.take(here.len() as int) =~= here);
    assert forall|oid: Seq<u8>| #[trigger] here.contains(oid) && !there.contains(
        oid,
    ) implies after.0.contains_key(oid) && after.0[oid] == objects[oid] by {
        lemma_without(here, there, here.len(), oid);
        let i = missing.index_of(oid);
        assert(missing[i] == oid);
    }
    lemma_resolved(refs, name, refs.dom().len());
    lemma_lookup_after_write(remote_references, name, commit, name);
    let target = lookup_ref(remote_references, name, true)->Ok_0.0;
    assert(after.1 == remote_references.insert(target, commit));
    lemma_resolved(after.1, name, after.1.dom().len());
}

} // verus!
