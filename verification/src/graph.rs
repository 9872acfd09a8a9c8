//! The commit graph: which commits lead to which, and which objects a
//! commit needs.

use crate::base::{
    commit_at, get_commit, get_tree_entries, tree_entries, EntryKind, TreeEntryView, entry_views,
};
use crate::bytes::{
    add_unique, copy, lemma_concat_contains, lemma_push_contains, list_contains, opt_view, views,
};
use crate::data::{Repository, Store};
use crate::error::Error;
use vstd::prelude::*;

verus! {

// ---------------------------------------------------------------------
// Ancestors
// ---------------------------------------------------------------------

/// The identifiers in the store that are not in `seen`.
pub open spec fn unvisited(objects: Store, seen: Seq<Seq<u8>>) -> Set<Seq<u8>> {
    objects.dom().filter(|oid: Seq<u8>| !seen.contains(oid))
}

/// Visiting a stored object that was not seen leaves fewer unvisited.
pub proof fn lemma_visit(objects: Store, seen: Seq<Seq<u8>>, oid: Seq<u8>)
    requires
        objects.dom().finite(),
        objects.contains_key(oid),
        !seen.contains(oid),
    ensures
        unvisited(objects, seen).finite(),
        unvisited(objects, seen.push(oid)).len() < unvisited(objects, seen).len(),
{
    objects.dom().lemma_len_filter(|o: Seq<u8>| !seen.contains(o));
    assert(unvisited(objects, seen).contains(oid));
    assert forall|o: Seq<u8>| seen.push(oid).contains(o) <==> (seen.contains(o) || o == oid) by {
        if seen.contains(o) {
            let i = seen.index_of(o);
            assert(seen.push(oid)[i] == o);
        }
        if o == oid {
            assert(seen.push(oid)[seen.len() as int] == o);
        }
    }
    assert(unvisited(objects, seen.push(oid)) =~= unvisited(objects, seen).remove(oid));
}

/// The commits met on the way from the commits on `stack`, after those in
/// `seen`. The last commit on the stack is taken off; one that was seen is
/// passed over; another is read, added to those seen, and its parents are
/// put on the stack in their order. The walk fails where a commit cannot
/// be read.
pub open spec fn walk(objects: Store, stack: Seq<Seq<u8>>, seen: Seq<Seq<u8>>) -> Result<
    Seq<Seq<u8>>,
    Error,
>
    decreases unvisited(objects, seen).len(), stack.len(),
    when objects.dom().finite()
{
    if stack.len() == 0 {
        Ok(seen)
    } else if seen.contains(stack.last()) {
        walk(objects, stack.drop_last(), seen)
    } else {
        match commit_at(objects, stack.last()) {
            Err(e) => Err(e),
            Ok(c) => {
                proof {
                    lemma_visit(objects, seen, stack.last());
                }
                walk(objects, stack.drop_last() + c.parents, seen.push(stack.last()))
            },
        }
    }
}

/// The commits that can be reached from `roots`: each root, from the last
/// to the first, with all that its parents lead to, none of them twice.
pub open spec fn ancestors(objects: Store, roots: Seq<Seq<u8>>) -> Result<Seq<Seq<u8>>, Error> {
    walk(objects, roots, Seq::empty())
}

/// Lists the commits that can be reached from `root_oids` through parents:
/// each commit once, a commit before what only its parents lead to. Fails
/// where one of them cannot be had or read as a commit.
pub fn get_commits_and_parents(repo: &Repository, root_oids: &Vec<Vec<u8>>) -> (r: Result<
    Vec<Vec<u8>>,
    Error,
>)
    requires
        repo.wf(),
    ensures
        match r {
            Ok(v) => ancestors(repo.objects@, views(root_oids@)) == Ok::<_, Error>(views(v@)),
            Err(e) => ancestors(repo.objects@, views(root_oids@)) == Err::<Seq<Seq<u8>>, _>(e),
        },
{
    proof {
        repo.objects.lemma_wf();
    }
    let mut stack: Vec<Vec<u8>> = Vec::new();
    let mut i: usize = 0;
    while i < root_oids.len()
        invariant
            i <= root_oids.len(),
            views(stack@) == views(root_oids@).take(i as int),
        decreases root_oids.len() - i,
    {
        let ghost before = views(stack@);
        stack.push(copy(root_oids[i].as_slice()));
        assert(views(stack@) =~= before.push(root_oids@[i as int]@));
        assert(views(stack@) =~= views(root_oids@).take(i + 1));
        i += 1;
    }
    assert(views(stack@) =~= views(root_oids@));
    let mut seen: Vec<Vec<u8>> = Vec::new();
    assert(views(seen@) =~= Seq::<Seq<u8>>::empty());
    loop
        invariant
            repo.wf(),
            repo.objects@.dom().finite(),
            ancestors(repo.objects@, views(root_oids@)) == walk(
                repo.objects@,
                views(stack@),
                views(seen@),
            ),
        decreases unvisited(repo.objects@, views(seen@)).len(), stack.len(),
    {
        let ghost before_stack = views(stack@);
        let ghost before_seen = views(seen@);
        let oid = match stack.pop() {
            Some(oid) => oid,
            None => {
                return Ok(seen);
            },
        };
        assert(before_stack.last() == oid@);
        assert(views(stack@) =~= before_stack.drop_last());
        if !list_contains(&seen, oid.as_slice()) {
            let record = match get_commit(repo, oid.as_slice()) {
                Ok(c) => c,
                Err(e) => {
                    return Err(e);
                },
            };
            proof {
                lemma_visit(repo.objects@, before_seen, oid@);
            }
            seen.push(oid);
            assert(views(seen@) =~= before_seen.push(before_stack.last()));
            let mut parents = record.parents;
            let ghost added = views(parents@);
            stack.append(&mut parents);
            assert(views(stack@) =~= before_stack.drop_last() + added);
        }
    }
}

/// Whether `maybe_ancestor` can be reached from `commit` through parents;
/// a commit can be reached from itself. Fails where a commit on the way
/// cannot be had or read.
pub fn is_ancestor_of(repo: &Repository, commit: &[u8], maybe_ancestor: &[u8]) -> (r: Result<
    bool,
    Error,
>)
    requires
        repo.wf(),
    ensures
        match r {
            Ok(b) => ancestors(repo.objects@, seq![commit@]) is Ok && b == ancestors(
                repo.objects@,
                seq![commit@],
            )->Ok_0.contains(maybe_ancestor@),
            Err(e) => ancestors(repo.objects@, seq![commit@]) == Err::<Seq<Seq<u8>>, _>(e),
        },
{
    let mut roots: Vec<Vec<u8>> = Vec::new();
    roots.push(copy(commit));
    assert(views(roots@) =~= seq![commit@]);
    match get_commits_and_parents(repo, &roots) {
        Ok(list) => Ok(list_contains(&list, maybe_ancestor)),
        Err(e) => Err(e),
    }
}

// ---------------------------------------------------------------------
// Merge base
// ---------------------------------------------------------------------

/// The first of `b`, from position `i` on, that is in `a`.
pub open spec fn first_common(a: Seq<Seq<u8>>, b: Seq<Seq<u8>>, i: nat) -> Option<Seq<u8>>
    decreases b.len() - i,
{
    if i >= b.len() {
        None
    } else if a.contains(b[i as int]) {
        Some(b[i as int])
    } else {
        first_common(a, b, i + 1)
    }
}

/// A common ancestor of two commits: the first commit on the way from
/// `oid2` that can be reached from `oid1`.
pub open spec fn merge_base(objects: Store, oid1: Seq<u8>, oid2: Seq<u8>) -> Result<
    Option<Seq<u8>>,
    Error,
> {
    match ancestors(objects, seq![oid1]) {
        Err(e) => Err(e),
        Ok(a) => match ancestors(objects, seq![oid2]) {
            Err(e) => Err(e),
            Ok(b) => Ok(first_common(a, b, 0)),
        },
    }
}

/// A common ancestor of the two commits: the first of the commits listed
/// from `oid2` that is among those listed from `oid1`, or none where they
/// share no commit. It need not be the nearest one where several exist.
pub fn get_merge_base(repo: &Repository, oid1: &[u8], oid2: &[u8]) -> (r: Result<
    Option<Vec<u8>>,
    Error,
>)
    requires
        repo.wf(),
    ensures
        match r {
            Ok(v) => merge_base(repo.objects@, oid1@, oid2@) == Ok::<_, Error>(opt_view(v)),
            Err(e) => merge_base(repo.objects@, oid1@, oid2@) == Err::<Option<Seq<u8>>, _>(e),
        },
{
    let mut roots1: Vec<Vec<u8>> = Vec::new();
    roots1.push(copy(oid1));
    assert(views(roots1@) =~= seq![oid1@]);
    let first = match get_commits_and_parents(repo, &roots1) {
        Ok(list) => list,
        Err(e) => {
            return Err(e);
        },
    };
    let mut roots2: Vec<Vec<u8>> = Vec::new();
    roots2.push(copy(oid2));
    assert(views(roots2@) =~= seq![oid2@]);
    let second = match get_commits_and_parents(repo, &roots2) {
        Ok(list) => list,
        Err(e) => {
            return Err(e);
        },
    };
    let mut i: usize = 0;
    while i < second.len()
        invariant
            i <= second.len(),
            ancestors(repo.objects@, seq![oid1@]) == Ok::<_, Error>(views(first@)),
            ancestors(repo.objects@, seq![oid2@]) == Ok::<_, Error>(views(second@)),
            first_common(views(first@), views(second@), 0) == first_common(
                views(first@),
                views(second@),
                i as nat,
            ),
        decreases second.len() - i,
    {
        assert(views(second@)[i as int] == second@[i as int]@);
        if list_contains(&first, second[i].as_slice()) {
            return Ok(Some(copy(second[i].as_slice())));
        }
        i += 1;
    }
    Ok(None)
}

// ---------------------------------------------------------------------
// Objects that commits need
// ---------------------------------------------------------------------

/// `found` with the objects that the first `n` of `entries` lead to: the
/// object of each entry, and for a tree all that [`collect_tree`] finds in
/// it with `depth` less one. A tree that is not yet in `found` at depth
/// zero is a `MalformedTree`.
pub open spec fn collect_entries(
    objects: Store,
    entries: Seq<TreeEntryView>,
    n: nat,
    found: Seq<Seq<u8>>,
    depth: nat,
) -> Result<Seq<Seq<u8>>, Error>
    decreases depth, 0nat, n,
{
    if n == 0 {
        Ok(found)
    } else {
        match collect_entries(objects, entries, (n - 1) as nat, found, depth) {
            Err(e) => Err(e),
            Ok(found) => match entries[n - 1].kind {
                EntryKind::Blob => Ok(add_unique(found, entries[n - 1].oid)),
                EntryKind::Tree => if found.contains(entries[n - 1].oid) {
                    Ok(found)
                } else if depth == 0 {
                    Err(Error::MalformedTree)
                } else {
                    collect_tree(objects, entries[n - 1].oid, found, (depth - 1) as nat)
                },
            },
        }
    }
}

/// `found` with the tree `oid` and every object that its entries lead to,
/// each identifier once, where trees are nested at most `depth` deep below
/// it. A tree that is in `found` already is not read again.
pub open spec fn collect_tree(objects: Store, oid: Seq<u8>, found: Seq<Seq<u8>>, depth: nat)
    -> Result<Seq<Seq<u8>>, Error>
    decreases depth, 1nat, 0nat,
{
    if found.contains(oid) {
        Ok(found)
    } else {
        match tree_entries(objects, Some(oid)) {
            Err(e) => Err(e),
            Ok(entries) => collect_entries(objects, entries, entries.len(), found.push(oid), depth),
        }
    }
}

/// Objects that cannot be collected for the first `n` entries cannot be
/// collected for more of them.
pub proof fn lemma_collect_entries_err(
    objects: Store,
    entries: Seq<TreeEntryView>,
    n: nat,
    m: nat,
    found: Seq<Seq<u8>>,
    depth: nat,
)
    requires
        n <= m,
        collect_entries(objects, entries, n, found, depth) is Err,
    ensures
        collect_entries(objects, entries, m, found, depth) == collect_entries(
            objects,
            entries,
            n,
            found,
            depth,
        ),
    decreases m,
{
    if n < m {
        lemma_collect_entries_err(objects, entries, n, (m - 1) as nat, found, depth);
    }
}

/// The objects of the tree stored under `oid`: the tree itself and all
/// that its entries lead to.
pub open spec fn tree_objects(objects: Store, oid: Seq<u8>) -> Result<Seq<Seq<u8>>, Error> {
    collect_tree(objects, oid, Seq::empty(), objects.dom().len())
}

/// Adds to `found` the tree `oid` and what its entries lead to.
fn collect(repo: &Repository, oid: &[u8], found: Vec<Vec<u8>>, depth: usize) -> (r: Result<
    Vec<Vec<u8>>,
    Error,
>)
    requires
        repo.wf(),
    ensures
        match r {
            Ok(v) => collect_tree(repo.objects@, oid@, views(found@), depth as nat) == Ok::<
                _,
                Error,
            >(views(v@)),
            Err(e) => collect_tree(repo.objects@, oid@, views(found@), depth as nat) == Err::<
                Seq<Seq<u8>>,
                _,
            >(e),
        },
    decreases depth,
{
    if list_contains(&found, oid) {
        return Ok(found);
    }
    let entries = match get_tree_entries(repo, Some(oid)) {
        Ok(entries) => entries,
        Err(e) => {
            return Err(e);
        },
    };
    let ghost list = entry_views(entries@);
    let ghost start = views(found@).push(oid@);
    let mut acc = found;
    acc.push(copy(oid));
    assert(views(acc@) =~= start);
    let mut i: usize = 0;
    while i < entries.len()
        invariant
            i <= entries.len(),
            repo.wf(),
            list == entry_views(entries@),
            !views(found@).contains(oid@),
            start == views(found@).push(oid@),
            tree_entries(repo.objects@, Some(oid@)) == Ok::<_, Error>(list),
            collect_entries(repo.objects@, list, i as nat, start, depth as nat) == Ok::<_, Error>(
                views(acc@),
            ),
        decreases entries.len() - i,
    {
        let ghost before = views(acc@);
        let entry = &entries[i];
        assert(list[i as int] == entry@);
        match entry.kind {
            EntryKind::Blob => {
                if !list_contains(&acc, entry.oid.as_slice()) {
                    acc.push(copy(entry.oid.as_slice()));
                    assert(views(acc@) =~= before.push(entry.oid@));
                }
            },
            EntryKind::Tree => {
                if !list_contains(&acc, entry.oid.as_slice()) {
                    if depth == 0 {
                        proof {
                            lemma_collect_entries_err(
                                repo.objects@,
                                list,
                                (i + 1) as nat,
                                list.len(),
                                start,
                                depth as nat,
                            );
                        }
                        return Err(Error::MalformedTree);
                    }
                    acc = match collect(repo, entry.oid.as_slice(), acc, depth - 1) {
                        Ok(more) => more,
                        Err(e) => {
                            proof {
                                lemma_collect_entries_err(
                                    repo.objects@,
                                    list,
                                    (i + 1) as nat,
                                    list.len(),
                                    start,
                                    depth as nat,
                                );
                            }
                            return Err(e);
                        },
                    };
                }
            },
        }
        i += 1;
    }
    Ok(acc)
}

/// Lists the objects of the tree stored under `oid`: the tree itself, then
/// the objects of its entries in order, with the objects of a nested tree
/// behind that tree, each identifier once. Fails where a tree cannot be
/// had or read, and with `MalformedTree` where trees are nested more
/// deeply than the store has objects.
pub fn get_objects_in_tree(repo: &Repository, oid: &[u8]) -> (r: Result<Vec<Vec<u8>>, Error>)
    requires
        repo.wf(),
    ensures
        match r {
            Ok(v) => tree_objects(repo.objects@, oid@) == Ok::<_, Error>(views(v@)),
            Err(e) => tree_objects(repo.objects@, oid@) == Err::<Seq<Seq<u8>>, _>(e),
        },
{
    proof {
        repo.objects.lemma_wf();
    }
    let found: Vec<Vec<u8>> = Vec::new();
    assert(views(found@) =~= Seq::<Seq<u8>>::empty());
    collect(repo, oid, found, repo.objects.len())
}

/// The objects that the first `n` of `commits` need: each commit, its tree
/// and all that the tree leads to, each identifier once.
pub open spec fn collect_commits(objects: Store, commits: Seq<Seq<u8>>, n: nat) -> Result<
    Seq<Seq<u8>>,
    Error,
>
    decreases n,
{
    if n == 0 {
        Ok(Seq::empty())
    } else {
        match collect_commits(objects, commits, (n - 1) as nat) {
            Err(e) => Err(e),
            Ok(found) => match commit_at(objects, commits[n - 1]) {
                Err(e) => Err(e),
                Ok(c) => collect_tree(
                    objects,
                    c.tree,
                    add_unique(found, commits[n - 1]),
                    objects.dom().len(),
                ),
            },
        }
    }
}

/// Objects that cannot be collected for the first `n` commits cannot be
/// collected for more of them.
pub proof fn lemma_collect_commits_err(objects: Store, commits: Seq<Seq<u8>>, n: nat, m: nat)
    requires
        n <= m,
        collect_commits(objects, commits, n) is Err,
    ensures
        collect_commits(objects, commits, m) == collect_commits(objects, commits, n),
    decreases m,
{
    if n < m {
        lemma_collect_commits_err(objects, commits, n, (m - 1) as nat);
    }
}

/// Every object that the commits reachable from `roots` need: the commits
/// themselves, their trees, and all that the trees lead to.
pub open spec fn reachable_objects(objects: Store, roots: Seq<Seq<u8>>) -> Result<
    Seq<Seq<u8>>,
    Error,
> {
    match ancestors(objects, roots) {
        Err(e) => Err(e),
        Ok(commits) => collect_commits(objects, commits, commits.len()),
    }
}

/// Lists every object that is needed to have the commits `oids` with their
/// whole history: each commit that can be reached from them, its tree, and
/// the trees and blobs below it, each identifier once. Fails where one of
/// them cannot be had or read.
pub fn get_objects_in_commits(repo: &Repository, oids: &Vec<Vec<u8>>) -> (r: Result<
    Vec<Vec<u8>>,
    Error,
>)
    requires
        repo.wf(),
    ensures
        match r {
            Ok(v) => reachable_objects(repo.objects@, views(oids@)) == Ok::<_, Error>(views(v@)),
            Err(e) => reachable_objects(repo.objects@, views(oids@)) == Err::<Seq<Seq<u8>>, _>(e),
        },
{
    let commits = match get_commits_and_parents(repo, oids) {
        Ok(commits) => commits,
        Err(e) => {
            return Err(e);
        },
    };
    proof {
        repo.objects.lemma_wf();
    }
    let ghost list = views(commits@);
    let mut found: Vec<Vec<u8>> = Vec::new();
    assert(views(found@) =~= Seq::<Seq<u8>>::empty());
    let mut i: usize = 0;
    while i < commits.len()
        invariant
            i <= commits.len(),
            repo.wf(),
            repo.objects@.dom().len() == repo.objects.keys().len(),
            list == views(commits@),
            ancestors(repo.objects@, views(oids@)) == Ok::<_, Error>(list),
            collect_commits(repo.objects@, list, i as nat) == Ok::<_, Error>(views(found@)),
        decreases commits.len() - i,
    {
        let ghost before = views(found@);
        assert(list[i as int] == commits@[i as int]@);
        let record = match get_commit(repo, commits[i].as_slice()) {
            Ok(c) => c,
            Err(e) => {
                proof {
                    lemma_collect_commits_err(repo.objects@, list, (i + 1) as nat, list.len());
                }
                return Err(e);
            },
        };
        if !list_contains(&found, commits[i].as_slice()) {
            found.push(copy(commits[i].as_slice()));
            assert(views(found@) =~= before.push(commits@[i as int]@));
        }
        found = match collect(repo, record.tree.as_slice(), found, repo.objects.len()) {
            Ok(found) => found,
            Err(e) => {
                proof {
                    lemma_collect_commits_err(repo.objects@, list, (i + 1) as nat, list.len());
                }
                return Err(e);
            },
        };
        i += 1;
    }
    Ok(found)
}

// ---------------------------------------------------------------------
// What holds of the commit graph
// ---------------------------------------------------------------------

/// Whether the commit stored under `child` names `parent` as a parent.
pub open spec fn is_parent(objects: Store, child: Seq<u8>, parent: Seq<u8>) -> bool {
    commit_at(objects, child) is Ok && commit_at(objects, child)->Ok_0.parents.contains(parent)
}

/// Whether each commit of `path` but the last names the next as a parent.
pub open spec fn is_chain(objects: Store, path: Seq<Seq<u8>>) -> bool {
    path.len() >= 1 && forall|i: int|
        #![trigger path[i]]
        0 <= i < path.len() - 1 ==> is_parent(objects, path[i], path[i + 1])
}

/// Whether `to` is `from` itself or can be had from it by going from a
/// commit to one of its parents, any number of times.
pub open spec fn reaches(objects: Store, from: Seq<u8>, to: Seq<u8>) -> bool {
    exists|path: Seq<Seq<u8>>| is_chain(objects, path) && path[0] == from && path.last() == to
}

/// Whether one of `roots` reaches `to`.
pub open spec fn reaches_from(objects: Store, roots: Seq<Seq<u8>>, to: Seq<u8>) -> bool {
    exists|r: int| 0 <= r < roots.len() && reaches(objects, #[trigger] roots[r], to)
}

/// A commit reaches itself.
pub proof fn lemma_reaches_self(objects: Store, oid: Seq<u8>)
    ensures
        reaches(objects, oid, oid),
{
    let path = seq![oid];
    assert(is_chain(objects, path) && path[0] == oid && path.last() == oid);
}

/// What reaches a commit reaches its parents.
pub proof fn lemma_reaches_parent(objects: Store, from: Seq<u8>, via: Seq<u8>, to: Seq<u8>)
    requires
        reaches(objects, from, via),
        is_parent(objects, via, to),
    ensures
        reaches(objects, from, to),
{
    let path = choose|path: Seq<Seq<u8>>|
        is_chain(objects, path) && path[0] == from && path.last() == via;
    let longer = path.push(to);
    assert forall|i: int| #![trigger longer[i]] 0 <= i < longer.len() - 1 implies is_parent(
        objects,
        longer[i],
        longer[i + 1],
    ) by {
        if i < path.len() - 1 {
            assert(longer[i] == path[i]);
            assert(longer[i + 1] == path[i + 1]);
        }
    }
    assert(is_chain(objects, longer) && longer[0] == from && longer.last() == to);
}

/// A walk that begins with commits that the roots reach meets only
/// commits that the roots reach.
pub proof fn lemma_walk_sound(
    objects: Store,
    roots: Seq<Seq<u8>>,
    stack: Seq<Seq<u8>>,
    seen: Seq<Seq<u8>>,
)
    requires
        objects.dom().finite(),
        walk(objects, stack, seen) is Ok,
        forall|x: Seq<u8>| stack.contains(x) ==> reaches_from(objects, roots, x),
        forall|x: Seq<u8>| seen.contains(x) ==> reaches_from(objects, roots, x),
    ensures
        forall|x: Seq<u8>| #[trigger]
            walk(objects, stack, seen)->Ok_0.contains(x) ==> reaches_from(objects, roots, x),
    decreases unvisited(objects, seen).len(), stack.len(),
{
    if stack.len() == 0 {
    } else {
        let oid = stack.last();
        let rest = stack.drop_last();
        assert(stack.contains(oid));
        assert forall|x: Seq<u8>| rest.contains(x) implies stack.contains(x) by {
            let i = rest.index_of(x);
            assert(stack[i] == x);
        }
        if seen.contains(oid) {
            lemma_walk_sound(objects, roots, rest, seen);
        } else {
            let c = commit_at(objects, oid)->Ok_0;
            lemma_visit(objects, seen, oid);
            assert forall|x: Seq<u8>| (rest + c.parents).contains(x) implies reaches_from(
                objects,
                roots,
                x,
            ) by {
                lemma_concat_contains(rest, c.parents, x);
                if c.parents.contains(x) {
                    let r = choose|r: int|
                        0 <= r < roots.len() && reaches(objects, #[trigger] roots[r], oid);
                    lemma_reaches_parent(objects, roots[r], oid, x);
                }
            }
            assert forall|x: Seq<u8>| seen.push(oid).contains(x) implies reaches_from(
                objects,
                roots,
                x,
            ) by {
                lemma_push_contains(seen, oid, x);
            }
            lemma_walk_sound(objects, roots, rest + c.parents, seen.push(oid));
        }
    }
}

/// What a walk returns begins with the commits seen before, holds every
/// commit that was on the stack, holds no commit twice if none was seen
/// twice, and holds with each commit that was not seen before the parents
/// of that commit.
pub proof fn lemma_walk_closed(objects: Store, stack: Seq<Seq<u8>>, seen: Seq<Seq<u8>>)
    requires
        objects.dom().finite(),
        walk(objects, stack, seen) is Ok,
    ensures
        seen.is_prefix_of(walk(objects, stack, seen)->Ok_0),
        forall|x: Seq<u8>| stack.contains(x) ==> walk(objects, stack, seen)->Ok_0.contains(x),
        seen.no_duplicates() ==> walk(objects, stack, seen)->Ok_0.no_duplicates(),
        forall|x: Seq<u8>, p: Seq<u8>|
            walk(objects, stack, seen)->Ok_0.contains(x) && !seen.contains(x) && is_parent(
                objects,
                x,
                p,
            ) ==> walk(objects, stack, seen)->Ok_0.contains(p),
        forall|x: Seq<u8>|
            walk(objects, stack, seen)->Ok_0.contains(x) && !seen.contains(x) ==> commit_at(
                objects,
                x,
            ) is Ok,
    decreases unvisited(objects, seen).len(), stack.len(),
{
    let result = walk(objects, stack, seen)->Ok_0;
    if stack.len() == 0 {
        assert(seen =~= result.subrange(0, seen.len() as int));
    } else {
        let oid = stack.last();
        let rest = stack.drop_last();
        assert forall|x: Seq<u8>| stack.contains(x) implies rest.contains(x) || x == oid by {
            let i = stack.index_of(x);
            if i < rest.len() {
                assert(rest[i] == x);
            }
        }
        if seen.contains(oid) {
            lemma_walk_closed(objects, rest, seen);
            assert(result.contains(oid)) by {
                let i = seen.index_of(oid);
                assert(result.subrange(0, seen.len() as int)[i] == result[i]);
            }
        } else {
            let c = commit_at(objects, oid)->Ok_0;
            let next = seen.push(oid);
            lemma_visit(objects, seen, oid);
            lemma_walk_closed(objects, rest + c.parents, next);
            assert(next =~= result.subrange(0, next.len() as int));
            assert(seen =~= result.subrange(0, seen.len() as int));
            assert(next[seen.len() as int] == oid);
            assert(result.subrange(0, next.len() as int)[seen.len() as int] == result[seen.len() as int]);
            assert(result[seen.len() as int] == oid);
            assert(result.contains(oid));
            assert forall|x: Seq<u8>| stack.contains(x) implies result.contains(x) by {
                if rest.contains(x) {
                    lemma_concat_contains(rest, c.parents, x);
                }
            }
            if seen.no_duplicates() {
                assert(next.no_duplicates()) by {
                    assert forall|i: int, j: int|
                        0 <= i < next.len() && 0 <= j < next.len() && i != j implies next[i]
                        != next[j] by {
                        if i == seen.len() {
                            assert(seen[j] == next[j]);
                        } else if j == seen.len() {
                            assert(seen[i] == next[i]);
                        }
                    }
                }
            }
            assert forall|x: Seq<u8>, p: Seq<u8>|
                result.contains(x) && !seen.contains(x) && is_parent(
                    objects,
                    x,
                    p,
                ) implies result.contains(p) by {
                lemma_push_contains(seen, oid, x);
                if x == oid {
                    lemma_concat_contains(rest, c.parents, p);
                }
            }
            assert forall|x: Seq<u8>| result.contains(x) && !seen.contains(x) implies commit_at(
                objects,
                x,
            ) is Ok by {
                lemma_push_contains(seen, oid, x);
            }
        }
    }
}

/// Ancestor closure: the commits listed from `commit` begin with `commit`
/// itself, so that a commit is its own ancestor; hold no commit twice;
/// and every one of them can be had from `commit` by going from a commit
/// to one of its parents, any number of times.
pub proof fn lemma_ancestors_sound(objects: Store, commit: Seq<u8>)
    requires
        objects.dom().finite(),
        ancestors(objects, seq![commit]) is Ok,
    ensures
        ancestors(objects, seq![commit])->Ok_0.len() >= 1,
        ancestors(objects, seq![commit])->Ok_0[0] == commit,
        ancestors(objects, seq![commit])->Ok_0.contains(commit),
        ancestors(objects, seq![commit])->Ok_0.no_duplicates(),
        forall|x: Seq<u8>| #[trigger]
            ancestors(objects, seq![commit])->Ok_0.contains(x) ==> reaches(objects, commit, x),
{
    let roots = seq![commit];
    let empty = Seq::<Seq<u8>>::empty();
    let list = ancestors(objects, roots)->Ok_0;
    lemma_reaches_self(objects, commit);
    assert forall|x: Seq<u8>| roots.contains(x) implies reaches_from(objects, roots, x) by {
        assert(roots[0] == commit);
    }
    lemma_walk_sound(objects, roots, roots, empty);
    assert forall|x: Seq<u8>| #[trigger] list.contains(x) implies reaches(objects, commit, x) by {
        assert(reaches_from(objects, roots, x));
    }
    lemma_walk_closed(objects, roots, empty);
    assert(roots.last() == commit);
    assert(!empty.contains(commit));
    let c = commit_at(objects, commit)->Ok_0;
    lemma_visit(objects, empty, commit);
    lemma_walk_closed(objects, roots.drop_last() + c.parents, empty.push(commit));
    assert(empty.push(commit) =~= list.subrange(0, 1));
    assert(list.subrange(0, 1)[0] == list[0]);
    assert(empty.push(commit)[0] == commit);
}

/// The commits listed from `commit` hold every commit that `commit`
/// reaches.
pub proof fn lemma_ancestors_complete(objects: Store, commit: Seq<u8>, other: Seq<u8>)
    requires
        objects.dom().finite(),
        ancestors(objects, seq![commit]) is Ok,
        reaches(objects, commit, other),
    ensures
        ancestors(objects, seq![commit])->Ok_0.contains(other),
{
    let path = choose|path: Seq<Seq<u8>>|
        is_chain(objects, path) && path[0] == commit && path.last() == other;
    lemma_chain_listed(objects, commit, path, (path.len() - 1) as nat);
}

/// The commits listed from `commit` hold the first commits of every chain
/// that begins with `commit`.
proof fn lemma_chain_listed(objects: Store, commit: Seq<u8>, path: Seq<Seq<u8>>, i: nat)
    requires
        objects.dom().finite(),
        ancestors(objects, seq![commit]) is Ok,
        is_chain(objects, path),
        path[0] == commit,
        i < path.len(),
    ensures
        ancestors(objects, seq![commit])->Ok_0.contains(path[i as int]),
    decreases i,
{
    let roots = seq![commit];
    lemma_walk_closed(objects, roots, Seq::empty());
    assert(roots[0] == commit);
    assert(roots.contains(commit));
    if i > 0 {
        lemma_chain_listed(objects, commit, path, (i - 1) as nat);
        assert(is_parent(objects, path[i - 1], path[i as int]));
    }
}

/// Where `ancestor` is among the commits listed from `commit`, it is the
/// merge base of the two.
pub proof fn lemma_merge_base_of_ancestor(objects: Store, commit: Seq<u8>, ancestor: Seq<u8>)
    requires
        objects.dom().finite(),
        ancestors(objects, seq![commit]) is Ok,
        ancestors(objects, seq![commit])->Ok_0.contains(ancestor),
        ancestors(objects, seq![ancestor]) is Ok,
    ensures
        merge_base(objects, commit, ancestor) == Ok::<_, Error>(Some(ancestor)),
{
    lemma_ancestors_sound(objects, ancestor);
}

/// Merge base of a line of history: where `c` has the one parent `b` and
/// `b` has the one parent `a`, the merge base of `c` and `a` is `a`,
/// provided that the commits behind them can be read.
pub proof fn lemma_merge_base_linear(objects: Store, a: Seq<u8>, b: Seq<u8>, c: Seq<u8>)
    requires
        objects.dom().finite(),
        commit_at(objects, c) is Ok,
        commit_at(objects, c)->Ok_0.parents == seq![b],
        commit_at(objects, b) is Ok,
        commit_at(objects, b)->Ok_0.parents == seq![a],
        merge_base(objects, c, a) is Ok,
    ensures
        merge_base(objects, c, a) == Ok::<_, Error>(Some(a)),
{
    let path = seq![c, b, a];
    assert(seq![b][0] == b);
    assert(seq![a][0] == a);
    assert(seq![b].contains(b));
    assert(seq![a].contains(a));
    assert(is_chain(objects, path)) by {
        assert forall|i: int| #![trigger path[i]] 0 <= i < path.len() - 1 implies is_parent(
            objects,
            path[i],
            path[i + 1],
        ) by {
            if i == 0 {
                assert(path[0] == c && path[1] == b);
            } else {
                assert(path[1] == b && path[2] == a);
            }
        }
    }
    assert(path[0] == c && path.last() == a);
    assert(reaches(objects, c, a));
    lemma_ancestors_complete(objects, c, a);
    lemma_merge_base_of_ancestor(objects, c, a);
}

} // verus!
