//! What the commands that only look at a repository show: the history of
//! a commit, a commit with its changes, the state of the working tree, and
//! the graph of references and commits. The values here are for a caller
//! to print.

use crate::base::{
    commit_at, current_branch, files_of, get_branch_name, get_commit, get_oid, get_tree,
    get_working_files, get_working_tree, revision, snapshot, tree_files, Entry,
};
use crate::bytes::{bytes_eq, copy, opt_eq, opt_view, opt_views, pair_views, slice, views};
use crate::data::{
    all_refs, get_ref, get_refs, merge_head, merge_head_name, named_views, ref_value, RefValue,
    RefValueView, Repository, Store,
};
use crate::diff::{
    all_paths, blob_text, change_views, changed_files, compare_trees, compared, diff_trees,
    get_blob, get_changed_files, row, row_views, tree_diff, tree_views, Change,
};
use crate::error::Error;
use crate::graph::{ancestors, get_commits_and_parents};
use crate::text::{diff_text, pieces, unified};
use crate::{Commit, CommitView};
use vstd::prelude::*;

verus! {

// ---------------------------------------------------------------------
// History
// ---------------------------------------------------------------------

/// A commit in a history: its identifier, what it holds, and the names of
/// the references that stand for it.
#[derive(Debug, Clone, PartialEq, Eq)]
pub struct LogEntry {
    pub oid: Vec<u8>,
    pub commit: Commit,
    pub refs: Vec<Vec<u8>>,
}

/// A [`LogEntry`] as a mathematical value.
pub struct LogEntryView {
    pub oid: Seq<u8>,
    pub commit: CommitView,
    pub refs: Seq<Seq<u8>>,
}

impl View for LogEntry {
    type V = LogEntryView;

    open spec fn view(&self) -> LogEntryView {
        LogEntryView { oid: self.oid@, commit: self.commit@, refs: views(self.refs@) }
    }
}

/// The entries that a list holds.
pub open spec fn log_views(v: Seq<LogEntry>) -> Seq<LogEntryView> {
    Seq::new(v.len(), |i: int| v[i]@)
}

/// The beginning of an identifier: its first ten bytes, or all where it
/// has fewer.
pub open spec fn short_oid(oid: Seq<u8>) -> Seq<u8> {
    if oid.len() <= 10 {
        oid
    } else {
        oid.take(10)
    }
}

/// The first ten bytes of an identifier, for showing it.
pub fn shorten_oid(oid: &[u8]) -> (r: Vec<u8>)
    ensures
        r@ == short_oid(oid@),
{
    if oid.len() <= 10 {
        copy(oid)
    } else {
        slice(oid, 0, 10)
    }
}

/// The names of those of the first `n` listed references whose value is
/// `oid`.
pub open spec fn names_at(listing: Seq<(Seq<u8>, RefValueView)>, n: nat, oid: Seq<u8>) -> Seq<
    Seq<u8>,
>
    decreases n,
{
    if n == 0 {
        Seq::empty()
    } else if listing[n - 1].1.value == Some(oid) {
        names_at(listing, (n - 1) as nat, oid).push(listing[n - 1].0)
    } else {
        names_at(listing, (n - 1) as nat, oid)
    }
}

/// The history entries for the first `n` of `commits`.
pub open spec fn log_entries(
    objects: Store,
    listing: Seq<(Seq<u8>, RefValueView)>,
    commits: Seq<Seq<u8>>,
    n: nat,
) -> Result<Seq<LogEntryView>, Error>
    decreases n,
{
    if n == 0 {
        Ok(Seq::empty())
    } else {
        match log_entries(objects, listing, commits, (n - 1) as nat) {
            Err(e) => Err(e),
            Ok(before) => match commit_at(objects, commits[n - 1]) {
                Err(e) => Err(e),
                Ok(c) => Ok(
                    before.push(
                        LogEntryView {
                            oid: commits[n - 1],
                            commit: c,
                            refs: names_at(listing, listing.len(), commits[n - 1]),
                        },
                    ),
                ),
            },
        }
    }
}

/// History entries that cannot be had for the first `n` commits cannot be
/// had for more of them.
pub proof fn lemma_log_entries_err(
    objects: Store,
    listing: Seq<(Seq<u8>, RefValueView)>,
    commits: Seq<Seq<u8>>,
    n: nat,
    m: nat,
)
    requires
        n <= m,
        log_entries(objects, listing, commits, n) is Err,
    ensures
        log_entries(objects, listing, commits, m) == log_entries(objects, listing, commits, n),
    decreases m,
{
    if n < m {
        lemma_log_entries_err(objects, listing, commits, n, (m - 1) as nat);
    }
}

/// The history of the commit `oid`: the commits that it reaches, each with
/// the names of the references that stand for it.
pub open spec fn history(objects: Store, refs: Store, keys: Seq<Seq<u8>>, oid: Seq<u8>) -> Result<
    Seq<LogEntryView>,
    Error,
> {
    match all_refs(refs, keys, None, true) {
        Err(e) => Err(e),
        Ok(listing) => match ancestors(objects, seq![oid]) {
            Err(e) => Err(e),
            Ok(commits) => log_entries(objects, listing, commits, commits.len()),
        },
    }
}

/// The names of the listed references whose value is `oid`.
fn refs_at(listing: &Vec<(Vec<u8>, RefValue)>, oid: &[u8]) -> (r: Vec<Vec<u8>>)
    ensures
        views(r@) == names_at(named_views(listing@), listing@.len(), oid@),
{
    let mut out: Vec<Vec<u8>> = Vec::new();
    let mut i: usize = 0;
    assert(views(out@) =~= Seq::<Seq<u8>>::empty());
    while i < listing.len()
        invariant
            i <= listing.len(),
            views(out@) == names_at(named_views(listing@), i as nat, oid@),
        decreases listing.len() - i,
    {
        let ghost before = views(out@);
        assert(named_views(listing@)[i as int] == (listing@[i as int].0@, listing@[i as int].1@));
        let same = match &listing[i].1.value {
            Some(value) => bytes_eq(value.as_slice(), oid),
            None => false,
        };
        if same {
            out.push(copy(listing[i].0.as_slice()));
            assert(views(out@) =~= before.push(listing@[i as int].0@));
        }
        i += 1;
    }
    out
}

/// The history of the commit `oid`: each commit that it reaches, in the
/// order of [`get_commits_and_parents`], with what it holds and with the
/// names of the references that stand for it. Fails where a chain of
/// symbolic references returns to itself or a commit cannot be had.
pub fn log(repo: &Repository, oid: &[u8]) -> (r: Result<Vec<LogEntry>, Error>)
    requires
        repo.wf(),
    ensures
        match r {
            Ok(v) => history(repo.objects@, repo.refs@, repo.refs.keys(), oid@) == Ok::<_, Error>(
                log_views(v@),
            ),
            Err(e) => history(repo.objects@, repo.refs@, repo.refs.keys(), oid@) == Err::<
                Seq<LogEntryView>,
                _,
            >(e),
        },
{
    let listing = match get_refs(repo, None, true) {
        Ok(listing) => listing,
        Err(e) => {
            return Err(e);
        },
    };
    let mut roots: Vec<Vec<u8>> = Vec::new();
    roots.push(copy(oid));
    assert(views(roots@) =~= seq![oid@]);
    let commits = match get_commits_and_parents(repo, &roots) {
        Ok(commits) => commits,
        Err(e) => {
            return Err(e);
        },
    };
    let ghost list = views(commits@);
    let ghost named = named_views(listing@);
    let mut out: Vec<LogEntry> = Vec::new();
    let mut i: usize = 0;
    assert(log_views(out@) =~= Seq::<LogEntryView>::empty());
    while i < commits.len()
        invariant
            i <= commits.len(),
            repo.wf(),
            list == views(commits@),
            named == named_views(listing@),
            all_refs(repo.refs@, repo.refs.keys(), None, true) == Ok::<_, Error>(named),
            ancestors(repo.objects@, seq![oid@]) == Ok::<_, Error>(list),
            log_entries(repo.objects@, named, list, i as nat) == Ok::<_, Error>(log_views(out@)),
        decreases commits.len() - i,
    {
        let ghost before = log_views(out@);
        assert(list[i as int] == commits@[i as int]@);
        let record = match get_commit(repo, commits[i].as_slice()) {
            Ok(c) => c,
            Err(e) => {
                proof {
                    lemma_log_entries_err(repo.objects@, named, list, (i + 1) as nat, list.len());
                }
                return Err(e);
            },
        };
        let entry = LogEntry {
            oid: copy(commits[i].as_slice()),
            commit: record,
            refs: refs_at(&listing, commits[i].as_slice()),
        };
        out.push(entry);
        assert(log_views(out@) =~= before.push(entry@));
        i += 1;
    }
    Ok(out)
}

// ---------------------------------------------------------------------
// One commit
// ---------------------------------------------------------------------

/// A commit and the report of what it changed: the difference between the
/// tree of its first parent, or no tree where it has none, and its own.
pub open spec fn shown(objects: Store, oid: Seq<u8>) -> Result<(CommitView, Seq<u8>), Error> {
    match commit_at(objects, oid) {
        Err(e) => Err(e),
        Ok(c) => {
            let parent_tree = if c.parents.len() == 0 {
                Ok(None)
            } else {
                match commit_at(objects, c.parents[0]) {
                    Ok(p) => Ok(Some(p.tree)),
                    Err(e) => Err(e),
                }
            };
            match parent_tree {
                Err(e) => Err(e),
                Ok(before) => match tree_files(objects, before, Seq::empty()) {
                    Err(e) => Err(e),
                    Ok(from) => match tree_files(objects, Some(c.tree), Seq::empty()) {
                        Err(e) => Err(e),
                        Ok(to) => match tree_diff(objects, from, to) {
                            Err(e) => Err(e),
                            Ok(text) => Ok((c, text)),
                        },
                    },
                },
            }
        },
    }
}

/// The commit `oid` and the unified report of the difference between the
/// tree of its first parent and its own tree; a commit without parents is
/// compared with no tree. Fails where a commit, a tree or a blob cannot be
/// had.
pub fn show(repo: &Repository, oid: &[u8]) -> (r: Result<(Commit, Vec<u8>), Error>)
    requires
        repo.wf(),
    ensures
        match r {
            Ok(p) => shown(repo.objects@, oid@) == Ok::<_, Error>((p.0@, p.1@)),
            Err(e) => shown(repo.objects@, oid@) == Err::<(CommitView, Seq<u8>), _>(e),
        },
{
    let record = match get_commit(repo, oid) {
        Ok(c) => c,
        Err(e) => {
            return Err(e);
        },
    };
    let parent_tree: Option<Vec<u8>> = if record.parents.len() == 0 {
        None
    } else {
        assert(views(record.parents@)[0] == record.parents@[0]@);
        match get_commit(repo, record.parents[0].as_slice()) {
            Ok(p) => Some(p.tree),
            Err(e) => {
                return Err(e);
            },
        }
    };
    let from = match &parent_tree {
        Some(tree) => get_tree(repo, Some(tree.as_slice()), None),
        None => get_tree(repo, None, None),
    };
    let from = match from {
        Ok(files) => files,
        Err(e) => {
            return Err(e);
        },
    };
    let to = match get_tree(repo, Some(record.tree.as_slice()), None) {
        Ok(files) => files,
        Err(e) => {
            return Err(e);
        },
    };
    match diff_trees(repo, &from, &to) {
        Ok(text) => Ok((record, text)),
        Err(e) => Err(e),
    }
}

// ---------------------------------------------------------------------
// The state of the working tree
// ---------------------------------------------------------------------

/// The state of a working tree against the commit of `HEAD`.
#[derive(Debug, Clone, PartialEq, Eq)]
pub struct Status {
    /// The commit of `HEAD`.
    pub head: Vec<u8>,
    /// The branch that is checked out, if `HEAD` names one.
    pub branch: Option<Vec<u8>>,
    /// The commit that is being merged, if a merge is in progress.
    pub merging: Option<Vec<u8>>,
    /// The files that differ from the commit of `HEAD`.
    pub changes: Vec<(Vec<u8>, Change)>,
}

/// A [`Status`] as a mathematical value.
pub struct StatusView {
    pub head: Seq<u8>,
    pub branch: Option<Seq<u8>>,
    pub merging: Option<Seq<u8>>,
    pub changes: Seq<(Seq<u8>, Change)>,
}

impl View for Status {
    type V = StatusView;

    open spec fn view(&self) -> StatusView {
        StatusView {
            head: self.head@,
            branch: opt_view(self.branch),
            merging: opt_view(self.merging),
            changes: change_views(self.changes@),
        }
    }
}

/// The state of the working tree with these entries: the commit that
/// `HEAD` stands for, the branch, the commit of `MERGE_HEAD`, and the files
/// that differ between the tree of the commit and the working tree. Where
/// `HEAD` stands for no commit, there is no state but an
/// `UnknownRevision`.
pub open spec fn state(objects: Store, refs: Store, entries: Seq<Entry>) -> Result<
    StatusView,
    Error,
> {
    match revision(refs, seq![0x40u8]) {
        Err(e) => Err(e),
        Ok(None) => Err(Error::UnknownRevision),
        Ok(Some(head)) => match ref_value(refs, merge_head_name(), true) {
            Err(e) => Err(e),
            Ok(merge) => match commit_at(objects, head) {
                Err(e) => Err(e),
                Ok(c) => match tree_files(objects, Some(c.tree), Seq::empty()) {
                    Err(e) => Err(e),
                    Ok(files) => Ok(
                        StatusView {
                            head,
                            branch: current_branch(refs),
                            merging: merge.value,
                            changes: changed_files(
                                files,
                                snapshot(entries, entries.len(), Seq::empty()),
                            ),
                        },
                    ),
                },
            },
        },
    }
}

/// The state of the working tree with these entries against the commit of
/// `HEAD`: that commit, the branch that is checked out, the commit that is
/// being merged, and each file that was added, deleted or modified. Fails
/// with `UnknownRevision` where `HEAD` stands for no commit, and where a
/// reference, the commit or its tree cannot be had.
pub fn status(repo: &Repository, entries: &Vec<Entry>) -> (r: Result<Status, Error>)
    requires
        repo.wf(),
    ensures
        match r {
            Ok(s) => state(repo.objects@, repo.refs@, entries@) == Ok::<_, Error>(s@),
            Err(e) => state(repo.objects@, repo.refs@, entries@) == Err::<StatusView, _>(e),
        },
{
    let mut at: Vec<u8> = Vec::new();
    at.push(0x40);
    assert(at@ =~= seq![0x40u8]);
    let head = match get_oid(repo, at.as_slice()) {
        Ok(Some(oid)) => oid,
        Ok(None) => {
            return Err(Error::UnknownRevision);
        },
        Err(e) => {
            return Err(e);
        },
    };
    let branch = get_branch_name(repo);
    let merge_ref = merge_head();
    let merging = match get_ref(repo, merge_ref.as_slice(), true) {
        Ok(value) => value.value,
        Err(e) => {
            return Err(e);
        },
    };
    let record = match get_commit(repo, head.as_slice()) {
        Ok(c) => c,
        Err(e) => {
            return Err(e);
        },
    };
    let files = match get_tree(repo, Some(record.tree.as_slice()), None) {
        Ok(files) => files,
        Err(e) => {
            return Err(e);
        },
    };
    let working = get_working_tree(entries);
    let changes = get_changed_files(&files, &working);
    Ok(Status { head, branch, merging, changes })
}

// ---------------------------------------------------------------------
// The graph of references and commits
// ---------------------------------------------------------------------

/// The values of those of the first `n` listed references that are not
/// symbolic.
pub open spec fn direct_refs(listing: Seq<(Seq<u8>, RefValueView)>, n: nat) -> Seq<Seq<u8>>
    decreases n,
{
    if n == 0 {
        Seq::empty()
    } else if !listing[n - 1].1.symbolic && listing[n - 1].1.value is Some {
        direct_refs(listing, (n - 1) as nat).push(listing[n - 1].1.value->0)
    } else {
        direct_refs(listing, (n - 1) as nat)
    }
}

/// The first `n` of `commits`, each with its first parent, if it has one.
pub open spec fn first_parents(objects: Store, commits: Seq<Seq<u8>>, n: nat) -> Result<
    Seq<(Seq<u8>, Option<Seq<u8>>)>,
    Error,
>
    decreases n,
{
    if n == 0 {
        Ok(Seq::empty())
    } else {
        match first_parents(objects, commits, (n - 1) as nat) {
            Err(e) => Err(e),
            Ok(before) => match commit_at(objects, commits[n - 1]) {
                Err(e) => Err(e),
                Ok(c) => Ok(
                    before.push(
                        (
                            commits[n - 1],
                            if c.parents.len() == 0 {
                                None
                            } else {
                                Some(c.parents[0])
                            },
                        ),
                    ),
                ),
            },
        }
    }
}

/// First parents that cannot be had for the first `n` commits cannot be
/// had for more of them.
pub proof fn lemma_first_parents_err(objects: Store, commits: Seq<Seq<u8>>, n: nat, m: nat)
    requires
        n <= m,
        first_parents(objects, commits, n) is Err,
    ensures
        first_parents(objects, commits, m) == first_parents(objects, commits, n),
    decreases m,
{
    if n < m {
        lemma_first_parents_err(objects, commits, n, (m - 1) as nat);
    }
}

/// The graph of a repository: its references as they are, without
/// following symbolic ones, and the commits that the references which hold
/// identifiers lead to, each with its first parent.
pub open spec fn graph_of(objects: Store, refs: Store, keys: Seq<Seq<u8>>) -> Result<
    (Seq<(Seq<u8>, RefValueView)>, Seq<(Seq<u8>, Option<Seq<u8>>)>),
    Error,
> {
    match all_refs(refs, keys, None, false) {
        Err(e) => Err(e),
        Ok(listing) => match ancestors(objects, direct_refs(listing, listing.len())) {
            Err(e) => Err(e),
            Ok(commits) => match first_parents(objects, commits, commits.len()) {
                Err(e) => Err(e),
                Ok(edges) => Ok((listing, edges)),
            },
        },
    }
}

/// The first parts of pairs of an identifier and an optional one.
pub open spec fn edge_views(v: Seq<(Vec<u8>, Option<Vec<u8>>)>) -> Seq<(Seq<u8>, Option<Seq<u8>>)> {
    Seq::new(v.len(), |i: int| (v[i].0@, opt_view(v[i].1)))
}

/// The graph of the repository, for drawing it: every reference with what
/// it holds, symbolic ones unfollowed, and every commit that the
/// references which hold identifiers lead to, with its first parent. Fails
/// where a commit cannot be had.
pub fn k(repo: &Repository) -> (r: Result<
    (Vec<(Vec<u8>, RefValue)>, Vec<(Vec<u8>, Option<Vec<u8>>)>),
    Error,
>)
    requires
        repo.wf(),
    ensures
        match r {
            Ok(p) => graph_of(repo.objects@, repo.refs@, repo.refs.keys()) == Ok::<_, Error>(
                (named_views(p.0@), edge_views(p.1@)),
            ),
            Err(e) => graph_of(repo.objects@, repo.refs@, repo.refs.keys()) == Err::<
                (Seq<(Seq<u8>, RefValueView)>, Seq<(Seq<u8>, Option<Seq<u8>>)>),
                _,
            >(e),
        },
{
    let listing = match get_refs(repo, None, false) {
        Ok(listing) => listing,
        Err(e) => {
            return Err(e);
        },
    };
    let ghost named = named_views(listing@);
    let mut roots: Vec<Vec<u8>> = Vec::new();
    let mut i: usize = 0;
    assert(views(roots@) =~= Seq::<Seq<u8>>::empty());
    while i < listing.len()
        invariant
            i <= listing.len(),
            named == named_views(listing@),
            views(roots@) == direct_refs(named, i as nat),
        decreases listing.len() - i,
    {
        let ghost before = views(roots@);
        assert(named[i as int] == (listing@[i as int].0@, listing@[i as int].1@));
        if !listing[i].1.symbolic {
            match &listing[i].1.value {
                Some(value) => {
                    roots.push(copy(value.as_slice()));
                    assert(views(roots@) =~= before.push(value@));
                },
                None => {},
            }
        }
        i += 1;
    }
    let commits = match get_commits_and_parents(repo, &roots) {
        Ok(commits) => commits,
        Err(e) => {
            return Err(e);
        },
    };
    let ghost list = views(commits@);
    let mut edges: Vec<(Vec<u8>, Option<Vec<u8>>)> = Vec::new();
    let mut j: usize = 0;
    assert(edge_views(edges@) =~= Seq::<(Seq<u8>, Option<Seq<u8>>)>::empty());
    while j < commits.len()
        invariant
            j <= commits.len(),
            repo.wf(),
            list == views(commits@),
            named == named_views(listing@),
            all_refs(repo.refs@, repo.refs.keys(), None, false) == Ok::<_, Error>(named),
            ancestors(repo.objects@, direct_refs(named, named.len())) == Ok::<_, Error>(list),
            first_parents(repo.objects@, list, j as nat) == Ok::<_, Error>(edge_views(edges@)),
        decreases commits.len() - j,
    {
        let ghost before = edge_views(edges@);
        assert(list[j as int] == commits@[j as int]@);
        let record = match get_commit(repo, commits[j].as_slice()) {
            Ok(c) => c,
            Err(e) => {
                proof {
                    lemma_first_parents_err(repo.objects@, list, (j + 1) as nat, list.len());
                }
                return Err(e);
            },
        };
        let parent: Option<Vec<u8>> = if record.parents.len() == 0 {
            None
        } else {
            assert(views(record.parents@)[0] == record.parents@[0]@);
            Some(copy(record.parents[0].as_slice()))
        };
        edges.push((copy(commits[j].as_slice()), parent));
        assert(edge_views(edges@) =~= before.push((commits@[j as int]@, opt_view(parent))));
        j += 1;
    }
    Ok((listing, edges))
}

// ---------------------------------------------------------------------
// Changes in the working tree
// ---------------------------------------------------------------------

/// The contents of the last of the first `n` files with this path, if
/// there is such a file.
pub open spec fn content_at(files: Seq<(Seq<u8>, Seq<u8>)>, n: nat, path: Seq<u8>) -> Option<
    Seq<u8>,
>
    decreases n,
{
    if n == 0 {
        None
    } else if files[n - 1].0 == path {
        Some(files[n - 1].1)
    } else {
        content_at(files, (n - 1) as nat, path)
    }
}

/// The text of the working file at `path`; the empty text where there is
/// none.
pub open spec fn working_text(files: Seq<(Seq<u8>, Seq<u8>)>, path: Seq<u8>) -> Seq<u8> {
    match content_at(files, files.len(), path) {
        Some(text) => text,
        None => Seq::empty(),
    }
}

/// The reports for the first `n` rows of a comparison of a stored tree
/// with a working tree, one after the other: one for each path at which
/// the two differ, between the stored blob and the working file.
pub open spec fn work_diffs(
    objects: Store,
    rows: Seq<(Seq<u8>, Seq<Option<Seq<u8>>>)>,
    files: Seq<(Seq<u8>, Seq<u8>)>,
    n: nat,
) -> Result<Seq<u8>, Error>
    decreases n,
{
    if n == 0 {
        Ok(Seq::empty())
    } else {
        match work_diffs(objects, rows, files, (n - 1) as nat) {
            Err(e) => Err(e),
            Ok(before) => {
                let (path, cells) = rows[n - 1];
                if cells[0] == cells[1] {
                    Ok(before)
                } else {
                    match blob_text(objects, cells[0]) {
                        Err(e) => Err(e),
                        Ok(from) => Ok(
                            before + unified(path, pieces(from), pieces(working_text(files, path))),
                        ),
                    }
                }
            },
        }
    }
}

/// Reports that fail for the first `n` rows fail for more of them.
pub proof fn lemma_work_diffs_err(
    objects: Store,
    rows: Seq<(Seq<u8>, Seq<Option<Seq<u8>>>)>,
    files: Seq<(Seq<u8>, Seq<u8>)>,
    n: nat,
    m: nat,
)
    requires
        n <= m,
        work_diffs(objects, rows, files, n) is Err,
    ensures
        work_diffs(objects, rows, files, m) == work_diffs(objects, rows, files, n),
    decreases m,
{
    if n < m {
        lemma_work_diffs_err(objects, rows, files, n, (m - 1) as nat);
    }
}

/// The report of the differences between the tree of the commit `oid` and
/// the working tree with these entries.
pub open spec fn working_diff(objects: Store, oid: Seq<u8>, entries: Seq<Entry>) -> Result<
    Seq<u8>,
    Error,
> {
    match commit_at(objects, oid) {
        Err(e) => Err(e),
        Ok(c) => match tree_files(objects, Some(c.tree), Seq::empty()) {
            Err(e) => Err(e),
            Ok(stored) => {
                let rows = compared(seq![stored, snapshot(entries, entries.len(), Seq::empty())]);
                work_diffs(objects, rows, files_of(entries, entries.len(), Seq::empty()), rows.len())
            },
        },
    }
}

/// The contents of the file at `path`, or the empty text.
fn find_text(files: &Vec<(Vec<u8>, Vec<u8>)>, path: &[u8]) -> (r: Vec<u8>)
    ensures
        r@ == working_text(pair_views(files@), path@),
{
    let mut i: usize = files.len();
    while i > 0
        invariant
            i <= files.len(),
            content_at(pair_views(files@), files@.len(), path@) == content_at(
                pair_views(files@),
                i as nat,
                path@,
            ),
        decreases i,
    {
        i -= 1;
        assert(pair_views(files@)[i as int] == (files@[i as int].0@, files@[i as int].1@));
        if bytes_eq(files[i].0.as_slice(), path) {
            return copy(files[i].1.as_slice());
        }
    }
    Vec::new()
}

/// Writes the report of the differences between the tree of the commit
/// `oid` and the working tree with these entries: for each path at which
/// the two differ, the unified report of the stored text and the text of
/// the working file, either of which is empty where the file is missing.
/// Nothing is stored. Fails where the commit, its tree or a blob cannot be
/// had.
pub fn diff(repo: &Repository, oid: &[u8], entries: &Vec<Entry>) -> (r: Result<Vec<u8>, Error>)
    requires
        repo.wf(),
    ensures
        match r {
            Ok(v) => working_diff(repo.objects@, oid@, entries@) == Ok::<_, Error>(v@),
            Err(e) => working_diff(repo.objects@, oid@, entries@) == Err::<Seq<u8>, _>(e),
        },
{
    let record = match get_commit(repo, oid) {
        Ok(c) => c,
        Err(e) => {
            return Err(e);
        },
    };
    let stored = match get_tree(repo, Some(record.tree.as_slice()), None) {
        Ok(files) => files,
        Err(e) => {
            return Err(e);
        },
    };
    let working = get_working_tree(entries);
    let files = get_working_files(entries);
    let mut trees: Vec<&Vec<(Vec<u8>, Vec<u8>)>> = Vec::new();
    trees.push(&stored);
    trees.push(&working);
    let ghost both = seq![pair_views(stored@), pair_views(working@)];
    assert(tree_views(trees@) =~= both);
    let rows = compare_trees(&trees);
    let ghost list = row_views(rows@);
    let ghost texts = pair_views(files@);
    let mut out: Vec<u8> = Vec::new();
    let mut i: usize = 0;
    while i < rows.len()
        invariant
            i <= rows.len(),
            repo.wf(),
            list == row_views(rows@),
            texts == pair_views(files@),
            both == seq![pair_views(stored@), pair_views(working@)],
            list == compared(both),
            commit_at(repo.objects@, oid@) == Ok::<_, Error>(record@),
            tree_files(repo.objects@, Some(record@.tree), Seq::empty()) == Ok::<_, Error>(
                pair_views(stored@),
            ),
            pair_views(working@) == snapshot(entries@, entries@.len(), Seq::empty()),
            texts == files_of(entries@, entries@.len(), Seq::empty()),
            work_diffs(repo.objects@, list, texts, i as nat) == Ok::<_, Error>(out@),
        decreases rows.len() - i,
    {
        let cells = &rows[i].1;
        assert(list[i as int] == (rows@[i as int].0@, opt_views(rows@[i as int].1@)));
        assert(list[i as int].1.len() == 2) by {
            let paths = all_paths(both, both.len());
            assert(list.len() == paths.len());
            assert(list[i as int] == (paths[i as int], row(both, paths[i as int])));
        }
        assert(opt_views(cells@)[0] == opt_view(cells@[0]));
        assert(opt_views(cells@)[1] == opt_view(cells@[1]));
        if !opt_eq(&cells[0], &cells[1]) {
            match get_blob(repo, &cells[0]) {
                Err(e) => {
                    proof {
                        lemma_work_diffs_err(
                            repo.objects@,
                            list,
                            texts,
                            (i + 1) as nat,
                            list.len(),
                        );
                    }
                    return Err(e);
                },
                Ok(from) => {
                    let to = find_text(&files, rows[i].0.as_slice());
                    let text = diff_text(rows[i].0.as_slice(), from.as_slice(), to.as_slice());
                    let ghost before = out@;
                    out.extend_from_slice(text.as_slice());
                    assert(out@ =~= before + text@);
                },
            }
        }
        i += 1;
    }
    Ok(out)
}

} // verus!
