//! Comparing trees, and comparing and merging the text of files line by
//! line.

use crate::base::{blob, blob_tag};
use crate::bytes::{
    add_unique, bytes_eq, copy, list_contains, opt_eq, opt_view, opt_views, pair_views, views,
};
use crate::data::{get_object, read_payload, Repository, Store};
use crate::error::Error;
use crate::text::{diff_text, merge_text, merged_text, pieces, unified};
use vstd::prelude::*;

verus! {

// ---------------------------------------------------------------------
// Trees side by side
// ---------------------------------------------------------------------

/// The files that each tree of a list holds.
pub open spec fn tree_views(trees: Seq<&Vec<(Vec<u8>, Vec<u8>)>>) -> Seq<Seq<(Seq<u8>, Seq<u8>)>> {
    Seq::new(trees.len(), |i: int| pair_views(trees[i]@))
}

/// Rows of a comparison as mathematical values.
pub open spec fn row_views(rows: Seq<(Vec<u8>, Vec<Option<Vec<u8>>>)>) -> Seq<
    (Seq<u8>, Seq<Option<Seq<u8>>>),
> {
    Seq::new(rows.len(), |i: int| (rows[i].0@, opt_views(rows[i].1@)))
}

/// `found` with the paths of the first `n` files of `tree` that it does
/// not hold yet, in their order.
pub open spec fn tree_paths(tree: Seq<(Seq<u8>, Seq<u8>)>, n: nat, found: Seq<Seq<u8>>) -> Seq<
    Seq<u8>,
>
    decreases n,
{
    if n == 0 {
        found
    } else {
        add_unique(tree_paths(tree, (n - 1) as nat, found), tree[n - 1].1)
    }
}

/// The paths of the first `k` trees, each once, in the order in which they
/// first occur.
pub open spec fn all_paths(trees: Seq<Seq<(Seq<u8>, Seq<u8>)>>, k: nat) -> Seq<Seq<u8>>
    decreases k,
{
    if k == 0 {
        Seq::empty()
    } else {
        tree_paths(trees[k - 1], trees[k - 1].len(), all_paths(trees, (k - 1) as nat))
    }
}

/// The identifier that the last of the first `n` files of `tree` with this
/// path has, if there is such a file.
pub open spec fn oid_at(tree: Seq<(Seq<u8>, Seq<u8>)>, n: nat, path: Seq<u8>) -> Option<Seq<u8>>
    decreases n,
{
    if n == 0 {
        None
    } else if tree[n - 1].1 == path {
        Some(tree[n - 1].0)
    } else {
        oid_at(tree, (n - 1) as nat, path)
    }
}

/// What each tree holds at `path`.
pub open spec fn row(trees: Seq<Seq<(Seq<u8>, Seq<u8>)>>, path: Seq<u8>) -> Seq<Option<Seq<u8>>> {
    Seq::new(trees.len(), |i: int| oid_at(trees[i], trees[i].len(), path))
}

/// The trees side by side: for each path that occurs in one of them, in
/// the order of first occurrence, what each tree holds there.
pub open spec fn compared(trees: Seq<Seq<(Seq<u8>, Seq<u8>)>>) -> Seq<
    (Seq<u8>, Seq<Option<Seq<u8>>>),
> {
    let paths = all_paths(trees, trees.len());
    Seq::new(paths.len(), |j: int| (paths[j], row(trees, paths[j])))
}

/// The identifier that `tree` holds at `path`.
fn find_oid(tree: &Vec<(Vec<u8>, Vec<u8>)>, path: &[u8]) -> (r: Option<Vec<u8>>)
    ensures
        opt_view(r) == oid_at(pair_views(tree@), tree@.len(), path@),
{
    let mut i: usize = tree.len();
    while i > 0
        invariant
            i <= tree.len(),
            oid_at(pair_views(tree@), tree@.len(), path@) == oid_at(
                pair_views(tree@),
                i as nat,
                path@,
            ),
        decreases i,
    {
        i -= 1;
        assert(pair_views(tree@)[i as int].1 == tree@[i as int].1@);
        if bytes_eq(tree[i].1.as_slice(), path) {
            return Some(copy(tree[i].0.as_slice()));
        }
    }
    None
}

/// Lays the trees side by side: one row for each path that occurs in one
/// of them, in the order of first occurrence, with the identifier that each
/// tree holds at that path, or none.
pub fn compare_trees(trees: &Vec<&Vec<(Vec<u8>, Vec<u8>)>>) -> (r: Vec<
    (Vec<u8>, Vec<Option<Vec<u8>>>),
>)
    ensures
        row_views(r@) == compared(tree_views(trees@)),
{
    let ghost all = tree_views(trees@);
    let mut paths: Vec<Vec<u8>> = Vec::new();
    assert(views(paths@) =~= Seq::<Seq<u8>>::empty());
    let mut k: usize = 0;
    while k < trees.len()
        invariant
            k <= trees.len(),
            all == tree_views(trees@),
            views(paths@) == all_paths(all, k as nat),
        decreases trees.len() - k,
    {
        let tree = trees[k];
        assert(all[k as int] == pair_views(tree@));
        let ghost start = views(paths@);
        let mut i: usize = 0;
        while i < tree.len()
            invariant
                i <= tree.len(),
                views(paths@) == tree_paths(pair_views(tree@), i as nat, start),
            decreases tree.len() - i,
        {
            let ghost before = views(paths@);
            assert(pair_views(tree@)[i as int].1 == tree@[i as int].1@);
            if !list_contains(&paths, tree[i].1.as_slice()) {
                paths.push(copy(tree[i].1.as_slice()));
                assert(views(paths@) =~= before.push(tree@[i as int].1@));
            }
            i += 1;
        }
        k += 1;
    }
    let mut out: Vec<(Vec<u8>, Vec<Option<Vec<u8>>>)> = Vec::new();
    let mut j: usize = 0;
    while j < paths.len()
        invariant
            j <= paths.len(),
            all == tree_views(trees@),
            views(paths@) == all_paths(all, all.len()),
            out@.len() == j,
            forall|x: int|
                0 <= x < j ==> (#[trigger] row_views(out@)[x]) == (
                    views(paths@)[x],
                    row(all, views(paths@)[x]),
                ),
        decreases paths.len() - j,
    {
        let mut cells: Vec<Option<Vec<u8>>> = Vec::new();
        let mut t: usize = 0;
        while t < trees.len()
            invariant
                t <= trees.len(),
                j < paths.len(),
                all == tree_views(trees@),
                cells@.len() == t,
                forall|x: int|
                    0 <= x < t ==> opt_view(#[trigger] cells@[x]) == oid_at(
                        all[x],
                        all[x].len(),
                        paths@[j as int]@,
                    ),
            decreases trees.len() - t,
        {
            let cell = find_oid(trees[t], paths[j].as_slice());
            assert(all[t as int] == pair_views(trees@[t as int]@));
            cells.push(cell);
            t += 1;
        }
        assert(opt_views(cells@) =~= row(all, paths@[j as int]@));
        let ghost before = out@;
        out.push((copy(paths[j].as_slice()), cells));
        assert forall|x: int| 0 <= x < j + 1 implies (#[trigger] row_views(out@)[x]) == (
            views(paths@)[x],
            row(all, views(paths@)[x]),
        ) by {
            if x < j {
                assert(row_views(before)[x] == row_views(out@)[x]);
            }
        }
        j += 1;
    }
    assert(row_views(out@) =~= compared(all));
    out
}

/// How a file differs between two trees.
#[derive(Debug, Clone, Copy, PartialEq, Eq, Structural)]
pub enum Change {
    /// Only the second tree has the file.
    Added,
    /// Only the first tree has the file.
    Deleted,
    /// Both have it, with different contents.
    Modified,
}

impl Change {
    /// The words for the change.
    pub open spec fn label_text(self) -> Seq<char> {
        match self {
            Change::Added => "new file"@,
            Change::Deleted => "deleted"@,
            Change::Modified => "modified"@,
        }
    }

    /// The words for the change: `new file`, `deleted` or `modified`.
    pub fn label(&self) -> (r: &'static str)
        ensures
            r@ == self.label_text(),
    {
        match self {
            Change::Added => "new file",
            Change::Deleted => "deleted",
            Change::Modified => "modified",
        }
    }
}

/// The changes among the first `n` rows of a comparison of two trees: each
/// path at which the two differ, with the way in which they do.
pub open spec fn changes(rows: Seq<(Seq<u8>, Seq<Option<Seq<u8>>>)>, n: nat) -> Seq<
    (Seq<u8>, Change),
>
    decreases n,
{
    if n == 0 {
        Seq::empty()
    } else {
        let rest = changes(rows, (n - 1) as nat);
        let (path, cells) = rows[n - 1];
        if cells[0] == cells[1] {
            rest
        } else if cells[0] is None {
            rest.push((path, Change::Added))
        } else if cells[1] is None {
            rest.push((path, Change::Deleted))
        } else {
            rest.push((path, Change::Modified))
        }
    }
}

/// The files that differ between two trees.
pub open spec fn changed_files(from: Seq<(Seq<u8>, Seq<u8>)>, to: Seq<(Seq<u8>, Seq<u8>)>) -> Seq<
    (Seq<u8>, Change),
> {
    changes(compared(seq![from, to]), compared(seq![from, to]).len())
}

/// The changes that a list holds.
pub open spec fn change_views(v: Seq<(Vec<u8>, Change)>) -> Seq<(Seq<u8>, Change)> {
    Seq::new(v.len(), |i: int| (v[i].0@, v[i].1))
}

/// Lists the paths at which two trees differ, in the order in which the
/// paths first occur: a path that only `t_to` has as added, one that only
/// `t_from` has as deleted, one that both have with different identifiers
/// as modified.
pub fn get_changed_files(t_from: &Vec<(Vec<u8>, Vec<u8>)>, t_to: &Vec<(Vec<u8>, Vec<u8>)>) -> (r:
    Vec<(Vec<u8>, Change)>)
    ensures
        change_views(r@) == changed_files(pair_views(t_from@), pair_views(t_to@)),
{
    let mut trees: Vec<&Vec<(Vec<u8>, Vec<u8>)>> = Vec::new();
    trees.push(t_from);
    trees.push(t_to);
    assert(tree_views(trees@) =~= seq![pair_views(t_from@), pair_views(t_to@)]);
    let rows = compare_trees(&trees);
    let ghost list = row_views(rows@);
    let mut out: Vec<(Vec<u8>, Change)> = Vec::new();
    assert(change_views(out@) =~= Seq::<(Seq<u8>, Change)>::empty());
    let mut i: usize = 0;
    while i < rows.len()
        invariant
            i <= rows.len(),
            list == row_views(rows@),
            list == compared(seq![pair_views(t_from@), pair_views(t_to@)]),
            change_views(out@) == changes(list, i as nat),
        decreases rows.len() - i,
    {
        let ghost before = change_views(out@);
        let cells = &rows[i].1;
        assert(list[i as int] == (rows@[i as int].0@, opt_views(rows@[i as int].1@)));
        assert(list[i as int].1.len() == 2) by {
            let both = seq![pair_views(t_from@), pair_views(t_to@)];
            let paths = all_paths(both, both.len());
            assert(list.len() == paths.len());
            assert(list[i as int] == (paths[i as int], row(both, paths[i as int])));
        }
        assert(opt_views(cells@)[0] == opt_view(cells@[0]));
        assert(opt_views(cells@)[1] == opt_view(cells@[1]));
        if !opt_eq(&cells[0], &cells[1]) {
            let change = if cells[0].is_none() {
                Change::Added
            } else if cells[1].is_none() {
                Change::Deleted
            } else {
                Change::Modified
            };
            out.push((copy(rows[i].0.as_slice()), change));
            assert(change_views(out@) =~= before.push((rows@[i as int].0@, change)));
        }
        i += 1;
    }
    out
}

// ---------------------------------------------------------------------
// Files side by side
// ---------------------------------------------------------------------

/// The text of the blob stored under `oid`; the empty text where no
/// identifier is given.
pub open spec fn blob_text(objects: Store, oid: Option<Seq<u8>>) -> Result<Seq<u8>, Error> {
    match oid {
        None => Ok(Seq::empty()),
        Some(oid) => read_payload(objects, oid, blob_tag()),
    }
}

/// Reads the text of a blob, or the empty text where there is none.
pub fn get_blob(repo: &Repository, oid: &Option<Vec<u8>>) -> (r: Result<Vec<u8>, Error>)
    requires
        repo.wf(),
    ensures
        match r {
            Ok(v) => blob_text(repo.objects@, opt_view(*oid)) == Ok::<_, Error>(v@),
            Err(e) => blob_text(repo.objects@, opt_view(*oid)) == Err::<Seq<u8>, _>(e),
        },
{
    match oid {
        None => Ok(Vec::new()),
        Some(oid) => {
            let tag = blob();
            match get_object(repo, oid.as_slice(), Some(tag.as_slice())) {
                Ok(p) => Ok(p.1),
                Err(e) => Err(e),
            }
        },
    }
}

/// The unified report of the difference between two blobs at `path`.
pub open spec fn blob_diff(
    objects: Store,
    from: Option<Seq<u8>>,
    to: Option<Seq<u8>>,
    path: Seq<u8>,
) -> Result<Seq<u8>, Error> {
    match blob_text(objects, from) {
        Err(e) => Err(e),
        Ok(a) => match blob_text(objects, to) {
            Err(e) => Err(e),
            Ok(b) => Ok(unified(path, pieces(a), pieces(b))),
        },
    }
}

/// Writes the unified report of the difference between the blob `o_from`
/// and the blob `o_to`, either of which may be absent and then counts as
/// empty, for the file at `path`. Fails where a blob cannot be had from the
/// store.
pub fn diff_blobs(
    repo: &Repository,
    o_from: &Option<Vec<u8>>,
    o_to: &Option<Vec<u8>>,
    path: &[u8],
) -> (r: Result<Vec<u8>, Error>)
    requires
        repo.wf(),
    ensures
        match r {
            Ok(v) => blob_diff(repo.objects@, opt_view(*o_from), opt_view(*o_to), path@) == Ok::<
                _,
                Error,
            >(v@),
            Err(e) => blob_diff(repo.objects@, opt_view(*o_from), opt_view(*o_to), path@) == Err::<
                Seq<u8>,
                _,
            >(e),
        },
{
    let from = match get_blob(repo, o_from) {
        Ok(text) => text,
        Err(e) => {
            return Err(e);
        },
    };
    let to = match get_blob(repo, o_to) {
        Ok(text) => text,
        Err(e) => {
            return Err(e);
        },
    };
    Ok(diff_text(path, from.as_slice(), to.as_slice()))
}

/// The reports for the first `n` rows of a comparison of two trees, one
/// after the other: one for each path at which the two differ.
pub open spec fn row_diffs(objects: Store, rows: Seq<(Seq<u8>, Seq<Option<Seq<u8>>>)>, n: nat)
    -> Result<Seq<u8>, Error>
    decreases n,
{
    if n == 0 {
        Ok(Seq::empty())
    } else {
        match row_diffs(objects, rows, (n - 1) as nat) {
            Err(e) => Err(e),
            Ok(before) => {
                let (path, cells) = rows[n - 1];
                if cells[0] == cells[1] {
                    Ok(before)
                } else {
                    match blob_diff(objects, cells[0], cells[1], path) {
                        Err(e) => Err(e),
                        Ok(text) => Ok(before + text),
                    }
                }
            },
        }
    }
}

/// Reports that fail for the first `n` rows fail for more of them.
pub proof fn lemma_row_diffs_err(
    objects: Store,
    rows: Seq<(Seq<u8>, Seq<Option<Seq<u8>>>)>,
    n: nat,
    m: nat,
)
    requires
        n <= m,
        row_diffs(objects, rows, n) is Err,
    ensures
        row_diffs(objects, rows, m) == row_diffs(objects, rows, n),
    decreases m,
{
    if n < m {
        lemma_row_diffs_err(objects, rows, n, (m - 1) as nat);
    }
}

/// The report of the differences between two trees.
pub open spec fn tree_diff(
    objects: Store,
    from: Seq<(Seq<u8>, Seq<u8>)>,
    to: Seq<(Seq<u8>, Seq<u8>)>,
) -> Result<Seq<u8>, Error> {
    row_diffs(objects, compared(seq![from, to]), compared(seq![from, to]).len())
}

/// Writes the report of the differences between two trees: for each path
/// at which they hold different blobs, in the order in which the paths
/// first occur, the unified report of the two texts. Fails where a blob
/// cannot be had from the store.
pub fn diff_trees(
    repo: &Repository,
    t_from: &Vec<(Vec<u8>, Vec<u8>)>,
    t_to: &Vec<(Vec<u8>, Vec<u8>)>,
) -> (r: Result<Vec<u8>, Error>)
    requires
        repo.wf(),
    ensures
        match r {
            Ok(v) => tree_diff(repo.objects@, pair_views(t_from@), pair_views(t_to@)) == Ok::<
                _,
                Error,
            >(v@),
            Err(e) => tree_diff(repo.objects@, pair_views(t_from@), pair_views(t_to@)) == Err::<
                Seq<u8>,
                _,
            >(e),
        },
{
    let mut trees: Vec<&Vec<(Vec<u8>, Vec<u8>)>> = Vec::new();
    trees.push(t_from);
    trees.push(t_to);
    assert(tree_views(trees@) =~= seq![pair_views(t_from@), pair_views(t_to@)]);
    let rows = compare_trees(&trees);
    let ghost list = row_views(rows@);
    let mut out: Vec<u8> = Vec::new();
    let mut i: usize = 0;
    while i < rows.len()
        invariant
            i <= rows.len(),
            repo.wf(),
            list == row_views(rows@),
            list == compared(seq![pair_views(t_from@), pair_views(t_to@)]),
            row_diffs(repo.objects@, list, i as nat) == Ok::<_, Error>(out@),
        decreases rows.len() - i,
    {
        let cells = &rows[i].1;
        assert(list[i as int] == (rows@[i as int].0@, opt_views(rows@[i as int].1@)));
        assert(list[i as int].1.len() == 2) by {
            let both = seq![pair_views(t_from@), pair_views(t_to@)];
            let paths = all_paths(both, both.len());
            assert(list.len() == paths.len());
            assert(list[i as int] == (paths[i as int], row(both, paths[i as int])));
        }
        assert(opt_views(cells@)[0] == opt_view(cells@[0]));
        assert(opt_views(cells@)[1] == opt_view(cells@[1]));
        if !opt_eq(&cells[0], &cells[1]) {
            match diff_blobs(repo, &cells[0], &cells[1], rows[i].0.as_slice()) {
                Err(e) => {
                    proof {
                        lemma_row_diffs_err(repo.objects@, list, (i + 1) as nat, list.len());
                    }
                    return Err(e);
                },
                Ok(text) => {
                    let ghost before = out@;
                    out.extend_from_slice(text.as_slice());
                    assert(out@ =~= before + text@);
                    assert(row_diffs(repo.objects@, list, (i + 1) as nat) == Ok::<_, Error>(
                        out@,
                    ));
                },
            }
        }
        i += 1;
    }
    Ok(out)
}

/// The merge of the blobs `head` and `other` over `base`, any of which may
/// be absent and then counts as empty.
pub open spec fn blob_merge(
    objects: Store,
    base: Option<Seq<u8>>,
    head: Option<Seq<u8>>,
    other: Option<Seq<u8>>,
) -> Result<Seq<u8>, Error> {
    match blob_text(objects, base) {
        Err(e) => Err(e),
        Ok(o) => match blob_text(objects, head) {
            Err(e) => Err(e),
            Ok(a) => match blob_text(objects, other) {
                Err(e) => Err(e),
                Ok(b) => Ok(merged_text(o, a, b)),
            },
        },
    }
}

/// Merges the texts of the blobs `o_head` and `o_other`, which were both
/// made from `o_base`; a blob that is absent counts as empty. Conflicts do
/// not make the merge fail: they stand in the text between markers. Fails
/// where a blob cannot be had from the store.
pub fn merge_blobs(
    repo: &Repository,
    o_base: &Option<Vec<u8>>,
    o_head: &Option<Vec<u8>>,
    o_other: &Option<Vec<u8>>,
) -> (r: Result<Vec<u8>, Error>)
    requires
        repo.wf(),
    ensures
        match r {
            Ok(v) => blob_merge(
                repo.objects@,
                opt_view(*o_base),
                opt_view(*o_head),
                opt_view(*o_other),
            ) == Ok::<_, Error>(v@),
            Err(e) => blob_merge(
                repo.objects@,
                opt_view(*o_base),
                opt_view(*o_head),
                opt_view(*o_other),
            ) == Err::<Seq<u8>, _>(e),
        },
{
    let base = match get_blob(repo, o_base) {
        Ok(text) => text,
        Err(e) => {
            return Err(e);
        },
    };
    let head = match get_blob(repo, o_head) {
        Ok(text) => text,
        Err(e) => {
            return Err(e);
        },
    };
    let other = match get_blob(repo, o_other) {
        Ok(text) => text,
        Err(e) => {
            return Err(e);
        },
    };
    Ok(merge_text(base.as_slice(), head.as_slice(), other.as_slice()))
}

/// The merged files for the first `n` rows of a comparison of base, head
/// and other: each path with the merge of the three blobs there.
pub open spec fn row_merges(objects: Store, rows: Seq<(Seq<u8>, Seq<Option<Seq<u8>>>)>, n: nat)
    -> Result<Seq<(Seq<u8>, Seq<u8>)>, Error>
    decreases n,
{
    if n == 0 {
        Ok(Seq::empty())
    } else {
        match row_merges(objects, rows, (n - 1) as nat) {
            Err(e) => Err(e),
            Ok(before) => {
                let (path, cells) = rows[n - 1];
                match blob_merge(objects, cells[0], cells[1], cells[2]) {
                    Err(e) => Err(e),
                    Ok(text) => Ok(before.push((path, text))),
                }
            },
        }
    }
}

/// Merges that fail for the first `n` rows fail for more of them.
pub proof fn lemma_row_merges_err(
    objects: Store,
    rows: Seq<(Seq<u8>, Seq<Option<Seq<u8>>>)>,
    n: nat,
    m: nat,
)
    requires
        n <= m,
        row_merges(objects, rows, n) is Err,
    ensures
        row_merges(objects, rows, m) == row_merges(objects, rows, n),
    decreases m,
{
    if n < m {
        lemma_row_merges_err(objects, rows, n, (m - 1) as nat);
    }
}

/// The merge of the trees `head` and `other` over `base`: each path that
/// one of the three has, with the merged text of its file.
pub open spec fn tree_merge(
    objects: Store,
    base: Seq<(Seq<u8>, Seq<u8>)>,
    head: Seq<(Seq<u8>, Seq<u8>)>,
    other: Seq<(Seq<u8>, Seq<u8>)>,
) -> Result<Seq<(Seq<u8>, Seq<u8>)>, Error> {
    row_merges(objects, compared(seq![base, head, other]), compared(seq![base, head, other]).len())
}

/// Merges the trees `t_head` and `t_other`, which were both made from
/// `t_base`: for each path that one of the three has, in the order in
/// which the paths first occur, the path and the merge of the three texts
/// there, a missing file counting as empty. Fails where a blob cannot be
/// had from the store.
pub fn merge_trees(
    repo: &Repository,
    t_base: &Vec<(Vec<u8>, Vec<u8>)>,
    t_head: &Vec<(Vec<u8>, Vec<u8>)>,
    t_other: &Vec<(Vec<u8>, Vec<u8>)>,
) -> (r: Result<Vec<(Vec<u8>, Vec<u8>)>, Error>)
    requires
        repo.wf(),
    ensures
        match r {
            Ok(v) => tree_merge(
                repo.objects@,
                pair_views(t_base@),
                pair_views(t_head@),
                pair_views(t_other@),
            ) == Ok::<_, Error>(pair_views(v@)),
            Err(e) => tree_merge(
                repo.objects@,
                pair_views(t_base@),
                pair_views(t_head@),
                pair_views(t_other@),
            ) == Err::<Seq<(Seq<u8>, Seq<u8>)>, _>(e),
        },
{
    let mut trees: Vec<&Vec<(Vec<u8>, Vec<u8>)>> = Vec::new();
    trees.push(t_base);
    trees.push(t_head);
    trees.push(t_other);
    let ghost three = seq![pair_views(t_base@), pair_views(t_head@), pair_views(t_other@)];
    assert(tree_views(trees@) =~= three);
    let rows = compare_trees(&trees);
    let ghost list = row_views(rows@);
    let mut out: Vec<(Vec<u8>, Vec<u8>)> = Vec::new();
    let mut i: usize = 0;
    assert(pair_views(out@) =~= Seq::<(Seq<u8>, Seq<u8>)>::empty());
    while i < rows.len()
        invariant
            i <= rows.len(),
            repo.wf(),
            list == row_views(rows@),
            three == seq![pair_views(t_base@), pair_views(t_head@), pair_views(t_other@)],
            list == compared(three),
            row_merges(repo.objects@, list, i as nat) == Ok::<_, Error>(pair_views(out@)),
        decreases rows.len() - i,
    {
        let ghost before = pair_views(out@);
        let cells = &rows[i].1;
        assert(list[i as int] == (rows@[i as int].0@, opt_views(rows@[i as int].1@)));
        assert(list[i as int].1.len() == 3) by {
            let paths = all_paths(three, three.len());
            assert(list.len() == paths.len());
            assert(list[i as int] == (paths[i as int], row(three, paths[i as int])));
        }
        assert(opt_views(cells@)[0] == opt_view(cells@[0]));
        assert(opt_views(cells@)[1] == opt_view(cells@[1]));
        assert(opt_views(cells@)[2] == opt_view(cells@[2]));
        match merge_blobs(repo, &cells[0], &cells[1], &cells[2]) {
            Err(e) => {
                proof {
                    lemma_row_merges_err(repo.objects@, list, (i + 1) as nat, list.len());
                }
                return Err(e);
            },
            Ok(text) => {
                out.push((copy(rows[i].0.as_slice()), text));
                assert(pair_views(out@) =~= before.push((rows@[i as int].0@, text@)));
            },
        }
        i += 1;
    }
    Ok(out)
}

} // verus!
