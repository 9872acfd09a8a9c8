//! Trees and commits: how directories and history are written into the
//! object store and read back from it.

use crate::bytes::{
    ascii, bytes_eq, copy, find, find_from, is_space, is_word, join, join_bytes, join_path,
    lemma_find_from, lemma_find_from_is, lemma_find_from_skip, lemma_push_contains,
    lemma_split_concat, lemma_split_last, lemma_split_one,
    lemma_tokens_word, lemma_tokens_word_then, lines, list_contains, lit, newline, opt_view,
    pair_views, slash, slice, split, split_at, split_lines, split_words, tokens, views,
};
use crate::data::{
    all_refs, direct, direct_value, encode_object, get_object, get_ref, get_refs, hash_object,
    head, head_name, lemma_encode_splits, lemma_lookup_shallow, lookup_ref, merge_head,
    merge_head_name, named_views, object_id, put_object, read_object, read_payload, ref_value,
    symbolic, symbolic_prefix, symbolic_value, update_ref, write_ref, RefValueView, Repository,
    Store,
};
use crate::diff::{merge_trees, tree_merge};
use crate::graph::{ancestors, get_merge_base, lemma_merge_base_of_ancestor, merge_base};
use crate::oid::{is_hex_digit, is_oid, is_oid_shaped, lemma_oid_shape};
use crate::error::Error;
use crate::{Commit, CommitView};
use vstd::prelude::*;

verus! {

// ---------------------------------------------------------------------
// Words of the formats
// ---------------------------------------------------------------------

/// The type tag of a file's contents, and the kind of a tree entry for a
/// file.
pub open spec fn blob_tag() -> Seq<u8> {
    ascii("blob"@)
}

/// The type tag of a tree, the kind of a tree entry for a directory, and
/// the key of a commit's tree header.
pub open spec fn tree_tag() -> Seq<u8> {
    ascii("tree"@)
}

/// The type tag of a commit.
pub open spec fn commit_tag() -> Seq<u8> {
    ascii("commit"@)
}

/// The key of a commit's parent header.
pub open spec fn parent_key() -> Seq<u8> {
    ascii("parent"@)
}

/// The name of the metadata directory, which is never written to a tree.
pub open spec fn metadata_dir() -> Seq<u8> {
    ascii(".ugit"@)
}

/// The tag `blob`.
pub fn blob() -> (r: Vec<u8>)
    ensures
        r@ == blob_tag(),
{
    proof {
        reveal_strlit("blob");
    }
    lit("blob")
}

/// The tag `tree`.
pub fn tree() -> (r: Vec<u8>)
    ensures
        r@ == tree_tag(),
{
    proof {
        reveal_strlit("tree");
    }
    lit("tree")
}

/// The tag `commit`.
pub fn commit_type() -> (r: Vec<u8>)
    ensures
        r@ == commit_tag(),
{
    proof {
        reveal_strlit("commit");
    }
    lit("commit")
}

// ---------------------------------------------------------------------
// Commits
// ---------------------------------------------------------------------

/// The header lines for the first `n` parents.
pub open spec fn parent_lines(parents: Seq<Seq<u8>>, n: nat) -> Seq<u8>
    decreases n,
{
    if n == 0 {
        Seq::empty()
    } else {
        parent_lines(parents, (n - 1) as nat) + parent_key() + seq![0x20u8] + parents[n - 1] + seq![
            newline(),
        ]
    }
}

/// The payload of a commit: the tree header, a header for each parent, an
/// empty line, the message.
pub open spec fn commit_text(c: CommitView) -> Seq<u8> {
    tree_tag() + seq![0x20u8] + c.tree + seq![newline()] + parent_lines(
        c.parents,
        c.parents.len(),
    ) + seq![newline()] + c.message
}

/// Reads header lines from `text` up to the first empty line, starting with
/// the tree and the parents read so far. A line whose first word is `tree`
/// sets the tree to its second word, or to none where it has no second
/// word; one whose first word is `parent` adds its second word, where it
/// has one, to the parents. Any other line is a `MalformedCommit`, and so is
/// the end of the headers with no tree. What follows the empty line is the
/// message. A line that holds only a carriage return before its line feed
/// counts as empty.
pub open spec fn scan_commit(text: Seq<u8>, tree: Option<Seq<u8>>, parents: Seq<Seq<u8>>) -> Result<
    CommitView,
    Error,
>
    decreases text.len(),
{
    let end = find_from(text, newline(), 0);
    let (line, rest) = if 0 <= end < text.len() {
        (text.take(end), text.skip(end + 1))
    } else {
        (text, Seq::empty())
    };
    if line.len() == 0 || (0 <= end < text.len() && line == seq![0x0du8]) {
        match tree {
            Some(t) => Ok(CommitView { tree: t, parents, message: rest }),
            None => Err(Error::MalformedCommit),
        }
    } else {
        let words = tokens(line);
        let value = if words.len() >= 2 {
            Some(words[1])
        } else {
            None
        };
        if words.len() == 0 {
            Err(Error::MalformedCommit)
        } else if words[0] == tree_tag() {
            scan_commit(rest, value, parents)
        } else if words[0] == parent_key() {
            scan_commit(
                rest,
                tree,
                match value {
                    Some(v) => parents.push(v),
                    None => parents,
                },
            )
        } else {
            Err(Error::MalformedCommit)
        }
    }
}

/// The commit that a payload holds.
pub open spec fn parse_commit(payload: Seq<u8>) -> Result<CommitView, Error> {
    scan_commit(payload, None, Seq::empty())
}

/// The commit stored under `oid`.
pub open spec fn commit_at(objects: Store, oid: Seq<u8>) -> Result<CommitView, Error> {
    match read_payload(objects, oid, commit_tag()) {
        Ok(p) => parse_commit(p),
        Err(e) => Err(e),
    }
}

/// Writes a commit's payload.
pub fn encode_commit(c: &Commit) -> (r: Vec<u8>)
    ensures
        r@ == commit_text(c@),
{
    proof {
        reveal_strlit("parent");
    }
    let parent = lit("parent");
    let mut r = tree();
    r.push(0x20);
    r.extend_from_slice(c.tree.as_slice());
    r.push(0x0a);
    let ghost head = r@;
    assert(head =~= tree_tag() + seq![0x20u8] + c.tree@ + seq![newline()]);
    let mut i: usize = 0;
    while i < c.parents.len()
        invariant
            i <= c.parents.len(),
            parent@ == parent_key(),
            r@ == head + parent_lines(views(c.parents@), i as nat),
        decreases c.parents.len() - i,
    {
        let ghost before = parent_lines(views(c.parents@), i as nat);
        r.extend_from_slice(parent.as_slice());
        r.push(0x20);
        r.extend_from_slice(c.parents[i].as_slice());
        r.push(0x0a);
        assert(r@ =~= head + (before + parent_key() + seq![0x20u8] + views(c.parents@)[i as int]
            + seq![newline()]));
        i += 1;
    }
    r.push(0x0a);
    r.extend_from_slice(c.message.as_slice());
    assert(r@ =~= commit_text(c@));
    r
}

/// Reads a commit from its payload. Fails with `MalformedCommit` where a
/// header line begins with another word than `tree` or `parent`, or where
/// the headers end without a tree.
pub fn decode_commit(payload: &[u8]) -> (r: Result<Commit, Error>)
    ensures
        match r {
            Ok(c) => parse_commit(payload@) == Ok::<_, Error>(c@),
            Err(e) => parse_commit(payload@) == Err::<CommitView, _>(e),
        },
{
    proof {
        reveal_strlit("parent");
    }
    let tree_key = tree();
    let parent = lit("parent");
    let mut tree_oid: Option<Vec<u8>> = None;
    let mut parents: Vec<Vec<u8>> = Vec::new();
    let mut pos: usize = 0;
    assert(payload@.skip(0) =~= payload@);
    assert(views(parents@) =~= Seq::<Seq<u8>>::empty());
    loop
        invariant
            pos <= payload.len(),
            tree_key@ == tree_tag(),
            parent@ == parent_key(),
            parse_commit(payload@) == scan_commit(
                payload@.skip(pos as int),
                opt_view(tree_oid),
                views(parents@),
            ),
        decreases payload.len() - pos,
    {
        let ghost text = payload@.skip(pos as int);
        let end = find(payload, 0x0a, pos);
        proof {
            lemma_find_from_skip(payload@, newline(), pos as int);
        }
        let only_return = end < payload.len() && end == pos + 1 && payload[pos] == 0x0d;
        if end == pos || only_return {
            let message = if end < payload.len() {
                slice(payload, end + 1, payload.len())
            } else {
                Vec::new()
            };
            proof {
                if only_return {
                    assert(text.take(1) =~= seq![0x0du8]);
                    assert(message@ =~= text.skip(2));
                } else if end < payload.len() {
                    assert(text.take(0).len() == 0);
                    assert(message@ =~= text.skip(1));
                } else {
                    assert(text.len() == 0);
                    assert(message@ =~= Seq::<u8>::empty());
                }
            }
            return match tree_oid {
                Some(t) => Ok(Commit { tree: t, parents, message }),
                None => Err(Error::MalformedCommit),
            };
        }
        let line = slice(payload, pos, end);
        proof {
            if end < payload.len() {
                assert(line@ =~= text.take(end - pos));
                assert(payload@.skip(end + 1) =~= text.skip(end - pos + 1));
                if line@ == seq![0x0du8] {
                    assert(line@.len() == 1);
                    assert(line@[0] == payload@[pos as int]);
                }
            } else {
                assert(line@ =~= text);
            }
        }
        let words = split_words(line.as_slice());
        if words.len() == 0 {
            return Err(Error::MalformedCommit);
        }
        assert(views(words@)[0] == words@[0]@);
        if bytes_eq(words[0].as_slice(), tree_key.as_slice()) {
            if words.len() >= 2 {
                assert(views(words@)[1] == words@[1]@);
                tree_oid = Some(copy(words[1].as_slice()));
            } else {
                tree_oid = None;
            }
        } else if bytes_eq(words[0].as_slice(), parent.as_slice()) {
            if words.len() >= 2 {
                assert(views(words@)[1] == words@[1]@);
                let ghost before = views(parents@);
                parents.push(copy(words[1].as_slice()));
                assert(views(parents@) =~= before.push(words@[1]@));
            }
        } else {
            return Err(Error::MalformedCommit);
        }
        if end < payload.len() {
            pos = end + 1;
        } else {
            pos = payload.len();
            assert(payload@.skip(pos as int) =~= Seq::<u8>::empty());
        }
    }
}

/// The commit stored under `oid`. Fails as [`get_object`] does where the
/// object cannot be had as a commit, and with `MalformedCommit` where its
/// payload is not one.
pub fn get_commit(repo: &Repository, oid: &[u8]) -> (r: Result<Commit, Error>)
    requires
        repo.wf(),
    ensures
        match r {
            Ok(c) => commit_at(repo.objects@, oid@) == Ok::<_, Error>(c@),
            Err(e) => commit_at(repo.objects@, oid@) == Err::<CommitView, _>(e),
        },
{
    let tag = commit_type();
    match get_object(repo, oid, Some(tag.as_slice())) {
        Ok(p) => decode_commit(p.1.as_slice()),
        Err(e) => Err(e),
    }
}

// ---------------------------------------------------------------------
// Tree objects
// ---------------------------------------------------------------------

/// What a tree entry points to: a file's contents or another tree.
#[derive(Debug, Clone, Copy, PartialEq, Eq, Structural)]
pub enum EntryKind {
    Blob,
    Tree,
}

/// One entry of a tree: the kind and identifier of an object, and the name
/// that it has in the directory.
#[derive(Debug, Clone, PartialEq, Eq)]
pub struct TreeEntry {
    pub kind: EntryKind,
    pub oid: Vec<u8>,
    pub name: Vec<u8>,
}

/// A [`TreeEntry`] as a mathematical value.
pub struct TreeEntryView {
    pub kind: EntryKind,
    pub oid: Seq<u8>,
    pub name: Seq<u8>,
}

impl View for TreeEntry {
    type V = TreeEntryView;

    open spec fn view(&self) -> TreeEntryView {
        TreeEntryView { kind: self.kind, oid: self.oid@, name: self.name@ }
    }
}

/// The entries that a list holds.
pub open spec fn entry_views(v: Seq<TreeEntry>) -> Seq<TreeEntryView> {
    Seq::new(v.len(), |i: int| v[i]@)
}

/// The word that stands for a kind of entry.
pub open spec fn kind_tag(kind: EntryKind) -> Seq<u8> {
    match kind {
        EntryKind::Blob => blob_tag(),
        EntryKind::Tree => tree_tag(),
    }
}

/// The line of a tree entry: kind, identifier and name with a blank
/// between them, and a line feed.
pub open spec fn entry_line(e: TreeEntryView) -> Seq<u8> {
    kind_tag(e.kind) + seq![0x20u8] + e.oid + seq![0x20u8] + e.name + seq![newline()]
}

/// The payload of a tree with the first `n` of `entries`: their lines in
/// order.
pub open spec fn tree_text(entries: Seq<TreeEntryView>, n: nat) -> Seq<u8>
    decreases n,
{
    if n == 0 {
        Seq::empty()
    } else {
        tree_text(entries, (n - 1) as nat) + entry_line(entries[n - 1])
    }
}

/// The entry that a line holds: its first three words are kind,
/// identifier and name. A line with fewer words, or with another first word
/// than `blob` or `tree`, is a `MalformedTree`.
pub open spec fn parse_entry(line: Seq<u8>) -> Result<TreeEntryView, Error> {
    let words = tokens(line);
    if words.len() < 3 {
        Err(Error::MalformedTree)
    } else if words[0] == blob_tag() {
        Ok(TreeEntryView { kind: EntryKind::Blob, oid: words[1], name: words[2] })
    } else if words[0] == tree_tag() {
        Ok(TreeEntryView { kind: EntryKind::Tree, oid: words[1], name: words[2] })
    } else {
        Err(Error::MalformedTree)
    }
}

/// The entries that the first `n` lines hold.
pub open spec fn parse_entries(lines: Seq<Seq<u8>>, n: nat) -> Result<Seq<TreeEntryView>, Error>
    decreases n,
{
    if n == 0 {
        Ok(Seq::empty())
    } else {
        match parse_entries(lines, (n - 1) as nat) {
            Err(e) => Err(e),
            Ok(rest) => match parse_entry(lines[n - 1]) {
                Err(e) => Err(e),
                Ok(entry) => Ok(rest.push(entry)),
            },
        }
    }
}

/// Entries that cannot be read from the first `n` lines cannot be read from
/// more of them.
pub proof fn lemma_parse_entries_err(lines: Seq<Seq<u8>>, n: nat, m: nat)
    requires
        n <= m,
        parse_entries(lines, n) is Err,
    ensures
        parse_entries(lines, m) == parse_entries(lines, n),
    decreases m,
{
    if n < m {
        lemma_parse_entries_err(lines, n, (m - 1) as nat);
    }
}

/// The entries that the payload of a tree holds, one on each line.
pub open spec fn parse_tree(payload: Seq<u8>) -> Result<Seq<TreeEntryView>, Error> {
    parse_entries(lines(payload), lines(payload).len())
}

/// The entries of the tree stored under `oid`; none where no identifier is
/// given.
pub open spec fn tree_entries(objects: Store, oid: Option<Seq<u8>>) -> Result<
    Seq<TreeEntryView>,
    Error,
> {
    match oid {
        None => Ok(Seq::empty()),
        Some(oid) => match read_payload(objects, oid, tree_tag()) {
            Ok(p) => parse_tree(p),
            Err(e) => Err(e),
        },
    }
}

/// Writes the payload of a tree.
pub fn encode_tree(entries: &Vec<TreeEntry>) -> (r: Vec<u8>)
    ensures
        r@ == tree_text(entry_views(entries@), entries@.len()),
{
    let blob_word = blob();
    let tree_word = tree();
    let mut r: Vec<u8> = Vec::new();
    let mut i: usize = 0;
    while i < entries.len()
        invariant
            i <= entries.len(),
            blob_word@ == blob_tag(),
            tree_word@ == tree_tag(),
            r@ == tree_text(entry_views(entries@), i as nat),
        decreases entries.len() - i,
    {
        let ghost before = r@;
        let e = &entries[i];
        match e.kind {
            EntryKind::Blob => r.extend_from_slice(blob_word.as_slice()),
            EntryKind::Tree => r.extend_from_slice(tree_word.as_slice()),
        }
        r.push(0x20);
        r.extend_from_slice(e.oid.as_slice());
        r.push(0x20);
        r.extend_from_slice(e.name.as_slice());
        r.push(0x0a);
        assert(r@ =~= before + entry_line(e@));
        i += 1;
    }
    r
}

/// Reads the entries of a tree from its payload.
pub fn decode_tree(payload: &[u8]) -> (r: Result<Vec<TreeEntry>, Error>)
    ensures
        match r {
            Ok(v) => parse_tree(payload@) == Ok::<_, Error>(entry_views(v@)),
            Err(e) => parse_tree(payload@) == Err::<Seq<TreeEntryView>, _>(e),
        },
{
    let blob_word = blob();
    let tree_word = tree();
    let all = split_lines(payload);
    let mut out: Vec<TreeEntry> = Vec::new();
    let mut i: usize = 0;
    assert(entry_views(out@) =~= Seq::<TreeEntryView>::empty());
    while i < all.len()
        invariant
            i <= all.len(),
            blob_word@ == blob_tag(),
            tree_word@ == tree_tag(),
            views(all@) == lines(payload@),
            parse_entries(lines(payload@), i as nat) == Ok::<_, Error>(entry_views(out@)),
        decreases all.len() - i,
    {
        assert(views(all@)[i as int] == all@[i as int]@);
        let words = split_words(all[i].as_slice());
        let kind = if words.len() < 3 {
            None
        } else {
            assert(views(words@)[0] == words@[0]@);
            if bytes_eq(words[0].as_slice(), blob_word.as_slice()) {
                Some(EntryKind::Blob)
            } else if bytes_eq(words[0].as_slice(), tree_word.as_slice()) {
                Some(EntryKind::Tree)
            } else {
                None
            }
        };
        match kind {
            None => {
                proof {
                    assert(parse_entry(lines(payload@)[i as int]) is Err);
                    lemma_parse_entries_err(
                        lines(payload@),
                        (i + 1) as nat,
                        lines(payload@).len(),
                    );
                }
                return Err(Error::MalformedTree);
            },
            Some(kind) => {
                assert(views(words@)[1] == words@[1]@);
                assert(views(words@)[2] == words@[2]@);
                let ghost before = entry_views(out@);
                let entry = TreeEntry {
                    kind,
                    oid: copy(words[1].as_slice()),
                    name: copy(words[2].as_slice()),
                };
                out.push(entry);
                assert(entry_views(out@) =~= before.push(entry@));
            },
        }
        i += 1;
    }
    Ok(out)
}

/// The entries of the tree stored under `oid`, or none where no identifier
/// is given. Fails as [`get_object`] does where the object cannot be had as
/// a tree, and with `MalformedTree` where a line of it is no entry.
pub fn get_tree_entries(repo: &Repository, oid: Option<&[u8]>) -> (r: Result<
    Vec<TreeEntry>,
    Error,
>)
    requires
        repo.wf(),
    ensures
        match r {
            Ok(v) => tree_entries(
                repo.objects@,
                match oid {
                    Some(o) => Some(o@),
                    None => None,
                },
            ) == Ok::<_, Error>(entry_views(v@)),
            Err(e) => tree_entries(
                repo.objects@,
                match oid {
                    Some(o) => Some(o@),
                    None => None,
                },
            ) == Err::<Seq<TreeEntryView>, _>(e),
        },
{
    match oid {
        None => {
            let out: Vec<TreeEntry> = Vec::new();
            assert(entry_views(out@) =~= Seq::<TreeEntryView>::empty());
            Ok(out)
        },
        Some(oid) => {
            let tag = tree();
            match get_object(repo, oid, Some(tag.as_slice())) {
                Ok(p) => decode_tree(p.1.as_slice()),
                Err(e) => Err(e),
            }
        },
    }
}

// ---------------------------------------------------------------------
// Directories
// ---------------------------------------------------------------------

/// An entry of a directory of the working tree: a file with its contents,
/// or a directory with its own entries.
#[derive(Debug)]
pub enum Entry {
    File { name: Vec<u8>, contents: Vec<u8> },
    Dir { name: Vec<u8>, entries: Vec<Entry> },
}

impl Entry {
    /// The entry's name in its directory.
    pub open spec fn name(self) -> Seq<u8> {
        match self {
            Entry::File { name, .. } => name@,
            Entry::Dir { name, .. } => name@,
        }
    }
}

/// Whether a component of `path` is the metadata directory, so that nothing
/// at that path is recorded.
pub open spec fn ignored(path: Seq<u8>) -> bool {
    split(path, slash()).contains(metadata_dir())
}

/// Whether `name` cannot stand in a tree: it is empty, holds a slash, or is
/// `.` or `..`.
pub open spec fn illegal(name: Seq<u8>) -> bool {
    name.len() == 0 || name.contains(slash()) || name == seq![0x2eu8] || name == seq![
        0x2eu8,
        0x2eu8,
    ]
}

/// Whether `path` cannot be the path of a file of a tree: it starts at the
/// root, or one of its components is `.` or `..`.
pub open spec fn illegal_path(path: Seq<u8>) -> bool {
    (path.len() > 0 && path[0] == slash()) || split(path, slash()).contains(seq![0x2eu8])
        || split(path, slash()).contains(seq![0x2eu8, 0x2eu8])
}

/// Whether a component of `path` is the metadata directory.
pub fn is_ignored(path: &[u8]) -> (r: bool)
    ensures
        r == ignored(path@),
{
    proof {
        reveal_strlit(".ugit");
    }
    let meta = lit(".ugit");
    let parts = split_at(path, 0x2f);
    list_contains(&parts, meta.as_slice())
}

/// Whether `name` cannot stand in a tree.
pub fn is_illegal(name: &[u8]) -> (r: bool)
    ensures
        r == illegal(name@),
{
    if name.len() == 0 {
        return true;
    }
    let at = find(name, 0x2f, 0);
    proof {
        lemma_find_from(name@, slash(), 0);
    }
    if at < name.len() {
        return true;
    }
    if name.len() == 1 && name[0] == 0x2e {
        assert(name@ =~= seq![0x2eu8]);
        return true;
    }
    if name.len() == 2 && name[0] == 0x2e && name[1] == 0x2e {
        assert(name@ =~= seq![0x2eu8, 0x2eu8]);
        return true;
    }
    false
}

/// Whether `path` starts at the root or has `.` or `..` among its
/// components.
pub fn is_illegal_path(path: &[u8]) -> (r: bool)
    ensures
        r == illegal_path(path@),
{
    if path.len() > 0 && path[0] == 0x2f {
        return true;
    }
    let parts = split_at(path, 0x2f);
    let mut dots: Vec<u8> = Vec::new();
    dots.push(0x2e);
    assert(dots@ =~= seq![0x2eu8]);
    if list_contains(&parts, dots.as_slice()) {
        return true;
    }
    dots.push(0x2e);
    assert(dots@ =~= seq![0x2eu8, 0x2eu8]);
    list_contains(&parts, dots.as_slice())
}

/// The store after the first `n` of `entries` were written to it, and the
/// tree entries that stand for them. A file becomes a blob. A directory
/// becomes a tree of what was written for its own entries, and is left out
/// where that is nothing. An entry named as the metadata directory is left
/// out.
pub open spec fn stored_entries(objects: Store, entries: Seq<Entry>, n: nat) -> (Store, Seq<
    TreeEntryView,
>)
    decreases entries, n,
{
    if n == 0 || n > entries.len() {
        (objects, Seq::empty())
    } else {
        let (objects, rest) = stored_entries(objects, entries, (n - 1) as nat);
        match entries[n - 1] {
            Entry::File { name, contents } => if name@ == metadata_dir() {
                (objects, rest)
            } else {
                (
                    put_object(objects, blob_tag(), contents@),
                    rest.push(
                        TreeEntryView {
                            kind: EntryKind::Blob,
                            oid: object_id(blob_tag(), contents@),
                            name: name@,
                        },
                    ),
                )
            },
            Entry::Dir { name, entries: inner } => if name@ == metadata_dir() {
                (objects, rest)
            } else {
                let (objects, below) = stored_entries(objects, inner@, inner@.len());
                if below.len() == 0 {
                    (objects, rest)
                } else {
                    let payload = tree_text(below, below.len());
                    (
                        put_object(objects, tree_tag(), payload),
                        rest.push(
                            TreeEntryView {
                                kind: EntryKind::Tree,
                                oid: object_id(tree_tag(), payload),
                                name: name@,
                            },
                        ),
                    )
                }
            },
        }
    }
}

/// The store after the directory at `path` with these entries was written
/// to it, and the identifier of its tree; no tree is written where the path
/// is ignored.
pub open spec fn stored_tree(objects: Store, path: Seq<u8>, entries: Seq<Entry>) -> (Store, Option<
    Seq<u8>,
>) {
    if ignored(path) {
        (objects, None)
    } else {
        let (objects, list) = stored_entries(objects, entries, entries.len());
        let payload = tree_text(list, list.len());
        (put_object(objects, tree_tag(), payload), Some(object_id(tree_tag(), payload)))
    }
}

/// Writes the entries of a directory to the store and returns the tree
/// entries that stand for them.
fn write_entries(repo: &mut Repository, entries: &Vec<Entry>) -> (r: Vec<TreeEntry>)
    requires
        old(repo).wf(),
    ensures
        final(repo).wf(),
        final(repo).refs == old(repo).refs,
        stored_entries(old(repo).objects@, entries@, entries@.len()) == (
            final(repo).objects@,
            entry_views(r@),
        ),
    decreases entries,
{
    proof {
        reveal_strlit(".ugit");
    }
    let ghost start = repo.objects@;
    let meta = lit(".ugit");
    let blob_word = blob();
    let tree_word = tree();
    let mut out: Vec<TreeEntry> = Vec::new();
    let mut i: usize = 0;
    assert(entry_views(out@) =~= Seq::<TreeEntryView>::empty());
    while i < entries.len()
        invariant
            i <= entries.len(),
            repo.wf(),
            repo.refs == old(repo).refs,
            meta@ == metadata_dir(),
            blob_word@ == blob_tag(),
            tree_word@ == tree_tag(),
            stored_entries(start, entries@, i as nat) == (repo.objects@, entry_views(out@)),
        decreases entries.len() - i,
    {
        let ghost before = entry_views(out@);
        match &entries[i] {
            Entry::File { name, contents } => {
                if !bytes_eq(name.as_slice(), meta.as_slice()) {
                    let oid = hash_object(repo, contents.as_slice(), blob_word.as_slice());
                    let entry = TreeEntry { kind: EntryKind::Blob, oid, name: copy(name.as_slice()) };
                    out.push(entry);
                    assert(entry_views(out@) =~= before.push(entry@));
                }
            },
            Entry::Dir { name, entries: inner } => {
                if !bytes_eq(name.as_slice(), meta.as_slice()) {
                    let below = write_entries(repo, inner);
                    if below.len() > 0 {
                        let payload = encode_tree(&below);
                        let oid = hash_object(repo, payload.as_slice(), tree_word.as_slice());
                        let entry = TreeEntry {
                            kind: EntryKind::Tree,
                            oid,
                            name: copy(name.as_slice()),
                        };
                        out.push(entry);
                        assert(entry_views(out@) =~= before.push(entry@));
                    }
                }
            },
        }
        i += 1;
    }
    out
}

/// Writes the directory at `path`, with these entries, to the store: a blob
/// for each file and a tree for each directory that is not empty, then the
/// tree of the directory itself, whose identifier is returned. Entries
/// named as the metadata directory are left out. Where `path` itself has
/// that name among its components, nothing is written and nothing returned.
pub fn write_tree(repo: &mut Repository, path: &[u8], entries: &Vec<Entry>) -> (oid: Option<
    Vec<u8>,
>)
    requires
        old(repo).wf(),
    ensures
        final(repo).wf(),
        final(repo).refs == old(repo).refs,
        stored_tree(old(repo).objects@, path@, entries@) == (
            final(repo).objects@,
            opt_view(oid),
        ),
{
    if is_ignored(path) {
        return None;
    }
    let list = write_entries(repo, entries);
    let payload = encode_tree(&list);
    let tag = tree();
    Some(hash_object(repo, payload.as_slice(), tag.as_slice()))
}

/// The files below the first `n` of `entries`, each as the identifier of
/// its contents and its path below `base`, in the order of the entries and
/// with a directory's files in the place of the directory. The tree stored
/// under an entry of kind tree is read with `depth` less one; at depth zero
/// such an entry is a `MalformedTree`. So is an entry with an illegal name,
/// and one whose path below `base` starts at the root or has `.` or `..`
/// among its components.
pub open spec fn flatten_entries(
    objects: Store,
    entries: Seq<TreeEntryView>,
    n: nat,
    base: Seq<u8>,
    depth: nat,
) -> Result<Seq<(Seq<u8>, Seq<u8>)>, Error>
    decreases depth, 0nat, n,
{
    if n == 0 {
        Ok(Seq::empty())
    } else {
        match flatten_entries(objects, entries, (n - 1) as nat, base, depth) {
            Err(e) => Err(e),
            Ok(rest) => {
                let entry = entries[n - 1];
                let path = join(base, entry.name);
                if illegal(entry.name) || illegal_path(path) {
                    Err(Error::MalformedTree)
                } else {
                    match entry.kind {
                        EntryKind::Blob => Ok(rest.push((entry.oid, path))),
                        EntryKind::Tree => if depth == 0 {
                            Err(Error::MalformedTree)
                        } else {
                            match flatten_tree(objects, entry.oid, path, (depth - 1) as nat) {
                                Err(e) => Err(e),
                                Ok(below) => Ok(rest + below),
                            }
                        },
                    }
                }
            },
        }
    }
}

/// The files of the tree stored under `oid`, with paths below `base`,
/// where trees are nested at most `depth` deep below it.
pub open spec fn flatten_tree(objects: Store, oid: Seq<u8>, base: Seq<u8>, depth: nat) -> Result<
    Seq<(Seq<u8>, Seq<u8>)>,
    Error,
>
    decreases depth, 1nat, 0nat,
{
    match tree_entries(objects, Some(oid)) {
        Err(e) => Err(e),
        Ok(entries) => flatten_entries(objects, entries, entries.len(), base, depth),
    }
}

/// Files that cannot be listed for the first `n` entries cannot be listed
/// for more of them.
pub proof fn lemma_flatten_entries_err(
    objects: Store,
    entries: Seq<TreeEntryView>,
    n: nat,
    m: nat,
    base: Seq<u8>,
    depth: nat,
)
    requires
        n <= m,
        flatten_entries(objects, entries, n, base, depth) is Err,
    ensures
        flatten_entries(objects, entries, m, base, depth) == flatten_entries(
            objects,
            entries,
            n,
            base,
            depth,
        ),
    decreases m,
{
    if n < m {
        lemma_flatten_entries_err(objects, entries, n, (m - 1) as nat, base, depth);
    }
}

/// The files of a tree as [`get_tree`] lists them: none where no identifier
/// is given; else those of the tree stored under it, with trees nested at
/// most as deep as the store has objects, which every store without a tree
/// that holds itself allows.
pub open spec fn tree_files(objects: Store, oid: Option<Seq<u8>>, base: Seq<u8>) -> Result<
    Seq<(Seq<u8>, Seq<u8>)>,
    Error,
> {
    match oid {
        None => Ok(Seq::empty()),
        Some(oid) => flatten_tree(objects, oid, base, objects.dom().len()),
    }
}

/// Lists the files of the tree stored under `oid`, reading nested trees at
/// most `depth` deep.
fn flatten(repo: &Repository, oid: &[u8], base: &[u8], depth: usize) -> (r: Result<
    Vec<(Vec<u8>, Vec<u8>)>,
    Error,
>)
    requires
        repo.wf(),
    ensures
        match r {
            Ok(v) => flatten_tree(repo.objects@, oid@, base@, depth as nat) == Ok::<_, Error>(
                pair_views(v@),
            ),
            Err(e) => flatten_tree(repo.objects@, oid@, base@, depth as nat) == Err::<
                Seq<(Seq<u8>, Seq<u8>)>,
                _,
            >(e),
        },
    decreases depth,
{
    let entries = match get_tree_entries(repo, Some(oid)) {
        Ok(entries) => entries,
        Err(e) => {
            return Err(e);
        },
    };
    let ghost list = entry_views(entries@);
    let mut out: Vec<(Vec<u8>, Vec<u8>)> = Vec::new();
    let mut i: usize = 0;
    assert(pair_views(out@) =~= Seq::<(Seq<u8>, Seq<u8>)>::empty());
    while i < entries.len()
        invariant
            i <= entries.len(),
            repo.wf(),
            list == entry_views(entries@),
            tree_entries(repo.objects@, Some(oid@)) == Ok::<_, Error>(list),
            flatten_entries(repo.objects@, list, i as nat, base@, depth as nat) == Ok::<_, Error>(
                pair_views(out@),
            ),
        decreases entries.len() - i,
    {
        let ghost before = pair_views(out@);
        let entry = &entries[i];
        assert(list[i as int] == entry@);
        if is_illegal(entry.name.as_slice()) {
            proof {
                lemma_flatten_entries_err(
                    repo.objects@,
                    list,
                    (i + 1) as nat,
                    list.len(),
                    base@,
                    depth as nat,
                );
            }
            return Err(Error::MalformedTree);
        }
        let path = join_path(base, entry.name.as_slice());
        if is_illegal_path(path.as_slice()) {
            proof {
                lemma_flatten_entries_err(
                    repo.objects@,
                    list,
                    (i + 1) as nat,
                    list.len(),
                    base@,
                    depth as nat,
                );
            }
            return Err(Error::MalformedTree);
        }
        match entry.kind {
            EntryKind::Blob => {
                out.push((copy(entry.oid.as_slice()), path));
                assert(pair_views(out@) =~= before.push((entry.oid@, path@)));
            },
            EntryKind::Tree => {
                if depth == 0 {
                    proof {
                        lemma_flatten_entries_err(
                            repo.objects@,
                            list,
                            (i + 1) as nat,
                            list.len(),
                            base@,
                            depth as nat,
                        );
                    }
                    return Err(Error::MalformedTree);
                }
                match flatten(repo, entry.oid.as_slice(), path.as_slice(), depth - 1) {
                    Err(e) => {
                        proof {
                            lemma_flatten_entries_err(
                                repo.objects@,
                                list,
                                (i + 1) as nat,
                                list.len(),
                                base@,
                                depth as nat,
                            );
                        }
                        return Err(e);
                    },
                    Ok(below) => {
                        let mut below = below;
                        let ghost added = pair_views(below@);
                        out.append(&mut below);
                        assert(pair_views(out@) =~= before + added);
                    },
                }
            },
        }
        i += 1;
    }
    Ok(out)
}

/// Lists the files of the tree stored under `oid`, each as the identifier
/// of its contents and its path below `base_path`: the entries in their
/// order, and the files of a nested tree in the place of its entry. Without
/// an identifier the list is empty. Fails where a tree cannot be had or
/// read, and with `MalformedTree` where an entry has an illegal name,
/// where the path of an entry below `base_path` starts at the root or has
/// `.` or `..` among its components, or where trees are nested more deeply
/// than the store has objects.
pub fn get_tree(repo: &Repository, oid: Option<&[u8]>, base_path: Option<&[u8]>) -> (r: Result<
    Vec<(Vec<u8>, Vec<u8>)>,
    Error,
>)
    requires
        repo.wf(),
    ensures
        match r {
            Ok(v) => tree_files(
                repo.objects@,
                match oid {
                    Some(o) => Some(o@),
                    None => None,
                },
                match base_path {
                    Some(b) => b@,
                    None => Seq::empty(),
                },
            ) == Ok::<_, Error>(pair_views(v@)),
            Err(e) => tree_files(
                repo.objects@,
                match oid {
                    Some(o) => Some(o@),
                    None => None,
                },
                match base_path {
                    Some(b) => b@,
                    None => Seq::empty(),
                },
            ) == Err::<Seq<(Seq<u8>, Seq<u8>)>, _>(e),
        },
{
    let empty: Vec<u8> = Vec::new();
    let base: &[u8] = match base_path {
        Some(b) => b,
        None => empty.as_slice(),
    };
    match oid {
        None => {
            let out: Vec<(Vec<u8>, Vec<u8>)> = Vec::new();
            assert(pair_views(out@) =~= Seq::<(Seq<u8>, Seq<u8>)>::empty());
            Ok(out)
        },
        Some(oid) => {
            proof {
                repo.objects.lemma_wf();
            }
            flatten(repo, oid, base, repo.objects.len())
        },
    }
}

/// The first `n` of `files`, each as its path and the payload stored under
/// its identifier.
pub open spec fn checked_out(objects: Store, files: Seq<(Seq<u8>, Seq<u8>)>, n: nat) -> Result<
    Seq<(Seq<u8>, Seq<u8>)>,
    Error,
>
    decreases n,
{
    if n == 0 {
        Ok(Seq::empty())
    } else {
        match checked_out(objects, files, (n - 1) as nat) {
            Err(e) => Err(e),
            Ok(rest) => match read_object(objects, files[n - 1].0, None) {
                Err(e) => Err(e),
                Ok(p) => Ok(rest.push((files[n - 1].1, p.1))),
            },
        }
    }
}

/// Files that cannot be had for the first `n` cannot be had for more.
pub proof fn lemma_checked_out_err(objects: Store, files: Seq<(Seq<u8>, Seq<u8>)>, n: nat, m: nat)
    requires
        n <= m,
        checked_out(objects, files, n) is Err,
    ensures
        checked_out(objects, files, m) == checked_out(objects, files, n),
    decreases m,
{
    if n < m {
        lemma_checked_out_err(objects, files, n, (m - 1) as nat);
    }
}

/// The working tree that the tree stored under `oid` stands for: each of
/// its files as path and contents.
pub open spec fn tree_contents(objects: Store, oid: Seq<u8>) -> Result<
    Seq<(Seq<u8>, Seq<u8>)>,
    Error,
> {
    match tree_files(objects, Some(oid), Seq::empty()) {
        Err(e) => Err(e),
        Ok(files) => checked_out(objects, files, files.len()),
    }
}

/// The files of the tree stored under `tree_oid`, each as its path and its
/// contents: what the working tree holds once it was emptied and the tree
/// was written into it. Fails where a tree or a file's contents cannot be
/// had from the store.
pub fn read_tree(repo: &Repository, tree_oid: &[u8]) -> (r: Result<
    Vec<(Vec<u8>, Vec<u8>)>,
    Error,
>)
    requires
        repo.wf(),
    ensures
        match r {
            Ok(v) => tree_contents(repo.objects@, tree_oid@) == Ok::<_, Error>(pair_views(v@)),
            Err(e) => tree_contents(repo.objects@, tree_oid@) == Err::<
                Seq<(Seq<u8>, Seq<u8>)>,
                _,
            >(e),
        },
{
    let files = match get_tree(repo, Some(tree_oid), None) {
        Ok(files) => files,
        Err(e) => {
            return Err(e);
        },
    };
    let ghost list = pair_views(files@);
    let mut out: Vec<(Vec<u8>, Vec<u8>)> = Vec::new();
    let mut i: usize = 0;
    assert(pair_views(out@) =~= Seq::<(Seq<u8>, Seq<u8>)>::empty());
    while i < files.len()
        invariant
            i <= files.len(),
            repo.wf(),
            list == pair_views(files@),
            tree_files(repo.objects@, Some(tree_oid@), Seq::empty()) == Ok::<_, Error>(list),
            checked_out(repo.objects@, list, i as nat) == Ok::<_, Error>(pair_views(out@)),
        decreases files.len() - i,
    {
        let ghost before = pair_views(out@);
        assert(list[i as int] == (files@[i as int].0@, files@[i as int].1@));
        match get_object(repo, files[i].0.as_slice(), None) {
            Err(e) => {
                proof {
                    lemma_checked_out_err(repo.objects@, list, (i + 1) as nat, list.len());
                }
                return Err(e);
            },
            Ok(p) => {
                out.push((copy(files[i].1.as_slice()), p.1));
                assert(pair_views(out@) =~= before.push((files@[i as int].1@, p.1@)));
            },
        }
        i += 1;
    }
    Ok(out)
}

/// The files below the first `n` of `entries`, each as the identifier that
/// its contents have as a blob and its path below `base`. Entries named as
/// the metadata directory are left out.
pub open spec fn snapshot(entries: Seq<Entry>, n: nat, base: Seq<u8>) -> Seq<(Seq<u8>, Seq<u8>)>
    decreases entries, n,
{
    if n == 0 || n > entries.len() {
        Seq::empty()
    } else {
        let rest = snapshot(entries, (n - 1) as nat, base);
        match entries[n - 1] {
            Entry::File { name, contents } => if name@ == metadata_dir() {
                rest
            } else {
                rest.push((object_id(blob_tag(), contents@), join(base, name@)))
            },
            Entry::Dir { name, entries: inner } => if name@ == metadata_dir() {
                rest
            } else {
                rest + snapshot(inner@, inner@.len(), join(base, name@))
            },
        }
    }
}

/// Lists the files below `entries` with paths below `base`.
fn snapshot_entries(entries: &Vec<Entry>, base: &[u8]) -> (r: Vec<(Vec<u8>, Vec<u8>)>)
    ensures
        pair_views(r@) == snapshot(entries@, entries@.len(), base@),
    decreases entries,
{
    proof {
        reveal_strlit(".ugit");
    }
    let meta = lit(".ugit");
    let blob_word = blob();
    let mut out: Vec<(Vec<u8>, Vec<u8>)> = Vec::new();
    let mut i: usize = 0;
    assert(pair_views(out@) =~= Seq::<(Seq<u8>, Seq<u8>)>::empty());
    while i < entries.len()
        invariant
            i <= entries.len(),
            meta@ == metadata_dir(),
            blob_word@ == blob_tag(),
            pair_views(out@) == snapshot(entries@, i as nat, base@),
        decreases entries.len() - i,
    {
        let ghost before = pair_views(out@);
        match &entries[i] {
            Entry::File { name, contents } => {
                if !bytes_eq(name.as_slice(), meta.as_slice()) {
                    let raw = crate::data::encode(blob_word.as_slice(), contents.as_slice());
                    let oid = crate::oid::generate_oid(raw.as_slice());
                    let path = join_path(base, name.as_slice());
                    out.push((oid, path));
                    assert(pair_views(out@) =~= before.push((oid@, path@)));
                }
            },
            Entry::Dir { name, entries: inner } => {
                if !bytes_eq(name.as_slice(), meta.as_slice()) {
                    let path = join_path(base, name.as_slice());
                    let mut below = snapshot_entries(inner, path.as_slice());
                    let ghost added = pair_views(below@);
                    out.append(&mut below);
                    assert(pair_views(out@) =~= before + added);
                }
            },
        }
        i += 1;
    }
    out
}

/// Lists the files of a working tree in the shape in which [`get_tree`]
/// lists those of a stored tree: each file as the identifier that its
/// contents have as a blob, and its path. Nothing is stored. Entries named
/// as the metadata directory are left out.
pub fn get_working_tree(entries: &Vec<Entry>) -> (r: Vec<(Vec<u8>, Vec<u8>)>)
    ensures
        pair_views(r@) == snapshot(entries@, entries@.len(), Seq::empty()),
{
    let base: Vec<u8> = Vec::new();
    snapshot_entries(entries, base.as_slice())
}

/// The files below the first `n` of `entries`, each as its path below
/// `base` and its contents, in the order of the entries and with a
/// directory's files in the place of the directory. Entries named as the
/// metadata directory are left out.
pub open spec fn files_of(entries: Seq<Entry>, n: nat, base: Seq<u8>) -> Seq<(Seq<u8>, Seq<u8>)>
    decreases entries, n,
{
    if n == 0 || n > entries.len() {
        Seq::empty()
    } else {
        let rest = files_of(entries, (n - 1) as nat, base);
        match entries[n - 1] {
            Entry::File { name, contents } => if name@ == metadata_dir() {
                rest
            } else {
                rest.push((join(base, name@), contents@))
            },
            Entry::Dir { name, entries: inner } => if name@ == metadata_dir() {
                rest
            } else {
                rest + files_of(inner@, inner@.len(), join(base, name@))
            },
        }
    }
}

/// Lists the files below `entries` with paths below `base` and their
/// contents.
fn file_entries(entries: &Vec<Entry>, base: &[u8]) -> (r: Vec<(Vec<u8>, Vec<u8>)>)
    ensures
        pair_views(r@) == files_of(entries@, entries@.len(), base@),
    decreases entries,
{
    proof {
        reveal_strlit(".ugit");
    }
    let meta = lit(".ugit");
    let mut out: Vec<(Vec<u8>, Vec<u8>)> = Vec::new();
    let mut i: usize = 0;
    assert(pair_views(out@) =~= Seq::<(Seq<u8>, Seq<u8>)>::empty());
    while i < entries.len()
        invariant
            i <= entries.len(),
            meta@ == metadata_dir(),
            pair_views(out@) == files_of(entries@, i as nat, base@),
        decreases entries.len() - i,
    {
        let ghost before = pair_views(out@);
        match &entries[i] {
            Entry::File { name, contents } => {
                if !bytes_eq(name.as_slice(), meta.as_slice()) {
                    let path = join_path(base, name.as_slice());
                    out.push((path, copy(contents.as_slice())));
                    assert(pair_views(out@) =~= before.push((path@, contents@)));
                }
            },
            Entry::Dir { name, entries: inner } => {
                if !bytes_eq(name.as_slice(), meta.as_slice()) {
                    let path = join_path(base, name.as_slice());
                    let mut below = file_entries(inner, path.as_slice());
                    let ghost added = pair_views(below@);
                    out.append(&mut below);
                    assert(pair_views(out@) =~= before + added);
                }
            },
        }
        i += 1;
    }
    out
}

/// Lists the files of a working tree, each as its path and its contents,
/// in the order in which [`get_working_tree`] lists them. Entries named as
/// the metadata directory are left out.
pub fn get_working_files(entries: &Vec<Entry>) -> (r: Vec<(Vec<u8>, Vec<u8>)>)
    ensures
        pair_views(r@) == files_of(entries@, entries@.len(), Seq::empty()),
{
    let base: Vec<u8> = Vec::new();
    file_entries(entries, base.as_slice())
}

/// The names of those of the first `n` entries of the directory at `path`
/// that go when the directory is emptied: every file, and every directory
/// whose path is not ignored.
pub open spec fn emptied(path: Seq<u8>, entries: Seq<Entry>, n: nat) -> Seq<Seq<u8>>
    decreases n,
{
    if n == 0 {
        Seq::empty()
    } else {
        let rest = emptied(path, entries, (n - 1) as nat);
        match entries[n - 1] {
            Entry::File { name, .. } => rest.push(name@),
            Entry::Dir { name, .. } => if ignored(join(path, name@)) {
                rest
            } else {
                rest.push(name@)
            },
        }
    }
}

/// The names of the entries that are to be removed to empty the directory
/// at `path` before a tree is written into it: all its files, and all its
/// directories but those whose path has the metadata directory among its
/// components. Only the entries themselves are looked at, not what is
/// below them.
pub fn empty_directory(path: &[u8], entries: &Vec<Entry>) -> (r: Vec<Vec<u8>>)
    ensures
        views(r@) == emptied(path@, entries@, entries@.len()),
{
    let mut out: Vec<Vec<u8>> = Vec::new();
    let mut i: usize = 0;
    assert(views(out@) =~= Seq::<Seq<u8>>::empty());
    while i < entries.len()
        invariant
            i <= entries.len(),
            views(out@) == emptied(path@, entries@, i as nat),
        decreases entries.len() - i,
    {
        let ghost before = views(out@);
        match &entries[i] {
            Entry::File { name, .. } => {
                out.push(copy(name.as_slice()));
                assert(views(out@) =~= before.push(name@));
            },
            Entry::Dir { name, .. } => {
                let full = join_path(path, name.as_slice());
                if !is_ignored(full.as_slice()) {
                    out.push(copy(name.as_slice()));
                    assert(views(out@) =~= before.push(name@));
                }
            },
        }
        i += 1;
    }
    out
}

// ---------------------------------------------------------------------
// Names of commits
// ---------------------------------------------------------------------

/// The prefix of the names of branches.
pub open spec fn heads_dir() -> Seq<u8> {
    ascii("refs/heads/"@)
}

/// The prefix of the names of tags.
pub open spec fn tags_dir() -> Seq<u8> {
    ascii("refs/tags/"@)
}

/// The reference of the branch that a new repository is on.
pub open spec fn master_ref() -> Seq<u8> {
    ascii("refs/heads/master"@)
}

/// The prefix `refs/heads/`.
pub fn heads_prefix() -> (r: Vec<u8>)
    ensures
        r@ == heads_dir(),
        r@.len() == 11,
{
    proof {
        reveal_strlit("refs/heads/");
    }
    lit("refs/heads/")
}

/// The prefix `refs/tags/`.
pub fn tags_prefix() -> (r: Vec<u8>)
    ensures
        r@ == tags_dir(),
{
    proof {
        reveal_strlit("refs/tags/");
    }
    lit("refs/tags/")
}

/// A new repository: no objects, and `HEAD` a symbolic reference to the
/// branch `master`, which does not exist yet.
pub fn init() -> (repo: Repository)
    ensures
        repo.wf(),
        repo.objects@ == Store::empty(),
        repo.refs@ == Store::empty().insert(head_name(), symbolic_prefix() + master_ref()),
        repo.refs.keys() == seq![head_name()],
        repo.objects.keys() == Seq::<Seq<u8>>::empty(),
{
    proof {
        reveal_strlit("refs/heads/master");
    }
    let mut repo = crate::data::init();
    let name = head();
    let master = lit("refs/heads/master");
    let prefix = crate::data::symbolic_prefix_bytes();
    repo.refs.insert(name, join_bytes(prefix.as_slice(), master.as_slice()));
    assert(repo.refs.keys() =~= seq![head_name()]);
    assert(repo.objects.keys() =~= Seq::<Seq<u8>>::empty());
    repo
}

/// The reference names under which the revision `name` is looked for, in
/// order: the name itself, then below `refs/`, `refs/tags/` and
/// `refs/heads/`.
pub open spec fn revision_names(name: Seq<u8>) -> Seq<Seq<u8>> {
    seq![name, ascii("refs/"@) + name, tags_dir() + name, heads_dir() + name]
}

/// The name that a revision stands for: `HEAD` for `@`, else itself.
pub open spec fn revision_alias(name: Seq<u8>) -> Seq<u8> {
    if name == seq![0x40u8] {
        head_name()
    } else {
        name
    }
}

/// The commit that `name` stands for among the candidates from the `i`-th
/// on: the value, with symbolic references followed, of the first
/// candidate that exists as a reference; where none exists, `name` itself
/// if it has the shape of an identifier, else `UnknownRevision`.
pub open spec fn resolve_name(refs: Store, candidates: Seq<Seq<u8>>, i: nat, name: Seq<u8>)
    -> Result<Option<Seq<u8>>, Error>
    decreases candidates.len() - i,
{
    if i >= candidates.len() {
        if is_oid(name) {
            Ok(Some(name))
        } else {
            Err(Error::UnknownRevision)
        }
    } else if refs.contains_key(candidates[i as int]) {
        match ref_value(refs, candidates[i as int], true) {
            Ok(v) => Ok(v.value),
            Err(e) => Err(e),
        }
    } else {
        resolve_name(refs, candidates, i + 1, name)
    }
}

/// The commit that a revision stands for.
pub open spec fn revision(refs: Store, name: Seq<u8>) -> Result<Option<Seq<u8>>, Error> {
    resolve_name(refs, revision_names(revision_alias(name)), 0, revision_alias(name))
}

/// The identifier that the revision `name` stands for. `@` stands for
/// `HEAD`. The name is looked for as a reference, then below `refs/`,
/// `refs/tags/` and `refs/heads/`; the first that exists is followed
/// through symbolic references, and its value returned, which is none where
/// the chain ends at a reference that does not exist. Where none exists,
/// forty hexadecimal digits stand for themselves, and anything else fails
/// with `UnknownRevision`.
pub fn get_oid(repo: &Repository, name: &[u8]) -> (r: Result<Option<Vec<u8>>, Error>)
    requires
        repo.wf(),
    ensures
        match r {
            Ok(v) => revision(repo.refs@, name@) == Ok::<_, Error>(opt_view(v)),
            Err(e) => revision(repo.refs@, name@) == Err::<Option<Seq<u8>>, _>(e),
        },
{
    proof {
        reveal_strlit("refs/");
    }
    let rev: Vec<u8> = if name.len() == 1 && name[0] == 0x40 {
        assert(name@ =~= seq![0x40u8]);
        head()
    } else {
        assert(name@ != seq![0x40u8]) by {
            if name@.len() == 1 {
                assert(name@[0] != seq![0x40u8][0]);
            }
        }
        copy(name)
    };
    let refs_prefix = lit("refs/");
    let tags = tags_prefix();
    let heads = heads_prefix();
    let mut candidates: Vec<Vec<u8>> = Vec::new();
    candidates.push(copy(rev.as_slice()));
    candidates.push(join_bytes(refs_prefix.as_slice(), rev.as_slice()));
    candidates.push(join_bytes(tags.as_slice(), rev.as_slice()));
    candidates.push(join_bytes(heads.as_slice(), rev.as_slice()));
    let ghost list = views(candidates@);
    assert(list =~= revision_names(rev@));
    let mut i: usize = 0;
    while i < candidates.len()
        invariant
            i <= candidates.len(),
            repo.wf(),
            list == views(candidates@),
            rev@ == revision_alias(name@),
            list == revision_names(rev@),
            revision(repo.refs@, name@) == resolve_name(repo.refs@, list, i as nat, rev@),
        decreases candidates.len() - i,
    {
        assert(list[i as int] == candidates@[i as int]@);
        if repo.refs.contains_key(candidates[i].as_slice()) {
            return match get_ref(repo, candidates[i].as_slice(), true) {
                Ok(v) => Ok(v.value),
                Err(e) => Err(e),
            };
        }
        i += 1;
    }
    if is_oid_shaped(rev.as_slice()) {
        Ok(Some(rev))
    } else {
        Err(Error::UnknownRevision)
    }
}

/// Sets `HEAD`, or the branch that it names, to `oid`.
pub fn reset(repo: &mut Repository, oid: &[u8]) -> (r: Result<(), Error>)
    requires
        old(repo).wf(),
    ensures
        final(repo).wf(),
        final(repo).objects == old(repo).objects,
        match r {
            Ok(_) => write_ref(old(repo).refs@, head_name(), direct(oid@), true) == Ok::<_, Error>(
                final(repo).refs@,
            ),
            Err(e) => write_ref(old(repo).refs@, head_name(), direct(oid@), true) == Err::<
                Store,
                _,
            >(e) && *final(repo) == *old(repo),
        },
{
    let name = head();
    let value = direct_value(oid);
    update_ref(repo, name.as_slice(), &value, true)
}

/// Makes the tag `name` hold `oid`.
pub fn create_tag(repo: &mut Repository, name: &[u8], oid: &[u8]) -> (r: Result<(), Error>)
    requires
        old(repo).wf(),
    ensures
        final(repo).wf(),
        final(repo).objects == old(repo).objects,
        match r {
            Ok(_) => write_ref(old(repo).refs@, tags_dir() + name@, direct(oid@), true) == Ok::<
                _,
                Error,
            >(final(repo).refs@),
            Err(e) => write_ref(old(repo).refs@, tags_dir() + name@, direct(oid@), true) == Err::<
                Store,
                _,
            >(e) && *final(repo) == *old(repo),
        },
{
    let prefix = tags_prefix();
    let path = join_bytes(prefix.as_slice(), name);
    let value = direct_value(oid);
    update_ref(repo, path.as_slice(), &value, true)
}

/// Makes the branch `name` hold `oid`.
pub fn create_branch(repo: &mut Repository, name: &[u8], oid: &[u8]) -> (r: Result<(), Error>)
    requires
        old(repo).wf(),
    ensures
        final(repo).wf(),
        final(repo).objects == old(repo).objects,
        match r {
            Ok(_) => write_ref(old(repo).refs@, heads_dir() + name@, direct(oid@), true) == Ok::<
                _,
                Error,
            >(final(repo).refs@),
            Err(e) => write_ref(old(repo).refs@, heads_dir() + name@, direct(oid@), true) == Err::<
                Store,
                _,
            >(e) && *final(repo) == *old(repo),
        },
{
    let prefix = heads_prefix();
    let path = join_bytes(prefix.as_slice(), name);
    let value = direct_value(oid);
    update_ref(repo, path.as_slice(), &value, true)
}

/// The branch that `HEAD` names: what follows `refs/heads/` in the name
/// that a symbolic `HEAD` holds. There is none where `HEAD` does not exist,
/// holds an identifier, or names a reference that is no branch.
pub open spec fn current_branch(refs: Store) -> Option<Seq<u8>> {
    if refs.contains_key(head_name()) && crate::data::is_symbolic(refs[head_name()])
        && heads_dir().is_prefix_of(crate::data::symbolic_target(refs[head_name()])) {
        Some(crate::data::symbolic_target(refs[head_name()]).skip(heads_dir().len() as int))
    } else {
        None
    }
}

/// The name of the branch that is checked out, if `HEAD` names one.
pub fn get_branch_name(repo: &Repository) -> (r: Option<Vec<u8>>)
    requires
        repo.wf(),
    ensures
        opt_view(r) == current_branch(repo.refs@),
{
    let name = head();
    let prefix = heads_prefix();
    proof {
        lemma_lookup_shallow(repo.refs@, head_name(), repo.refs@.dom().len());
    }
    match get_ref(repo, name.as_slice(), false) {
        Ok(value) => {
            if !value.symbolic {
                return None;
            }
            match value.value {
                Some(target) => {
                    if crate::bytes::starts_with(target.as_slice(), prefix.as_slice()) {
                        Some(slice(target.as_slice(), 11, target.len()))
                    } else {
                        None
                    }
                },
                None => None,
            }
        },
        Err(_) => None,
    }
}

/// The names of listed references without the prefix `refs/heads/`.
pub open spec fn branch_names(listing: Seq<(Seq<u8>, RefValueView)>) -> Seq<Seq<u8>> {
    Seq::new(listing.len(), |i: int| listing[i].0.skip(heads_dir().len() as int))
}

/// The branches of a repository with these references: the names of those
/// below `refs/heads/` that have a value, without that prefix.
pub open spec fn branches(refs: Store, keys: Seq<Seq<u8>>) -> Result<Seq<Seq<u8>>, Error> {
    match all_refs(refs, keys, Some(heads_dir()), true) {
        Ok(listing) => Ok(branch_names(listing)),
        Err(e) => Err(e),
    }
}

/// The names of the branches. Fails with `RefCycle` where a branch is a
/// symbolic reference whose chain returns to itself.
pub fn get_branch_names(repo: &Repository) -> (r: Result<Vec<Vec<u8>>, Error>)
    requires
        repo.wf(),
    ensures
        match r {
            Ok(v) => branches(repo.refs@, repo.refs.keys()) == Ok::<_, Error>(views(v@)),
            Err(e) => branches(repo.refs@, repo.refs.keys()) == Err::<Seq<Seq<u8>>, _>(e),
        },
{
    let prefix = heads_prefix();
    let listing = match get_refs(repo, Some(prefix.as_slice()), true) {
        Ok(listing) => listing,
        Err(e) => {
            return Err(e);
        },
    };
    let ghost list = named_views(listing@);
    proof {
        let names = crate::data::listed_names(repo.refs.keys());
        crate::data::lemma_listed_prefix(repo.refs@, names, names.len(), heads_dir(), true);
    }
    let mut out: Vec<Vec<u8>> = Vec::new();
    let mut i: usize = 0;
    assert(views(out@) =~= branch_names(list).take(0));
    while i < listing.len()
        invariant
            i <= listing.len(),
            list == named_views(listing@),
            forall|j: int| 0 <= j < list.len() ==> heads_dir().is_prefix_of((#[trigger] list[j]).0),
            prefix@ == heads_dir(),
            prefix@.len() == 11,
            views(out@) == branch_names(list).take(i as int),
        decreases listing.len() - i,
    {
        let ghost before = views(out@);
        let name = &listing[i].0;
        assert(list[i as int].0 == name@);
        let short = if name.len() >= 11 {
            slice(name.as_slice(), 11, name.len())
        } else {
            Vec::new()
        };
        assert(heads_dir().is_prefix_of(list[i as int].0));
        assert(short@ =~= name@.skip(11));
        out.push(short);
        assert(views(out@) =~= before.push(name@.skip(11)));
        assert(views(out@) =~= branch_names(list).take(i + 1));
        i += 1;
    }
    assert(branch_names(list).take(list.len() as int) =~= branch_names(list));
    Ok(out)
}

/// Whether `branch` is the name of a branch with a value.
pub fn is_branch(repo: &Repository, branch: &[u8]) -> (r: Result<bool, Error>)
    requires
        repo.wf(),
    ensures
        match r {
            Ok(b) => ref_value(repo.refs@, heads_dir() + branch@, true) is Ok && b == (ref_value(
                repo.refs@,
                heads_dir() + branch@,
                true,
            )->Ok_0.value is Some),
            Err(e) => ref_value(repo.refs@, heads_dir() + branch@, true) == Err::<RefValueView, _>(
                e,
            ),
        },
{
    let prefix = heads_prefix();
    let path = join_bytes(prefix.as_slice(), branch);
    match get_ref(repo, path.as_slice(), true) {
        Ok(v) => Ok(v.value.is_some()),
        Err(e) => Err(e),
    }
}

// ---------------------------------------------------------------------
// Committing and checking out
// ---------------------------------------------------------------------

/// The parents of a new commit: the value of `HEAD`, where it has one, then
/// that of `MERGE_HEAD`, where it has one.
pub open spec fn parents_of(head: RefValueView, merge: RefValueView) -> Seq<Seq<u8>> {
    let first = match head.value {
        Some(oid) => seq![oid],
        None => Seq::empty(),
    };
    match merge.value {
        Some(oid) => first.push(oid),
        None => first,
    }
}

/// What committing does to the objects and the references, and what it
/// returns. The tree of the directory is written first; a path that is
/// ignored fails with `MalformedTree`. The commit names the values of `HEAD`
/// and `MERGE_HEAD` as its parents, `MERGE_HEAD` is removed, the commit is
/// stored, and `HEAD`, or the branch that it names, is set to the commit.
pub open spec fn committed(
    objects: Store,
    refs: Store,
    path: Seq<u8>,
    entries: Seq<Entry>,
    message: Seq<u8>,
) -> (Store, Store, Result<Seq<u8>, Error>) {
    let (objects1, tree) = stored_tree(objects, path, entries);
    match tree {
        None => (objects, refs, Err(Error::MalformedTree)),
        Some(tree) => match ref_value(refs, head_name(), true) {
            Err(e) => (objects1, refs, Err(e)),
            Ok(head) => match ref_value(refs, merge_head_name(), true) {
                Err(e) => (objects1, refs, Err(e)),
                Ok(merge) => {
                    let refs1 = if merge.value is Some {
                        refs.remove(merge_head_name())
                    } else {
                        refs
                    };
                    let payload = commit_text(
                        CommitView { tree, parents: parents_of(head, merge), message },
                    );
                    let objects2 = put_object(objects1, commit_tag(), payload);
                    match write_ref(
                        refs1,
                        head_name(),
                        direct(object_id(commit_tag(), payload)),
                        true,
                    ) {
                        Err(e) => (objects2, refs1, Err(e)),
                        Ok(refs2) => (objects2, refs2, Ok(object_id(commit_tag(), payload))),
                    }
                },
            },
        },
    }
}

/// Records the directory at `path`, with these entries, as a new commit
/// with `message` and returns the commit's identifier. The commit's parents
/// are the commit that `HEAD` stands for, if any, and the one that
/// `MERGE_HEAD` stands for, if a merge is in progress; `MERGE_HEAD` is then
/// removed. `HEAD` advances to the new commit, through the branch that it
/// names. [`committed`] says what is left where a step fails.
pub fn commit(repo: &mut Repository, path: &[u8], entries: &Vec<Entry>, message: &[u8]) -> (r:
    Result<Vec<u8>, Error>)
    requires
        old(repo).wf(),
    ensures
        final(repo).wf(),
        committed(old(repo).objects@, old(repo).refs@, path@, entries@, message@) == (
            final(repo).objects@,
            final(repo).refs@,
            match r {
                Ok(oid) => Ok::<Seq<u8>, Error>(oid@),
                Err(e) => Err::<Seq<u8>, Error>(e),
            },
        ),
{
    let tree_oid = match write_tree(repo, path, entries) {
        Some(oid) => oid,
        None => {
            return Err(Error::MalformedTree);
        },
    };
    let head_ref = head();
    let merge_ref = merge_head();
    let head_value = match get_ref(repo, head_ref.as_slice(), true) {
        Ok(v) => v,
        Err(e) => {
            return Err(e);
        },
    };
    let merge_value = match get_ref(repo, merge_ref.as_slice(), true) {
        Ok(v) => v,
        Err(e) => {
            return Err(e);
        },
    };
    let mut parents: Vec<Vec<u8>> = Vec::new();
    match head_value.value {
        Some(oid) => parents.push(oid),
        None => {},
    }
    match merge_value.value {
        Some(oid) => {
            parents.push(oid);
            repo.refs.remove(merge_ref.as_slice());
        },
        None => {},
    }
    assert(views(parents@) =~= parents_of(head_value@, merge_value@));
    let record = Commit { tree: tree_oid, parents, message: copy(message) };
    let payload = encode_commit(&record);
    let tag = commit_type();
    let oid = hash_object(repo, payload.as_slice(), tag.as_slice());
    let value = direct_value(oid.as_slice());
    match update_ref(repo, head_ref.as_slice(), &value, true) {
        Ok(_) => Ok(oid),
        Err(e) => Err(e),
    }
}

/// The references after the revision `name` was checked out, and the files
/// of its tree. `HEAD` itself is set: to the branch `name` where there is
/// one, else to the commit. A name that stands for no commit is an
/// `UnknownRevision`.
pub open spec fn checked_out_revision(objects: Store, refs: Store, name: Seq<u8>) -> Result<
    (Store, Seq<(Seq<u8>, Seq<u8>)>),
    Error,
> {
    match revision(refs, name) {
        Err(e) => Err(e),
        Ok(None) => Err(Error::UnknownRevision),
        Ok(Some(oid)) => match commit_at(objects, oid) {
            Err(e) => Err(e),
            Ok(c) => match tree_contents(objects, c.tree) {
                Err(e) => Err(e),
                Ok(files) => match ref_value(refs, heads_dir() + name, true) {
                    Err(e) => Err(e),
                    Ok(branch) => {
                        let head = if branch.value is Some {
                            symbolic(heads_dir() + name)
                        } else {
                            direct(oid)
                        };
                        Ok((refs.insert(head_name(), crate::data::ref_content(head)), files))
                    },
                },
            },
        },
    }
}

/// Checks the revision `name` out: returns the files of its commit's tree,
/// which are to replace the working tree, and sets `HEAD` to the branch
/// `name`, where there is one, else to the commit itself. Where anything
/// fails the repository stays as it was.
pub fn checkout(repo: &mut Repository, name: &[u8]) -> (r: Result<Vec<(Vec<u8>, Vec<u8>)>, Error>)
    requires
        old(repo).wf(),
    ensures
        final(repo).wf(),
        final(repo).objects == old(repo).objects,
        match r {
            Ok(files) => checked_out_revision(old(repo).objects@, old(repo).refs@, name@) == Ok::<
                _,
                Error,
            >((final(repo).refs@, pair_views(files@))),
            Err(e) => checked_out_revision(old(repo).objects@, old(repo).refs@, name@) == Err::<
                (Store, Seq<(Seq<u8>, Seq<u8>)>),
                _,
            >(e) && *final(repo) == *old(repo),
        },
{
    let oid = match get_oid(repo, name) {
        Ok(Some(oid)) => oid,
        Ok(None) => {
            return Err(Error::UnknownRevision);
        },
        Err(e) => {
            return Err(e);
        },
    };
    let record = match get_commit(repo, oid.as_slice()) {
        Ok(c) => c,
        Err(e) => {
            return Err(e);
        },
    };
    let files = match read_tree(repo, record.tree.as_slice()) {
        Ok(files) => files,
        Err(e) => {
            return Err(e);
        },
    };
    let on_branch = match is_branch(repo, name) {
        Ok(b) => b,
        Err(e) => {
            return Err(e);
        },
    };
    let value = if on_branch {
        let prefix = heads_prefix();
        let path = join_bytes(prefix.as_slice(), name);
        symbolic_value(path.as_slice())
    } else {
        direct_value(oid.as_slice())
    };
    let head_ref = head();
    proof {
        lemma_lookup_shallow(repo.refs@, head_name(), repo.refs@.dom().len());
    }
    match update_ref(repo, head_ref.as_slice(), &value, false) {
        Ok(_) => Ok(files),
        Err(e) => Err(e),
    }
}

// ---------------------------------------------------------------------
// Merging
// ---------------------------------------------------------------------

/// How a merge ended.
#[derive(Debug, Clone, Copy, PartialEq, Eq, Structural)]
pub enum MergeKind {
    /// `HEAD` was an ancestor of the other commit and moved to it; there
    /// is nothing to commit.
    FastForward,
    /// The two trees were merged into the working tree, and a commit is
    /// to follow.
    Merged,
}

/// The working tree that merging the trees `head` and `other` over `base`
/// gives: each path with its merged text.
pub open spec fn merged_files(objects: Store, base: Seq<u8>, head: Seq<u8>, other: Seq<u8>)
    -> Result<Seq<(Seq<u8>, Seq<u8>)>, Error> {
    match tree_files(objects, Some(base), Seq::empty()) {
        Err(e) => Err(e),
        Ok(b) => match tree_files(objects, Some(head), Seq::empty()) {
            Err(e) => Err(e),
            Ok(h) => match tree_files(objects, Some(other), Seq::empty()) {
                Err(e) => Err(e),
                Ok(o) => tree_merge(objects, b, h, o),
            },
        },
    }
}

/// The files of the merge of the trees stored under `head` and `other`
/// over the tree stored under `base`, each as its path and its merged
/// text: what the working tree holds once it was emptied and the merge
/// was written into it. Nothing is stored. Fails where a tree or a blob
/// cannot be had from the store.
pub fn read_tree_merged(repo: &Repository, base: &[u8], head: &[u8], other: &[u8]) -> (r: Result<
    Vec<(Vec<u8>, Vec<u8>)>,
    Error,
>)
    requires
        repo.wf(),
    ensures
        match r {
            Ok(v) => merged_files(repo.objects@, base@, head@, other@) == Ok::<_, Error>(
                pair_views(v@),
            ),
            Err(e) => merged_files(repo.objects@, base@, head@, other@) == Err::<
                Seq<(Seq<u8>, Seq<u8>)>,
                _,
            >(e),
        },
{
    let base_tree = match get_tree(repo, Some(base), None) {
        Ok(files) => files,
        Err(e) => {
            return Err(e);
        },
    };
    let head_tree = match get_tree(repo, Some(head), None) {
        Ok(files) => files,
        Err(e) => {
            return Err(e);
        },
    };
    let other_tree = match get_tree(repo, Some(other), None) {
        Ok(files) => files,
        Err(e) => {
            return Err(e);
        },
    };
    merge_trees(repo, &base_tree, &head_tree, &other_tree)
}

/// What merging the commit `other` into `HEAD` does: the references
/// afterwards, how the merge ended, and the files of the new working
/// tree. `HEAD` must stand for a commit, else the merge is an
/// `UnknownRevision`, and the two commits must share an ancestor, else it
/// is a `NoCommonAncestor`. Where the merge base is the commit of `HEAD`,
/// the working tree becomes the tree of `other` and `HEAD` itself is set
/// to `other`. Else the working tree becomes the merge of the two trees
/// over that of the merge base, and `MERGE_HEAD` is set to `other`.
pub open spec fn merge_result(objects: Store, refs: Store, other: Seq<u8>) -> Result<
    (Store, MergeKind, Seq<(Seq<u8>, Seq<u8>)>),
    Error,
> {
    match ref_value(refs, head_name(), true) {
        Err(e) => Err(e),
        Ok(value) => match value.value {
            None => Err(Error::UnknownRevision),
            Some(head) => match merge_base(objects, other, head) {
                Err(e) => Err(e),
                Ok(None) => Err(Error::NoCommonAncestor),
                Ok(Some(base)) => match commit_at(objects, other) {
                    Err(e) => Err(e),
                    Ok(theirs) => if base == head {
                        match tree_contents(objects, theirs.tree) {
                            Err(e) => Err(e),
                            Ok(files) => Ok(
                                (refs.insert(head_name(), other), MergeKind::FastForward, files),
                            ),
                        }
                    } else {
                        match commit_at(objects, base) {
                            Err(e) => Err(e),
                            Ok(origin) => match commit_at(objects, head) {
                                Err(e) => Err(e),
                                Ok(ours) => match merged_files(
                                    objects,
                                    origin.tree,
                                    ours.tree,
                                    theirs.tree,
                                ) {
                                    Err(e) => Err(e),
                                    Ok(files) => match write_ref(
                                        refs,
                                        merge_head_name(),
                                        direct(other),
                                        true,
                                    ) {
                                        Err(e) => Err(e),
                                        Ok(refs1) => Ok((refs1, MergeKind::Merged, files)),
                                    },
                                },
                            },
                        }
                    },
                },
            },
        },
    }
}

/// Merges the commit `other` into the commit of `HEAD` and returns how the
/// merge ended and the files that are to replace the working tree. Where
/// `HEAD` is an ancestor of `other`, the merge is a fast-forward: the
/// files are those of `other`, and `HEAD` itself is set to `other`; no
/// commit is made and `MERGE_HEAD` is not touched. Else the files are the
/// merge of both trees over the tree of their merge base, with conflicts
/// marked in the text, and `MERGE_HEAD` is set to `other` so that the next
/// commit has both parents. No object is stored. Where anything fails the
/// repository stays as it was.
pub fn merge(repo: &mut Repository, other: &[u8]) -> (r: Result<
    (MergeKind, Vec<(Vec<u8>, Vec<u8>)>),
    Error,
>)
    requires
        old(repo).wf(),
    ensures
        final(repo).wf(),
        final(repo).objects == old(repo).objects,
        match r {
            Ok(p) => merge_result(old(repo).objects@, old(repo).refs@, other@) == Ok::<_, Error>(
                (final(repo).refs@, p.0, pair_views(p.1@)),
            ),
            Err(e) => merge_result(old(repo).objects@, old(repo).refs@, other@) == Err::<
                (Store, MergeKind, Seq<(Seq<u8>, Seq<u8>)>),
                _,
            >(e) && *final(repo) == *old(repo),
        },
{
    let head_ref = head();
    let ours = match get_ref(repo, head_ref.as_slice(), true) {
        Ok(value) => match value.value {
            Some(oid) => oid,
            None => {
                return Err(Error::UnknownRevision);
            },
        },
        Err(e) => {
            return Err(e);
        },
    };
    let base = match get_merge_base(repo, other, ours.as_slice()) {
        Ok(Some(oid)) => oid,
        Ok(None) => {
            return Err(Error::NoCommonAncestor);
        },
        Err(e) => {
            return Err(e);
        },
    };
    let theirs = match get_commit(repo, other) {
        Ok(c) => c,
        Err(e) => {
            return Err(e);
        },
    };
    if bytes_eq(base.as_slice(), ours.as_slice()) {
        let files = match read_tree(repo, theirs.tree.as_slice()) {
            Ok(files) => files,
            Err(e) => {
                return Err(e);
            },
        };
        let value = direct_value(other);
        proof {
            lemma_lookup_shallow(repo.refs@, head_name(), repo.refs@.dom().len());
        }
        return match update_ref(repo, head_ref.as_slice(), &value, false) {
            Ok(_) => Ok((MergeKind::FastForward, files)),
            Err(e) => Err(e),
        };
    }
    let origin = match get_commit(repo, base.as_slice()) {
        Ok(c) => c,
        Err(e) => {
            return Err(e);
        },
    };
    let mine = match get_commit(repo, ours.as_slice()) {
        Ok(c) => c,
        Err(e) => {
            return Err(e);
        },
    };
    let files = match read_tree_merged(
        repo,
        origin.tree.as_slice(),
        mine.tree.as_slice(),
        theirs.tree.as_slice(),
    ) {
        Ok(files) => files,
        Err(e) => {
            return Err(e);
        },
    };
    let merge_ref = merge_head();
    let value = direct_value(other);
    match update_ref(repo, merge_ref.as_slice(), &value, true) {
        Ok(_) => Ok((MergeKind::Merged, files)),
        Err(e) => Err(e),
    }
}

// ---------------------------------------------------------------------
// What holds of trees
// ---------------------------------------------------------------------

/// The tree entries that stand for the first `n` of `entries`, whatever
/// the store holds: what [`stored_entries`] returns beside the store.
pub open spec fn listed(entries: Seq<Entry>, n: nat) -> Seq<TreeEntryView>
    decreases entries, n,
{
    if n == 0 || n > entries.len() {
        Seq::empty()
    } else {
        let rest = listed(entries, (n - 1) as nat);
        match entries[n - 1] {
            Entry::File { name, contents } => if name@ == metadata_dir() {
                rest
            } else {
                rest.push(
                    TreeEntryView {
                        kind: EntryKind::Blob,
                        oid: object_id(blob_tag(), contents@),
                        name: name@,
                    },
                )
            },
            Entry::Dir { name, entries: inner } => {
                let below = listed(inner@, inner@.len());
                if name@ == metadata_dir() || below.len() == 0 {
                    rest
                } else {
                    rest.push(
                        TreeEntryView {
                            kind: EntryKind::Tree,
                            oid: object_id(tree_tag(), tree_text(below, below.len())),
                            name: name@,
                        },
                    )
                }
            },
        }
    }
}

/// Whether a name can stand in a tree and be read back: it is a word and
/// is not illegal.
pub open spec fn clean_name(name: Seq<u8>) -> bool {
    is_word(name) && !illegal(name)
}

/// Whether the names of the first `n` of `entries`, and of all below
/// them, are clean. What is named as the metadata directory is not looked
/// at.
pub open spec fn clean_names(entries: Seq<Entry>, n: nat) -> bool
    decreases entries, n,
{
    if n == 0 || n > entries.len() {
        true
    } else {
        clean_names(entries, (n - 1) as nat) && match entries[n - 1] {
            Entry::File { name, .. } => name@ == metadata_dir() || clean_name(name@),
            Entry::Dir { name, entries: inner } => name@ == metadata_dir() || (clean_name(name@)
                && clean_names(inner@, inner@.len())),
        }
    }
}

/// Whether the store holds the object with this type and payload under
/// its identifier.
pub open spec fn holds(objects: Store, tag: Seq<u8>, payload: Seq<u8>) -> bool {
    objects.contains_key(object_id(tag, payload)) && objects[object_id(tag, payload)]
        == encode_object(tag, payload)
}

/// Whether the store holds, each under its identifier, the blobs and
/// trees that writing the first `n` of `entries` puts into a store. A
/// store to which they were written holds them unless it held other bytes
/// under one of the identifiers before, or two of them share an
/// identifier.
pub open spec fn holds_entries(objects: Store, entries: Seq<Entry>, n: nat) -> bool
    decreases entries, n,
{
    if n == 0 || n > entries.len() {
        true
    } else {
        holds_entries(objects, entries, (n - 1) as nat) && match entries[n - 1] {
            Entry::File { name, contents } => name@ == metadata_dir() || holds(
                objects,
                blob_tag(),
                contents@,
            ),
            Entry::Dir { name, entries: inner } => {
                let below = listed(inner@, inner@.len());
                name@ == metadata_dir() || (holds_entries(objects, inner@, inner@.len()) && (
                below.len() == 0 || holds(objects, tree_tag(), tree_text(below, below.len()))))
            },
        }
    }
}

/// How deeply directories that are written as trees are nested below the
/// first `n` of `entries`.
pub open spec fn height(entries: Seq<Entry>, n: nat) -> nat
    decreases entries, n,
{
    if n == 0 || n > entries.len() {
        0
    } else {
        let rest = height(entries, (n - 1) as nat);
        let here: nat = match entries[n - 1] {
            Entry::File { .. } => 0,
            Entry::Dir { name, entries: inner } => if name@ == metadata_dir() || listed(
                inner@,
                inner@.len(),
            ).len() == 0 {
                0
            } else {
                1 + height(inner@, inner@.len())
            },
        };
        if rest >= here {
            rest
        } else {
            here
        }
    }
}

/// The line of a tree entry without its line feed.
pub open spec fn entry_body(e: TreeEntryView) -> Seq<u8> {
    kind_tag(e.kind) + seq![0x20u8] + e.oid + seq![0x20u8] + e.name
}

/// The lines of the first `n` entries without their line feeds.
pub open spec fn entry_bodies(entries: Seq<TreeEntryView>, n: nat) -> Seq<Seq<u8>> {
    Seq::new(n, |i: int| entry_body(entries[i]))
}

/// Whether the identifier and the name of each of the first `n` entries
/// are words.
pub open spec fn word_entries(entries: Seq<TreeEntryView>, n: nat) -> bool {
    forall|i: int|
        0 <= i < n ==> is_word((#[trigger] entries[i]).oid) && is_word(entries[i].name)
}

/// The words `blob` and `tree` are words, differ, and hold no zero byte.
pub proof fn lemma_tags()
    ensures
        is_word(blob_tag()),
        is_word(tree_tag()),
        blob_tag() != tree_tag(),
        !blob_tag().contains(0u8),
        !tree_tag().contains(0u8),
{
    reveal_strlit("blob");
    reveal_strlit("tree");
    assert(blob_tag()[0] != tree_tag()[0]);
    assert forall|i: int| 0 <= i < 4 implies blob_tag()[i] != 0u8 && tree_tag()[i] != 0u8 by {}
}

/// A tree entry of words is read back from its line.
pub proof fn lemma_parse_entry_body(e: TreeEntryView)
    requires
        is_word(e.oid),
        is_word(e.name),
    ensures
        parse_entry(entry_body(e)) == Ok::<_, Error>(e),
        !entry_body(e).contains(newline()),
{
    lemma_tags();
    let kind = kind_tag(e.kind);
    lemma_tokens_word(e.name);
    lemma_tokens_word_then(e.oid, e.name);
    lemma_tokens_word_then(kind, e.oid + seq![0x20u8] + e.name);
    assert(entry_body(e) =~= kind + seq![0x20u8] + (e.oid + seq![0x20u8] + e.name));
    let words = tokens(entry_body(e));
    assert(words =~= seq![kind, e.oid, e.name]);
    let body = entry_body(e);
    assert forall|i: int| 0 <= i < body.len() implies body[i] != newline() by {
        if i < kind.len() {
            assert(body[i] == kind[i]);
        } else if i == kind.len() {
        } else if i < kind.len() + 1 + e.oid.len() {
            assert(body[i] == e.oid[i - kind.len() - 1]);
        } else if i == kind.len() + 1 + e.oid.len() {
        } else {
            assert(body[i] == e.name[i - kind.len() - 2 - e.oid.len()]);
        }
    }
}

/// The payload of a tree splits at its line feeds into the lines of its
/// entries and an empty piece.
pub proof fn lemma_tree_text_split(entries: Seq<TreeEntryView>, n: nat)
    requires
        n <= entries.len(),
        word_entries(entries, n),
    ensures
        split(tree_text(entries, n), newline()) == entry_bodies(entries, n).push(Seq::empty()),
    decreases n,
{
    if n == 0 {
        assert(tree_text(entries, 0) =~= Seq::<u8>::empty());
        assert(entry_bodies(entries, 0).push(Seq::<u8>::empty()) =~= seq![Seq::<u8>::empty()]);
    } else {
        lemma_tree_text_split(entries, (n - 1) as nat);
        let e = entries[n - 1];
        let body = entry_body(e);
        lemma_parse_entry_body(e);
        assert(entry_line(e) =~= body + seq![newline()]);
        assert forall|j: int| 0 <= j < body.len() implies (body + seq![newline()])[j]
            != newline() by {
            assert(body.contains(body[j]));
        }
        lemma_find_from_is(body + seq![newline()], newline(), 0, body.len() as int);
        assert((body + seq![newline()]).take(body.len() as int) =~= body);
        assert((body + seq![newline()]).skip(body.len() as int + 1) =~= Seq::<u8>::empty());
        assert(split(Seq::<u8>::empty(), newline()) =~= seq![Seq::<u8>::empty()]);
        assert(split(entry_line(e), newline()) =~= seq![body, Seq::<u8>::empty()]);
        lemma_split_concat(
            tree_text(entries, (n - 1) as nat),
            entry_line(e),
            newline(),
            entry_bodies(entries, (n - 1) as nat),
        );
        assert(entry_bodies(entries, (n - 1) as nat) + seq![body, Seq::<u8>::empty()]
            =~= entry_bodies(entries, n).push(Seq::empty()));
    }
}

/// The lines of entries of words are read back as those entries.
pub proof fn lemma_parse_bodies(entries: Seq<TreeEntryView>, n: nat, k: nat)
    requires
        k <= n <= entries.len(),
        word_entries(entries, n),
    ensures
        entry_bodies(entries, n).len() == n,
        parse_entries(entry_bodies(entries, n), k) == Ok::<_, Error>(entries.take(k as int)),
    decreases k,
{
    if k == 0 {
        assert(entries.take(0) =~= Seq::<TreeEntryView>::empty());
    } else {
        lemma_parse_bodies(entries, n, (k - 1) as nat);
        lemma_parse_entry_body(entries[k - 1]);
        assert(entries.take(k - 1).push(entries[k - 1]) =~= entries.take(k as int));
    }
}

/// Tree codec round trip: the payload that is written for entries whose
/// identifiers and names are words is read back as those entries.
pub proof fn lemma_parse_tree_text(entries: Seq<TreeEntryView>)
    requires
        word_entries(entries, entries.len()),
    ensures
        parse_tree(tree_text(entries, entries.len())) == Ok::<_, Error>(entries),
{
    let n = entries.len();
    lemma_tree_text_split(entries, n);
    lemma_parse_bodies(entries, n, n);
    let pieces = entry_bodies(entries, n).push(Seq::empty());
    assert(pieces.last().len() == 0);
    assert(pieces.drop_last() =~= entry_bodies(entries, n));
    assert(entries.take(n as int) =~= entries);
}

/// The identifiers of the entries that stand for a directory with clean
/// names are words, and so are the names.
pub proof fn lemma_listed_words(entries: Seq<Entry>, n: nat)
    requires
        clean_names(entries, n),
    ensures
        word_entries(listed(entries, n), listed(entries, n).len()),
    decreases entries, n,
{
    if n == 0 || n > entries.len() {
    } else {
        lemma_listed_words(entries, (n - 1) as nat);
        let rest = listed(entries, (n - 1) as nat);
        let all = listed(entries, n);
        if all.len() > rest.len() {
            let e = all.last();
            lemma_oid_shape(encode_object(blob_tag(), Seq::empty()));
            assert(is_word(e.oid)) by {
                match entries[n - 1] {
                    Entry::File { name, contents } => {
                        lemma_oid_shape(encode_object(blob_tag(), contents@));
                    },
                    Entry::Dir { name, entries: inner } => {
                        let below = listed(inner@, inner@.len());
                        lemma_oid_shape(
                            encode_object(tree_tag(), tree_text(below, below.len())),
                        );
                    },
                }
                assert forall|i: int| 0 <= i < e.oid.len() implies !is_space(
                    #[trigger] e.oid[i],
                ) by {
                    assert(is_hex_digit(e.oid[i]));
                }
            }
            assert forall|i: int| 0 <= i < all.len() implies is_word((#[trigger] all[i]).oid)
                && is_word(all[i].name) by {
                if i < rest.len() {
                    assert(all[i] == rest[i]);
                }
            }
        }
    }
}

/// The files of a list of entries do not depend on later entries.
pub proof fn lemma_flatten_prefix(
    objects: Store,
    entries: Seq<TreeEntryView>,
    more: TreeEntryView,
    k: nat,
    base: Seq<u8>,
    depth: nat,
)
    requires
        k <= entries.len(),
    ensures
        flatten_entries(objects, entries.push(more), k, base, depth) == flatten_entries(
            objects,
            entries,
            k,
            base,
            depth,
        ),
    decreases k,
{
    if k > 0 {
        lemma_flatten_prefix(objects, entries, more, (k - 1) as nat, base, depth);
    }
}

/// A directory that is written as no entries has no files.
pub proof fn lemma_nothing_listed(entries: Seq<Entry>, n: nat, base: Seq<u8>)
    requires
        listed(entries, n).len() == 0,
    ensures
        snapshot(entries, n, base).len() == 0,
        files_of(entries, n, base).len() == 0,
    decreases entries, n,
{
    if n == 0 || n > entries.len() {
    } else {
        lemma_nothing_listed(entries, (n - 1) as nat, base);
        match entries[n - 1] {
            Entry::File { name, contents } => {},
            Entry::Dir { name, entries: inner } => {
                if name@ != metadata_dir() {
                    lemma_nothing_listed(inner@, inner@.len(), join(base, name@));
                }
            },
        }
    }
}

/// The stored object with a tag without zero bytes is read as its payload.
pub proof fn lemma_holds_read(objects: Store, tag: Seq<u8>, payload: Seq<u8>)
    requires
        holds(objects, tag, payload),
        !tag.contains(0u8),
    ensures
        read_object(objects, object_id(tag, payload), None) == Ok::<_, Error>((tag, payload)),
        read_payload(objects, object_id(tag, payload), tag) == Ok::<_, Error>(payload),
{
    lemma_encode_splits(tag, payload);
}

/// The empty path is a legal base.
pub proof fn lemma_empty_path_legal()
    ensures
        !illegal_path(Seq::<u8>::empty()),
{
    assert(split(Seq::<u8>::empty(), slash()) =~= seq![Seq::<u8>::empty()]);
    assert(seq![Seq::<u8>::empty()][0].len() == 0);
}

/// A legal name below a legal path gives a legal path.
pub proof fn lemma_join_legal(base: Seq<u8>, name: Seq<u8>)
    requires
        !illegal_path(base),
        !illegal(name),
    ensures
        !illegal_path(join(base, name)),
{
    let dot = seq![0x2eu8];
    let dots = seq![0x2eu8, 0x2eu8];
    assert(name.contains(name[0]));
    if base.len() == 0 {
        lemma_split_one(name, slash());
        assert(seq![name][0] == name);
    } else {
        lemma_split_last(base, name, slash());
        lemma_push_contains(split(base, slash()), name, dot);
        lemma_push_contains(split(base, slash()), name, dots);
        assert(join(base, name)[0] == base[0]);
    }
}

/// Flattening the tree entries of a directory that the store holds gives
/// the files of the directory with the identifiers of their contents.
pub proof fn lemma_flatten_listed(
    objects: Store,
    entries: Seq<Entry>,
    n: nat,
    base: Seq<u8>,
    depth: nat,
)
    requires
        n <= entries.len(),
        !illegal_path(base),
        clean_names(entries, n),
        holds_entries(objects, entries, n),
        height(entries, n) <= depth,
    ensures
        flatten_entries(objects, listed(entries, n), listed(entries, n).len(), base, depth) == Ok::<
            _,
            Error,
        >(snapshot(entries, n, base)),
    decreases entries, n,
{
    if n == 0 {
    } else {
        let m = (n - 1) as nat;
        lemma_flatten_listed(objects, entries, m, base, depth);
        let rest = listed(entries, m);
        let all = listed(entries, n);
        let before = snapshot(entries, m, base);
        match entries[n - 1] {
            Entry::File { name, contents } => {
                if name@ != metadata_dir() {
                    let e = TreeEntryView {
                        kind: EntryKind::Blob,
                        oid: object_id(blob_tag(), contents@),
                        name: name@,
                    };
                    assert(all == rest.push(e));
                    lemma_flatten_prefix(objects, rest, e, rest.len(), base, depth);
                    assert(all[rest.len() as int] == e);
                    assert(all.len() == rest.len() + 1);
                    assert(!illegal(name@));
                    lemma_join_legal(base, name@);
                    assert(flatten_entries(objects, all, all.len(), base, depth) == Ok::<_, Error>(
                        before.push((e.oid, join(base, name@))),
                    ));
                } else {
                    assert(all == rest);
                }
            },
            Entry::Dir { name, entries: inner } => {
                let below = listed(inner@, inner@.len());
                let path = join(base, name@);
                if name@ != metadata_dir() {
                    if below.len() == 0 {
                        lemma_nothing_listed(inner@, inner@.len(), path);
                        assert(before + snapshot(inner@, inner@.len(), path) =~= before);
                        assert(all == rest);
                    } else {
                        let payload = tree_text(below, below.len());
                        let e = TreeEntryView {
                            kind: EntryKind::Tree,
                            oid: object_id(tree_tag(), payload),
                            name: name@,
                        };
                        assert(all == rest.push(e));
                        lemma_flatten_prefix(objects, rest, e, rest.len(), base, depth);
                        assert(all[rest.len() as int] == e);
                        assert(all.len() == rest.len() + 1);
                        assert(!illegal(name@));
                        lemma_join_legal(base, name@);
                        lemma_tags();
                        lemma_holds_read(objects, tree_tag(), payload);
                        lemma_listed_words(inner@, inner@.len());
                        lemma_parse_tree_text(below);
                        assert(tree_entries(objects, Some(e.oid)) == Ok::<_, Error>(below));
                        assert(height(entries, n) >= 1 + height(inner@, inner@.len()));
                        lemma_flatten_listed(
                            objects,
                            inner@,
                            inner@.len(),
                            path,
                            (depth - 1) as nat,
                        );
                        assert(flatten_tree(objects, e.oid, path, (depth - 1) as nat) == Ok::<
                            _,
                            Error,
                        >(snapshot(inner@, inner@.len(), path)));
                        assert(flatten_entries(objects, all, all.len(), base, depth) == Ok::<
                            _,
                            Error,
                        >(before + snapshot(inner@, inner@.len(), path)));
                    }
                } else {
                    assert(all == rest);
                }
            },
        }
    }
}

/// The contents of a list of files do not depend on later files.
pub proof fn lemma_checked_out_prefix(
    objects: Store,
    files: Seq<(Seq<u8>, Seq<u8>)>,
    more: Seq<(Seq<u8>, Seq<u8>)>,
    k: nat,
)
    requires
        k <= files.len(),
    ensures
        checked_out(objects, files + more, k) == checked_out(objects, files, k),
    decreases k,
{
    if k > 0 {
        lemma_checked_out_prefix(objects, files, more, (k - 1) as nat);
    }
}

/// The contents of two lists of files, one behind the other, are the
/// contents of the first and then those of the second.
pub proof fn lemma_checked_out_concat(
    objects: Store,
    first: Seq<(Seq<u8>, Seq<u8>)>,
    second: Seq<(Seq<u8>, Seq<u8>)>,
    k: nat,
)
    requires
        k <= second.len(),
        checked_out(objects, first, first.len()) is Ok,
        checked_out(objects, second, k) is Ok,
    ensures
        checked_out(objects, first + second, first.len() + k) == Ok::<_, Error>(
            checked_out(objects, first, first.len())->Ok_0 + checked_out(objects, second, k)->Ok_0,
        ),
    decreases k,
{
    if k == 0 {
        lemma_checked_out_prefix(objects, first, second, first.len());
        assert(checked_out(objects, first, first.len())->Ok_0 + Seq::<
            (Seq<u8>, Seq<u8>),
        >::empty() =~= checked_out(objects, first, first.len())->Ok_0);
    } else {
        lemma_checked_out_concat(objects, first, second, (k - 1) as nat);
        assert((first + second)[first.len() + k - 1] == second[k - 1]);
        let a = checked_out(objects, first, first.len())->Ok_0;
        let b = checked_out(objects, second, (k - 1) as nat)->Ok_0;
        let p = read_object(objects, second[k - 1].0, None)->Ok_0;
        assert((a + b).push((second[k - 1].1, p.1)) =~= a + b.push((second[k - 1].1, p.1)));
    }
}

/// Reading the files of a directory that the store holds, by the
/// identifiers of their contents, gives the contents.
pub proof fn lemma_checked_out_snapshot(objects: Store, entries: Seq<Entry>, n: nat, base: Seq<u8>)
    requires
        n <= entries.len(),
        holds_entries(objects, entries, n),
    ensures
        checked_out(objects, snapshot(entries, n, base), snapshot(entries, n, base).len()) == Ok::<
            _,
            Error,
        >(files_of(entries, n, base)),
    decreases entries, n,
{
    if n == 0 {
    } else {
        let m = (n - 1) as nat;
        lemma_checked_out_snapshot(objects, entries, m, base);
        let before = snapshot(entries, m, base);
        match entries[n - 1] {
            Entry::File { name, contents } => {
                if name@ != metadata_dir() {
                    let item = (object_id(blob_tag(), contents@), join(base, name@));
                    assert(before.push(item) =~= before + seq![item]);
                    lemma_checked_out_prefix(objects, before, seq![item], before.len());
                    lemma_tags();
                    lemma_holds_read(objects, blob_tag(), contents@);
                    assert((before + seq![item])[before.len() as int] == item);
                }
            },
            Entry::Dir { name, entries: inner } => {
                if name@ != metadata_dir() {
                    let path = join(base, name@);
                    lemma_checked_out_snapshot(objects, inner@, inner@.len(), path);
                    let below = snapshot(inner@, inner@.len(), path);
                    lemma_checked_out_concat(objects, before, below, below.len());
                }
            },
        }
    }
}

/// Writing entries to a store returns the entries that stand for them
/// whatever the store holds.
pub proof fn lemma_stored_listed(objects: Store, entries: Seq<Entry>, n: nat)
    ensures
        stored_entries(objects, entries, n).1 == listed(entries, n),
    decreases entries, n,
{
    if n == 0 || n > entries.len() {
    } else {
        lemma_stored_listed(objects, entries, (n - 1) as nat);
        let before = stored_entries(objects, entries, (n - 1) as nat).0;
        match entries[n - 1] {
            Entry::File { name, contents } => {},
            Entry::Dir { name, entries: inner } => {
                lemma_stored_listed(before, inner@, inner@.len());
            },
        }
    }
}

/// No path of a listed file starts at the root or has `.` or `..` among
/// its components: a tree whose entries would give such a path is not
/// listed at all.
pub proof fn lemma_flattened_legal(
    objects: Store,
    entries: Seq<TreeEntryView>,
    n: nat,
    base: Seq<u8>,
    depth: nat,
)
    requires
        flatten_entries(objects, entries, n, base, depth) is Ok,
    ensures
        forall|i: int|
            0 <= i < flatten_entries(objects, entries, n, base, depth)->Ok_0.len()
                ==> !illegal_path(
                (#[trigger] flatten_entries(objects, entries, n, base, depth)->Ok_0[i]).1,
            ),
    decreases depth, n,
{
    if n > 0 {
        assert(flatten_entries(objects, entries, (n - 1) as nat, base, depth) is Ok);
        lemma_flattened_legal(objects, entries, (n - 1) as nat, base, depth);
        let rest = flatten_entries(objects, entries, (n - 1) as nat, base, depth)->Ok_0;
        let all = flatten_entries(objects, entries, n, base, depth)->Ok_0;
        let entry = entries[n - 1];
        let path = join(base, entry.name);
        assert(!illegal(entry.name) && !illegal_path(path));
        match entry.kind {
            EntryKind::Blob => {
                assert(all == rest.push((entry.oid, path)));
                assert forall|i: int| 0 <= i < all.len() implies !illegal_path(
                    (#[trigger] all[i]).1,
                ) by {
                    if i < rest.len() {
                        assert(all[i] == rest[i]);
                    }
                }
            },
            EntryKind::Tree => {
                assert(depth > 0);
                assert(flatten_tree(objects, entry.oid, path, (depth - 1) as nat) is Ok);
                assert(tree_entries(objects, Some(entry.oid)) is Ok);
                let inner = tree_entries(objects, Some(entry.oid))->Ok_0;
                assert(flatten_tree(objects, entry.oid, path, (depth - 1) as nat)
                    == flatten_entries(objects, inner, inner.len(), path, (depth - 1) as nat));
                lemma_flattened_legal(objects, inner, inner.len(), path, (depth - 1) as nat);
                let below = flatten_entries(
                    objects,
                    inner,
                    inner.len(),
                    path,
                    (depth - 1) as nat,
                )->Ok_0;
                assert(all == rest + below);
                assert forall|i: int| 0 <= i < all.len() implies !illegal_path(
                    (#[trigger] all[i]).1,
                ) by {
                    if i < rest.len() {
                        assert(all[i] == rest[i]);
                    } else {
                        assert(all[i] == below[i - rest.len()]);
                    }
                }
            },
        }
    }
}

/// No path that [`get_tree`] returns starts at the root or has `.` or `..`
/// among its components, whatever the base path and the trees in the
/// store.
pub proof fn lemma_tree_files_legal(objects: Store, oid: Option<Seq<u8>>, base: Seq<u8>)
    requires
        tree_files(objects, oid, base) is Ok,
    ensures
        forall|i: int|
            0 <= i < tree_files(objects, oid, base)->Ok_0.len() ==> !illegal_path(
                (#[trigger] tree_files(objects, oid, base)->Ok_0[i]).1,
            ),
{
    if oid is Some {
        let entries = tree_entries(objects, oid)->Ok_0;
        lemma_flattened_legal(objects, entries, entries.len(), base, objects.dom().len());
    }
}

/// The payload of the tree that stands for a directory with these entries.
pub open spec fn tree_payload(entries: Seq<Entry>) -> Seq<u8> {
    tree_text(listed(entries, entries.len()), listed(entries, entries.len()).len())
}

/// Whether a directory with these entries is written as a tree and the
/// store holds that tree and all that is below it.
pub open spec fn held_dir(objects: Store, entries: Seq<Entry>) -> bool {
    &&& clean_names(entries, entries.len())
    &&& holds_entries(objects, entries, entries.len())
    &&& listed(entries, entries.len()).len() > 0
    &&& holds(objects, tree_tag(), tree_payload(entries))
}

/// Whether `oid` is the identifier of the tree of a directory that the
/// store holds and in which directories are nested `k` deep.
pub open spec fn tree_of_height(objects: Store, oid: Seq<u8>, k: nat) -> bool {
    exists|z: Seq<Entry>| #[trigger]
        held_dir(objects, z) && oid == object_id(tree_tag(), tree_payload(z)) && height(
            z,
            z.len(),
        ) == k
}

/// The tree entry that stands for a directory `name` with the entries
/// `inner`.
pub open spec fn dir_entry(name: Seq<u8>, inner: Seq<Entry>) -> TreeEntryView {
    TreeEntryView {
        kind: EntryKind::Tree,
        oid: object_id(tree_tag(), tree_payload(inner)),
        name,
    }
}

/// Whether entry `i` is a directory that is written as a tree.
pub open spec fn written_dir(entries: Seq<Entry>, i: int) -> bool {
    &&& 0 <= i < entries.len()
    &&& entries[i] matches Entry::Dir { name, entries: inner }
    &&& name@ != metadata_dir()
    &&& listed(inner@, inner@.len()).len() > 0
}

/// The entries of the directory that is entry `i`.
pub open spec fn inner_of(entries: Seq<Entry>, i: int) -> Seq<Entry> {
    entries[i]->Dir_entries@
}

/// Two payloads that the store holds under one identifier with one type
/// are the same.
pub proof fn lemma_holds_same(objects: Store, tag: Seq<u8>, first: Seq<u8>, second: Seq<u8>)
    requires
        holds(objects, tag, first),
        holds(objects, tag, second),
        object_id(tag, first) == object_id(tag, second),
    ensures
        first == second,
{
    let raw = objects[object_id(tag, first)];
    assert(raw.subrange(tag.len() as int + 1, raw.len() as int) =~= first);
    assert(raw.subrange(tag.len() as int + 1, raw.len() as int) =~= second);
}

/// A directory among the first `n` entries that is written as a tree is
/// held where they are, has its entry among theirs, and is nested less
/// deeply than they are.
pub proof fn lemma_child_held(objects: Store, entries: Seq<Entry>, n: nat, i: int)
    requires
        i < n <= entries.len(),
        written_dir(entries, i),
        clean_names(entries, n),
        holds_entries(objects, entries, n),
    ensures
        held_dir(objects, inner_of(entries, i)),
        listed(entries, n).contains(dir_entry(entries[i]->Dir_name@, inner_of(entries, i))),
        height(entries, n) >= 1 + height(inner_of(entries, i), inner_of(entries, i).len()),
    decreases n,
{
    let e = dir_entry(entries[i]->Dir_name@, inner_of(entries, i));
    if i == n - 1 {
        let all = listed(entries, n);
        assert(all.last() == e);
        assert(all[all.len() - 1] == e);
    } else {
        lemma_child_held(objects, entries, (n - 1) as nat, i);
        let rest = listed(entries, (n - 1) as nat);
        let all = listed(entries, n);
        let j = rest.index_of(e);
        assert(rest[j] == e);
        if all.len() > rest.len() {
            assert(all[j] == rest[j]);
        }
    }
}

/// A tree entry among those of the first `n` entries stands for a
/// directory among them that is written as a tree.
pub proof fn lemma_listed_source(entries: Seq<Entry>, n: nat, e: TreeEntryView) -> (i: int)
    requires
        listed(entries, n).contains(e),
        e.kind == EntryKind::Tree,
    ensures
        i < n <= entries.len(),
        written_dir(entries, i),
        e == dir_entry(entries[i]->Dir_name@, inner_of(entries, i)),
    decreases n,
{
    let all = listed(entries, n);
    let at = all.index_of(e);
    assert(all[at] == e);
    let rest = listed(entries, (n - 1) as nat);
    if all.len() > rest.len() && at == rest.len() {
        (n - 1) as int
    } else {
        if all.len() > rest.len() {
            assert(all[at] == rest[at]);
        }
        assert(rest[at] == e);
        lemma_listed_source(entries, (n - 1) as nat, e)
    }
}

/// Where directories are nested below the first `n` entries, one of these
/// is a directory that is written as a tree and nested one less deep.
pub proof fn lemma_height_witness(entries: Seq<Entry>, n: nat) -> (i: int)
    requires
        height(entries, n) > 0,
    ensures
        i < n <= entries.len(),
        written_dir(entries, i),
        height(entries, n) == 1 + height(inner_of(entries, i), inner_of(entries, i).len()),
    decreases n,
{
    if height(entries, n) == height(entries, (n - 1) as nat) {
        lemma_height_witness(entries, (n - 1) as nat)
    } else {
        (n - 1) as int
    }
}

/// Of two directories that the store holds and that are written as the
/// same tree entries, the second is nested no more deeply than the first.
pub proof fn lemma_same_listing(objects: Store, x: Seq<Entry>, y: Seq<Entry>, bound: nat)
    requires
        clean_names(x, x.len()),
        holds_entries(objects, x, x.len()),
        clean_names(y, y.len()),
        holds_entries(objects, y, y.len()),
        listed(x, x.len()) == listed(y, y.len()),
        height(x, x.len()) <= bound,
    ensures
        height(y, y.len()) <= height(x, x.len()),
    decreases bound,
{
    if height(y, y.len()) > 0 {
        let iy = lemma_height_witness(y, y.len());
        let cy = inner_of(y, iy);
        lemma_child_held(objects, y, y.len(), iy);
        let e = dir_entry(y[iy]->Dir_name@, cy);
        let ix = lemma_listed_source(x, x.len(), e);
        let cx = inner_of(x, ix);
        lemma_child_held(objects, x, x.len(), ix);
        lemma_holds_same(objects, tree_tag(), tree_payload(cx), tree_payload(cy));
        lemma_listed_words(cx, cx.len());
        lemma_listed_words(cy, cy.len());
        lemma_parse_tree_text(listed(cx, cx.len()));
        lemma_parse_tree_text(listed(cy, cy.len()));
        lemma_same_listing(objects, cx, cy, (bound - 1) as nat);
    }
}

/// Below entries that the store holds there is, for each depth less than
/// theirs, a directory nested that deep whose tree the store holds.
pub proof fn lemma_tree_at_height(objects: Store, entries: Seq<Entry>, n: nat, k: nat)
    requires
        n <= entries.len(),
        clean_names(entries, n),
        holds_entries(objects, entries, n),
        k < height(entries, n),
    ensures
        exists|oid: Seq<u8>| #[trigger] tree_of_height(objects, oid, k),
    decreases height(entries, n),
{
    let i = lemma_height_witness(entries, n);
    let c = inner_of(entries, i);
    lemma_child_held(objects, entries, n, i);
    if k == height(c, c.len()) {
        assert(held_dir(objects, c));
        assert(tree_of_height(objects, object_id(tree_tag(), tree_payload(c)), k));
    } else {
        lemma_tree_at_height(objects, c, c.len(), k);
    }
}

/// One identifier is not that of two held trees of different depth.
pub proof fn lemma_one_height(objects: Store, oid: Seq<u8>, j: nat, k: nat)
    requires
        tree_of_height(objects, oid, j),
        tree_of_height(objects, oid, k),
    ensures
        j == k,
{
    let a = choose|z: Seq<Entry>| #[trigger]
        held_dir(objects, z) && oid == object_id(tree_tag(), tree_payload(z)) && height(
            z,
            z.len(),
        ) == j;
    let b = choose|z: Seq<Entry>| #[trigger]
        held_dir(objects, z) && oid == object_id(tree_tag(), tree_payload(z)) && height(
            z,
            z.len(),
        ) == k;
    lemma_holds_same(objects, tree_tag(), tree_payload(a), tree_payload(b));
    lemma_listed_words(a, a.len());
    lemma_listed_words(b, b.len());
    lemma_parse_tree_text(listed(a, a.len()));
    lemma_parse_tree_text(listed(b, b.len()));
    lemma_same_listing(objects, a, b, j);
    lemma_same_listing(objects, b, a, k);
}

/// A store that holds entries has at least as many objects as directories
/// are nested below them: the trees of directories of different depth have
/// different identifiers.
pub proof fn lemma_height_bound(objects: Store, entries: Seq<Entry>, n: nat)
    requires
        objects.dom().finite(),
        n <= entries.len(),
        clean_names(entries, n),
        holds_entries(objects, entries, n),
    ensures
        height(entries, n) <= objects.dom().len(),
{
    let h = height(entries, n);
    let ids = Seq::new(
        h,
        |k: int| choose|oid: Seq<u8>| #[trigger] tree_of_height(objects, oid, k as nat),
    );
    assert forall|k: int| 0 <= k < h implies tree_of_height(objects, #[trigger] ids[k], k as nat)
        && objects.dom().contains(ids[k]) by {
        lemma_tree_at_height(objects, entries, n, k as nat);
    }
    assert forall|j: int, k: int| 0 <= j < h && 0 <= k < h && j != k implies ids[j] != ids[k] by {
        if ids[j] == ids[k] {
            lemma_one_height(objects, ids[j], j as nat, k as nat);
        }
    }
    assert(ids.no_duplicates());
    ids.unique_seq_to_set();
    assert forall|oid: Seq<u8>| ids.to_set().contains(oid) implies objects.dom().contains(oid) by {
        let k = ids.index_of(oid);
        assert(ids[k] == oid);
    }
    vstd::set_lib::lemma_len_subset(ids.to_set(), objects.dom());
}

/// Writing entries to a store of finitely many objects leaves finitely
/// many.
pub proof fn lemma_stored_finite(objects: Store, entries: Seq<Entry>, n: nat)
    requires
        objects.dom().finite(),
    ensures
        stored_entries(objects, entries, n).0.dom().finite(),
    decreases entries, n,
{
    if n == 0 || n > entries.len() {
    } else {
        lemma_stored_finite(objects, entries, (n - 1) as nat);
        let before = stored_entries(objects, entries, (n - 1) as nat).0;
        match entries[n - 1] {
            Entry::File { name, contents } => {
                crate::data::lemma_put_twice(before, blob_tag(), contents@);
            },
            Entry::Dir { name, entries: inner } => {
                lemma_stored_finite(before, inner@, inner@.len());
                let (below, list) = stored_entries(before, inner@, inner@.len());
                crate::data::lemma_put_twice(below, tree_tag(), tree_text(list, list.len()));
            },
        }
    }
}

/// Tree round trip: a directory that was written to the store is read
/// back as its files, with their paths and contents. This holds where the
/// names in the directory are clean, so that a tree can hold them, and
/// where the store holds what was written, which it does unless two
/// objects share an identifier.
pub proof fn lemma_tree_round_trip(objects: Store, path: Seq<u8>, entries: Seq<Entry>)
    requires
        objects.dom().finite(),
        !ignored(path),
        clean_names(entries, entries.len()),
        holds_entries(stored_tree(objects, path, entries).0, entries, entries.len()),
        holds(
            stored_tree(objects, path, entries).0,
            tree_tag(),
            tree_text(listed(entries, entries.len()), listed(entries, entries.len()).len()),
        ),
    ensures
        stored_tree(objects, path, entries).1 is Some,
        tree_contents(
            stored_tree(objects, path, entries).0,
            stored_tree(objects, path, entries).1->0,
        ) == Ok::<_, Error>(files_of(entries, entries.len(), Seq::empty())),
{
    let stored = stored_tree(objects, path, entries).0;
    let list = listed(entries, entries.len());
    let payload = tree_text(list, list.len());
    let base = Seq::<u8>::empty();
    lemma_stored_listed(objects, entries, entries.len());
    lemma_tags();
    lemma_holds_read(stored, tree_tag(), payload);
    lemma_listed_words(entries, entries.len());
    lemma_parse_tree_text(list);
    lemma_empty_path_legal();
    lemma_stored_finite(objects, entries, entries.len());
    crate::data::lemma_put_twice(
        stored_entries(objects, entries, entries.len()).0,
        tree_tag(),
        payload,
    );
    lemma_height_bound(stored, entries, entries.len());
    lemma_flatten_listed(stored, entries, entries.len(), base, stored.dom().len());
    lemma_checked_out_snapshot(stored, entries, entries.len(), base);
}

/// Writing entries never changes or removes an object: what the store
/// held under an identifier it still holds.
pub proof fn lemma_stored_keeps(objects: Store, entries: Seq<Entry>, n: nat, oid: Seq<u8>)
    requires
        objects.contains_key(oid),
    ensures
        stored_entries(objects, entries, n).0.contains_key(oid),
        stored_entries(objects, entries, n).0[oid] == objects[oid],
    decreases entries, n,
{
    if n == 0 || n > entries.len() {
    } else {
        lemma_stored_keeps(objects, entries, (n - 1) as nat, oid);
        let before = stored_entries(objects, entries, (n - 1) as nat).0;
        match entries[n - 1] {
            Entry::File { name, contents } => {},
            Entry::Dir { name, entries: inner } => {
                lemma_stored_keeps(before, inner@, inner@.len(), oid);
            },
        }
    }
}

/// A tree refers only to objects that are in the store: after entries
/// were written, the store holds an object under the identifier of each
/// tree entry that stands for them.
pub proof fn lemma_stored_present(objects: Store, entries: Seq<Entry>, n: nat)
    ensures
        forall|i: int|
            0 <= i < stored_entries(objects, entries, n).1.len() ==> stored_entries(
                objects,
                entries,
                n,
            ).0.contains_key((#[trigger] stored_entries(objects, entries, n).1[i]).oid),
    decreases entries, n,
{
    if n == 0 || n > entries.len() {
    } else {
        lemma_stored_present(objects, entries, (n - 1) as nat);
        let (before, rest) = stored_entries(objects, entries, (n - 1) as nat);
        let (after, all) = stored_entries(objects, entries, n);
        match entries[n - 1] {
            Entry::File { name, contents } => {
                assert forall|i: int| 0 <= i < all.len() implies after.contains_key(
                    (#[trigger] all[i]).oid,
                ) by {
                    if i < rest.len() {
                        assert(all[i] == rest[i]);
                    }
                }
            },
            Entry::Dir { name, entries: inner } => {
                let below = stored_entries(before, inner@, inner@.len()).0;
                assert forall|i: int| 0 <= i < all.len() implies after.contains_key(
                    (#[trigger] all[i]).oid,
                ) by {
                    if i < rest.len() {
                        assert(all[i] == rest[i]);
                        lemma_stored_keeps(before, inner@, inner@.len(), rest[i].oid);
                    }
                }
            },
        }
    }
}

// ---------------------------------------------------------------------
// What holds of commits
// ---------------------------------------------------------------------

/// The header lines for the parents from the `k`-th on.
pub open spec fn parent_tail(parents: Seq<Seq<u8>>, k: nat) -> Seq<u8>
    decreases parents.len() - k,
{
    if k >= parents.len() {
        Seq::empty()
    } else {
        parent_key() + seq![0x20u8] + parents[k as int] + seq![newline()] + parent_tail(
            parents,
            k + 1,
        )
    }
}

/// The header lines of all parents are those of the first `k` and then
/// those from the `k`-th on.
pub proof fn lemma_parent_lines_split(parents: Seq<Seq<u8>>, k: nat)
    requires
        k <= parents.len(),
    ensures
        parent_lines(parents, parents.len()) == parent_lines(parents, k) + parent_tail(parents, k),
    decreases parents.len() - k,
{
    if k < parents.len() {
        lemma_parent_lines_split(parents, k + 1);
        assert(parent_lines(parents, k + 1) + parent_tail(parents, k + 1) =~= parent_lines(
            parents,
            k,
        ) + parent_tail(parents, k));
    } else {
        assert(parent_lines(parents, k) + parent_tail(parents, k) =~= parent_lines(parents, k));
    }
}

/// A header line with a key and a value that are words is read as that
/// key and value, and reading goes on behind its line feed.
pub proof fn lemma_header_line(key: Seq<u8>, value: Seq<u8>, rest: Seq<u8>)
    requires
        is_word(key),
        is_word(value),
    ensures
        ({
            let text = key + seq![0x20u8] + value + seq![newline()] + rest;
            let line = key + seq![0x20u8] + value;
            &&& find_from(text, newline(), 0) == line.len()
            &&& text.take(line.len() as int) == line
            &&& text.skip(line.len() as int + 1) == rest
            &&& tokens(line) == seq![key, value]
        }),
{
    let text = key + seq![0x20u8] + value + seq![newline()] + rest;
    let line = key + seq![0x20u8] + value;
    assert forall|j: int| 0 <= j < line.len() implies text[j] != newline() by {
        if j < key.len() {
            assert(text[j] == key[j]);
        } else if j == key.len() {
        } else {
            assert(text[j] == value[j - key.len() - 1]);
        }
    }
    assert(text[line.len() as int] == newline());
    lemma_find_from_is(text, newline(), 0, line.len() as int);
    assert(text.take(line.len() as int) =~= line);
    assert(text.skip(line.len() as int + 1) =~= rest);
    lemma_tokens_word(value);
    lemma_tokens_word_then(key, value);
}

/// The words `tree` and `parent` are words and differ.
pub proof fn lemma_keys()
    ensures
        is_word(tree_tag()),
        is_word(parent_key()),
        tree_tag() != parent_key(),
{
    reveal_strlit("tree");
    reveal_strlit("parent");
    assert(tree_tag().len() != parent_key().len());
}

/// Reading the headers of the parents from the `k`-th on, an empty line
/// and a message, with a tree and the parents before the `k`-th read,
/// gives the commit with that tree, all the parents and the message.
pub proof fn lemma_scan_parents(tree: Seq<u8>, parents: Seq<Seq<u8>>, message: Seq<u8>, k: nat)
    requires
        k <= parents.len(),
        forall|i: int| 0 <= i < parents.len() ==> is_word(#[trigger] parents[i]),
    ensures
        scan_commit(
            parent_tail(parents, k) + seq![newline()] + message,
            Some(tree),
            parents.take(k as int),
        ) == Ok::<_, Error>(CommitView { tree, parents, message }),
    decreases parents.len() - k,
{
    let text = parent_tail(parents, k) + seq![newline()] + message;
    if k >= parents.len() {
        assert(text =~= seq![newline()] + message);
        assert(text[0] == newline());
        lemma_find_from_is(text, newline(), 0, 0);
        assert(text.take(0).len() == 0);
        assert(text.skip(1) =~= message);
        assert(parents.take(k as int) =~= parents);
    } else {
        lemma_keys();
        let rest = parent_tail(parents, k + 1) + seq![newline()] + message;
        let value = parents[k as int];
        lemma_header_line(parent_key(), value, rest);
        assert(text =~= parent_key() + seq![0x20u8] + value + seq![newline()] + rest);
        lemma_scan_parents(tree, parents, message, k + 1);
        assert(parents.take(k as int).push(value) =~= parents.take(k as int + 1));
        let line = parent_key() + seq![0x20u8] + value;
        assert(tokens(line)[0] == parent_key());
        assert(tokens(line)[1] == value);
    }
}

/// Commit codec round trip: the payload that is written for a commit
/// whose tree and parents are words, as identifiers are, is read back as
/// that commit, whatever its message holds.
pub proof fn lemma_parse_commit_text(c: CommitView)
    requires
        is_word(c.tree),
        forall|i: int| 0 <= i < c.parents.len() ==> is_word(#[trigger] c.parents[i]),
    ensures
        parse_commit(commit_text(c)) == Ok::<_, Error>(c),
{
    lemma_keys();
    lemma_parent_lines_split(c.parents, 0);
    let rest = parent_tail(c.parents, 0) + seq![newline()] + c.message;
    lemma_header_line(tree_tag(), c.tree, rest);
    assert(commit_text(c) =~= tree_tag() + seq![0x20u8] + c.tree + seq![newline()] + rest) by {
        assert(parent_lines(c.parents, 0) + parent_tail(c.parents, 0) =~= parent_tail(
            c.parents,
            0,
        ));
    }
    lemma_scan_parents(c.tree, c.parents, c.message, 0);
    assert(c.parents.take(0) =~= Seq::<Seq<u8>>::empty());
    let line = tree_tag() + seq![0x20u8] + c.tree;
    assert(tokens(line)[0] == tree_tag());
    assert(tokens(line)[1] == c.tree);
}

/// An identifier is a word.
pub proof fn lemma_oid_word(tag: Seq<u8>, payload: Seq<u8>)
    ensures
        is_word(object_id(tag, payload)),
{
    lemma_oid_shape(encode_object(tag, payload));
    let oid = object_id(tag, payload);
    assert forall|i: int| 0 <= i < oid.len() implies !is_space(#[trigger] oid[i]) by {
        assert(is_hex_digit(oid[i]));
    }
}

/// Commit round trip: the commit that committing stored is read back with
/// the tree that was written, with the commits of `HEAD` and `MERGE_HEAD`
/// as its parents, and with its message. This holds where those two
/// references held words, as identifiers are, and where the store holds
/// the commit under its identifier, which it does unless it held other
/// bytes there before.
pub proof fn lemma_commit_round_trip(
    objects: Store,
    refs: Store,
    path: Seq<u8>,
    entries: Seq<Entry>,
    message: Seq<u8>,
)
    requires
        committed(objects, refs, path, entries, message).2 is Ok,
        forall|i: int|
            0 <= i < parents_of(
                ref_value(refs, head_name(), true)->Ok_0,
                ref_value(refs, merge_head_name(), true)->Ok_0,
            ).len() ==> is_word(
                #[trigger] parents_of(
                    ref_value(refs, head_name(), true)->Ok_0,
                    ref_value(refs, merge_head_name(), true)->Ok_0,
                )[i],
            ),
        holds(
            committed(objects, refs, path, entries, message).0,
            commit_tag(),
            commit_text(
                CommitView {
                    tree: stored_tree(objects, path, entries).1->0,
                    parents: parents_of(
                        ref_value(refs, head_name(), true)->Ok_0,
                        ref_value(refs, merge_head_name(), true)->Ok_0,
                    ),
                    message,
                },
            ),
        ),
    ensures
        commit_at(
            committed(objects, refs, path, entries, message).0,
            committed(objects, refs, path, entries, message).2->Ok_0,
        ) == Ok::<_, Error>(
            CommitView {
                tree: stored_tree(objects, path, entries).1->0,
                parents: parents_of(
                    ref_value(refs, head_name(), true)->Ok_0,
                    ref_value(refs, merge_head_name(), true)->Ok_0,
                ),
                message,
            },
        ),
{
    let list = stored_entries(objects, entries, entries.len()).1;
    let record = CommitView {
        tree: stored_tree(objects, path, entries).1->0,
        parents: parents_of(
            ref_value(refs, head_name(), true)->Ok_0,
            ref_value(refs, merge_head_name(), true)->Ok_0,
        ),
        message,
    };
    lemma_oid_word(tree_tag(), tree_text(list, list.len()));
    lemma_parse_commit_text(record);
    reveal_strlit("commit");
    assert forall|i: int| 0 <= i < commit_tag().len() implies commit_tag()[i] != 0u8 by {}
    assert(!commit_tag().contains(0u8));
    lemma_holds_read(
        committed(objects, refs, path, entries, message).0,
        commit_tag(),
        commit_text(record),
    );
}

/// Committing keeps every object that the store held.
pub proof fn lemma_committed_keeps(
    objects: Store,
    refs: Store,
    path: Seq<u8>,
    entries: Seq<Entry>,
    message: Seq<u8>,
    oid: Seq<u8>,
)
    requires
        objects.contains_key(oid),
    ensures
        committed(objects, refs, path, entries, message).0.contains_key(oid),
        committed(objects, refs, path, entries, message).0[oid] == objects[oid],
{
    lemma_stored_keeps(objects, entries, entries.len(), oid);
}

/// The next commit on a branch: where `HEAD` stands for the commit
/// `before`, which is not its own parent, and no merge is in progress, a
/// commit that goes well makes a commit that is not `before`, that has
/// `before` as its one parent and the message as given, and sets the
/// branch of `HEAD` to it. This holds where `before` is a word and where
/// the store holds the new commit under its identifier, which it does
/// unless it held other bytes there.
pub proof fn lemma_commit_follows(
    objects: Store,
    refs: Store,
    path: Seq<u8>,
    entries: Seq<Entry>,
    message: Seq<u8>,
    before: Seq<u8>,
)
    requires
        committed(objects, refs, path, entries, message).2 is Ok,
        ref_value(refs, head_name(), true)->Ok_0.value == Some(before),
        ref_value(refs, merge_head_name(), true)->Ok_0.value is None,
        is_word(before),
        commit_at(objects, before) is Ok,
        !commit_at(objects, before)->Ok_0.parents.contains(before),
        holds(
            committed(objects, refs, path, entries, message).0,
            commit_tag(),
            commit_text(
                CommitView {
                    tree: stored_tree(objects, path, entries).1->0,
                    parents: seq![before],
                    message,
                },
            ),
        ),
    ensures
        committed(objects, refs, path, entries, message).2->Ok_0 != before,
        commit_at(
            committed(objects, refs, path, entries, message).0,
            committed(objects, refs, path, entries, message).2->Ok_0,
        ) == Ok::<_, Error>(
            CommitView {
                tree: stored_tree(objects, path, entries).1->0,
                parents: seq![before],
                message,
            },
        ),
        committed(objects, refs, path, entries, message).1 == refs.insert(
            lookup_ref(refs, head_name(), true)->Ok_0.0,
            committed(objects, refs, path, entries, message).2->Ok_0,
        ),
{
    let head = ref_value(refs, head_name(), true)->Ok_0;
    let merge = ref_value(refs, merge_head_name(), true)->Ok_0;
    assert(parents_of(head, merge) =~= seq![before]);
    assert(seq![before][0] == before);
    lemma_commit_round_trip(objects, refs, path, entries, message);
    let after = committed(objects, refs, path, entries, message).0;
    let oid = committed(objects, refs, path, entries, message).2->Ok_0;
    if oid == before {
        lemma_committed_keeps(objects, refs, path, entries, message, before);
        assert(commit_at(after, before) == commit_at(objects, before));
        assert(seq![before].contains(before));
    }
}

/// The first two commits of a history. A first commit is made where `HEAD`
/// stands for no commit and no merge is in progress, as in a new
/// repository. A second commit is made in the store that the first left,
/// under references by which `HEAD` stands for the first commit and no
/// merge is in progress, whatever branches were made and checked out in
/// between. Then the second commit is not the first, has the first as its
/// one parent, and has its message; and the first is still read as the
/// commit without parents that it was. This holds where the store holds
/// each new commit under its identifier, which it does unless it held
/// other bytes there.
pub proof fn lemma_second_commit(
    objects: Store,
    refs: Store,
    path: Seq<u8>,
    entries: Seq<Entry>,
    message: Seq<u8>,
    later: Store,
    next_path: Seq<u8>,
    next_entries: Seq<Entry>,
    next_message: Seq<u8>,
)
    requires
        committed(objects, refs, path, entries, message).2 is Ok,
        ref_value(refs, head_name(), true)->Ok_0.value is None,
        ref_value(refs, merge_head_name(), true)->Ok_0.value is None,
        holds(
            committed(objects, refs, path, entries, message).0,
            commit_tag(),
            commit_text(
                CommitView {
                    tree: stored_tree(objects, path, entries).1->0,
                    parents: Seq::empty(),
                    message,
                },
            ),
        ),
        committed(
            committed(objects, refs, path, entries, message).0,
            later,
            next_path,
            next_entries,
            next_message,
        ).2 is Ok,
        ref_value(later, head_name(), true)->Ok_0.value == Some(
            committed(objects, refs, path, entries, message).2->Ok_0,
        ),
        ref_value(later, merge_head_name(), true)->Ok_0.value is None,
        holds(
            committed(
                committed(objects, refs, path, entries, message).0,
                later,
                next_path,
                next_entries,
                next_message,
            ).0,
            commit_tag(),
            commit_text(
                CommitView {
                    tree: stored_tree(
                        committed(objects, refs, path, entries, message).0,
                        next_path,
                        next_entries,
                    ).1->0,
                    parents: seq![committed(objects, refs, path, entries, message).2->Ok_0],
                    message: next_message,
                },
            ),
        ),
    ensures
        ({
            let first = committed(objects, refs, path, entries, message);
            let second = committed(first.0, later, next_path, next_entries, next_message);
            &&& second.2->Ok_0 != first.2->Ok_0
            &&& commit_at(second.0, second.2->Ok_0) == Ok::<_, Error>(
                CommitView {
                    tree: stored_tree(first.0, next_path, next_entries).1->0,
                    parents: seq![first.2->Ok_0],
                    message: next_message,
                },
            )
            &&& commit_at(second.0, first.2->Ok_0) == Ok::<_, Error>(
                CommitView {
                    tree: stored_tree(objects, path, entries).1->0,
                    parents: Seq::empty(),
                    message,
                },
            )
        }),
{
    let first = committed(objects, refs, path, entries, message);
    let before = first.2->Ok_0;
    let head = ref_value(refs, head_name(), true)->Ok_0;
    let merge = ref_value(refs, merge_head_name(), true)->Ok_0;
    assert(parents_of(head, merge) =~= Seq::<Seq<u8>>::empty());
    lemma_commit_round_trip(objects, refs, path, entries, message);
    lemma_oid_word(
        commit_tag(),
        commit_text(
            CommitView {
                tree: stored_tree(objects, path, entries).1->0,
                parents: Seq::empty(),
                message,
            },
        ),
    );
    assert(!Seq::<Seq<u8>>::empty().contains(before));
    lemma_commit_follows(first.0, later, next_path, next_entries, next_message, before);
    lemma_committed_keeps(first.0, later, next_path, next_entries, next_message, before);
}

// ---------------------------------------------------------------------
// What holds of merging
// ---------------------------------------------------------------------

/// Fast-forward: where the commit of `HEAD` is among the commits listed
/// from `other`, a merge of `other` that goes well is a fast-forward. It
/// sets `HEAD` to `other` and no other reference, so that `MERGE_HEAD` is
/// not set by it; and as [`merge`] leaves the objects as they were, no
/// commit is made.
pub proof fn lemma_fast_forward(objects: Store, refs: Store, other: Seq<u8>)
    requires
        objects.dom().finite(),
        ref_value(refs, head_name(), true) is Ok,
        ref_value(refs, head_name(), true)->Ok_0.value is Some,
        ancestors(objects, seq![other]) is Ok,
        ancestors(objects, seq![other])->Ok_0.contains(
            ref_value(refs, head_name(), true)->Ok_0.value->0,
        ),
        merge_result(objects, refs, other) is Ok,
    ensures
        merge_result(objects, refs, other)->Ok_0.1 == MergeKind::FastForward,
        merge_result(objects, refs, other)->Ok_0.0 == refs.insert(head_name(), other),
        merge_result(objects, refs, other)->Ok_0.0.contains_key(merge_head_name())
            == refs.contains_key(merge_head_name()),
{
    let head = ref_value(refs, head_name(), true)->Ok_0.value->0;
    lemma_merge_base_of_ancestor(objects, other, head);
    reveal_strlit("HEAD");
    reveal_strlit("MERGE_HEAD");
    assert(head_name().len() != merge_head_name().len());
}

} // verus!
