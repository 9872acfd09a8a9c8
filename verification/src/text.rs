//! Text as lines: the edit script that turns one list of lines into
//! another, the unified report of such a script, and the merge of two
//! lists of lines that were both made from a third.

use crate::bytes::{
    ascii, bytes_eq, copy, find, find_from, lemma_find_from_skip, lit, newline, slice, views,
};
use vstd::prelude::*;

verus! {

// ---------------------------------------------------------------------
// Lines
// ---------------------------------------------------------------------

/// The lines of `s`, each with the line feed that ends it; the last line
/// has none where `s` does not end in one. Put together again they are `s`.
pub open spec fn pieces(s: Seq<u8>) -> Seq<Seq<u8>>
    decreases s.len(),
{
    if s.len() == 0 {
        Seq::empty()
    } else {
        let end = find_from(s, newline(), 0);
        if 0 <= end < s.len() {
            seq![s.take(end + 1)] + pieces(s.skip(end + 1))
        } else {
            seq![s]
        }
    }
}

/// The lines of a text, put together, are the text.
pub proof fn lemma_pieces_flatten(s: Seq<u8>)
    ensures
        pieces(s).flatten() == s,
    decreases s.len(),
{
    if s.len() == 0 {
        assert(pieces(s).flatten() =~= s);
    } else {
        let end = find_from(s, newline(), 0);
        if 0 <= end < s.len() {
            lemma_pieces_flatten(s.skip(end + 1));
            vstd::seq_lib::lemma_flatten_concat(seq![s.take(end + 1)], pieces(s.skip(end + 1)));
            seq![s.take(end + 1)].lemma_flatten_one_element();
            assert(s.take(end + 1) + s.skip(end + 1) =~= s);
        } else {
            seq![s].lemma_flatten_one_element();
        }
    }
}

/// Cuts `s` into its lines.
pub fn split_pieces(s: &[u8]) -> (r: Vec<Vec<u8>>)
    ensures
        views(r@) == pieces(s@),
{
    let mut r: Vec<Vec<u8>> = Vec::new();
    let mut start: usize = 0;
    assert(s@.skip(0) =~= s@);
    assert(views(r@) + pieces(s@) =~= pieces(s@));
    while start < s.len()
        invariant
            start <= s.len(),
            pieces(s@) == views(r@) + pieces(s@.skip(start as int)),
        decreases s.len() - start,
    {
        let end = find(s, 0x0a, start);
        proof {
            lemma_find_from_skip(s@, newline(), start as int);
        }
        let ghost rest = s@.skip(start as int);
        let ghost before = views(r@);
        if end >= s.len() {
            r.push(slice(s, start, s.len()));
            assert(s@.subrange(start as int, s@.len() as int) =~= rest);
            assert(views(r@) =~= before + seq![rest]);
            assert(s@.skip(s@.len() as int) =~= Seq::<u8>::empty());
            assert(pieces(s@) =~= views(r@) + pieces(s@.skip(s@.len() as int)));
            start = s.len();
        } else {
            r.push(slice(s, start, end + 1));
            assert(s@.subrange(start as int, end + 1) =~= rest.take(end - start + 1));
            assert(s@.skip(end + 1) =~= rest.skip(end - start + 1));
            assert(views(r@) =~= before + seq![rest.take(end - start + 1)]);
            assert(pieces(s@) =~= views(r@) + pieces(s@.skip(end + 1)));
            start = end + 1;
        }
    }
    assert(s@.skip(start as int) =~= Seq::<u8>::empty());
    assert(pieces(s@) =~= views(r@));
    r
}

// ---------------------------------------------------------------------
// The edit script
// ---------------------------------------------------------------------

/// The length of a longest common part of the first `i` lines of `a` and
/// the first `j` lines of `b`: of a longest list of lines that can be had
/// from either by leaving lines out.
pub open spec fn lcs(a: Seq<Seq<u8>>, b: Seq<Seq<u8>>, i: nat, j: nat) -> nat
    decreases i + j,
{
    if i == 0 || j == 0 {
        0
    } else if a[i - 1] == b[j - 1] {
        1 + lcs(a, b, (i - 1) as nat, (j - 1) as nat)
    } else {
        let up = lcs(a, b, (i - 1) as nat, j);
        let left = lcs(a, b, i, (j - 1) as nat);
        if up >= left {
            up
        } else {
            left
        }
    }
}

/// A common list of lines is no longer than either of the two.
pub proof fn lemma_lcs_bound(a: Seq<Seq<u8>>, b: Seq<Seq<u8>>, i: nat, j: nat)
    ensures
        lcs(a, b, i, j) <= i,
        lcs(a, b, i, j) <= j,
    decreases i + j,
{
    if i > 0 && j > 0 {
        lemma_lcs_bound(a, b, (i - 1) as nat, (j - 1) as nat);
        lemma_lcs_bound(a, b, (i - 1) as nat, j);
        lemma_lcs_bound(a, b, i, (j - 1) as nat);
    }
}

/// One step of an edit script: a line that both texts have, a line that
/// only the old text has, or a line that only the new text has.
#[derive(Debug, Clone, Copy, PartialEq, Eq, Structural)]
pub enum Op {
    Keep,
    Delete,
    Insert,
}

/// The edit script that turns the first `i` lines of `a` into the first
/// `j` lines of `b`. Its last step keeps the last line of both where they
/// are equal; else it deletes the last line of `a` where that leaves a
/// longer common list than inserting the last line of `b` does, and
/// inserts the last line of `b` otherwise, so that of a line that was
/// replaced the old one comes first.
pub open spec fn script(a: Seq<Seq<u8>>, b: Seq<Seq<u8>>, i: nat, j: nat) -> Seq<Op>
    decreases i + j,
{
    if i == 0 && j == 0 {
        Seq::empty()
    } else if i == 0 {
        script(a, b, i, (j - 1) as nat).push(Op::Insert)
    } else if j == 0 {
        script(a, b, (i - 1) as nat, j).push(Op::Delete)
    } else if a[i - 1] == b[j - 1] {
        script(a, b, (i - 1) as nat, (j - 1) as nat).push(Op::Keep)
    } else if lcs(a, b, (i - 1) as nat, j) > lcs(a, b, i, (j - 1) as nat) {
        script(a, b, (i - 1) as nat, j).push(Op::Delete)
    } else {
        script(a, b, i, (j - 1) as nat).push(Op::Insert)
    }
}

/// The edit script that turns `a` into `b`.
pub open spec fn edits(a: Seq<Seq<u8>>, b: Seq<Seq<u8>>) -> Seq<Op> {
    script(a, b, a.len(), b.len())
}

/// Whether `t` holds, for each `i` below `rows` and each `j`, the length of
/// the longest common list of the first `i + 1` lines of `a` and the first
/// `j + 1` lines of `b`.
pub open spec fn is_table(t: Seq<Vec<usize>>, a: Seq<Seq<u8>>, b: Seq<Seq<u8>>, rows: nat) -> bool {
    &&& t.len() == rows
    &&& forall|i: int| 0 <= i < rows ==> (#[trigger] t[i])@.len() == b.len()
    &&& forall|i: int, j: int|
        0 <= i < rows && 0 <= j < b.len() ==> #[trigger] t[i]@[j] == lcs(
            a,
            b,
            (i + 1) as nat,
            (j + 1) as nat,
        )
}

/// The length of the longest common list of the first `i` lines of `a` and
/// the first `j` lines of `b`, read from the table.
fn cell(
    t: &Vec<Vec<usize>>,
    i: usize,
    j: usize,
    Ghost(a): Ghost<Seq<Seq<u8>>>,
    Ghost(b): Ghost<Seq<Seq<u8>>>,
) -> (r: usize)
    requires
        is_table(t@, a, b, t@.len() as nat),
        i <= t@.len(),
        j <= b.len(),
    ensures
        r == lcs(a, b, i as nat, j as nat),
{
    if i == 0 || j == 0 {
        0
    } else {
        t[i - 1][j - 1]
    }
}

/// The table of the lengths of the longest common lists of the beginnings
/// of `a` and `b`.
fn lcs_table(a: &Vec<Vec<u8>>, b: &Vec<Vec<u8>>) -> (t: Vec<Vec<usize>>)
    ensures
        is_table(t@, views(a@), views(b@), a@.len() as nat),
{
    let ghost va = views(a@);
    let ghost vb = views(b@);
    let mut t: Vec<Vec<usize>> = Vec::new();
    let mut i: usize = 0;
    while i < a.len()
        invariant
            i <= a.len(),
            va == views(a@),
            vb == views(b@),
            is_table(t@, va, vb, i as nat),
        decreases a.len() - i,
    {
        let mut row: Vec<usize> = Vec::new();
        let mut j: usize = 0;
        while j < b.len()
            invariant
                i < a.len(),
                j <= b.len(),
                va == views(a@),
                vb == views(b@),
                is_table(t@, va, vb, i as nat),
                row@.len() == j,
                forall|y: int|
                    0 <= y < j ==> #[trigger] row@[y] == lcs(va, vb, (i + 1) as nat, (y + 1) as nat),
            decreases b.len() - j,
        {
            assert(va[i as int] == a@[i as int]@);
            assert(vb[j as int] == b@[j as int]@);
            let value = if bytes_eq(a[i].as_slice(), b[j].as_slice()) {
                let diagonal = cell(&t, i, j, Ghost(va), Ghost(vb));
                proof {
                    lemma_lcs_bound(va, vb, i as nat, j as nat);
                    assert(lcs(va, vb, (i + 1) as nat, (j + 1) as nat) == 1 + lcs(
                        va,
                        vb,
                        i as nat,
                        j as nat,
                    ));
                }
                diagonal + 1
            } else {
                let up = cell(&t, i, j + 1, Ghost(va), Ghost(vb));
                let left = if j == 0 {
                    0
                } else {
                    row[j - 1]
                };
                assert(left == lcs(va, vb, (i + 1) as nat, j as nat));
                assert(lcs(va, vb, (i + 1) as nat, (j + 1) as nat) == if up >= left {
                    up as nat
                } else {
                    left as nat
                });
                if up >= left {
                    up
                } else {
                    left
                }
            };
            assert(value == lcs(va, vb, (i + 1) as nat, (j + 1) as nat));
            let ghost before = row@;
            row.push(value);
            assert forall|y: int| 0 <= y < j + 1 implies #[trigger] row@[y] == lcs(
                va,
                vb,
                (i + 1) as nat,
                (y + 1) as nat,
            ) by {
                if y < j {
                    assert(row@[y] == before[y]);
                }
            }
            j += 1;
        }
        t.push(row);
        i += 1;
    }
    t
}

/// The edit script that turns `a` into `b`: for each line of either, in
/// order, whether both have it, only `a` has it, or only `b` has it.
pub fn edit_script(a: &Vec<Vec<u8>>, b: &Vec<Vec<u8>>) -> (ops: Vec<Op>)
    ensures
        ops@ == edits(views(a@), views(b@)),
{
    let ghost va = views(a@);
    let ghost vb = views(b@);
    let t = lcs_table(a, b);
    let mut back: Vec<Op> = Vec::new();
    let mut i: usize = a.len();
    let mut j: usize = b.len();
    assert(script(va, vb, i as nat, j as nat) + back@.reverse() =~= edits(va, vb));
    while i > 0 || j > 0
        invariant
            i <= a.len(),
            j <= b.len(),
            va == views(a@),
            vb == views(b@),
            is_table(t@, va, vb, a@.len() as nat),
            edits(va, vb) == script(va, vb, i as nat, j as nat) + back@.reverse(),
        decreases i + j,
    {
        let ghost before = back@;
        let ghost op: Op;
        if i == 0 {
            back.push(Op::Insert);
            proof {
                op = Op::Insert;
            }
            j -= 1;
        } else if j == 0 {
            back.push(Op::Delete);
            proof {
                op = Op::Delete;
            }
            i -= 1;
        } else {
            assert(va[i - 1] == a@[i - 1]@);
            assert(vb[j - 1] == b@[j - 1]@);
            if bytes_eq(a[i - 1].as_slice(), b[j - 1].as_slice()) {
                back.push(Op::Keep);
                proof {
                    op = Op::Keep;
                }
                i -= 1;
                j -= 1;
            } else {
                let up = cell(&t, i - 1, j, Ghost(va), Ghost(vb));
                let left = cell(&t, i, j - 1, Ghost(va), Ghost(vb));
                if up > left {
                    back.push(Op::Delete);
                    proof {
                        op = Op::Delete;
                    }
                    i -= 1;
                } else {
                    back.push(Op::Insert);
                    proof {
                        op = Op::Insert;
                    }
                    j -= 1;
                }
            }
        }
        assert(back@.reverse() =~= seq![op] + before.reverse());
        assert(script(va, vb, i as nat, j as nat).push(op) + before.reverse() =~= script(
            va,
            vb,
            i as nat,
            j as nat,
        ) + back@.reverse());
    }
    let mut ops: Vec<Op> = Vec::new();
    let mut k: usize = back.len();
    while k > 0
        invariant
            k <= back.len(),
            ops@.len() == back.len() - k,
            forall|x: int| 0 <= x < ops@.len() ==> #[trigger] ops@[x] == back@[back.len() - 1 - x],
        decreases k,
    {
        k -= 1;
        ops.push(back[k]);
    }
    assert(ops@ =~= back@.reverse());
    assert(script(va, vb, 0, 0) + back@.reverse() =~= back@.reverse());
    ops
}

/// How many of the first `k` steps take a line of the old text.
pub open spec fn old_pos(ops: Seq<Op>, k: nat) -> nat
    decreases k,
{
    if k == 0 {
        0
    } else if ops[k - 1] == Op::Insert {
        old_pos(ops, (k - 1) as nat)
    } else {
        old_pos(ops, (k - 1) as nat) + 1
    }
}

/// How many of the first `k` steps take a line of the new text.
pub open spec fn new_pos(ops: Seq<Op>, k: nat) -> nat
    decreases k,
{
    if k == 0 {
        0
    } else if ops[k - 1] == Op::Delete {
        new_pos(ops, (k - 1) as nat)
    } else {
        new_pos(ops, (k - 1) as nat) + 1
    }
}

/// Whether `ops` is an edit script from `a` to `b`: it takes every line of
/// each in order, and where it keeps a line, the two texts have the same
/// line there.
#[verifier::opaque]
pub open spec fn valid_script(ops: Seq<Op>, a: Seq<Seq<u8>>, b: Seq<Seq<u8>>) -> bool {
    &&& old_pos(ops, ops.len()) == a.len()
    &&& new_pos(ops, ops.len()) == b.len()
    &&& forall|k: int|
        0 <= k < ops.len() && #[trigger] ops[k] == Op::Keep ==> a[old_pos(ops, k as nat) as int]
            == b[new_pos(ops, k as nat) as int]
}

/// The positions after `k` steps do not depend on later steps.
pub proof fn lemma_pos_prefix(ops: Seq<Op>, more: Seq<Op>, k: nat)
    requires
        k <= ops.len(),
    ensures
        old_pos(ops + more, k) == old_pos(ops, k),
        new_pos(ops + more, k) == new_pos(ops, k),
    decreases k,
{
    if k > 0 {
        lemma_pos_prefix(ops, more, (k - 1) as nat);
    }
}

/// Positions grow with the number of steps.
pub proof fn lemma_pos_monotone(ops: Seq<Op>, k: nat, m: nat)
    requires
        k <= m,
    ensures
        old_pos(ops, k) <= old_pos(ops, m),
        new_pos(ops, k) <= new_pos(ops, m),
    decreases m,
{
    if k < m {
        lemma_pos_monotone(ops, k, (m - 1) as nat);
    }
}

/// The script for the first `i` and `j` lines takes just those lines, and
/// keeps only lines that are equal.
pub proof fn lemma_script_valid(a: Seq<Seq<u8>>, b: Seq<Seq<u8>>, i: nat, j: nat)
    ensures
        old_pos(script(a, b, i, j), script(a, b, i, j).len()) == i,
        new_pos(script(a, b, i, j), script(a, b, i, j).len()) == j,
        forall|k: int|
            0 <= k < script(a, b, i, j).len() && #[trigger] script(a, b, i, j)[k] == Op::Keep
                ==> a[old_pos(script(a, b, i, j), k as nat) as int] == b[new_pos(
                script(a, b, i, j),
                k as nat,
            ) as int],
    decreases i + j,
{
    let ops = script(a, b, i, j);
    if i == 0 && j == 0 {
    } else {
        let (pi, pj): (nat, nat) = if i == 0 {
            (i, (j - 1) as nat)
        } else if j == 0 {
            ((i - 1) as nat, j)
        } else if a[i - 1] == b[j - 1] {
            ((i - 1) as nat, (j - 1) as nat)
        } else if lcs(a, b, (i - 1) as nat, j) > lcs(a, b, i, (j - 1) as nat) {
            ((i - 1) as nat, j)
        } else {
            (i, (j - 1) as nat)
        };
        let prev = script(a, b, pi, pj);
        lemma_script_valid(a, b, pi, pj);
        assert(ops == prev.push(ops.last()));
        assert(prev.push(ops.last()) =~= prev + seq![ops.last()]);
        lemma_pos_prefix(prev, seq![ops.last()], prev.len());
        assert forall|k: int| 0 <= k < ops.len() && #[trigger] ops[k] == Op::Keep implies a[old_pos(
            ops,
            k as nat,
        ) as int] == b[new_pos(ops, k as nat) as int] by {
            lemma_pos_prefix(prev, seq![ops.last()], k as nat);
            if k < prev.len() {
                assert(prev[k] == ops[k]);
            }
        }
    }
}

/// The edit script from `a` to `b` is a valid one.
pub proof fn lemma_edits_valid(a: Seq<Seq<u8>>, b: Seq<Seq<u8>>)
    ensures
        valid_script(edits(a, b), a, b),
{
    reveal(valid_script);
    lemma_script_valid(a, b, a.len(), b.len());
}

/// What a valid script says of its step `k`: the line that it takes from
/// either text is there, and a line that it keeps is the same in both.
pub proof fn lemma_step(ops: Seq<Op>, a: Seq<Seq<u8>>, b: Seq<Seq<u8>>, k: nat)
    requires
        valid_script(ops, a, b),
        k < ops.len(),
    ensures
        old_pos(ops, k) <= a.len(),
        new_pos(ops, k) <= b.len(),
        ops[k as int] != Op::Insert ==> old_pos(ops, k) < a.len(),
        ops[k as int] != Op::Delete ==> new_pos(ops, k) < b.len(),
        ops[k as int] == Op::Keep ==> a[old_pos(ops, k) as int] == b[new_pos(ops, k) as int],
        old_pos(ops, k + 1) == old_pos(ops, k) + if ops[k as int] == Op::Insert {
            0nat
        } else {
            1nat
        },
        new_pos(ops, k + 1) == new_pos(ops, k) + if ops[k as int] == Op::Delete {
            0nat
        } else {
            1nat
        },
{
    reveal(valid_script);
    lemma_pos_monotone(ops, k + 1, ops.len());
}

/// At its end a valid script has taken every line of both texts.
pub proof fn lemma_script_end(ops: Seq<Op>, a: Seq<Seq<u8>>, b: Seq<Seq<u8>>)
    requires
        valid_script(ops, a, b),
    ensures
        old_pos(ops, ops.len()) == a.len(),
        new_pos(ops, ops.len()) == b.len(),
{
    reveal(valid_script);
}

/// The script from a text to itself keeps every line.
pub proof fn lemma_script_same(a: Seq<Seq<u8>>, i: nat)
    ensures
        script(a, a, i, i).len() == i,
        forall|k: int| 0 <= k < i ==> #[trigger] script(a, a, i, i)[k] == Op::Keep,
    decreases i,
{
    if i > 0 {
        lemma_script_same(a, (i - 1) as nat);
    }
}

// ---------------------------------------------------------------------
// The unified report
// ---------------------------------------------------------------------

/// `line` with a line feed at its end, where it has none.
pub open spec fn terminated(line: Seq<u8>) -> Seq<u8> {
    if line.len() > 0 && line.last() == newline() {
        line
    } else {
        line.push(newline())
    }
}

/// The report of the first `k` steps: each line after a blank where it is
/// kept, after `-` where it is deleted, after `+` where it is inserted.
pub open spec fn report_lines(ops: Seq<Op>, a: Seq<Seq<u8>>, b: Seq<Seq<u8>>, k: nat) -> Seq<u8>
    decreases k,
{
    if k == 0 {
        Seq::empty()
    } else {
        let before = report_lines(ops, a, b, (k - 1) as nat);
        match ops[k - 1] {
            Op::Keep => before + seq![0x20u8] + terminated(a[old_pos(ops, (k - 1) as nat) as int]),
            Op::Delete => before + seq![0x2du8] + terminated(
                a[old_pos(ops, (k - 1) as nat) as int],
            ),
            Op::Insert => before + seq![0x2bu8] + terminated(
                b[new_pos(ops, (k - 1) as nat) as int],
            ),
        }
    }
}

/// Whether one of the first `k` steps deletes or inserts a line.
pub open spec fn has_change(ops: Seq<Op>, k: nat) -> bool
    decreases k,
{
    if k == 0 {
        false
    } else {
        ops[k - 1] != Op::Keep || has_change(ops, (k - 1) as nat)
    }
}

/// The ASCII code of a digit.
pub open spec fn digit(d: nat) -> u8 {
    (0x30 + d) as u8
}

/// `n` in decimal digits.
pub open spec fn decimal(n: nat) -> Seq<u8>
    decreases n,
{
    if n < 10 {
        seq![digit(n)]
    } else {
        decimal(n / 10).push(digit(n % 10))
    }
}

/// The range of a text of `n` lines in the head of a report: `0,0` for no
/// lines, else line one and the number of lines.
pub open spec fn range(n: nat) -> Seq<u8> {
    if n == 0 {
        ascii("0,0"@)
    } else {
        ascii("1,"@) + decimal(n)
    }
}

/// The head of a report on a file named `label` with `n` old and `m` new
/// lines: the old name behind `--- a/`, the new name behind `+++ b/`, and
/// the ranges of the two texts between `@@`.
pub open spec fn report_head(label: Seq<u8>, n: nat, m: nat) -> Seq<u8> {
    ascii("--- a/"@) + label + seq![newline()] + ascii("+++ b/"@) + label + seq![newline()] + ascii(
        "@@ -"@,
    ) + range(n) + ascii(" +"@) + range(m) + ascii(" @@"@) + seq![newline()]
}

/// The unified report of the difference between the lines `a` and the
/// lines `b` of the file named `label`: nothing where the script only
/// keeps lines; else the head and every line with the sign of its step.
pub open spec fn unified(label: Seq<u8>, a: Seq<Seq<u8>>, b: Seq<Seq<u8>>) -> Seq<u8> {
    let ops = edits(a, b);
    if !has_change(ops, ops.len()) {
        Seq::empty()
    } else {
        report_head(label, a.len(), b.len()) + report_lines(ops, a, b, ops.len())
    }
}

/// Writes `n` in decimal digits.
pub fn decimal_digits(n: usize) -> (r: Vec<u8>)
    ensures
        r@ == decimal(n as nat),
    decreases n,
{
    if n < 10 {
        let mut r: Vec<u8> = Vec::new();
        r.push(0x30 + n as u8);
        assert(r@ =~= seq![digit(n as nat)]);
        r
    } else {
        let mut r = decimal_digits(n / 10);
        r.push(0x30 + (n % 10) as u8);
        r
    }
}

/// Appends `line` to `out`, with a line feed where it has none.
fn push_terminated(out: &mut Vec<u8>, line: &[u8])
    ensures
        final(out)@ == old(out)@ + terminated(line@),
{
    out.extend_from_slice(line);
    if line.len() == 0 || line[line.len() - 1] != 0x0a {
        out.push(0x0a);
        assert(out@ =~= old(out)@ + line@.push(newline()));
    }
}

/// Appends the range of a text of `n` lines to `out`.
fn push_range(out: &mut Vec<u8>, n: usize)
    ensures
        final(out)@ == old(out)@ + range(n as nat),
{
    proof {
        reveal_strlit("0,0");
        reveal_strlit("1,");
    }
    if n == 0 {
        let zero = lit("0,0");
        out.extend_from_slice(zero.as_slice());
    } else {
        let one = lit("1,");
        let digits = decimal_digits(n);
        out.extend_from_slice(one.as_slice());
        out.extend_from_slice(digits.as_slice());
        assert(out@ =~= old(out)@ + (ascii("1,"@) + decimal(n as nat)));
    }
}

/// Appends `sign` and `line` to `out`, with a line feed where the line
/// has none.
fn push_line(out: &mut Vec<u8>, sign: u8, line: &[u8])
    ensures
        final(out)@ == old(out)@ + seq![sign] + terminated(line@),
{
    out.push(sign);
    push_terminated(out, line);
}

/// Whether a step of `ops` deletes or inserts a line.
fn any_change(ops: &Vec<Op>) -> (r: bool)
    ensures
        r == has_change(ops@, ops@.len()),
{
    let mut changed = false;
    let mut k: usize = 0;
    while k < ops.len()
        invariant
            k <= ops.len(),
            changed == has_change(ops@, k as nat),
        decreases ops.len() - k,
    {
        match ops[k] {
            Op::Keep => {},
            _ => {
                changed = true;
            },
        }
        k += 1;
    }
    changed
}

/// Writes the head of a report.
fn write_head(label: &[u8], n: usize, m: usize) -> (out: Vec<u8>)
    ensures
        out@ == report_head(label@, n as nat, m as nat),
{
    proof {
        reveal_strlit("--- a/");
        reveal_strlit("+++ b/");
        reveal_strlit("@@ -");
        reveal_strlit(" +");
        reveal_strlit(" @@");
    }
    let mut out = lit("--- a/");
    out.extend_from_slice(label);
    out.push(0x0a);
    let plus = lit("+++ b/");
    out.extend_from_slice(plus.as_slice());
    out.extend_from_slice(label);
    out.push(0x0a);
    let at = lit("@@ -");
    out.extend_from_slice(at.as_slice());
    let ghost first = out@;
    assert(first =~= ascii("--- a/"@) + label@ + seq![newline()] + ascii("+++ b/"@) + label@ + seq![
        newline(),
    ] + ascii("@@ -"@));
    push_range(&mut out, n);
    let mid = lit(" +");
    out.extend_from_slice(mid.as_slice());
    push_range(&mut out, m);
    let end = lit(" @@");
    out.extend_from_slice(end.as_slice());
    out.push(0x0a);
    assert(out@ =~= first + range(n as nat) + ascii(" +"@) + range(m as nat) + ascii(" @@"@) + seq![
        newline(),
    ]);
    out
}

/// Appends the lines of a report to `out`.
fn write_lines(out: &mut Vec<u8>, ops: &Vec<Op>, a: &Vec<Vec<u8>>, b: &Vec<Vec<u8>>)
    requires
        valid_script(ops@, views(a@), views(b@)),
    ensures
        final(out)@ == old(out)@ + report_lines(ops@, views(a@), views(b@), ops@.len()),
{
    let ghost va = views(a@);
    let ghost vb = views(b@);
    let ghost head = out@;
    let n = a.len();
    let m = b.len();
    let mut i: usize = 0;
    let mut j: usize = 0;
    let mut k: usize = 0;
    assert(out@ =~= head + report_lines(ops@, va, vb, 0));
    while k < ops.len()
        invariant
            k <= ops.len(),
            n == a@.len(),
            m == b@.len(),
            va == views(a@),
            vb == views(b@),
            valid_script(ops@, va, vb),
            i == old_pos(ops@, k as nat),
            j == new_pos(ops@, k as nat),
            out@ == head + report_lines(ops@, va, vb, k as nat),
        decreases ops.len() - k,
    {
        proof {
            lemma_step(ops@, va, vb, k as nat);
            assert(va.len() == a@.len() && vb.len() == b@.len());
        }
        let ghost before = report_lines(ops@, va, vb, k as nat);
        match ops[k] {
            Op::Keep => {
                assert(va[i as int] == a@[i as int]@);
                push_line(out, 0x20, a[i].as_slice());
                assert(out@ =~= head + (before + seq![0x20u8] + terminated(va[i as int])));
                i += 1;
                j += 1;
            },
            Op::Delete => {
                assert(va[i as int] == a@[i as int]@);
                push_line(out, 0x2d, a[i].as_slice());
                assert(out@ =~= head + (before + seq![0x2du8] + terminated(va[i as int])));
                i += 1;
            },
            Op::Insert => {
                assert(vb[j as int] == b@[j as int]@);
                push_line(out, 0x2b, b[j].as_slice());
                assert(out@ =~= head + (before + seq![0x2bu8] + terminated(vb[j as int])));
                j += 1;
            },
        }
        k += 1;
    }
}

/// Writes the unified report of the difference between the lines `a` and
/// `b`, with `label` as the name of the file. The report is empty where
/// the two are the same lines.
pub fn report(label: &[u8], a: &Vec<Vec<u8>>, b: &Vec<Vec<u8>>) -> (r: Vec<u8>)
    ensures
        r@ == unified(label@, views(a@), views(b@)),
{
    let ops = edit_script(a, b);
    if !any_change(&ops) {
        return Vec::new();
    }
    proof {
        lemma_edits_valid(views(a@), views(b@));
    }
    let mut out = write_head(label, a.len(), b.len());
    write_lines(&mut out, &ops, a, b);
    out
}

// ---------------------------------------------------------------------
// Merging
// ---------------------------------------------------------------------

/// What one side did at one place of the old text: the lines that it added
/// before the old line there, and whether it kept that line. The place
/// behind the last old line has no line to keep.
#[derive(Debug, Clone, PartialEq, Eq)]
pub struct Slot {
    pub added: Vec<Vec<u8>>,
    pub kept: bool,
}

/// A [`Slot`] as a mathematical value.
pub struct SlotView {
    pub added: Seq<Seq<u8>>,
    pub kept: bool,
}

impl View for Slot {
    type V = SlotView;

    open spec fn view(&self) -> SlotView {
        SlotView { added: views(self.added@), kept: self.kept }
    }
}

/// The slots that a list holds.
pub open spec fn slot_views(v: Seq<Slot>) -> Seq<SlotView> {
    Seq::new(v.len(), |i: int| v[i]@)
}

/// The lines that the steps before step `k` inserted since the last step
/// that took an old line.
pub open spec fn pending(ops: Seq<Op>, b: Seq<Seq<u8>>, k: nat) -> Seq<Seq<u8>>
    decreases k,
{
    if k == 0 {
        Seq::empty()
    } else if ops[k - 1] == Op::Insert {
        pending(ops, b, (k - 1) as nat).push(b[new_pos(ops, (k - 1) as nat) as int])
    } else {
        Seq::empty()
    }
}

/// The slots of the old lines that the first `k` steps took: for each its
/// fate and the lines inserted before it.
pub open spec fn closed(ops: Seq<Op>, b: Seq<Seq<u8>>, k: nat) -> Seq<SlotView>
    decreases k,
{
    if k == 0 {
        Seq::empty()
    } else {
        let before = closed(ops, b, (k - 1) as nat);
        match ops[k - 1] {
            Op::Insert => before,
            Op::Keep => before.push(
                SlotView { added: pending(ops, b, (k - 1) as nat), kept: true },
            ),
            Op::Delete => before.push(
                SlotView { added: pending(ops, b, (k - 1) as nat), kept: false },
            ),
        }
    }
}

/// A script from an old text to the text `b` as slots: one for each old
/// line, and one for the end of the old text.
pub open spec fn slots(ops: Seq<Op>, b: Seq<Seq<u8>>) -> Seq<SlotView> {
    closed(ops, b, ops.len()).push(SlotView { added: pending(ops, b, ops.len()), kept: false })
}

/// There is a closed slot for each old line taken.
pub proof fn lemma_closed_len(ops: Seq<Op>, b: Seq<Seq<u8>>, k: nat)
    ensures
        closed(ops, b, k).len() == old_pos(ops, k),
    decreases k,
{
    if k > 0 {
        lemma_closed_len(ops, b, (k - 1) as nat);
    }
}

/// The line that opens a conflict, before the lines of the first side.
pub open spec fn head_marker() -> Seq<u8> {
    ascii("<<<<<<< HEAD"@).push(newline())
}

/// The line between the two sides of a conflict.
pub open spec fn middle_marker() -> Seq<u8> {
    ascii("======="@).push(newline())
}

/// The line that closes a conflict, behind the lines of the second side.
pub open spec fn end_marker() -> Seq<u8> {
    ascii(">>>>>>> MERGE_HEAD"@).push(newline())
}

/// Each line with a line feed at its end.
pub open spec fn terminated_all(x: Seq<Seq<u8>>) -> Seq<Seq<u8>> {
    Seq::new(x.len(), |i: int| terminated(x[i]))
}

/// The lines of both sides between conflict markers.
pub open spec fn conflict(x: Seq<Seq<u8>>, y: Seq<Seq<u8>>) -> Seq<Seq<u8>> {
    seq![head_marker()] + terminated_all(x) + seq![middle_marker()] + terminated_all(y) + seq![
        end_marker(),
    ]
}

/// Whether both sides deleted the old line before place `i`, so that what
/// they put in its stead at place `i` must agree.
pub open spec fn contested(x: Seq<SlotView>, y: Seq<SlotView>, i: int) -> bool {
    i >= 1 && !x[i - 1].kept && !y[i - 1].kept
}

/// What two sides added at one place, merged. Where both added the same
/// lines, these are taken once. Where one added nothing, the lines of the
/// other are taken, unless the place is contested. Anything else is a
/// conflict.
pub open spec fn merge_added(x: Seq<Seq<u8>>, y: Seq<Seq<u8>>, contested: bool) -> Seq<Seq<u8>> {
    if x == y {
        x
    } else if !contested && x.len() == 0 {
        y
    } else if !contested && y.len() == 0 {
        x
    } else {
        conflict(x, y)
    }
}

/// The merged lines up to the first `i` places of the old text: at each
/// place what the two sides added there, merged, and then the old line
/// where both kept it.
pub open spec fn merged_lines(base: Seq<Seq<u8>>, x: Seq<SlotView>, y: Seq<SlotView>, i: nat)
    -> Seq<Seq<u8>>
    decreases i,
{
    if i == 0 {
        Seq::empty()
    } else {
        let before = merged_lines(base, x, y, (i - 1) as nat) + merge_added(
            x[i - 1].added,
            y[i - 1].added,
            contested(x, y, i - 1),
        );
        if i - 1 < base.len() && x[i - 1].kept && y[i - 1].kept {
            before.push(base[i - 1])
        } else {
            before
        }
    }
}

/// The merge of the lines `head` and `other`, which were both made from
/// `base`.
pub open spec fn merged(base: Seq<Seq<u8>>, head: Seq<Seq<u8>>, other: Seq<Seq<u8>>) -> Seq<
    Seq<u8>,
> {
    merged_lines(
        base,
        slots(edits(base, head), head),
        slots(edits(base, other), other),
        base.len() + 1,
    )
}

/// The merge of the texts `head` and `other`, which were both made from
/// `base`: a change that only one side made is taken, a change that both
/// made alike is taken once, and where the two added different lines at
/// the same place, or one deleted a line that the other replaced, both
/// stand between conflict markers.
pub open spec fn merged_text(base: Seq<u8>, head: Seq<u8>, other: Seq<u8>) -> Seq<u8> {
    merged(pieces(base), pieces(head), pieces(other)).flatten()
}

/// Turns an edit script to the lines `b` into slots.
fn make_slots(ops: &Vec<Op>, b: &Vec<Vec<u8>>, Ghost(a): Ghost<Seq<Seq<u8>>>) -> (r: Vec<Slot>)
    requires
        valid_script(ops@, a, views(b@)),
    ensures
        slot_views(r@) == slots(ops@, views(b@)),
{
    let ghost vb = views(b@);
    let m = b.len();
    let mut out: Vec<Slot> = Vec::new();
    let mut added: Vec<Vec<u8>> = Vec::new();
    let mut j: usize = 0;
    let mut k: usize = 0;
    assert(slot_views(out@) =~= closed(ops@, vb, 0));
    assert(views(added@) =~= pending(ops@, vb, 0));
    while k < ops.len()
        invariant
            k <= ops.len(),
            m == b@.len(),
            vb == views(b@),
            valid_script(ops@, a, vb),
            j == new_pos(ops@, k as nat),
            slot_views(out@) == closed(ops@, vb, k as nat),
            views(added@) == pending(ops@, vb, k as nat),
        decreases ops.len() - k,
    {
        proof {
            lemma_step(ops@, a, vb, k as nat);
        }
        let ghost before = slot_views(out@);
        let ghost lines = views(added@);
        match ops[k] {
            Op::Insert => {
                assert(vb[j as int] == b@[j as int]@);
                added.push(copy(b[j].as_slice()));
                assert(views(added@) =~= lines.push(vb[j as int]));
                j += 1;
            },
            Op::Keep => {
                let slot = Slot { added, kept: true };
                out.push(slot);
                assert(slot_views(out@) =~= before.push(SlotView { added: lines, kept: true }));
                added = Vec::new();
                assert(views(added@) =~= Seq::<Seq<u8>>::empty());
                j += 1;
            },
            Op::Delete => {
                let slot = Slot { added, kept: false };
                out.push(slot);
                assert(slot_views(out@) =~= before.push(SlotView { added: lines, kept: false }));
                added = Vec::new();
                assert(views(added@) =~= Seq::<Seq<u8>>::empty());
            },
        }
        k += 1;
    }
    let ghost before = slot_views(out@);
    let ghost lines = views(added@);
    out.push(Slot { added, kept: false });
    assert(slot_views(out@) =~= before.push(SlotView { added: lines, kept: false }));
    out
}

/// Whether two lists hold the same lines.
pub fn lines_eq(x: &Vec<Vec<u8>>, y: &Vec<Vec<u8>>) -> (r: bool)
    ensures
        r == (views(x@) == views(y@)),
{
    if x.len() != y.len() {
        assert(views(x@).len() != views(y@).len());
        return false;
    }
    let mut i: usize = 0;
    while i < x.len()
        invariant
            i <= x.len(),
            x.len() == y.len(),
            forall|k: int| 0 <= k < i ==> views(x@)[k] == views(y@)[k],
        decreases x.len() - i,
    {
        if !bytes_eq(x[i].as_slice(), y[i].as_slice()) {
            assert(views(x@)[i as int] != views(y@)[i as int]);
            return false;
        }
        i += 1;
    }
    assert(views(x@) =~= views(y@));
    true
}

/// Appends copies of the lines `more` to `out`.
fn push_all(out: &mut Vec<Vec<u8>>, more: &Vec<Vec<u8>>)
    ensures
        views(final(out)@) == views(old(out)@) + views(more@),
{
    let ghost start = views(out@);
    let mut i: usize = 0;
    assert(views(out@) =~= start + views(more@).take(0));
    while i < more.len()
        invariant
            i <= more.len(),
            views(out@) == start + views(more@).take(i as int),
        decreases more.len() - i,
    {
        let ghost before = views(out@);
        out.push(copy(more[i].as_slice()));
        assert(views(out@) =~= before.push(more@[i as int]@));
        assert(views(out@) =~= start + views(more@).take(i + 1));
        i += 1;
    }
    assert(views(more@).take(more@.len() as int) =~= views(more@));
}

/// Appends the lines `more` to `out`, each with a line feed at its end.
fn push_all_terminated(out: &mut Vec<Vec<u8>>, more: &Vec<Vec<u8>>)
    ensures
        views(final(out)@) == views(old(out)@) + terminated_all(views(more@)),
{
    let ghost start = views(out@);
    let mut i: usize = 0;
    assert(views(out@) =~= start + terminated_all(views(more@)).take(0));
    while i < more.len()
        invariant
            i <= more.len(),
            views(out@) == start + terminated_all(views(more@)).take(i as int),
        decreases more.len() - i,
    {
        let ghost before = views(out@);
        let mut line: Vec<u8> = Vec::new();
        push_terminated(&mut line, more[i].as_slice());
        assert(line@ =~= terminated(more@[i as int]@));
        out.push(line);
        assert(views(out@) =~= before.push(terminated(views(more@)[i as int])));
        assert(views(out@) =~= start + terminated_all(views(more@)).take(i + 1));
        i += 1;
    }
    assert(terminated_all(views(more@)).take(more@.len() as int) =~= terminated_all(
        views(more@),
    ));
}

/// Appends to `out` what two sides added at one place, merged.
fn push_merged(out: &mut Vec<Vec<u8>>, x: &Vec<Vec<u8>>, y: &Vec<Vec<u8>>, contested: bool)
    ensures
        views(final(out)@) == views(old(out)@) + merge_added(views(x@), views(y@), contested),
{
    if lines_eq(x, y) {
        push_all(out, x);
    } else if !contested && x.len() == 0 {
        push_all(out, y);
    } else if !contested && y.len() == 0 {
        push_all(out, x);
    } else {
        proof {
            reveal_strlit("<<<<<<< HEAD");
            reveal_strlit("=======");
            reveal_strlit(">>>>>>> MERGE_HEAD");
        }
        let ghost start = views(out@);
        let mut first = lit("<<<<<<< HEAD");
        first.push(0x0a);
        out.push(first);
        assert(views(out@) =~= start + seq![head_marker()]);
        push_all_terminated(out, x);
        let ghost so_far = views(out@);
        let mut middle = lit("=======");
        middle.push(0x0a);
        out.push(middle);
        assert(views(out@) =~= so_far + seq![middle_marker()]);
        push_all_terminated(out, y);
        let ghost nearly = views(out@);
        let mut last = lit(">>>>>>> MERGE_HEAD");
        last.push(0x0a);
        out.push(last);
        assert(views(out@) =~= nearly + seq![end_marker()]);
        assert(views(out@) =~= start + conflict(views(x@), views(y@)));
    }
}

/// Merges the lines `head` and `other`, which were both made from `base`.
pub fn merge_lines(base: &Vec<Vec<u8>>, head: &Vec<Vec<u8>>, other: &Vec<Vec<u8>>) -> (r: Vec<
    Vec<u8>,
>)
    ensures
        views(r@) == merged(views(base@), views(head@), views(other@)),
{
    let ghost vo = views(base@);
    let ops_head = edit_script(base, head);
    let ops_other = edit_script(base, other);
    proof {
        lemma_edits_valid(vo, views(head@));
        lemma_edits_valid(vo, views(other@));
        lemma_script_end(ops_head@, vo, views(head@));
        lemma_script_end(ops_other@, vo, views(other@));
        lemma_closed_len(ops_head@, views(head@), ops_head@.len());
        lemma_closed_len(ops_other@, views(other@), ops_other@.len());
    }
    let x = make_slots(&ops_head, head, Ghost(vo));
    let y = make_slots(&ops_other, other, Ghost(vo));
    let ghost sx = slot_views(x@);
    let ghost sy = slot_views(y@);
    let n = base.len();
    assert(sx.len() == x@.len() && sy.len() == y@.len());
    assert(sx.len() == closed(ops_head@, views(head@), ops_head@.len()).len() + 1);
    assert(sy.len() == closed(ops_other@, views(other@), ops_other@.len()).len() + 1);
    let mut out: Vec<Vec<u8>> = Vec::new();
    let mut i: usize = 0;
    assert(views(out@) =~= merged_lines(vo, sx, sy, 0));
    while i < x.len()
        invariant
            i <= x.len(),
            n == base@.len(),
            x@.len() == n + 1,
            y@.len() == n + 1,
            vo == views(base@),
            sx == slot_views(x@),
            sy == slot_views(y@),
            views(out@) == merged_lines(vo, sx, sy, i as nat),
        decreases x.len() - i,
    {
        let ghost before = views(out@);
        assert(sx[i as int] == x@[i as int]@);
        assert(sy[i as int] == y@[i as int]@);
        let both_deleted = i >= 1 && !x[i - 1].kept && !y[i - 1].kept;
        proof {
            if i >= 1 {
                assert(sx[i - 1] == x@[i - 1]@);
                assert(sy[i - 1] == y@[i - 1]@);
            }
        }
        push_merged(&mut out, &x[i].added, &y[i].added, both_deleted);
        if i < n && x[i].kept && y[i].kept {
            let ghost so_far = views(out@);
            assert(vo[i as int] == base@[i as int]@);
            out.push(copy(base[i].as_slice()));
            assert(views(out@) =~= so_far.push(vo[i as int]));
        }
        i += 1;
    }
    out
}

/// Puts lines together into one text.
pub fn join_lines(lines: &Vec<Vec<u8>>) -> (r: Vec<u8>)
    ensures
        r@ == views(lines@).flatten(),
{
    let mut r: Vec<u8> = Vec::new();
    let mut i: usize = 0;
    assert(views(lines@).take(0) =~= Seq::<Seq<u8>>::empty());
    while i < lines.len()
        invariant
            i <= lines.len(),
            r@ == views(lines@).take(i as int).flatten(),
        decreases lines.len() - i,
    {
        r.extend_from_slice(lines[i].as_slice());
        proof {
            views(lines@).take(i as int).lemma_flatten_push(lines@[i as int]@);
            assert(views(lines@).take(i as int).push(lines@[i as int]@) =~= views(lines@).take(
                i + 1,
            ));
        }
        i += 1;
    }
    assert(views(lines@).take(lines@.len() as int) =~= views(lines@));
    r
}

/// Merges the texts `head` and `other`, which were both made from `base`,
/// line by line. What only one side changed is taken from that side, and
/// what both changed alike is taken once. Where the two sides added
/// different lines at the same place, the merge holds both: the lines of
/// `head` behind `<<<<<<< HEAD`, then `=======`, then those of `other`
/// before `>>>>>>> MERGE_HEAD`.
pub fn merge_text(base: &[u8], head: &[u8], other: &[u8]) -> (r: Vec<u8>)
    ensures
        r@ == merged_text(base@, head@, other@),
{
    let base_lines = split_pieces(base);
    let head_lines = split_pieces(head);
    let other_lines = split_pieces(other);
    let lines = merge_lines(&base_lines, &head_lines, &other_lines);
    join_lines(&lines)
}

/// Writes the unified report of the difference between the texts `from`
/// and `to` of the file named `label`.
pub fn diff_text(label: &[u8], from: &[u8], to: &[u8]) -> (r: Vec<u8>)
    ensures
        r@ == unified(label@, pieces(from@), pieces(to@)),
{
    let a = split_pieces(from);
    let b = split_pieces(to);
    report(label, &a, &b)
}

// ---------------------------------------------------------------------
// What holds of a merge
// ---------------------------------------------------------------------

/// The merged lines up to a place do not depend on later slots.
pub proof fn lemma_merged_lines_prefix(
    base: Seq<Seq<u8>>,
    x: Seq<SlotView>,
    y: Seq<SlotView>,
    more_x: SlotView,
    more_y: SlotView,
    i: nat,
)
    requires
        i <= x.len(),
        i <= y.len(),
    ensures
        merged_lines(base, x.push(more_x), y.push(more_y), i) == merged_lines(base, x, y, i),
    decreases i,
{
    if i > 0 {
        lemma_merged_lines_prefix(base, x, y, more_x, more_y, (i - 1) as nat);
    }
}

/// Merging a side with itself, up to the first `k` steps of its script,
/// gives the lines of that side up to there.
proof fn lemma_rebuild_steps(base: Seq<Seq<u8>>, b: Seq<Seq<u8>>, ops: Seq<Op>, k: nat)
    requires
        valid_script(ops, base, b),
        k <= ops.len(),
    ensures
        closed(ops, b, k).len() == old_pos(ops, k),
        new_pos(ops, k) <= b.len(),
        merged_lines(base, closed(ops, b, k), closed(ops, b, k), old_pos(ops, k)) + pending(
            ops,
            b,
            k,
        ) == b.take(new_pos(ops, k) as int),
    decreases k,
{
    lemma_closed_len(ops, b, k);
    if k == 0 {
        assert(merged_lines(base, closed(ops, b, 0), closed(ops, b, 0), 0) + pending(ops, b, 0)
            =~= b.take(0));
    } else {
        let j = (k - 1) as nat;
        lemma_rebuild_steps(base, b, ops, j);
        lemma_step(ops, base, b, j);
        lemma_closed_len(ops, b, j);
        let before = closed(ops, b, j);
        let lines = pending(ops, b, j);
        let sofar = merged_lines(base, before, before, old_pos(ops, j));
        let at = old_pos(ops, j);
        let np = new_pos(ops, j);
        match ops[j as int] {
            Op::Insert => {
                assert(sofar + lines == b.take(np as int));
                assert(sofar + lines.push(b[np as int]) =~= (sofar + lines).push(b[np as int]));
                assert(b.take(np as int).push(b[np as int]) =~= b.take(np as int + 1));
            },
            Op::Keep => {
                let slot = SlotView { added: lines, kept: true };
                lemma_merged_lines_prefix(base, before, before, slot, slot, at);
                let now = before.push(slot);
                assert(now[at as int] == slot);
                assert(merged_lines(base, now, now, at + 1) == (sofar + merge_added(
                    lines,
                    lines,
                    contested(now, now, at as int),
                )).push(base[at as int]));
                assert(sofar + lines == b.take(np as int));
                assert(base[at as int] == b[np as int]);
                assert(b.take(np as int).push(b[np as int]) =~= b.take(np as int + 1));
                assert((sofar + lines).push(base[at as int]) + Seq::<Seq<u8>>::empty() =~= b.take(
                    np as int + 1,
                ));
            },
            Op::Delete => {
                let slot = SlotView { added: lines, kept: false };
                lemma_merged_lines_prefix(base, before, before, slot, slot, at);
                let now = before.push(slot);
                assert(now[at as int] == slot);
                assert(merged_lines(base, now, now, at + 1) == sofar + merge_added(
                    lines,
                    lines,
                    contested(now, now, at as int),
                ));
                assert((sofar + lines) + Seq::<Seq<u8>>::empty() =~= b.take(np as int));
            },
        }
    }
}

/// Merging a side with itself gives the lines of that side.
pub proof fn lemma_rebuild(base: Seq<Seq<u8>>, b: Seq<Seq<u8>>)
    ensures
        merged_lines(
            base,
            slots(edits(base, b), b),
            slots(edits(base, b), b),
            base.len() + 1,
        ) == b,
{
    let ops = edits(base, b);
    lemma_edits_valid(base, b);
    lemma_script_end(ops, base, b);
    lemma_rebuild_steps(base, b, ops, ops.len());
    let done = closed(ops, b, ops.len());
    let lines = pending(ops, b, ops.len());
    let last = SlotView { added: lines, kept: false };
    let all = slots(ops, b);
    lemma_merged_lines_prefix(base, done, done, last, last, base.len());
    assert(all[base.len() as int] == last);
    assert(merged_lines(base, all, all, base.len() + 1) == merged_lines(
        base,
        all,
        all,
        base.len(),
    ) + merge_added(lines, lines, contested(all, all, base.len() as int)));
    assert(b.take(b.len() as int) =~= b);
}

/// The slots of the script from a text to itself add nothing and keep
/// every line.
proof fn lemma_slots_same(a: Seq<Seq<u8>>, k: nat)
    requires
        k <= a.len(),
    ensures
        closed(edits(a, a), a, k).len() == k,
        pending(edits(a, a), a, k) == Seq::<Seq<u8>>::empty(),
        forall|i: int|
            0 <= i < k ==> #[trigger] closed(edits(a, a), a, k)[i] == (SlotView {
                added: Seq::empty(),
                kept: true,
            }),
    decreases k,
{
    lemma_script_same(a, a.len());
    if k > 0 {
        lemma_slots_same(a, (k - 1) as nat);
        assert(edits(a, a)[k - 1] == Op::Keep);
    }
}

/// Where one side added nothing anywhere and kept every line that the
/// other kept, the merge is what the other side alone gives.
proof fn lemma_merge_idle(base: Seq<Seq<u8>>, idle: Seq<SlotView>, y: Seq<SlotView>, i: nat)
    requires
        i <= idle.len(),
        i <= y.len(),
        i <= base.len() + 1,
        forall|j: int| 0 <= j < i ==> (#[trigger] idle[j]).added.len() == 0,
        forall|j: int| 0 <= j < i && j < base.len() ==> (#[trigger] idle[j]).kept,
    ensures
        merged_lines(base, idle, y, i) == merged_lines(base, y, y, i),
        merged_lines(base, y, idle, i) == merged_lines(base, y, y, i),
    decreases i,
{
    if i > 0 {
        lemma_merge_idle(base, idle, y, (i - 1) as nat);
        let none = idle[i - 1].added;
        let lines = y[i - 1].added;
        assert(none =~= Seq::<Seq<u8>>::empty());
        if lines.len() == 0 {
            assert(lines =~= none);
        }
        assert(!contested(idle, y, i - 1) && !contested(y, idle, i - 1));
        assert(merge_added(none, lines, false) == lines);
        assert(merge_added(lines, none, false) == lines);
        assert(merge_added(lines, lines, contested(y, y, i - 1)) == lines);
    }
}

/// A change that both sides made alike is taken once: merging a list of
/// lines with itself gives that list, whatever both were made from.
pub proof fn lemma_merged_same(base: Seq<Seq<u8>>, x: Seq<Seq<u8>>)
    ensures
        merged(base, x, x) == x,
{
    lemma_rebuild(base, x);
}

/// A change that only one side made is taken: where the other side is the
/// old text itself, the merge is the changed side.
pub proof fn lemma_merged_one_side(base: Seq<Seq<u8>>, x: Seq<Seq<u8>>)
    ensures
        merged(base, base, x) == x,
        merged(base, x, base) == x,
{
    let idle = slots(edits(base, base), base);
    let busy = slots(edits(base, x), x);
    lemma_script_same(base, base.len());
    lemma_slots_same(base, base.len());
    lemma_edits_valid(base, x);
    lemma_script_end(edits(base, x), base, x);
    lemma_closed_len(edits(base, x), x, edits(base, x).len());
    assert forall|j: int| 0 <= j < base.len() + 1 implies (#[trigger] idle[j]).added.len()
        == 0 by {
        if j < base.len() {
            assert(idle[j] == closed(edits(base, base), base, base.len())[j]);
        }
    }
    assert forall|j: int| 0 <= j < base.len() + 1 && j < base.len() implies (
    #[trigger] idle[j]).kept by {
        assert(idle[j] == closed(edits(base, base), base, base.len())[j]);
    }
    lemma_merge_idle(base, idle, busy, base.len() + 1);
    lemma_rebuild(base, x);
}

/// Merging a text that both sides changed in the same way gives the
/// changed text, without conflict markers.
pub proof fn lemma_merge_same_change(base: Seq<u8>, changed: Seq<u8>)
    ensures
        merged_text(base, changed, changed) == changed,
{
    lemma_merged_same(pieces(base), pieces(changed));
    lemma_pieces_flatten(changed);
}

/// Merging with a side that left the text as it was gives the text of
/// the side that changed it.
pub proof fn lemma_merge_one_change(base: Seq<u8>, changed: Seq<u8>)
    ensures
        merged_text(base, base, changed) == changed,
        merged_text(base, changed, base) == changed,
{
    lemma_merged_one_side(pieces(base), pieces(changed));
    lemma_pieces_flatten(changed);
}

// ---------------------------------------------------------------------
// What holds of an edit script
// ---------------------------------------------------------------------

/// The lines that the first `k` steps leave: the old line where a step
/// keeps one, the new line where a step inserts one.
pub open spec fn result_lines(ops: Seq<Op>, a: Seq<Seq<u8>>, b: Seq<Seq<u8>>, k: nat) -> Seq<
    Seq<u8>,
>
    decreases k,
{
    if k == 0 {
        Seq::empty()
    } else {
        let before = result_lines(ops, a, b, (k - 1) as nat);
        match ops[k - 1] {
            Op::Keep => before.push(a[old_pos(ops, (k - 1) as nat) as int]),
            Op::Delete => before,
            Op::Insert => before.push(b[new_pos(ops, (k - 1) as nat) as int]),
        }
    }
}

/// The lines that a valid script leaves after `k` steps are the new lines
/// up to where it has come.
pub proof fn lemma_result_lines(ops: Seq<Op>, a: Seq<Seq<u8>>, b: Seq<Seq<u8>>, k: nat)
    requires
        valid_script(ops, a, b),
        k <= ops.len(),
    ensures
        new_pos(ops, k) <= b.len(),
        result_lines(ops, a, b, k) == b.take(new_pos(ops, k) as int),
    decreases k,
{
    if k == 0 {
        assert(b.take(0) =~= Seq::<Seq<u8>>::empty());
    } else {
        let j = (k - 1) as nat;
        lemma_result_lines(ops, a, b, j);
        lemma_step(ops, a, b, j);
        let at = new_pos(ops, j) as int;
        if ops[j as int] != Op::Delete {
            assert(b.take(at).push(b[at]) =~= b.take(at + 1));
        }
    }
}

/// The edit script from `a` to `b` turns `a` into `b`: it takes the lines
/// of `a` in order, keeping or deleting each, and what it keeps and
/// inserts is `b`.
pub proof fn lemma_edits_apply(a: Seq<Seq<u8>>, b: Seq<Seq<u8>>)
    ensures
        old_pos(edits(a, b), edits(a, b).len()) == a.len(),
        result_lines(edits(a, b), a, b, edits(a, b).len()) == b,
{
    lemma_edits_valid(a, b);
    lemma_script_end(edits(a, b), a, b);
    lemma_result_lines(edits(a, b), a, b, edits(a, b).len());
    assert(b.take(b.len() as int) =~= b);
}

/// How many of the first `k` steps keep a line.
pub open spec fn kept(ops: Seq<Op>, k: nat) -> nat
    decreases k,
{
    if k == 0 {
        0
    } else if ops[k - 1] == Op::Keep {
        kept(ops, (k - 1) as nat) + 1
    } else {
        kept(ops, (k - 1) as nat)
    }
}

/// The number of lines kept does not depend on later steps.
pub proof fn lemma_kept_prefix(ops: Seq<Op>, last: Op, k: nat)
    requires
        k <= ops.len(),
    ensures
        kept(ops.push(last), k) == kept(ops, k),
    decreases k,
{
    if k > 0 {
        lemma_kept_prefix(ops, last, (k - 1) as nat);
    }
}

/// The script keeps as many lines as [`lcs`] counts.
pub proof fn lemma_script_keeps(a: Seq<Seq<u8>>, b: Seq<Seq<u8>>, i: nat, j: nat)
    ensures
        kept(script(a, b, i, j), script(a, b, i, j).len()) == lcs(a, b, i, j),
    decreases i + j,
{
    let ops = script(a, b, i, j);
    if i == 0 && j == 0 {
    } else {
        let (pi, pj): (nat, nat) = if i == 0 {
            (i, (j - 1) as nat)
        } else if j == 0 {
            ((i - 1) as nat, j)
        } else if a[i - 1] == b[j - 1] {
            ((i - 1) as nat, (j - 1) as nat)
        } else if lcs(a, b, (i - 1) as nat, j) > lcs(a, b, i, (j - 1) as nat) {
            ((i - 1) as nat, j)
        } else {
            (i, (j - 1) as nat)
        };
        let prev = script(a, b, pi, pj);
        lemma_script_keeps(a, b, pi, pj);
        assert(ops == prev.push(ops.last()));
        lemma_kept_prefix(prev, ops.last(), prev.len());
    }
}

/// Whether the positions `p` in the first `i` lines of `a` and `q` in the
/// first `j` lines of `b` pick out a common part: as many positions in
/// each, rising, with the same line at each pair of them.
pub open spec fn common_part(
    a: Seq<Seq<u8>>,
    b: Seq<Seq<u8>>,
    i: nat,
    j: nat,
    p: Seq<int>,
    q: Seq<int>,
) -> bool {
    &&& p.len() == q.len()
    &&& forall|k: int|
        0 <= k < p.len() ==> 0 <= #[trigger] p[k] < i && 0 <= q[k] < j && a[p[k]] == b[q[k]]
    &&& forall|k: int| 0 <= k < p.len() - 1 ==> #[trigger] p[k] < p[k + 1]
    &&& forall|k: int| 0 <= k < q.len() - 1 ==> #[trigger] q[k] < q[k + 1]
}

/// No common part of the beginnings of two texts is longer than [`lcs`]
/// counts.
pub proof fn lemma_lcs_longest(
    a: Seq<Seq<u8>>,
    b: Seq<Seq<u8>>,
    i: nat,
    j: nat,
    p: Seq<int>,
    q: Seq<int>,
)
    requires
        common_part(a, b, i, j, p, q),
    ensures
        p.len() <= lcs(a, b, i, j),
    decreases i + j,
{
    let n = p.len();
    if n == 0 {
    } else if i == 0 || j == 0 {
        assert(0 <= p[0] < i && 0 <= q[0] < j);
    } else {
        let last_p = p[n - 1];
        let last_q = q[n - 1];
        assert(0 <= last_p < i && 0 <= last_q < j);
        if a[i - 1] == b[j - 1] {
            let head_p = p.drop_last();
            let head_q = q.drop_last();
            assert forall|k: int| 0 <= k < head_p.len() implies 0 <= #[trigger] head_p[k] < i - 1 && 0
                <= head_q[k] < j - 1 && a[head_p[k]] == b[head_q[k]] by {
                assert(head_p[k] == p[k] && head_q[k] == q[k]);
                lemma_rising(p, k, n - 1);
                lemma_rising(q, k, n - 1);
            }
            assert forall|k: int| 0 <= k < head_p.len() - 1 implies #[trigger] head_p[k] < head_p[k + 1] by {
                assert(head_p[k] == p[k] && head_p[k + 1] == p[k + 1]);
            }
            assert forall|k: int| 0 <= k < head_q.len() - 1 implies #[trigger] head_q[k] < head_q[k + 1] by {
                assert(head_q[k] == q[k] && head_q[k + 1] == q[k + 1]);
            }
            lemma_lcs_longest(a, b, (i - 1) as nat, (j - 1) as nat, head_p, head_q);
        } else if last_p < i - 1 {
            assert forall|k: int| 0 <= k < p.len() implies 0 <= #[trigger] p[k] < i - 1 && 0
                <= q[k] < j && a[p[k]] == b[q[k]] by {
                if k < n - 1 {
                    lemma_rising(p, k, n - 1);
                }
            }
            lemma_lcs_longest(a, b, (i - 1) as nat, j, p, q);
        } else {
            assert(last_q < j - 1);
            assert forall|k: int| 0 <= k < p.len() implies 0 <= #[trigger] p[k] < i && 0 <= q[k]
                < j - 1 && a[p[k]] == b[q[k]] by {
                if k < n - 1 {
                    lemma_rising(q, k, n - 1);
                }
            }
            lemma_lcs_longest(a, b, i, (j - 1) as nat, p, q);
        }
    }
}

/// In a rising list of positions an earlier one is smaller.
pub proof fn lemma_rising(p: Seq<int>, k: int, m: int)
    requires
        0 <= k < m < p.len(),
        forall|x: int| 0 <= x < p.len() - 1 ==> #[trigger] p[x] < p[x + 1],
    ensures
        p[k] < p[m],
    decreases m - k,
{
    if k + 1 < m {
        lemma_rising(p, k + 1, m);
    }
}

/// The edit script keeps as much as can be kept: as many lines as the
/// longest common part of the two texts has.
pub proof fn lemma_edits_keep_most(a: Seq<Seq<u8>>, b: Seq<Seq<u8>>, p: Seq<int>, q: Seq<int>)
    requires
        common_part(a, b, a.len(), b.len(), p, q),
    ensures
        p.len() <= kept(edits(a, b), edits(a, b).len()),
{
    lemma_script_keeps(a, b, a.len(), b.len());
    lemma_lcs_longest(a, b, a.len(), b.len(), p, q);
}

} // verus!
