//! Byte strings: object identifiers, names, paths and file contents are all
//! sequences of bytes, and these are the operations on them that the rest of
//! the library shares.

use vstd::prelude::*;
use vstd::slice::slice_to_vec;
use vstd::string::*;

verus! {

// ---------------------------------------------------------------------
// Views
// ---------------------------------------------------------------------

/// The bytes of a sequence of ASCII characters.
pub open spec fn ascii(s: Seq<char>) -> Seq<u8> {
    Seq::new(s.len(), |i: int| s[i] as u8)
}

/// The byte strings that a list of vectors holds.
pub open spec fn views(v: Seq<Vec<u8>>) -> Seq<Seq<u8>> {
    Seq::new(v.len(), |i: int| v[i]@)
}

/// The pairs of byte strings that a list of pairs of vectors holds.
pub open spec fn pair_views(v: Seq<(Vec<u8>, Vec<u8>)>) -> Seq<(Seq<u8>, Seq<u8>)> {
    Seq::new(v.len(), |i: int| (v[i].0@, v[i].1@))
}

/// The view of an optional byte string.
pub open spec fn opt_view(o: Option<Vec<u8>>) -> Option<Seq<u8>> {
    match o {
        Some(v) => Some(v@),
        None => None,
    }
}

/// The view of each optional byte string of a list.
pub open spec fn opt_views(row: Seq<Option<Vec<u8>>>) -> Seq<Option<Seq<u8>>> {
    Seq::new(row.len(), |i: int| opt_view(row[i]))
}

// ---------------------------------------------------------------------
// Copying and comparing
// ---------------------------------------------------------------------

/// The bytes of an ASCII string literal.
pub(crate) fn lit(s: &str) -> (r: Vec<u8>)
    requires
        is_ascii(s),
    ensures
        r@ == ascii(s@),
{
    broadcast use is_ascii_spec_bytes;

    s.as_bytes_vec()
}

/// A copy of `s`.
pub fn copy(s: &[u8]) -> (r: Vec<u8>)
    ensures
        r@ == s@,
{
    slice_to_vec(s)
}

/// The bytes of `s` from position `from` up to `to`.
pub fn slice(s: &[u8], from: usize, to: usize) -> (r: Vec<u8>)
    requires
        from <= to <= s.len(),
    ensures
        r@ == s@.subrange(from as int, to as int),
{
    let mut r: Vec<u8> = Vec::new();
    let mut i: usize = from;
    while i < to
        invariant
            from <= i <= to <= s.len(),
            r@ == s@.subrange(from as int, i as int),
        decreases to - i,
    {
        r.push(s[i]);
        assert(r@ =~= s@.subrange(from as int, i + 1));
        i += 1;
    }
    r
}

/// `a` followed by `b`.
pub fn join_bytes(a: &[u8], b: &[u8]) -> (r: Vec<u8>)
    ensures
        r@ == a@ + b@,
{
    let mut r = slice_to_vec(a);
    r.extend_from_slice(b);
    r
}

/// Whether `a` and `b` hold the same bytes.
pub fn bytes_eq(a: &[u8], b: &[u8]) -> (r: bool)
    ensures
        r == (a@ == b@),
{
    if a.len() != b.len() {
        return false;
    }
    let mut i: usize = 0;
    while i < a.len()
        invariant
            i <= a.len(),
            a.len() == b.len(),
            forall|j: int| 0 <= j < i ==> a@[j] == b@[j],
        decreases a.len() - i,
    {
        if a[i] != b[i] {
            return false;
        }
        i += 1;
    }
    assert(a@ =~= b@);
    true
}

/// Whether two optional byte strings are both absent or hold the same
/// bytes.
pub fn opt_eq(a: &Option<Vec<u8>>, b: &Option<Vec<u8>>) -> (r: bool)
    ensures
        r == (opt_view(*a) == opt_view(*b)),
{
    match (a, b) {
        (None, None) => true,
        (Some(x), Some(y)) => bytes_eq(x.as_slice(), y.as_slice()),
        _ => false,
    }
}

/// Whether `s` begins with `prefix`.
pub fn starts_with(s: &[u8], prefix: &[u8]) -> (r: bool)
    ensures
        r == prefix@.is_prefix_of(s@),
{
    if prefix.len() > s.len() {
        return false;
    }
    let mut i: usize = 0;
    while i < prefix.len()
        invariant
            i <= prefix.len() <= s.len(),
            forall|j: int| 0 <= j < i ==> s@[j] == prefix@[j],
        decreases prefix.len() - i,
    {
        if s[i] != prefix[i] {
            assert(prefix@[i as int] != s@.subrange(0, prefix@.len() as int)[i as int]);
            return false;
        }
        i += 1;
    }
    assert(prefix@ =~= s@.subrange(0, prefix@.len() as int));
    true
}

// ---------------------------------------------------------------------
// Searching
// ---------------------------------------------------------------------

/// The position of the first byte of `s` at or after `from` that equals
/// `b`, or the length of `s` where there is none.
pub open spec fn find_from(s: Seq<u8>, b: u8, from: int) -> int
    decreases s.len() - from,
{
    if from < 0 || from >= s.len() {
        s.len() as int
    } else if s[from] == b {
        from
    } else {
        find_from(s, b, from + 1)
    }
}

/// What [`find_from`] returns lies between `from` and the end, no byte
/// before it equals `b`, and the byte at it does unless it is the end.
pub proof fn lemma_find_from(s: Seq<u8>, b: u8, from: int)
    requires
        0 <= from <= s.len(),
    ensures
        from <= find_from(s, b, from) <= s.len(),
        forall|j: int| from <= j < find_from(s, b, from) ==> s[j] != b,
        find_from(s, b, from) < s.len() ==> s[find_from(s, b, from)] == b,
    decreases s.len() - from,
{
    if from < s.len() && s[from] != b {
        lemma_find_from(s, b, from + 1);
    }
}

/// A position `r` at or after `from` before which no `b` stands and at
/// which one stands, unless it is the end, is what [`find_from`] returns.
pub proof fn lemma_find_from_is(s: Seq<u8>, b: u8, from: int, r: int)
    requires
        0 <= from <= r <= s.len(),
        forall|j: int| from <= j < r ==> s[j] != b,
        r < s.len() ==> s[r] == b,
    ensures
        find_from(s, b, from) == r,
    decreases r - from,
{
    if from < r {
        lemma_find_from_is(s, b, from + 1, r);
    }
}

/// Searching in what follows position `k` finds the same byte as searching
/// the whole from `k` on.
pub proof fn lemma_find_from_skip(s: Seq<u8>, b: u8, k: int)
    requires
        0 <= k <= s.len(),
    ensures
        find_from(s.skip(k), b, 0) == find_from(s, b, k) - k,
{
    lemma_find_from(s, b, k);
    lemma_find_from_is(s.skip(k), b, 0, find_from(s, b, k) - k);
}

/// The position of the first `b` in `s` at or after `from`.
pub fn find(s: &[u8], b: u8, from: usize) -> (r: usize)
    requires
        from <= s.len(),
    ensures
        r == find_from(s@, b, from as int),
        from <= r <= s.len(),
{
    let mut i: usize = from;
    while i < s.len() && s[i] != b
        invariant
            from <= i <= s.len(),
            find_from(s@, b, from as int) == find_from(s@, b, i as int),
        decreases s.len() - i,
    {
        i += 1;
    }
    i
}

// ---------------------------------------------------------------------
// Splitting
// ---------------------------------------------------------------------

/// The line feed.
pub open spec fn newline() -> u8 {
    0x0a
}

/// The byte that separates the components of a path.
pub open spec fn slash() -> u8 {
    0x2f
}

/// The pieces of `s` between occurrences of `sep`. There is always one
/// piece more than there are separators, so the last piece is empty where
/// `s` ends in a separator, and an empty `s` is one empty piece.
pub open spec fn split(s: Seq<u8>, sep: u8) -> Seq<Seq<u8>>
    decreases s.len(),
{
    let end = find_from(s, sep, 0);
    if 0 <= end < s.len() {
        seq![s.take(end)] + split(s.skip(end + 1), sep)
    } else {
        seq![s]
    }
}

/// A text has at least one piece.
pub proof fn lemma_split_len(s: Seq<u8>, sep: u8)
    ensures
        split(s, sep).len() >= 1,
    decreases s.len(),
{
    let end = find_from(s, sep, 0);
    if 0 <= end < s.len() {
        lemma_split_len(s.skip(end + 1), sep);
    }
}

/// A text that does not hold `sep` is one piece.
pub proof fn lemma_split_one(s: Seq<u8>, sep: u8)
    requires
        !s.contains(sep),
    ensures
        split(s, sep) == seq![s],
{
    assert forall|j: int| 0 <= j < s.len() implies s[j] != sep by {
        assert(s.contains(s[j]));
    }
    lemma_find_from_is(s, sep, 0, s.len() as int);
}

/// A separator at the end of a text adds an empty piece.
pub proof fn lemma_split_end(x: Seq<u8>, sep: u8)
    ensures
        split(x + seq![sep], sep) == split(x, sep).push(Seq::empty()),
    decreases x.len(),
{
    let whole = x + seq![sep];
    let end = find_from(x, sep, 0);
    lemma_find_from(x, sep, 0);
    if 0 <= end < x.len() {
        let rest = x.skip(end + 1);
        lemma_split_end(rest, sep);
        lemma_find_from_is(whole, sep, 0, end);
        assert(whole.take(end) =~= x.take(end));
        assert(whole.skip(end + 1) =~= rest + seq![sep]);
        assert(seq![x.take(end)] + split(rest, sep).push(Seq::empty()) =~= (seq![x.take(end)]
            + split(rest, sep)).push(Seq::empty()));
    } else {
        assert forall|j: int| 0 <= j < x.len() implies whole[j] != sep by {
            assert(whole[j] == x[j]);
        }
        assert(whole[x.len() as int] == sep);
        lemma_find_from_is(whole, sep, 0, x.len() as int);
        assert(whole.take(x.len() as int) =~= x);
        assert(whole.skip(x.len() as int + 1) =~= Seq::<u8>::empty());
        assert(split(Seq::<u8>::empty(), sep) =~= seq![Seq::<u8>::empty()]);
        assert(split(whole, sep) =~= seq![x, Seq::<u8>::empty()]);
        assert(split(x, sep) == seq![x]);
        assert(seq![x].push(Seq::<u8>::empty()) =~= seq![x, Seq::<u8>::empty()]);
    }
}

/// The pieces of a text, a separator and a last piece that holds no
/// separator are the pieces of the text and then the last piece.
pub proof fn lemma_split_last(x: Seq<u8>, last: Seq<u8>, sep: u8)
    requires
        !last.contains(sep),
    ensures
        split(x + seq![sep] + last, sep) == split(x, sep).push(last),
{
    lemma_split_end(x, sep);
    lemma_split_one(last, sep);
    lemma_split_concat(x + seq![sep], last, sep, split(x, sep));
    assert(split(x, sep) + seq![last] =~= split(x, sep).push(last));
}

/// Where a text ends in a separator, so that its last piece is empty, the
/// pieces of the text with more behind it are its pieces but the last,
/// and then the pieces of what is behind.
pub proof fn lemma_split_concat(x: Seq<u8>, y: Seq<u8>, sep: u8, pieces: Seq<Seq<u8>>)
    requires
        split(x, sep) == pieces.push(Seq::empty()),
    ensures
        split(x + y, sep) == pieces + split(y, sep),
    decreases x.len(),
{
    let end = find_from(x, sep, 0);
    lemma_find_from(x, sep, 0);
    if 0 <= end < x.len() {
        let rest = x.skip(end + 1);
        assert(split(x, sep) == seq![x.take(end)] + split(rest, sep));
        assert(pieces.len() >= 1) by {
            if pieces.len() == 0 {
                assert(pieces.push(Seq::<u8>::empty()).len() == 1);
                assert((seq![x.take(end)] + split(rest, sep)).len() >= 2) by {
                    lemma_split_len(rest, sep);
                }
            }
        }
        let tail = pieces.skip(1);
        assert(split(rest, sep) =~= tail.push(Seq::empty())) by {
            let whole = seq![x.take(end)] + split(rest, sep);
            assert(whole =~= pieces.push(Seq::empty()));
            assert forall|i: int| 0 <= i < split(rest, sep).len() implies split(rest, sep)[i]
                == tail.push(Seq::empty())[i] by {
                assert(whole[i + 1] == split(rest, sep)[i]);
            }
            assert(split(rest, sep).len() == whole.len() - 1);
        }
        lemma_split_concat(rest, y, sep, tail);
        lemma_find_from_is(x + y, sep, 0, end);
        assert((x + y).take(end) =~= x.take(end));
        assert((x + y).skip(end + 1) =~= rest + y);
        assert(pieces[0] == x.take(end)) by {
            let whole = seq![x.take(end)] + split(rest, sep);
            assert(whole[0] == x.take(end));
            assert(pieces.push(Seq::<u8>::empty())[0] == pieces[0]);
        }
        assert(seq![x.take(end)] + (tail + split(y, sep)) =~= pieces + split(y, sep));
    } else {
        assert(split(x, sep) == seq![x]);
        assert(pieces.push(Seq::<u8>::empty()).len() == pieces.len() + 1);
        assert(pieces.len() == 0);
        assert(pieces.push(Seq::<u8>::empty())[0] == Seq::<u8>::empty());
        assert(seq![x][0] == x);
        assert(x =~= Seq::<u8>::empty());
        assert(x + y =~= y);
        assert(pieces + split(y, sep) =~= split(y, sep));
    }
}

/// The lines of `s`: its pieces between line feeds, without the empty piece
/// after a final line feed.
pub open spec fn lines(s: Seq<u8>) -> Seq<Seq<u8>> {
    let pieces = split(s, newline());
    if pieces.last().len() == 0 {
        pieces.drop_last()
    } else {
        pieces
    }
}

/// Splits `s` at each `sep`.
pub fn split_at(s: &[u8], sep: u8) -> (r: Vec<Vec<u8>>)
    ensures
        views(r@) == split(s@, sep),
        r@.len() >= 1,
{
    let mut r: Vec<Vec<u8>> = Vec::new();
    let mut start: usize = 0;
    assert(s@.skip(0) =~= s@);
    assert(views(r@) + split(s@, sep) =~= split(s@, sep));
    loop
        invariant
            start <= s.len(),
            split(s@, sep) == views(r@) + split(s@.skip(start as int), sep),
        decreases s.len() - start,
    {
        let end = find(s, sep, start);
        proof {
            lemma_find_from_skip(s@, sep, start as int);
        }
        let ghost rest = s@.skip(start as int);
        let ghost before = views(r@);
        if end >= s.len() {
            r.push(slice(s, start, s.len()));
            assert(s@.subrange(start as int, s@.len() as int) =~= rest);
            assert(views(r@) =~= before + seq![rest]);
            return r;
        }
        r.push(slice(s, start, end));
        assert(s@.subrange(start as int, end as int) =~= rest.take(end - start));
        assert(s@.skip(end + 1) =~= rest.skip(end - start + 1));
        assert(views(r@) =~= before + seq![rest.take(end - start)]);
        assert(split(s@, sep) =~= views(r@) + split(s@.skip(end + 1), sep));
        start = end + 1;
    }
}

/// Splits `s` into lines.
pub fn split_lines(s: &[u8]) -> (r: Vec<Vec<u8>>)
    ensures
        views(r@) == lines(s@),
{
    let mut r = split_at(s, 0x0a);
    let ghost pieces = views(r@);
    let n = r.len();
    if r[n - 1].len() == 0 {
        r.pop();
        assert(views(r@) =~= pieces.drop_last());
    }
    r
}

// ---------------------------------------------------------------------
// Words
// ---------------------------------------------------------------------

/// Whether `b` is ASCII white space: a blank, a tab, a line feed, a vertical
/// tab, a form feed or a carriage return.
pub open spec fn is_space(b: u8) -> bool {
    b == 0x20 || (0x09 <= b <= 0x0d)
}

/// Whether `b` is white space.
pub fn is_space_byte(b: u8) -> (r: bool)
    ensures
        r == is_space(b),
{
    b == 0x20 || (0x09 <= b && b <= 0x0d)
}

/// The number of bytes at the start of `s` that are not white space.
pub open spec fn word_len(s: Seq<u8>) -> nat
    decreases s.len(),
{
    if s.len() == 0 || is_space(s[0]) {
        0
    } else {
        1 + word_len(s.drop_first())
    }
}

/// A length `n` before which no white space stands and at which the text
/// ends or white space stands is the length of the first word.
pub proof fn lemma_word_len_is(s: Seq<u8>, n: nat)
    requires
        n <= s.len(),
        forall|j: int| 0 <= j < n ==> !is_space(#[trigger] s[j]),
        n < s.len() ==> is_space(s[n as int]),
    ensures
        word_len(s) == n,
    decreases n,
{
    if n > 0 {
        assert(!is_space(s[0]));
        assert forall|j: int| 0 <= j < n - 1 implies !is_space(#[trigger] s.drop_first()[j]) by {
            assert(s.drop_first()[j] == s[j + 1]);
        }
        lemma_word_len_is(s.drop_first(), (n - 1) as nat);
    }
}

/// Whether `s` is a word: not empty and without white space.
pub open spec fn is_word(s: Seq<u8>) -> bool {
    s.len() > 0 && forall|i: int| 0 <= i < s.len() ==> !is_space(#[trigger] s[i])
}

/// The words of `s`: its longest pieces without white space.
pub open spec fn tokens(s: Seq<u8>) -> Seq<Seq<u8>>
    decreases s.len(),
{
    if s.len() == 0 {
        Seq::empty()
    } else if is_space(s[0]) {
        tokens(s.drop_first())
    } else {
        let n = word_len(s);
        if 1 <= n <= s.len() {
            seq![s.take(n as int)] + tokens(s.skip(n as int))
        } else {
            Seq::empty()
        }
    }
}

/// A word alone is its only word.
pub proof fn lemma_tokens_word(w: Seq<u8>)
    requires
        is_word(w),
    ensures
        tokens(w) == seq![w],
{
    lemma_word_len_is(w, w.len());
    assert(w.take(w.len() as int) =~= w);
    assert(w.skip(w.len() as int) =~= Seq::<u8>::empty());
    assert(tokens(w.skip(w.len() as int)) =~= Seq::<Seq<u8>>::empty());
    assert(seq![w] + Seq::<Seq<u8>>::empty() =~= seq![w]);
}

/// The words of a word, a blank and more text are the word and then the
/// words of the text.
pub proof fn lemma_tokens_word_then(w: Seq<u8>, rest: Seq<u8>)
    requires
        is_word(w),
    ensures
        tokens(w + seq![0x20u8] + rest) == seq![w] + tokens(rest),
{
    let s = w + seq![0x20u8] + rest;
    assert forall|j: int| 0 <= j < w.len() implies !is_space(#[trigger] s[j]) by {
        assert(s[j] == w[j]);
    }
    assert(s[w.len() as int] == 0x20u8);
    lemma_word_len_is(s, w.len());
    assert(s.take(w.len() as int) =~= w);
    let behind = s.skip(w.len() as int);
    assert(behind =~= seq![0x20u8] + rest);
    assert(behind[0] == 0x20u8);
    assert(behind.drop_first() =~= rest);
    assert(tokens(behind) == tokens(rest));
}

/// Splits `s` into words.
pub fn split_words(s: &[u8]) -> (r: Vec<Vec<u8>>)
    ensures
        views(r@) == tokens(s@),
{
    let mut r: Vec<Vec<u8>> = Vec::new();
    let mut i: usize = 0;
    assert(s@.skip(0) =~= s@);
    while i < s.len()
        invariant
            i <= s.len(),
            tokens(s@) == views(r@) + tokens(s@.skip(i as int)),
        decreases s.len() - i,
    {
        let ghost rest = s@.skip(i as int);
        if is_space_byte(s[i]) {
            assert(rest.drop_first() =~= s@.skip(i + 1));
            i += 1;
        } else {
            let start = i;
            while i < s.len() && !is_space_byte(s[i])
                invariant
                    start <= i <= s.len(),
                    forall|j: int| start <= j < i ==> !is_space(#[trigger] s@[j]),
                decreases s.len() - i,
            {
                i += 1;
            }
            proof {
                lemma_word_len_is(rest, (i - start) as nat);
            }
            let ghost before = views(r@);
            r.push(slice(s, start, i));
            assert(s@.subrange(start as int, i as int) =~= rest.take(i - start));
            assert(s@.skip(i as int) =~= rest.skip(i - start));
            assert(views(r@) =~= before + seq![rest.take(i - start)]);
        }
    }
    assert(s@.skip(i as int) =~= Seq::<u8>::empty());
    r
}

// ---------------------------------------------------------------------
// Paths
// ---------------------------------------------------------------------

/// `base` and `name` as one path: `name` alone where `base` is empty, else
/// the two with a slash between them.
pub open spec fn join(base: Seq<u8>, name: Seq<u8>) -> Seq<u8> {
    if base.len() == 0 {
        name
    } else {
        base + seq![slash()] + name
    }
}

/// Joins `base` and `name` into one path.
pub fn join_path(base: &[u8], name: &[u8]) -> (r: Vec<u8>)
    ensures
        r@ == join(base@, name@),
{
    if base.len() == 0 {
        copy(name)
    } else {
        let mut r = copy(base);
        r.push(0x2f);
        r.extend_from_slice(name);
        assert(r@ =~= base@ + seq![slash()] + name@);
        r
    }
}

// ---------------------------------------------------------------------
// Lists
// ---------------------------------------------------------------------

/// Whether `x` is one of the byte strings in `list`.
pub fn list_contains(list: &Vec<Vec<u8>>, x: &[u8]) -> (r: bool)
    ensures
        r == views(list@).contains(x@),
{
    let mut i: usize = 0;
    while i < list.len()
        invariant
            i <= list.len(),
            forall|j: int| 0 <= j < i ==> views(list@)[j] != x@,
        decreases list.len() - i,
    {
        if bytes_eq(list[i].as_slice(), x) {
            assert(views(list@)[i as int] == x@);
            return true;
        }
        i += 1;
    }
    false
}

/// `list` with `x` at its end, unless it holds `x` already.
pub open spec fn add_unique(list: Seq<Seq<u8>>, x: Seq<u8>) -> Seq<Seq<u8>> {
    if list.contains(x) {
        list
    } else {
        list.push(x)
    }
}

/// What a list holds after one more was put at its end.
pub proof fn lemma_push_contains<A>(s: Seq<A>, last: A, x: A)
    ensures
        s.push(last).contains(x) <==> (s.contains(x) || x == last),
{
    if s.contains(x) {
        let i = s.index_of(x);
        assert(s.push(last)[i] == x);
    }
    if x == last {
        assert(s.push(last)[s.len() as int] == x);
    }
}

/// What two lists hold when put together.
pub proof fn lemma_concat_contains<A>(s: Seq<A>, t: Seq<A>, x: A)
    ensures
        (s + t).contains(x) <==> (s.contains(x) || t.contains(x)),
{
    if s.contains(x) {
        let i = s.index_of(x);
        assert((s + t)[i] == x);
    }
    if t.contains(x) {
        let i = t.index_of(x);
        assert((s + t)[s.len() + i] == x);
    }
    if (s + t).contains(x) {
        let i = (s + t).index_of(x);
        if i < s.len() {
            assert(s[i] == x);
        } else {
            assert(t[i - s.len()] == x);
        }
    }
}

} // verus!
