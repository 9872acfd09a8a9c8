//! A finite map from byte strings to byte strings that remembers the order
//! in which its keys arrived.

use crate::bytes::{bytes_eq, copy};
use vstd::prelude::*;

verus! {

/// A map from byte strings to byte strings, held as a list of entries with
/// distinct keys.
pub struct ByteMap {
    entries: Vec<(Vec<u8>, Vec<u8>)>,
}

impl View for ByteMap {
    type V = Map<Seq<u8>, Seq<u8>>;

    /// The map itself: each key with its value.
    closed spec fn view(&self) -> Map<Seq<u8>, Seq<u8>> {
        Map::new(
            |k: Seq<u8>| self.keys().contains(k),
            |k: Seq<u8>| self.entries@[self.keys().index_of(k)].1@,
        )
    }
}

impl ByteMap {
    /// The keys, in the order in which they were first inserted.
    pub closed spec fn keys(&self) -> Seq<Seq<u8>> {
        Seq::new(self.entries@.len(), |i: int| self.entries@[i].0@)
    }

    /// No key occurs twice.
    pub closed spec fn wf(&self) -> bool {
        self.keys().no_duplicates()
    }

    /// In a well-formed map the keys are distinct and are exactly the
    /// domain of the view, which is therefore finite and as large as the
    /// list of keys is long.
    pub proof fn lemma_wf(&self)
        requires
            self.wf(),
        ensures
            self.keys().no_duplicates(),
            forall|k: Seq<u8>| self@.contains_key(k) <==> self.keys().contains(k),
            self@.dom() == self.keys().to_set(),
            self@.dom().finite(),
            self@.dom().len() == self.keys().len(),
    {
        broadcast use vstd::seq_lib::group_seq_properties;

        assert(self@.dom() =~= self.keys().to_set());
        self.keys().unique_seq_to_set();
    }

    /// An empty map.
    pub fn new() -> (m: ByteMap)
        ensures
            m.wf(),
            m@ == Map::<Seq<u8>, Seq<u8>>::empty(),
            m.keys() == Seq::<Seq<u8>>::empty(),
    {
        let m = ByteMap { entries: Vec::new() };
        assert(m.keys() =~= Seq::<Seq<u8>>::empty());
        assert(m@ =~= Map::<Seq<u8>, Seq<u8>>::empty());
        m
    }

    /// The number of entries.
    pub fn len(&self) -> (n: usize)
        ensures
            n == self.keys().len(),
    {
        self.entries.len()
    }

    /// Where the entry for `k` stands, if there is one.
    fn position(&self, k: &[u8]) -> (r: Option<usize>)
        ensures
            match r {
                Some(i) => i < self.keys().len() && self.keys()[i as int] == k@,
                None => !self.keys().contains(k@),
            },
    {
        let mut i: usize = 0;
        while i < self.entries.len()
            invariant
                i <= self.entries.len(),
                forall|j: int| 0 <= j < i ==> self.keys()[j] != k@,
            decreases self.entries.len() - i,
        {
            if bytes_eq(self.entries[i].0.as_slice(), k) {
                return Some(i);
            }
            i += 1;
        }
        None
    }

    /// Whether `k` has an entry.
    pub fn contains_key(&self, k: &[u8]) -> (r: bool)
        ensures
            r == self@.contains_key(k@),
    {
        self.position(k).is_some()
    }

    /// The value for `k`, if it has one.
    pub fn get(&self, k: &[u8]) -> (r: Option<Vec<u8>>)
        requires
            self.wf(),
        ensures
            match r {
                Some(v) => self@.contains_key(k@) && v@ == self@[k@],
                None => !self@.contains_key(k@),
            },
    {
        match self.position(k) {
            Some(i) => {
                assert(self.keys().index_of(k@) == i);
                Some(copy(self.entries[i].1.as_slice()))
            },
            None => None,
        }
    }

    /// The key at position `i` of [`ByteMap::keys`].
    pub fn key(&self, i: usize) -> (r: &Vec<u8>)
        requires
            i < self.keys().len(),
        ensures
            r@ == self.keys()[i as int],
    {
        &self.entries[i].0
    }

    /// The value that belongs to the key at position `i`.
    pub fn value(&self, i: usize) -> (r: &Vec<u8>)
        requires
            self.wf(),
            i < self.keys().len(),
        ensures
            r@ == self@[self.keys()[i as int]],
    {
        assert(self.keys().index_of(self.keys()[i as int]) == i);
        &self.entries[i].1
    }

    /// Sets the value for `k`. A new key goes to the end of the list of
    /// keys; a key that is there keeps its place.
    pub fn insert(&mut self, k: Vec<u8>, v: Vec<u8>)
        requires
            old(self).wf(),
        ensures
            final(self).wf(),
            final(self)@ == old(self)@.insert(k@, v@),
            final(self).keys() == if old(self)@.contains_key(k@) {
                old(self).keys()
            } else {
                old(self).keys().push(k@)
            },
    {
        let ghost before = *self;
        match self.position(k.as_slice()) {
            Some(i) => {
                self.entries.set(i, (k, v));
                assert(self.keys() =~= before.keys());
                assert forall|x: Seq<u8>| self@.contains_key(x) implies #[trigger] self@[x]
                    == before@.insert(k@, v@)[x] by {
                    let j = self.keys().index_of(x);
                    assert(before.keys().index_of(x) == j);
                }
                assert(self@ =~= before@.insert(k@, v@));
            },
            None => {
                self.entries.push((k, v));
                assert(self.keys() =~= before.keys().push(k@));
                assert forall|x: Seq<u8>| self@.contains_key(x) implies #[trigger] self@[x]
                    == before@.insert(k@, v@)[x] by {
                    let j = self.keys().index_of(x);
                    if x != k@ {
                        assert(before.keys()[j] == x);
                        assert(before.keys().index_of(x) == j);
                    }
                }
                assert forall|x: Seq<u8>| self@.contains_key(x) <==> before@.insert(
                    k@,
                    v@,
                ).contains_key(x) by {
                    if before.keys().contains(x) {
                        let j = before.keys().index_of(x);
                        assert(self.keys()[j] == x);
                    }
                    if x == k@ {
                        assert(self.keys()[before.keys().len() as int] == x);
                    }
                }
                assert(self@ =~= before@.insert(k@, v@));
            },
        }
    }

    /// Removes the entry for `k`, if there is one. The other keys keep their
    /// order.
    pub fn remove(&mut self, k: &[u8])
        requires
            old(self).wf(),
        ensures
            final(self).wf(),
            final(self)@ == old(self)@.remove(k@),
            final(self).keys() == if old(self)@.contains_key(k@) {
                old(self).keys().remove(old(self).keys().index_of(k@))
            } else {
                old(self).keys()
            },
    {
        let ghost before = *self;
        match self.position(k) {
            Some(i) => {
                assert(before.keys().index_of(k@) == i);
                self.entries.remove(i);
                assert(self.keys() =~= before.keys().remove(i as int));
                assert forall|x: Seq<u8>| self.keys().contains(x) <==> (before.keys().contains(x)
                    && x != k@) by {
                    if self.keys().contains(x) {
                        let j = self.keys().index_of(x);
                        if j < i {
                            assert(before.keys()[j] == x);
                        } else {
                            assert(before.keys()[j + 1] == x);
                        }
                    }
                    if before.keys().contains(x) && x != k@ {
                        let j = before.keys().index_of(x);
                        if j < i {
                            assert(self.keys()[j] == x);
                        } else {
                            assert(self.keys()[j - 1] == x);
                        }
                    }
                }
                assert forall|x: Seq<u8>| self@.contains_key(x) implies #[trigger] self@[x]
                    == before@.remove(k@)[x] by {
                    let j = self.keys().index_of(x);
                    if j < i {
                        assert(before.keys()[j] == x);
                        assert(before.keys().index_of(x) == j);
                    } else {
                        assert(before.keys()[j + 1] == x);
                        assert(before.keys().index_of(x) == j + 1);
                    }
                }
                assert(self@ =~= before@.remove(k@));
            },
            None => {
                assert(self@ =~= before@.remove(k@));
            },
        }
    }
}

} // verus!
