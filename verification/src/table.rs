//! Tables keyed by byte strings.

use vstd::prelude::*;

use crate::bytes::same;

verus! {

/// What can be the key of a table: something that stands for a byte string.
pub trait Key {
    /// The byte string that the key stands for.
    spec fn key(&self) -> Seq<u8>;

    /// The byte string that the key stands for.
    fn key_bytes(&self) -> (r: &[u8])
        ensures
            r@ == self.key(),
    ;
}

impl Key for Vec<u8> {
    open spec fn key(&self) -> Seq<u8> {
        self@
    }

    fn key_bytes(&self) -> (r: &[u8]) {
        self.as_slice()
    }
}

/// A table with one value for each of its keys.
pub struct Table<K, V> {
    entries: Vec<(K, V)>,
}

impl<K: Key, V> View for Table<K, V> {
    type V = Map<Seq<u8>, V>;

    closed spec fn view(&self) -> Map<Seq<u8>, V> {
        Map::new(
            |k: Seq<u8>| self.position(k) < self.entries@.len(),
            |k: Seq<u8>| self.entries@[self.position(k)].1,
        )
    }
}

impl<K: Key, V> Table<K, V> {
    /// Where the entry with a key stands; past the end where there is none.
    spec fn position(&self, k: Seq<u8>) -> int {
        if exists|i: int| 0 <= i < self.entries@.len() && (#[trigger] self.entries@[i]).0.key() == k {
            choose|i: int|
                0 <= i < self.entries@.len() && (#[trigger] self.entries@[i]).0.key() == k
        } else {
            self.entries@.len() as int
        }
    }

    /// Whether no key stands twice.
    pub closed spec fn wf(&self) -> bool {
        forall|i: int, j: int|
            0 <= i < j < self.entries@.len() ==> (#[trigger] self.entries@[i]).0.key() != (
            #[trigger] self.entries@[j]).0.key()
    }

    proof fn lemma_entry(&self, i: int)
        requires
            self.wf(),
            0 <= i < self.entries@.len(),
        ensures
            self.position(self.entries@[i].0.key()) == i,
            self@.contains_key(self.entries@[i].0.key()),
            self@[self.entries@[i].0.key()] == self.entries@[i].1,
    {
    }

    /// A table with no entries.
    pub fn new() -> (r: Table<K, V>)
        ensures
            r.wf(),
            r@ == Map::<Seq<u8>, V>::empty(),
    {
        let r = Table { entries: Vec::new() };
        assert(r@ =~= Map::<Seq<u8>, V>::empty());
        r
    }

    /// Where the entry with a key stands, if there is one.
    fn find(&self, k: &[u8]) -> (r: Option<usize>)
        requires
            self.wf(),
        ensures
            match r {
                Some(i) => i < self.entries@.len() && self.entries@[i as int].0.key() == k@
                    && self@.contains_key(k@) && self@[k@] == self.entries@[i as int].1,
                None => !self@.contains_key(k@) && forall|i: int|
                    0 <= i < self.entries@.len() ==> (#[trigger] self.entries@[i]).0.key() != k@,
            },
    {
        let mut i: usize = 0;
        while i < self.entries.len()
            invariant
                self.wf(),
                i <= self.entries@.len(),
                forall|j: int| 0 <= j < i ==> (#[trigger] self.entries@[j]).0.key() != k@,
            decreases self.entries@.len() - i,
        {
            if same(self.entries[i].0.key_bytes(), k) {
                proof {
                    self.lemma_entry(i as int);
                }
                return Some(i);
            }
            i = i + 1;
        }
        None
    }

    /// The value of a key, if it has one.
    pub fn get(&self, k: &[u8]) -> (r: Option<&V>)
        requires
            self.wf(),
        ensures
            match r {
                Some(v) => self@.contains_key(k@) && *v == self@[k@],
                None => !self@.contains_key(k@),
            },
    {
        match self.find(k) {
            Some(i) => Some(&self.entries[i].1),
            None => None,
        }
    }

    /// Whether a key has a value.
    pub fn contains(&self, k: &[u8]) -> (r: bool)
        requires
            self.wf(),
        ensures
            r == self@.contains_key(k@),
    {
        self.find(k).is_some()
    }

    /// Takes the value of a key out of the table.
    pub fn remove(&mut self, k: &[u8]) -> (r: Option<V>)
        requires
            old(self).wf(),
        ensures
            final(self).wf(),
            final(self)@ == old(self)@.remove(k@),
            match r {
                Some(v) => old(self)@.contains_key(k@) && v == old(self)@[k@],
                None => !old(self)@.contains_key(k@),
            },
    {
        let ghost before = *self;
        match self.find(k) {
            Some(i) => {
                let (_, v) = self.entries.swap_remove(i);
                proof {
                    let n = before.entries@.len() - 1;
                    assert forall|j: int| 0 <= j < self.entries@.len() implies (
                    #[trigger] self.entries@[j]) == before.entries@[if j == i { n } else { j }] by {
                    }
                    assert(self.wf());
                    assert forall|x: Seq<u8>| #[trigger]
                        self@.contains_key(x) == before@.remove(k@).contains_key(x) && (
                        self@.contains_key(x) ==> self@[x] == before@.remove(k@)[x]) by {
                        if self@.contains_key(x) {
                            let j = self.position(x);
                            before.lemma_entry(if j == i { n } else { j });
                        }
                        if before@.contains_key(x) && x != k@ {
                            let j = before.position(x);
                            assert(j != i);
                            self.lemma_entry(if j == n { i as int } else { j });
                        }
                    }
                    assert(self@ =~= before@.remove(k@));
                }
                Some(v)
            },
            None => {
                assert(self@ =~= before@.remove(k@));
                None
            },
        }
    }

    /// Gives a key a value, in place of the one that it may have had.
    pub fn insert(&mut self, k: K, v: V) -> (r: Option<V>)
        requires
            old(self).wf(),
        ensures
            final(self).wf(),
            final(self)@ == old(self)@.insert(k.key(), v),
            match r {
                Some(was) => old(self)@.contains_key(k.key()) && was == old(self)@[k.key()],
                None => !old(self)@.contains_key(k.key()),
            },
    {
        let ghost before = self@;
        let r = self.remove(k.key_bytes());
        let ghost middle = *self;
        self.entries.push((k, v));
        proof {
            let n = middle.entries@.len() as int;
            assert forall|j: int| 0 <= j < n implies #[trigger] self.entries@[j]
                == middle.entries@[j] && self.entries@[j].0.key() != k.key() by {
                middle.lemma_entry(j);
            }
            assert(self.wf());
            self.lemma_entry(n);
            assert forall|x: Seq<u8>| #[trigger]
                self@.contains_key(x) == before.insert(k.key(), v).contains_key(x) && (
                self@.contains_key(x) ==> self@[x] == before.insert(k.key(), v)[x]) by {
                if self@.contains_key(x) && x != k.key() {
                    middle.lemma_entry(self.position(x));
                }
                if middle@.contains_key(x) {
                    self.lemma_entry(middle.position(x));
                }
            }
            assert(self@ =~= before.insert(k.key(), v));
        }
        r
    }
}

} // verus!
