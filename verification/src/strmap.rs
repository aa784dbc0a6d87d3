//! A small string-keyed map: keys are character sequences, each stored
//! once, in first-insertion order. Lookups compare whole keys.

use vstd::prelude::*;

use crate::text::{chars_eq, copy_range};

verus! {

/// Index of the first key equal to `k`.
pub open spec fn key_index(keys: Seq<Vec<char>>, k: Seq<char>) -> Option<int>
    decreases keys.len(),
{
    if keys.len() == 0 {
        None
    } else {
        match key_index(keys.drop_last(), k) {
            Some(i) => Some(i),
            None => if keys.last()@ == k {
                Some(keys.len() - 1)
            } else {
                None
            },
        }
    }
}

pub proof fn lemma_key_index(keys: Seq<Vec<char>>, k: Seq<char>)
    ensures
        key_index(keys, k) is Some ==> {
            let i = key_index(keys, k)->0;
            &&& 0 <= i < keys.len()
            &&& keys[i]@ == k
            &&& forall|j: int| 0 <= j < i ==> keys[j]@ != k
        },
        key_index(keys, k) is None ==> forall|j: int| 0 <= j < keys.len() ==> keys[j]@ != k,
    decreases keys.len(),
{
    if keys.len() > 0 {
        let d = keys.drop_last();
        lemma_key_index(d, k);
        assert forall|j: int| 0 <= j < d.len() implies d[j] == keys[j] by {}
        match key_index(d, k) {
            Some(i) => {
                assert(key_index(keys, k) == Some(i));
            },
            None => {
                if keys.last()@ == k {
                    assert(key_index(keys, k) == Some(keys.len() - 1));
                } else {
                    assert(key_index(keys, k) is None);
                    assert forall|j: int| 0 <= j < keys.len() implies keys[j]@ != k by {
                        if j < d.len() {
                            assert(d[j]@ != k);
                        }
                    }
                }
            },
        }
    }
}

pub proof fn lemma_key_index_at(keys: Seq<Vec<char>>, i: int)
    requires
        0 <= i < keys.len(),
        forall|a: int, b: int| 0 <= a < b < keys.len() ==> keys[a]@ != keys[b]@,
    ensures
        key_index(keys, keys[i]@) == Some(i),
{
    lemma_key_index(keys, keys[i]@);
    match key_index(keys, keys[i]@) {
        Some(j) => {
            if j < i {
                assert(keys[j]@ != keys[i]@);
            } else if j > i {
            }
        },
        None => {},
    }
}

pub proof fn lemma_key_index_push(keys: Seq<Vec<char>>, nk: Vec<char>, k: Seq<char>)
    ensures
        key_index(keys.push(nk), k) == (match key_index(keys, k) {
            Some(i) => Some(i),
            None => if nk@ == k {
                Some(keys.len() as int)
            } else {
                None
            },
        }),
{
    assert(keys.push(nk).drop_last() =~= keys);
}

/// String-keyed map with distinct keys kept in insertion order.
pub struct StrMap<V> {
    keys: Vec<Vec<char>>,
    vals: Vec<V>,
}

impl<V> StrMap<V> {
    pub closed spec fn keys_view(&self) -> Seq<Vec<char>> {
        self.keys@
    }

    /// Values, in key order.
    pub closed spec fn vals_view(&self) -> Seq<V> {
        self.vals@
    }

    pub closed spec fn wf(&self) -> bool {
        &&& self.keys@.len() == self.vals@.len()
        &&& forall|a: int, b: int|
            0 <= a < b < self.keys@.len() ==> self.keys@[a]@ != self.keys@[b]@
    }

    /// Position of `k` among the keys.
    pub open spec fn index_of(&self, k: Seq<char>) -> Option<int> {
        key_index(self.keys_view(), k)
    }

    pub open spec fn contains(&self, k: Seq<char>) -> bool {
        self.index_of(k) is Some
    }

    /// Value stored under `k`.
    pub open spec fn value(&self, k: Seq<char>) -> V
        recommends
            self.contains(k),
    {
        self.vals_view()[self.index_of(k)->0]
    }

    /// Number of keys.
    pub open spec fn size(&self) -> nat {
        self.keys_view().len()
    }

    pub proof fn lemma_wf(&self)
        requires
            self.wf(),
        ensures
            self.keys_view().len() == self.vals_view().len(),
            forall|a: int, b: int|
                0 <= a < b < self.keys_view().len() ==> self.keys_view()[a]@
                    != self.keys_view()[b]@,
            forall|i: int|
                0 <= i < self.keys_view().len() ==> #[trigger] self.index_of(
                    self.keys_view()[i]@,
                ) == Some(i),
            forall|k: Seq<char>|
                #[trigger] self.index_of(k) is Some ==> 0 <= self.index_of(k)->0
                    < self.keys_view().len() && self.keys_view()[self.index_of(k)->0]@ == k,
    {
        assert forall|i: int| 0 <= i < self.keys_view().len() implies #[trigger] self.index_of(
            self.keys_view()[i]@,
        ) == Some(i) by {
            lemma_key_index_at(self.keys@, i);
        }
        assert forall|k: Seq<char>| #[trigger]
            self.index_of(k) is Some implies 0 <= self.index_of(k)->0 < self.keys_view().len()
            && self.keys_view()[self.index_of(k)->0]@ == k by {
            lemma_key_index(self.keys@, k);
        }
    }

    pub fn new() -> (m: Self)
        ensures
            m.wf(),
            m.size() == 0,
            m.keys_view() == Seq::<Vec<char>>::empty(),
            m.vals_view() == Seq::<V>::empty(),
    {
        StrMap { keys: Vec::new(), vals: Vec::new() }
    }

    pub fn len(&self) -> (n: usize)
        ensures
            n == self.size(),
    {
        self.keys.len()
    }

    /// Position of `k`, if present.
    pub fn find(&self, k: &[char]) -> (r: Option<usize>)
        requires
            self.wf(),
        ensures
            r matches Some(i) ==> self.index_of(k@) == Some(i as int),
            r is None ==> self.index_of(k@) is None,
    {
        let mut i: usize = 0;
        proof {
            lemma_key_index(self.keys@, k@);
        }
        while i < self.keys.len()
            invariant
                self.wf(),
                i <= self.keys@.len(),
                forall|j: int| 0 <= j < i ==> self.keys@[j]@ != k@,
            decreases self.keys@.len() - i,
        {
            if chars_eq(self.keys[i].as_slice(), k) {
                proof {
                    lemma_key_index_at(self.keys@, i as int);
                }
                return Some(i);
            }
            i = i + 1;
        }
        None
    }

    pub fn value_at(&self, i: usize) -> (v: &V)
        requires
            self.wf(),
            i < self.size(),
        ensures
            *v == self.vals_view()[i as int],
    {
        &self.vals[i]
    }

    /// Adds a new key at the end.
    pub fn push(&mut self, k: Vec<char>, v: V)
        requires
            old(self).wf(),
            !old(self).contains(k@),
        ensures
            final(self).wf(),
            final(self).keys_view() == old(self).keys_view().push(k),
            final(self).vals_view() == old(self).vals_view().push(v),
    {
        proof {
            lemma_key_index(self.keys@, k@);
        }
        self.keys.push(k);
        self.vals.push(v);
    }

    /// The map this stands for.
    pub open spec fn map_view(&self) -> Map<Seq<char>, V> {
        Map::new(|k: Seq<char>| self.contains(k), |k: Seq<char>| self.value(k))
    }

    /// The value under `k`, if any.
    pub fn get(&self, k: &[char]) -> (r: Option<&V>)
        requires
            self.wf(),
        ensures
            r matches Some(v) ==> self.map_view().contains_key(k@) && *v == self.map_view()[k@],
            r is None ==> !self.map_view().contains_key(k@),
    {
        proof {
            self.lemma_wf();
        }
        match self.find(k) {
            Some(i) => Some(&self.vals[i]),
            None => None,
        }
    }

    /// Stores `v` under `k`, replacing any previous value.
    pub fn set(&mut self, k: &[char], v: V)
        requires
            old(self).wf(),
        ensures
            final(self).wf(),
            final(self).map_view() == old(self).map_view().insert(k@, v),
    {
        let ghost old_map = *self;
        proof {
            self.lemma_wf();
        }
        match self.find(k) {
            Some(i) => {
                self.replace_at(i, v);
                proof {
                    self.lemma_wf();
                    assert(self.map_view() =~= old_map.map_view().insert(k@, v));
                }
            },
            None => {
                let kv = copy_range(k, 0, k.len());
                assert(kv@ =~= k@);
                self.push(kv, v);
                proof {
                    self.lemma_wf();
                    assert forall|q: Seq<char>| #[trigger]
                        self.index_of(q) == (match old_map.index_of(q) {
                            Some(i) => Some(i),
                            None => if k@ == q {
                                Some(old_map.size() as int)
                            } else {
                                None
                            },
                        }) by {
                        lemma_key_index_push(old_map.keys_view(), self.keys_view().last(), q);
                        assert(old_map.keys_view().push(self.keys_view().last())
                            == self.keys_view());
                    }
                    assert(self.map_view() =~= old_map.map_view().insert(k@, v));
                }
            },
        }
    }

    /// Replaces the value at position `i`, returning the old one.
    pub fn replace_at(&mut self, i: usize, v: V) -> (old_v: V)
        requires
            old(self).wf(),
            i < old(self).size(),
        ensures
            final(self).wf(),
            final(self).keys_view() == old(self).keys_view(),
            final(self).vals_view() == old(self).vals_view().update(i as int, v),
            old_v == old(self).vals_view()[i as int],
    {
        let old_v = self.vals.remove(i);
        self.vals.insert(i, v);
        assert(self.vals@ =~= old(self).vals@.update(i as int, v));
        old_v
    }
}

} // verus!
