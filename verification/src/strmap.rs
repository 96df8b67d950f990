//! A map from string keys to values, where inserting under a present key
//! replaces its value: the shape of session tables and session data.
use crate::multimap::bytes_equal;
use crate::text::{lemma_sbytes_injective, sbytes, str_bytes, string_bytes};
use vstd::prelude::*;

verus! {

/// A string-keyed map.  Keys are kept distinct.
pub struct StrMap<V> {
    keys: Vec<String>,
    vals: Vec<V>,
}

impl<V: View> StrMap<V> {
    /// Keys are distinct and each has its value.
    pub closed spec fn wf(&self) -> bool {
        &&& self.keys@.len() == self.vals@.len()
        &&& forall|i: int, j: int|
            0 <= i < j < self.keys@.len() ==> (#[trigger] self.keys@[i])@ != (#[trigger] self.keys@[j])@
    }

    closed spec fn has(&self, k: Seq<char>) -> bool {
        exists|i: int| 0 <= i < self.keys@.len() && (#[trigger] self.keys@[i])@ == k
    }

    closed spec fn index_of(&self, k: Seq<char>) -> int {
        choose|i: int| 0 <= i < self.keys@.len() && (#[trigger] self.keys@[i])@ == k
    }

    pub closed spec fn view_of(&self) -> Map<Seq<char>, V::V> {
        Map::new(|k: Seq<char>| self.has(k), |k: Seq<char>| self.vals@[self.index_of(k)]@)
    }

    proof fn lemma_index(&self, i: int)
        requires
            self.wf(),
            0 <= i < self.keys@.len(),
        ensures
            self.has(self.keys@[i]@),
            self.index_of(self.keys@[i]@) == i,
    {
        let k = self.keys@[i]@;
        assert(self.has(k));
        let j = self.index_of(k);
        if j != i {
            if j < i {
                assert(self.keys@[j]@ != self.keys@[i]@);
            } else {
                assert(self.keys@[i]@ != self.keys@[j]@);
            }
        }
    }

    /// An empty map.
    pub fn new() -> (m: Self)
        ensures
            m.wf(),
            m@ == Map::<Seq<char>, V::V>::empty(),
    {
        let m = StrMap { keys: Vec::new(), vals: Vec::new() };
        assert(m@ =~= Map::<Seq<char>, V::V>::empty());
        m
    }

    /// Position of `key` among the keys.
    fn find(&self, key: &[u8]) -> (r: Option<usize>)
        requires
            self.wf(),
        ensures
            r matches Some(i) ==> i < self.keys@.len() && sbytes(self.keys@[i as int]@) == key@,
            r is None ==> forall|i: int|
                0 <= i < self.keys@.len() ==> sbytes(#[trigger] self.keys@[i]@) != key@,
    {
        let mut i: usize = 0;
        while i < self.keys.len()
            invariant
                self.wf(),
                i <= self.keys@.len(),
                forall|j: int| 0 <= j < i ==> sbytes(#[trigger] self.keys@[j]@) != key@,
            decreases self.keys@.len() - i,
        {
            if bytes_equal(string_bytes(&self.keys[i]), key) {
                return Some(i);
            }
            i = i + 1;
        }
        None
    }

    /// Where `key` is, if anywhere.
    fn locate(&self, key: &str) -> (r: Option<usize>)
        requires
            self.wf(),
        ensures
            r is Some <==> self@.contains_key(key@),
            r matches Some(i) ==> i < self.keys@.len() && self.keys@[i as int]@ == key@
                && self.index_of(key@) == i,
    {
        match self.find(str_bytes(key)) {
            Some(i) => {
                proof {
                    self.lemma_index(i as int);
                    lemma_sbytes_injective(self.keys@[i as int]@, key@);
                }
                Some(i)
            },
            None => {
                proof {
                    if self.has(key@) {
                        let j = self.index_of(key@);
                        assert(sbytes(self.keys@[j]@) == sbytes(key@));
                    }
                }
                None
            },
        }
    }

    /// The value under `key`.
    pub fn get(&self, key: &str) -> (r: Option<&V>)
        requires
            self.wf(),
        ensures
            r is Some <==> self@.contains_key(key@),
            r matches Some(v) ==> v@ == self@[key@],
    {
        match self.locate(key) {
            Some(i) => Some(&self.vals[i]),
            None => None,
        }
    }

    /// Is there a value under `key`?
    pub fn contains_key(&self, key: &str) -> (r: bool)
        requires
            self.wf(),
        ensures
            r == self@.contains_key(key@),
    {
        self.locate(key).is_some()
    }

    /// Puts `v` under `key`, replacing what was there.
    pub fn insert(&mut self, key: String, v: V)
        requires
            old(self).wf(),
        ensures
            final(self).wf(),
            final(self)@ == old(self)@.insert(key@, v@),
    {
        let ghost old_self = *self;
        match self.locate(key.as_str()) {
            Some(i) => {
                self.vals.set(i, v);
                proof {
                    assert(self.keys@ == old_self.keys@);
                    assert forall|k: Seq<char>| #[trigger] self.has(k) == old_self.has(k) by {
                        if old_self.has(k) {
                            let j = old_self.index_of(k);
                            assert(self.keys@[j]@ == k);
                        }
                        if self.has(k) {
                            let j = self.index_of(k);
                            assert(old_self.keys@[j]@ == k);
                        }
                    }
                    assert forall|k: Seq<char>| #[trigger] self@.contains_key(k) implies self@[k]
                        == old_self@.insert(key@, v@)[k] by {
                        let j = self.index_of(k);
                        self.lemma_index(j);
                        if k != key@ {
                            assert(j != i);
                            let j2 = old_self.index_of(k);
                            old_self.lemma_index(j2);
                            assert(self.vals@[j] == old_self.vals@[j]);
                        }
                    }
                    assert(self@ =~= old_self@.insert(key@, v@));
                }
            },
            None => {
                let ghost kv = key@;
                self.keys.push(key);
                self.vals.push(v);
                proof {
                    let n = old_self.keys@.len() as int;
                    assert(self.keys@[n]@ == kv);
                    assert forall|i: int, j: int|
                        0 <= i < j < self.keys@.len() implies (#[trigger] self.keys@[i])@ != (
                    #[trigger] self.keys@[j])@ by {
                        assert(self.keys@[i] == old_self.keys@[i]);
                        if j == n {
                            if self.keys@[i]@ == kv {
                                assert(old_self.has(kv));
                            }
                        } else {
                            assert(self.keys@[j] == old_self.keys@[j]);
                        }
                    }
                    assert forall|k: Seq<char>| #[trigger] self.has(k) == (old_self.has(k) || k
                        == kv) by {
                        if old_self.has(k) {
                            let j = old_self.index_of(k);
                            assert(self.keys@[j] == old_self.keys@[j]);
                        }
                        if k == kv {
                            assert(self.keys@[n]@ == kv);
                        }
                        if self.has(k) && k != kv {
                            let j = self.index_of(k);
                            assert(j != n);
                            assert(old_self.keys@[j] == self.keys@[j]);
                        }
                    }
                    self.lemma_index(n);
                    assert forall|k: Seq<char>| #[trigger] self@.contains_key(k) implies self@[k]
                        == old_self@.insert(kv, v@)[k] by {
                        if k != kv {
                            let j = old_self.index_of(k);
                            old_self.lemma_index(j);
                            assert(self.keys@[j] == old_self.keys@[j]);
                            self.lemma_index(j);
                            assert(self.vals@[j] == old_self.vals@[j]);
                        }
                    }
                    assert(self@ =~= old_self@.insert(kv, v@));
                }
            },
        }
    }

    /// Takes the value under `key` out of the map.
    pub fn remove(&mut self, key: &str) -> (r: Option<V>)
        requires
            old(self).wf(),
        ensures
            final(self).wf(),
            final(self)@ == old(self)@.remove(key@),
            r is Some <==> old(self)@.contains_key(key@),
            r matches Some(v) ==> v@ == old(self)@[key@],
    {
        let ghost old_self = *self;
        match self.locate(key) {
            Some(i) => {
                let _k = self.keys.remove(i);
                let v = self.vals.remove(i);
                proof {
                    assert forall|a: int, b: int|
                        0 <= a < b < self.keys@.len() implies (#[trigger] self.keys@[a])@ != (
                    #[trigger] self.keys@[b])@ by {
                        let a2 = if a < i { a } else { a + 1 };
                        let b2 = if b < i { b } else { b + 1 };
                        assert(self.keys@[a] == old_self.keys@[a2]);
                        assert(self.keys@[b] == old_self.keys@[b2]);
                    }
                    assert forall|k: Seq<char>| #[trigger] self.has(k) == (old_self.has(k) && k
                        != key@) by {
                        if self.has(k) {
                            let j = self.index_of(k);
                            let j2 = if j < i { j } else { j + 1 };
                            assert(self.keys@[j] == old_self.keys@[j2]);
                            assert(j2 != i);
                            old_self.lemma_index(j2);
                        }
                        if old_self.has(k) && k != key@ {
                            let j = old_self.index_of(k);
                            assert(j != i);
                            let j2 = if j < i { j } else { j - 1 };
                            assert(self.keys@[j2] == old_self.keys@[j]);
                        }
                    }
                    assert forall|k: Seq<char>| #[trigger] self@.contains_key(k) implies self@[k]
                        == old_self@.remove(key@)[k] by {
                        let j = self.index_of(k);
                        self.lemma_index(j);
                        let j2 = if j < i { j } else { j + 1 };
                        assert(self.keys@[j] == old_self.keys@[j2]);
                        assert(self.vals@[j] == old_self.vals@[j2]);
                        old_self.lemma_index(j2);
                    }
                    assert(self@ =~= old_self@.remove(key@));
                }
                Some(v)
            },
            None => {
                assert(self@ =~= old_self@.remove(key@));
                None
            },
        }
    }

    /// Number of keys.
    pub fn len(&self) -> (n: usize)
        requires
            self.wf(),
        ensures
            n == self@.len(),
    {
        proof {
            self.lemma_finite_len();
        }
        self.keys.len()
    }

    proof fn lemma_finite_len(&self)
        requires
            self.wf(),
        ensures
            self@.dom().finite(),
            self@.len() == self.keys@.len(),
    {
        let ks = self.keys@.map_values(|s: String| s@);
        assert(self@.dom() =~= ks.to_set()) by {
            assert forall|k: Seq<char>| #[trigger] self@.dom().contains(k) == ks.to_set().contains(
                k,
            ) by {
                if self.has(k) {
                    let j = self.index_of(k);
                    assert(ks[j] == k);
                }
                if ks.contains(k) {
                    let j = choose|j: int| 0 <= j < ks.len() && ks[j] == k;
                    assert(self.keys@[j]@ == k);
                }
            }
        }
        assert(ks.no_duplicates()) by {
            assert forall|i: int, j: int| 0 <= i < ks.len() && 0 <= j < ks.len() && i != j implies ks[i]
                != ks[j] by {
                if i < j {
                    assert(self.keys@[i]@ != self.keys@[j]@);
                } else {
                    assert(self.keys@[j]@ != self.keys@[i]@);
                }
            }
        }
        ks.unique_seq_to_set();
    }
}

impl<V: View> View for StrMap<V> {
    type V = Map<Seq<char>, V::V>;

    open spec fn view(&self) -> Self::V {
        self.view_of()
    }
}

} // verus!
