//! A map from string keys to non-empty lists of values, the shape of HTTP
//! headers, query strings and form fields: every insertion appends to the
//! list under its key.
use crate::text::{lemma_sbytes_injective, sbytes, string_bytes, str_bytes};
use vstd::prelude::*;

verus! {

broadcast use vstd::utf8::encode_utf8_decode_utf8;

/// A string-keyed multi-map.  Keys are kept in first-insertion order.
pub struct MultiMap<V> {
    keys: Vec<String>,
    vals: Vec<Vec<V>>,
}

/// Appending `v` under `k`: the one update a multi-map knows.
pub open spec fn mm_push<T>(m: Map<Seq<char>, Seq<T>>, k: Seq<char>, v: T) -> Map<Seq<char>, Seq<T>> {
    if m.contains_key(k) {
        m.insert(k, m[k].push(v))
    } else {
        m.insert(k, seq![v])
    }
}

impl<V: View> MultiMap<V> {
    /// Keys are distinct and every key holds at least one value.
    pub closed spec fn wf(&self) -> bool {
        &&& self.keys@.len() == self.vals@.len()
        &&& forall|i: int, j: int|
            0 <= i < j < self.keys@.len() ==> (#[trigger] self.keys@[i])@ != (#[trigger] self.keys@[j])@
        &&& forall|i: int| 0 <= i < self.vals@.len() ==> (#[trigger] self.vals@[i])@.len() > 0
    }

    closed spec fn index_of(&self, k: Seq<char>) -> int {
        choose|i: int| 0 <= i < self.keys@.len() && (#[trigger] self.keys@[i])@ == k
    }

    closed spec fn has(&self, k: Seq<char>) -> bool {
        exists|i: int| 0 <= i < self.keys@.len() && (#[trigger] self.keys@[i])@ == k
    }

    /// The keys, in first-insertion order.
    pub closed spec fn key_seq(&self) -> Seq<Seq<char>> {
        self.keys@.map_values(|s: String| s@)
    }

    pub closed spec fn view_of(&self) -> Map<Seq<char>, Seq<V::V>> {
        Map::new(
            |k: Seq<char>| self.has(k),
            |k: Seq<char>| self.vals@[self.index_of(k)]@.map_values(|x: V| x@),
        )
    }

    proof fn lemma_index(&self, i: int)
        requires
            self.wf(),
            0 <= i < self.keys@.len(),
        ensures
            self.has(self.keys@[i]@),
            self.index_of(self.keys@[i]@) == i,
    {
        let k = self.keys@[i]@;
        assert(self.has(k));
        let j = self.index_of(k);
        if j != i {
            if j < i {
                assert(self.keys@[j]@ != self.keys@[i]@);
            } else {
                assert(self.keys@[i]@ != self.keys@[j]@);
            }
        }
    }

    /// An empty map.
    pub fn new() -> (m: Self)
        ensures
            m.wf(),
            m@ == Map::<Seq<char>, Seq<V::V>>::empty(),
            m.key_seq() == Seq::<Seq<char>>::empty(),
    {
        let m = MultiMap { keys: Vec::new(), vals: Vec::new() };
        assert(m@ =~= Map::<Seq<char>, Seq<V::V>>::empty());
        assert(m.key_seq() =~= Seq::<Seq<char>>::empty());
        m
    }

    /// Position of `key` among the keys.
    fn find(&self, key: &[u8]) -> (r: Option<usize>)
        requires
            self.wf(),
        ensures
            r matches Some(i) ==> i < self.keys@.len() && sbytes(self.keys@[i as int]@) == key@,
            r is None ==> forall|i: int|
                0 <= i < self.keys@.len() ==> sbytes(#[trigger] self.keys@[i]@) != key@,
    {
        let mut i: usize = 0;
        while i < self.keys.len()
            invariant
                self.wf(),
                i <= self.keys@.len(),
                forall|j: int| 0 <= j < i ==> sbytes(#[trigger] self.keys@[j]@) != key@,
            decreases self.keys@.len() - i,
        {
            let kb = string_bytes(&self.keys[i]);
            if bytes_equal(kb, key) {
                return Some(i);
            }
            i = i + 1;
        }
        None
    }

    /// The values under `key`.
    pub fn get(&self, key: &str) -> (r: Option<&Vec<V>>)
        requires
            self.wf(),
        ensures
            r is Some <==> self@.contains_key(key@),
            r matches Some(v) ==> v@.map_values(|x: V| x@) == self@[key@] && v@.len() > 0,
    {
        let kb = str_bytes(key);
        match self.find(kb) {
            Some(i) => {
                proof {
                    self.lemma_index(i as int);
                    lemma_sbytes_injective(self.keys@[i as int]@, key@);
                }
                Some(&self.vals[i])
            },
            None => {
                proof {
                    if self.has(key@) {
                        let j = self.index_of(key@);
                        assert(sbytes(self.keys@[j]@) == sbytes(key@));
                    }
                }
                None
            },
        }
    }

    /// Is there a value under `key`?
    pub fn contains_key(&self, key: &str) -> (r: bool)
        requires
            self.wf(),
        ensures
            r == self@.contains_key(key@),
    {
        self.get(key).is_some()
    }

    /// Appends `v` to the values under `key` (the `entry(key).or_default().push(v)` idiom).
    pub fn push(&mut self, key: String, v: V)
        requires
            old(self).wf(),
        ensures
            final(self).wf(),
            final(self)@ == mm_push(old(self)@, key@, v@),
            final(self).key_seq() == (if old(self)@.contains_key(key@) {
                old(self).key_seq()
            } else {
                old(self).key_seq().push(key@)
            }),
    {
        let ghost old_m = self@;
        let ghost old_self = *self;
        let kb = string_bytes(&key);
        match self.find(kb) {
            Some(i) => {
                proof {
                    self.lemma_index(i as int);
                    lemma_sbytes_injective(self.keys@[i as int]@, key@);
                }
                let mut slot: Vec<V> = Vec::new();
                self.vals.set_and_swap(i, &mut slot);
                slot.push(v);
                self.vals.set_and_swap(i, &mut slot);
                proof {
                    assert(self.keys@ == old_self.keys@);
                    assert forall|k: Seq<char>| #[trigger] self.has(k) == old_self.has(k) by {
                        if old_self.has(k) {
                            let j = old_self.index_of(k);
                            assert(self.keys@[j]@ == k);
                        }
                        if self.has(k) {
                            let j = self.index_of(k);
                            assert(old_self.keys@[j]@ == k);
                        }
                    }
                    assert forall|k: Seq<char>| self.has(k) implies #[trigger] self.index_of(k)
                        == old_self.index_of(k) by {
                        let j = self.index_of(k);
                        let j2 = old_self.index_of(k);
                        self.lemma_index(j);
                        old_self.lemma_index(j2);
                    }
                    assert(self.vals@[i as int]@ == old_self.vals@[i as int]@.push(v));
                    assert(self.vals@[i as int]@.map_values(|x: V| x@) =~= old_self.vals@[
                        i as int]@.map_values(|x: V| x@).push(v@));
                    assert forall|k: Seq<char>| #[trigger] self@.contains_key(k) implies self@[k]
                        == mm_push(old_m, key@, v@)[k] by {
                        let j = self.index_of(k);
                        if k != key@ {
                            self.lemma_index(j);
                            assert(j != i);
                            assert(self.vals@[j] == old_self.vals@[j]);
                        }
                    }
                    assert(self@ =~= mm_push(old_m, key@, v@));
                    assert(self.key_seq() =~= old_self.key_seq());
                }
            },
            None => {
                proof {
                    assert(!old_self.has(key@)) by {
                        if old_self.has(key@) {
                            let j = old_self.index_of(key@);
                            assert(sbytes(old_self.keys@[j]@) == sbytes(key@));
                        }
                    }
                }
                let ghost kv = key@;
                self.keys.push(key);
                let mut fresh: Vec<V> = Vec::new();
                fresh.push(v);
                self.vals.push(fresh);
                proof {
                    let n = old_self.keys@.len() as int;
                    assert(self.keys@[n]@ == kv);
                    assert forall|i: int, j: int|
                        0 <= i < j < self.keys@.len() implies (#[trigger] self.keys@[i])@ != (
                    #[trigger] self.keys@[j])@ by {
                        if j == n {
                            assert(self.keys@[i] == old_self.keys@[i]);
                            if self.keys@[i]@ == kv {
                                assert(old_self.has(kv));
                            }
                        } else {
                            assert(self.keys@[i] == old_self.keys@[i]);
                            assert(self.keys@[j] == old_self.keys@[j]);
                        }
                    }
                    assert forall|i: int| 0 <= i < self.vals@.len() implies (
                    #[trigger] self.vals@[i])@.len() > 0 by {
                        if i < n {
                            assert(self.vals@[i] == old_self.vals@[i]);
                        }
                    }
                    assert forall|k: Seq<char>| #[trigger] self.has(k) == (old_self.has(k) || k
                        == kv) by {
                        if old_self.has(k) {
                            let j = old_self.index_of(k);
                            assert(self.keys@[j] == old_self.keys@[j]);
                        }
                        if k == kv {
                            assert(self.keys@[n]@ == kv);
                        }
                        if self.has(k) && k != kv {
                            let j = self.index_of(k);
                            assert(j != n);
                            assert(old_self.keys@[j] == self.keys@[j]);
                        }
                    }
                    assert forall|k: Seq<char>| old_self.has(k) implies #[trigger] self.index_of(k)
                        == old_self.index_of(k) by {
                        let j = old_self.index_of(k);
                        old_self.lemma_index(j);
                        assert(self.keys@[j] == old_self.keys@[j]);
                        self.lemma_index(j);
                    }
                    self.lemma_index(n);
                    assert(self.vals@[n]@ =~= seq![v]);
                    assert(self@ =~= mm_push(old_m, key@, v@)) by {
                        assert forall|k: Seq<char>| #[trigger] self@.contains_key(k) implies self@[k]
                            == mm_push(old_m, key@, v@)[k] by {
                            if k != kv {
                                let j = old_self.index_of(k);
                                assert(self.vals@[j] == old_self.vals@[j]);
                            }
                        }
                    }
                    assert(self.key_seq() =~= old_self.key_seq().push(kv));
                }
            },
        }
    }

    /// Number of distinct keys.
    pub fn len(&self) -> (n: usize)
        requires
            self.wf(),
        ensures
            n == self.key_seq().len(),
            n == self@.len(),
    {
        proof {
            self.lemma_finite_len();
        }
        self.keys.len()
    }

    proof fn lemma_finite_len(&self)
        requires
            self.wf(),
        ensures
            self@.dom().finite(),
            self@.len() == self.keys@.len(),
    {
        let ks = self.key_seq();
        assert(self@.dom() =~= ks.to_set()) by {
            assert forall|k: Seq<char>| #[trigger] self@.dom().contains(k) == ks.to_set().contains(
                k,
            ) by {
                if self.has(k) {
                    let j = self.index_of(k);
                    assert(ks[j] == k);
                }
                if ks.contains(k) {
                    let j = choose|j: int| 0 <= j < ks.len() && ks[j] == k;
                    assert(self.keys@[j]@ == k);
                }
            }
        }
        assert(ks.no_duplicates()) by {
            assert forall|i: int, j: int| 0 <= i < ks.len() && 0 <= j < ks.len() && i != j implies ks[i]
                != ks[j] by {
                if i < j {
                    assert(self.keys@[i]@ != self.keys@[j]@);
                } else {
                    assert(self.keys@[j]@ != self.keys@[i]@);
                }
            }
        }
        ks.unique_seq_to_set();
    }

    /// The `i`-th key and its values, in first-insertion order.
    pub fn entry_at(&self, i: usize) -> (r: (&String, &Vec<V>))
        requires
            self.wf(),
            i < self.key_seq().len(),
        ensures
            r.0@ == self.key_seq()[i as int],
            self@.contains_key(r.0@),
            r.1@.map_values(|x: V| x@) == self@[r.0@],
            r.1@.len() > 0,
    {
        proof {
            self.lemma_index(i as int);
        }
        (&self.keys[i], &self.vals[i])
    }

    /// Every key of the map, in first-insertion order.
    pub proof fn lemma_keys(&self)
        requires
            self.wf(),
        ensures
            forall|k: Seq<char>| #[trigger] self@.contains_key(k) <==> self.key_seq().contains(k),
            self.key_seq().no_duplicates(),
    {
        let ks = self.key_seq();
        assert forall|k: Seq<char>| #[trigger] self@.contains_key(k) <==> ks.contains(k) by {
            if self.has(k) {
                let j = self.index_of(k);
                assert(ks[j] == k);
            }
            if ks.contains(k) {
                let j = choose|j: int| 0 <= j < ks.len() && ks[j] == k;
                assert(self.keys@[j]@ == k);
            }
        }
        assert forall|i: int, j: int| 0 <= i < ks.len() && 0 <= j < ks.len() && i != j implies ks[i]
            != ks[j] by {
            if i < j {
                assert(self.keys@[i]@ != self.keys@[j]@);
            } else {
                assert(self.keys@[j]@ != self.keys@[i]@);
            }
        }
    }
}

impl<V: View> View for MultiMap<V> {
    type V = Map<Seq<char>, Seq<V::V>>;

    open spec fn view(&self) -> Self::V {
        self.view_of()
    }
}

/// Are two byte slices equal?
pub fn bytes_equal(a: &[u8], b: &[u8]) -> (r: bool)
    ensures
        r == (a@ == b@),
{
    if a.len() != b.len() {
        return false;
    }
    let mut i: usize = 0;
    while i < a.len()
        invariant
            a@.len() == b@.len(),
            i <= a@.len(),
            forall|j: int| 0 <= j < i ==> a@[j] == b@[j],
        decreases a@.len() - i,
    {
        if a[i] != b[i] {
            return false;
        }
        i = i + 1;
    }
    assert(a@ =~= b@);
    true
}

} // verus!
