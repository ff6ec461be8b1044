//! An ordered map from `usize` keys whose values combine over key ranges, with updates that
//! apply to every value of a range.
use vstd::prelude::*;
use core::marker::PhantomData;
use core::ops::RangeBounds;

verus! {

/// How the values of a range combine, and how an update acts on a value.
pub trait LazyOp<V, U> {
    /// Combines the values of two adjacent ranges, the lower one first.
    fn binary_op(t1: V, t2: V) -> V;

    /// Applies the update `u` to the value `t`.
    fn apply(u: U, t: V) -> V;

    /// The update that applies `u1` and then `u2`.
    fn compose(u1: U, u2: U) -> U;

    /// The update that changes nothing.
    fn id_op() -> U;
}

/// Relies on `RangeBounds::contains`: whether `k` lies within `range`.
#[verifier::external_body]
fn range_contains<R: RangeBounds<usize>>(range: &R, k: usize) -> bool {
    range.contains(&k)
}

/// The map: keys in increasing order, each with its value at the same index.
pub struct BPTreeMap<K, V, U, F> where F: LazyOp<V, U> {
    keys: Vec<K>,
    vals: Vec<V>,
    _u: PhantomData<U>,
    _f: PhantomData<F>,
}

/// The entries of a map that lie in a key range, open for an update.
pub struct PeekMutRange<'a, K, V, U, F> where F: LazyOp<V, U> {
    map: &'a mut BPTreeMap<K, V, U, F>,
    picked: Vec<usize>,
}

impl<V: Clone, U, F: LazyOp<V, U>> BPTreeMap<usize, V, U, F> {
    pub closed spec fn wf(&self) -> bool {
        &&& self.keys@.len() == self.vals@.len()
        &&& forall|i: int, j: int|
            0 <= i < j < self.keys@.len() ==> #[trigger] self.keys@[i] < #[trigger] self.keys@[j]
    }

    /// The keys, in increasing order.
    pub closed spec fn key_seq(&self) -> Seq<usize> {
        self.keys@
    }

    /// The value of each key.
    pub closed spec fn entries(&self) -> Map<usize, V> {
        Map::new(
            |k: usize| self.keys@.contains(k),
            |k: usize| self.vals@[self.keys@.index_of(k)],
        )
    }

    /// An empty map.
    pub fn new() -> (r: Self)
        ensures
            r.wf(),
            r.key_seq().len() == 0,
            r.entries() == Map::<usize, V>::empty(),
    {
        let r = BPTreeMap { keys: Vec::new(), vals: Vec::new(), _u: PhantomData, _f: PhantomData };
        assert(r.entries() =~= Map::<usize, V>::empty());
        r
    }

    /// Removes every entry.
    pub fn clear(&mut self)
        ensures
            final(self).wf(),
            final(self).key_seq().len() == 0,
            final(self).entries() == Map::<usize, V>::empty(),
    {
        self.keys = Vec::new();
        self.vals = Vec::new();
        assert(self.entries() =~= Map::<usize, V>::empty());
    }

    /// The index of the first key that is not below `key`.
    fn lower_bound(&self, key: usize) -> (r: usize)
        requires
            self.wf(),
        ensures
            r <= self.keys@.len(),
            forall|i: int| 0 <= i < r ==> #[trigger] self.keys@[i] < key,
            r < self.keys@.len() ==> self.keys@[r as int] >= key,
    {
        let mut lo: usize = 0;
        let mut hi: usize = self.keys.len();
        while lo < hi
            invariant
                self.wf(),
                lo <= hi <= self.keys@.len(),
                forall|i: int| 0 <= i < lo ==> #[trigger] self.keys@[i] < key,
                forall|i: int| hi <= i < self.keys@.len() ==> #[trigger] self.keys@[i] >= key,
            decreases hi - lo,
        {
            let mid = lo + (hi - lo) / 2;
            if self.keys[mid] < key {
                lo = mid + 1;
            } else {
                hi = mid;
            }
        }
        lo
    }

    /// The value of `key`, if the map has it.
    pub fn get(&self, key: &usize) -> (r: Option<&V>)
        requires
            self.wf(),
        ensures
            r.is_some() == self.key_seq().contains(*key),
            r.is_some() ==> *r.unwrap() == self.entries()[*key],
    {
        let i = self.lower_bound(*key);
        if i < self.keys.len() && self.keys[i] == *key {
            proof {
                assert(self.keys@.contains(*key));
                self.lemma_index_of(i as int);
            }
            Some(&self.vals[i])
        } else {
            proof {
                if self.keys@.contains(*key) {
                    let j = self.keys@.index_of(*key);
                    assert(self.keys@[j] == *key);
                    if j >= i && i < self.keys@.len() && j != i {
                        assert(self.keys@[i as int] < self.keys@[j]);
                    }
                }
            }
            None
        }
    }

    proof fn lemma_index_of(&self, i: int)
        requires
            self.wf(),
            0 <= i < self.keys@.len(),
        ensures
            self.keys@.index_of(self.keys@[i]) == i,
    {
        let k = self.keys@[i];
        assert(self.keys@.contains(k));
        let j = self.keys@.index_of(k);
        assert(self.keys@[j] == k);
        if j < i {
            assert(self.keys@[j] < self.keys@[i]);
        } else if j > i {
            assert(self.keys@[i] < self.keys@[j]);
        }
    }

    /// Sets the value of `key`; returns the value it replaced, if any.
    pub fn insert(&mut self, key: usize, value: V) -> (r: Option<V>)
        requires
            old(self).wf(),
        ensures
            final(self).wf(),
            r.is_some() == old(self).key_seq().contains(key),
            r.is_some() ==> r.unwrap() == old(self).entries()[key],
            final(self).entries() == old(self).entries().insert(key, value),
    {
        let i = self.lower_bound(key);
        if i < self.keys.len() && self.keys[i] == key {
            proof {
                self.lemma_index_of(i as int);
            }
            let mut v = value;
            core::mem::swap(&mut v, &mut self.vals[i]);
            proof {
                assert forall|k: usize| #[trigger] self.entries().contains_key(k) == old(self).entries().insert(key, value).contains_key(k) by {}
                assert(self.entries() =~= old(self).entries().insert(key, value)) by {
                    assert forall|k: usize| self.keys@.contains(k) implies #[trigger] self.vals@[self.keys@.index_of(k)] == old(self).entries().insert(key, value)[k] by {
                        let j = self.keys@.index_of(k);
                        self.lemma_index_of(j);
                        if j != i {
                            assert(k != key);
                        }
                    }
                }
            }
            Some(v)
        } else {
            proof {
                if old(self).keys@.contains(key) {
                    let j = old(self).keys@.index_of(key);
                    assert(old(self).keys@[j] == key);
                }
            }
            self.keys.insert(i, key);
            self.vals.insert(i, value);
            proof {
                assert forall|a: int, b: int| 0 <= a < b < self.keys@.len() implies #[trigger] self.keys@[a] < #[trigger] self.keys@[b] by {
                    if b < i {
                    } else if b == i {
                    } else if a < i {
                    } else if a == i {
                    } else {
                        assert(old(self).keys@[a - 1] < old(self).keys@[b - 1]);
                    }
                }
                assert(self.entries() =~= old(self).entries().insert(key, value)) by {
                    assert forall|k: usize| #[trigger] self.keys@.contains(k) <==> (old(self).keys@.contains(k) || k == key) by {
                        if self.keys@.contains(k) {
                            let j = self.keys@.index_of(k);
                            if j < i {
                                assert(old(self).keys@[j] == k);
                            } else if j > i {
                                assert(old(self).keys@[j - 1] == k);
                            }
                        }
                        if old(self).keys@.contains(k) {
                            let j = old(self).keys@.index_of(k);
                            if j < i {
                                assert(self.keys@[j] == k);
                            } else {
                                assert(self.keys@[j + 1] == k);
                            }
                        }
                        if k == key {
                            assert(self.keys@[i as int] == key);
                        }
                    }
                    assert forall|k: usize| self.keys@.contains(k) implies #[trigger] self.vals@[self.keys@.index_of(k)] == old(self).entries().insert(key, value)[k] by {
                        let j = self.keys@.index_of(k);
                        self.lemma_index_of(j);
                        if j < i {
                            old(self).lemma_index_of(j);
                        } else if j > i {
                            old(self).lemma_index_of(j - 1);
                        }
                    }
                }
            }
            None
        }
    }

    /// Removes `key`; returns its value, if the map had it.
    pub fn remove(&mut self, key: &usize) -> (r: Option<V>)
        requires
            old(self).wf(),
        ensures
            final(self).wf(),
            r.is_some() == old(self).key_seq().contains(*key),
            r.is_some() ==> r.unwrap() == old(self).entries()[*key],
            final(self).entries() == old(self).entries().remove(*key),
    {
        let i = self.lower_bound(*key);
        if i < self.keys.len() && self.keys[i] == *key {
            proof {
                self.lemma_index_of(i as int);
            }
            self.keys.remove(i);
            let v = self.vals.remove(i);
            proof {
                assert forall|a: int, b: int| 0 <= a < b < self.keys@.len() implies #[trigger] self.keys@[a] < #[trigger] self.keys@[b] by {
                    if b < i {
                    } else if a < i {
                        assert(old(self).keys@[a] < old(self).keys@[b + 1]);
                    } else {
                        assert(old(self).keys@[a + 1] < old(self).keys@[b + 1]);
                    }
                }
                assert(self.entries() =~= old(self).entries().remove(*key)) by {
                    assert forall|k: usize| #[trigger] self.keys@.contains(k) <==> (old(self).keys@.contains(k) && k != *key) by {
                        if self.keys@.contains(k) {
                            let j = self.keys@.index_of(k);
                            if j < i {
                                assert(old(self).keys@[j] == k);
                            } else {
                                assert(old(self).keys@[j + 1] == k);
                            }
                        }
                        if old(self).keys@.contains(k) && k != *key {
                            let j = old(self).keys@.index_of(k);
                            if j < i {
                                assert(self.keys@[j] == k);
                            } else {
                                assert(self.keys@[j - 1] == k);
                            }
                        }
                    }
                    assert forall|k: usize| self.keys@.contains(k) implies #[trigger] self.vals@[self.keys@.index_of(k)] == old(self).entries().remove(*key)[k] by {
                        let j = self.keys@.index_of(k);
                        self.lemma_index_of(j);
                        if j < i {
                            old(self).lemma_index_of(j);
                        } else {
                            old(self).lemma_index_of(j + 1);
                        }
                    }
                }
            }
            Some(v)
        } else {
            proof {
                if old(self).keys@.contains(*key) {
                    let j = old(self).keys@.index_of(*key);
                    assert(old(self).keys@[j] == *key);
                    if j != i && i < self.keys@.len() {
                        if j < i {
                        } else {
                            assert(self.keys@[i as int] < self.keys@[j]);
                        }
                    }
                }
                assert(self.entries() =~= old(self).entries().remove(*key));
            }
            None
        }
    }

    /// The indices of the keys that lie in `range`, in increasing order.
    fn pick<R: RangeBounds<usize>>(&self, range: &R) -> (r: Vec<usize>)
        requires
            self.wf(),
        ensures
            forall|j: int| 0 <= j < r@.len() ==> #[trigger] r@[j] < self.keys@.len(),
    {
        let mut out: Vec<usize> = Vec::new();
        let mut i: usize = 0;
        while i < self.keys.len()
            invariant
                self.wf(),
                i <= self.keys@.len(),
                forall|j: int| 0 <= j < out@.len() ==> #[trigger] out@[j] < i,
            decreases self.keys@.len() - i,
        {
            if range_contains(range, self.keys[i]) {
                out.push(i);
            }
            i += 1;
        }
        out
    }

    /// The values at `picked` combined in order; none when `picked` is empty.
    fn fold(&self, picked: &Vec<usize>) -> (r: Option<V>)
        requires
            self.wf(),
            forall|j: int| 0 <= j < picked@.len() ==> #[trigger] picked@[j] < self.vals@.len(),
        ensures
            r.is_some() == (picked@.len() > 0),
    {
        if picked.len() == 0 {
            return None;
        }
        let mut acc = self.vals[picked[0]].clone();
        let mut j: usize = 1;
        while j < picked.len()
            invariant
                self.wf(),
                1 <= j <= picked@.len(),
                forall|t: int| 0 <= t < picked@.len() ==> #[trigger] picked@[t] < self.vals@.len(),
            decreases picked@.len() - j,
        {
            let v = self.vals[picked[j]].clone();
            acc = F::binary_op(acc, v);
            j += 1;
        }
        Some(acc)
    }

    /// The values of the keys in `range` combined in key order; none when no key lies there.
    pub fn get_range<R: RangeBounds<usize>>(&self, range: R) -> (r: Option<V>)
        requires
            self.wf(),
    {
        let picked = self.pick(&range);
        self.fold(&picked)
    }

    /// The entries whose keys lie in `range`, for an update; none when no key lies there.
    pub fn get_range_mut<'a, R: RangeBounds<usize>>(&'a mut self, range: R) -> (r: Option<PeekMutRange<'a, usize, V, U, F>>)
        requires
            old(self).wf(),
        ensures
            r.is_some() ==> r.unwrap().wf(),
    {
        let picked = self.pick(&range);
        if picked.len() == 0 {
            None
        } else {
            Some(PeekMutRange { map: self, picked })
        }
    }
}

impl<'a, V: Clone, U, F: LazyOp<V, U>> PeekMutRange<'a, usize, V, U, F> {
    pub closed spec fn wf(&self) -> bool {
        &&& self.map.wf()
        &&& self.picked@.len() > 0
        &&& forall|j: int| 0 <= j < self.picked@.len() ==> #[trigger] self.picked@[j] < self.map.vals@.len()
    }

    /// The values of the range combined in key order.
    pub fn value(&mut self) -> (r: V)
        requires
            old(self).wf(),
    {
        let r = self.map.fold(&self.picked);
        r.unwrap()
    }

}

impl<'a, V: Clone, U: Clone, F: LazyOp<V, U>> PeekMutRange<'a, usize, V, U, F> {
    /// Applies `u` to every value of the range.
    pub fn apply(&mut self, u: &U)
        requires
            old(self).wf(),
        ensures
            final(self).wf(),
    {
        let mut j: usize = 0;
        while j < self.picked.len()
            invariant
                self.wf(),
                j <= self.picked@.len(),
            decreases self.picked@.len() - j,
        {
            let i = self.picked[j];
            let v = self.map.vals[i].clone();
            let nv = F::apply(u.clone(), v);
            self.map.vals.set(i, nv);
            j += 1;
        }
    }
}

} // verus!
