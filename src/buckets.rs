//! Positions of items grouped by a 64-bit key, for lookups that would
//! otherwise scan a whole table.
use vstd::prelude::*;

use vstd::hash_map::HashMapWithView;

verus! {

broadcast use vstd::std_specs::hash::group_hash_axioms;

/// `b` lists, in increasing order, positions whose key is `k`.
pub open spec fn bucket_ok(b: Seq<usize>, k: u64, keys: Seq<u64>) -> bool {
    &&& forall|t: int| 0 <= t < b.len() ==> (#[trigger] b[t]) < keys.len() && keys[b[t] as int] == k
    &&& forall|s: int, t: int| 0 <= s < t < b.len() ==> #[trigger] b[s] < #[trigger] b[t]
}

/// Item positions by key: the items added so far had keys `keys()`.
pub struct Buckets {
    map: HashMapWithView<u64, Vec<usize>>,
    len: usize,
    keys: Ghost<Seq<u64>>,
}

impl Buckets {
    /// The key of each item added, in order.
    pub closed spec fn keys(&self) -> Seq<u64> {
        self.keys@
    }

    pub closed spec fn wf(&self) -> bool {
        &&& self.len == self.keys@.len()
        &&& forall|k: u64| #[trigger]
            self.map@.contains_key(k) ==> bucket_ok(self.map@[k]@, k, self.keys@)
        &&& forall|i: int|
            0 <= i < self.keys@.len() ==> self.map@.contains_key(#[trigger] self.keys@[i])
                && self.map@[self.keys@[i]]@.contains(i as usize)
    }

    pub fn new() -> (r: Buckets)
        ensures
            r.wf(),
            r.keys() == Seq::<u64>::empty(),
    {
        Buckets { map: HashMapWithView::new(), len: 0, keys: Ghost(Seq::empty()) }
    }

    /// Adds the next item, whose key is `key`.
    pub fn add(&mut self, key: u64)
        requires
            old(self).wf(),
            old(self).keys().len() < usize::MAX,
        ensures
            final(self).wf(),
            final(self).keys() == old(self).keys().push(key),
    {
        let i = self.len;
        let ghost old_map = self.map@;
        let ghost old_keys = self.keys@;
        let mut bucket = match self.map.remove(&key) {
            Some(b) => b,
            None => Vec::new(),
        };
        bucket.push(i);
        self.map.insert(key, bucket);
        self.len = i + 1;
        self.keys = Ghost(old_keys.push(key));
        proof {
            let nk = self.keys@;
            assert forall|k: u64| #[trigger] self.map@.contains_key(k) implies bucket_ok(
                self.map@[k]@,
                k,
                nk,
            ) by {
                if k != key {
                    assert(self.map@[k] == old_map[k]);
                    let b = old_map[k]@;
                    assert forall|t: int| 0 <= t < b.len() implies (#[trigger] b[t]) < nk.len()
                        && nk[b[t] as int] == k by {
                        assert(bucket_ok(b, k, old_keys));
                    }
                } else {
                    let b = self.map@[k]@;
                    if old_map.contains_key(key) {
                        assert(bucket_ok(old_map[key]@, key, old_keys));
                    }
                    assert forall|t: int| 0 <= t < b.len() implies (#[trigger] b[t]) < nk.len()
                        && nk[b[t] as int] == k by {
                        if t < b.len() - 1 {
                            assert(b[t] == old_map[key]@[t]);
                        }
                    }
                    assert forall|s: int, t: int| 0 <= s < t < b.len() implies #[trigger] b[s]
                        < #[trigger] b[t] by {
                        if t < b.len() - 1 {
                            assert(b[t] == old_map[key]@[t]);
                            assert(b[s] == old_map[key]@[s]);
                        } else {
                            assert(b[s] == old_map[key]@[s]);
                        }
                    }
                }
            }
            assert forall|j: int| 0 <= j < nk.len() implies self.map@.contains_key(#[trigger] nk[j])
                && self.map@[nk[j]]@.contains(j as usize) by {
                if j < old_keys.len() {
                    assert(nk[j] == old_keys[j]);
                    if nk[j] == key {
                        let ob = old_map[key]@;
                        let p = choose|p: int| 0 <= p < ob.len() && ob[p] == j as usize;
                        assert(self.map@[key]@[p] == j as usize);
                    } else {
                        assert(self.map@[nk[j]] == old_map[nk[j]]);
                    }
                } else {
                    let b = self.map@[key]@;
                    assert(b[b.len() - 1] == j as usize);
                }
            }
        }
    }

    /// The positions, in increasing order, of the items with key `key`.
    pub fn candidates(&self, key: u64) -> (r: &[usize])
        requires
            self.wf(),
        ensures
            bucket_ok(r@, key, self.keys()),
            forall|i: int|
                0 <= i < self.keys().len() && #[trigger] self.keys()[i] == key ==> r@.contains(
                    i as usize,
                ),
    {
        match self.map.get(&key) {
            Some(b) => b.as_slice(),
            None => &[],
        }
    }
}

} // verus!
