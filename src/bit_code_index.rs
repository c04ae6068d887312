use std::collections::HashMap;
use vstd::prelude::*;

verus! {

broadcast use vstd::std_specs::hash::group_hash_axioms;

/// A multi-index: one table per window, each mapping a window key to the
/// values (pool positions) whose code has that key in that window.
#[derive(Debug)]
pub struct BitCodeIndex {
    index_length: usize,
    num_values: usize,
    indexes: Vec<HashMap<u64, Vec<usize>>>,
}

impl BitCodeIndex {
    /// The window width the index was built for.
    pub closed spec fn width(&self) -> nat {
        self.index_length as nat
    }

    /// The number of tables, one per window.
    pub closed spec fn table_count(&self) -> nat {
        self.indexes@.len()
    }

    /// The number of values added since the tables were made.
    pub closed spec fn value_count(&self) -> nat {
        self.num_values as nat
    }

    /// The values that table `j` holds under `key`, in the order they were added.
    pub closed spec fn entries(&self, j: int, key: u64) -> Seq<usize> {
        if self.indexes@[j]@.contains_key(key) {
            self.indexes@[j]@[key]@
        } else {
            Seq::empty()
        }
    }

    /// Whether some table before `j` holds `p` under the needle's key for that table.
    pub open spec fn hit_before(&self, keys: Seq<u64>, j: int, p: usize) -> bool {
        exists|j2: int| 0 <= j2 < j && #[trigger] self.entries(j2, keys[j2]).contains(p)
    }

    /// Whether some table holds `p` under the needle's key for that table.
    pub open spec fn is_candidate(&self, keys: Seq<u64>, p: usize) -> bool {
        self.hit_before(keys, vstd::math::min(self.table_count() as int, keys.len() as int), p)
    }

    /// Every value held is one of those added.
    pub closed spec fn wf(&self) -> bool {
        forall|j: int, key: u64, p: usize|
            0 <= j < self.indexes@.len() && #[trigger] self.entries(j, key).contains(p) ==> p
                < self.num_values
    }

    /// An index with no tables.
    pub fn new() -> (r: BitCodeIndex)
        ensures
            r.wf(),
            r.width() == 0,
            r.table_count() == 0,
            r.value_count() == 0,
    {
        BitCodeIndex { index_length: 0, num_values: 0, indexes: Vec::new() }
    }

    /// Adds `value` under the key of each window: `index_values[j]` in table `j`.
    pub fn add(&mut self, index_values: &Vec<u64>, value: usize)
        requires
            old(self).wf(),
            value == old(self).value_count(),
            value < usize::MAX,
            index_values@.len() >= old(self).table_count(),
        ensures
            final(self).wf(),
            final(self).width() == old(self).width(),
            final(self).table_count() == old(self).table_count(),
            final(self).value_count() == old(self).value_count() + 1,
            forall|j: int, key: u64|
                0 <= j < old(self).table_count() ==> #[trigger] final(self).entries(j, key) == (
                if key == index_values@[j] {
                    old(self).entries(j, key).push(value)
                } else {
                    old(self).entries(j, key)
                }),
    {
        let ghost pre = *self;
        let m = self.indexes.len();
        self.num_values = value + 1;
        for j in 0..m
            invariant
                m == pre.indexes@.len(),
                self.indexes@.len() == m,
                self.index_length == pre.index_length,
                self.num_values == pre.num_values + 1,
                value == pre.num_values,
                index_values@.len() >= m,
                pre.wf(),
                forall|j2: int, key: u64|
                    0 <= j2 < m ==> #[trigger] self.entries(j2, key) == (if j2 < j && key
                        == index_values@[j2] {
                        pre.entries(j2, key).push(value)
                    } else {
                        pre.entries(j2, key)
                    }),
        {
            let key = index_values[j];
            assert(self.entries(j as int, key) == pre.entries(j as int, key));
            let ghost t0 = self.indexes@[j as int]@;
            let ghost before = self.indexes@;
            let ghost s0 = *self;
            let mut list: Vec<usize> = match self.indexes[j].remove(&key) {
                Some(v) => v,
                None => Vec::new(),
            };
            assert(self.indexes@[j as int]@ == t0.remove(key));
            assert(t0.contains_key(key) ==> list@ == t0[key]@);
            assert(list@ == pre.entries(j as int, key));
            list.push(value);
            let ghost new_list = list;
            self.indexes[j].insert(key, list);
            assert(self.indexes@[j as int]@ == t0.remove(key).insert(key, new_list));
            assert(forall|j2: int| 0 <= j2 < m && j2 != j ==> self.indexes@[j2] == before[j2]);
            assert forall|j2: int, key2: u64| 0 <= j2 < m implies #[trigger] self.entries(j2, key2)
                == (if j2 < j + 1 && key2 == index_values@[j2] {
                pre.entries(j2, key2).push(value)
            } else {
                pre.entries(j2, key2)
            }) by {
                assert(s0.entries(j2, key2) == (if j2 < j && key2 == index_values@[j2] {
                    pre.entries(j2, key2).push(value)
                } else {
                    pre.entries(j2, key2)
                }));
                if j2 != j {
                    assert(self.indexes@[j2] == before[j2]);
                } else if key2 != key {
                    assert(self.indexes@[j2]@.contains_key(key2) == t0.contains_key(key2));
                    if t0.contains_key(key2) {
                        assert(self.indexes@[j2]@[key2] == t0[key2]);
                    }
                } else {
                    assert(self.indexes@[j2]@[key2] == new_list);
                }
            }
        }
        assert forall|j: int, key: u64, p: usize|
            0 <= j < self.indexes@.len() && #[trigger] self.entries(j, key).contains(p) implies p
            < self.num_values by {
            let e = self.entries(j, key);
            let i = choose|i: int| 0 <= i < e.len() && e[i] == p;
            if key == index_values@[j] {
                if i < pre.entries(j, key).len() {
                    assert(pre.entries(j, key)[i] == p);
                    assert(pre.entries(j, key).contains(p));
                }
            } else {
                assert(pre.entries(j, key)[i] == p);
                assert(pre.entries(j, key).contains(p));
            }
        }
    }

    /// The window width the index was built for.
    pub fn index_length(&self) -> (r: usize)
        ensures
            r == self.width(),
    {
        self.index_length
    }

    /// Makes `num_indexes` empty tables for windows of `index_length` bits.
    pub fn init(&mut self, index_length: usize, num_indexes: usize)
        ensures
            final(self).wf(),
            final(self).width() == index_length,
            final(self).table_count() == num_indexes,
            final(self).value_count() == 0,
            forall|j: int, key: u64|
                0 <= j < num_indexes ==> #[trigger] final(self).entries(j, key) == Seq::<
                    usize,
                >::empty(),
    {
        self.index_length = index_length;
        self.num_values = 0;
        let mut tables: Vec<HashMap<u64, Vec<usize>>> = Vec::new();
        for j in 0..num_indexes
            invariant
                tables@.len() == j,
                forall|j2: int| 0 <= j2 < j ==> #[trigger] tables@[j2]@ == Map::<u64, Vec<usize>>::empty(),
        {
            tables.push(HashMap::new());
        }
        self.indexes = tables;
        assert forall|j: int, key: u64|
            0 <= j < num_indexes implies #[trigger] self.entries(j, key) == Seq::<usize>::empty() by {
            assert(self.indexes@[j]@ == Map::<u64, Vec<usize>>::empty());
        }
    }

    /// The values that some table holds under the needle's key for it, in
    /// increasing order: every code that agrees with the needle on a window.
    pub fn candidate_indices(&self, needle_index_values: &Vec<u64>) -> (r: Vec<usize>)
        requires
            self.wf(),
        ensures
            forall|a: int, b: int| 0 <= a < b < r@.len() ==> r@[a] < r@[b],
            forall|p: usize|
                r@.contains(p) <==> (p < self.value_count() && self.is_candidate(
                    needle_index_values@,
                    p,
                )),
    {
        let keys = needle_index_values;
        let n = self.num_values;
        let mut seen: Vec<bool> = vec![false; n];
        let m = if self.indexes.len() < keys.len() {
            self.indexes.len()
        } else {
            keys.len()
        };
        for j in 0..m
            invariant
                n == self.num_values,
                self.wf(),
                m <= self.indexes@.len(),
                m <= keys@.len(),
                m == vstd::math::min(self.table_count() as int, keys@.len() as int),
                seen@.len() == n,
                forall|p: usize| p < n ==> #[trigger] seen@[p as int] == self.hit_before(keys@, j as int, p),
        {
            let key = keys[j];
            match self.indexes[j].get(&key) {
                Some(list) => {
                    assert(list@ == self.entries(j as int, key));
                    for t in 0..list.len()
                        invariant
                            n == self.num_values,
                            self.wf(),
                            j < self.indexes@.len(),
                            list@ == self.entries(j as int, key),
                            key == keys@[j as int],
                            seen@.len() == n,
                            forall|p: usize|
                                p < n ==> #[trigger] seen@[p as int] == (self.hit_before(keys@, j as int, p)
                                    || list@.take(t as int).contains(p)),
                    {
                        let p0 = list[t];
                        assert(self.entries(j as int, key).contains(p0));
                        seen.set(p0, true);
                        assert(list@.take(t + 1) == list@.take(t as int).push(p0));
                        assert forall|p: usize| p < n implies #[trigger] seen@[p as int] == (self.hit_before(
                            keys@,
                            j as int,
                            p,
                        ) || list@.take(t + 1).contains(p)) by {
                            if p == p0 {
                                assert(list@.take(t + 1)[t as int] == p0);
                            } else if list@.take(t + 1).contains(p) {
                                let i = choose|i: int| 0 <= i < t + 1 && #[trigger] list@.take(t + 1)[i] == p;
                                assert(list@.take(t as int)[i] == p);
                            }
                        }
                    }
                    assert(list@.take(list@.len() as int) == list@);
                },
                None => {
                    assert(self.entries(j as int, key) == Seq::<usize>::empty());
                },
            }
            assert forall|p: usize| p < n implies #[trigger] seen@[p as int] == self.hit_before(
                keys@,
                j + 1,
                p,
            ) by {
                if self.entries(j as int, keys@[j as int]).contains(p) {
                    assert(self.hit_before(keys@, j + 1, p));
                }
                if self.hit_before(keys@, j + 1, p) {
                    let j2 = choose|j2: int| 0 <= j2 < j + 1 && #[trigger] self.entries(j2, keys@[j2]).contains(p);
                    if j2 < j {
                        assert(self.hit_before(keys@, j as int, p));
                    }
                }
            }
        }
        let mut out: Vec<usize> = Vec::new();
        for p in 0..n
            invariant
                n == self.num_values,
                self.wf(),
                seen@.len() == n,
                m == vstd::math::min(self.table_count() as int, keys@.len() as int),
                forall|q: usize| q < n ==> #[trigger] seen@[q as int] == self.hit_before(keys@, m as int, q),
                forall|a: int, b: int| 0 <= a < b < out@.len() ==> out@[a] < out@[b],
                forall|a: int| 0 <= a < out@.len() ==> out@[a] < p,
                forall|q: usize| out@.contains(q) <==> (q < p && self.hit_before(keys@, m as int, q)),
        {
            let ghost old_out = out@;
            if seen[p] {
                out.push(p);
            }
            assert(out@ == old_out || out@ == old_out.push(p));
            assert forall|q: usize| out@.contains(q) <==> (q < p + 1 && self.hit_before(keys@, m as int, q)) by {
                if out@.contains(q) {
                    let i = choose|i: int| 0 <= i < out@.len() && #[trigger] out@[i] == q;
                    if i < old_out.len() {
                        assert(old_out[i] == q);
                        assert(old_out.contains(q));
                    }
                }
                if q < p && self.hit_before(keys@, m as int, q) {
                    assert(old_out.contains(q));
                    let i = choose|i: int| 0 <= i < old_out.len() && #[trigger] old_out[i] == q;
                    assert(out@[i] == q);
                }
                if q == p && self.hit_before(keys@, m as int, q) {
                    assert(out@[out@.len() - 1] == q);
                }
            }
        }
        proof {
            assert forall|q: usize| out@.contains(q) implies q < self.value_count() by {
                let i = choose|i: int| 0 <= i < out@.len() && #[trigger] out@[i] == q;
            }
        }
        out
    }

    /// The number of tables.
    pub fn len(&self) -> (r: usize)
        ensures
            r == self.table_count(),
    {
        self.indexes.len()
    }

    /// The largest radius within which a search through the index finds every
    /// match: one less than the number of windows.
    pub fn max_searchable_radius(&self) -> (r: usize)
        requires
            self.table_count() >= 1,
        ensures
            r == self.table_count() - 1,
    {
        self.indexes.len() - 1
    }
}

} // verus!
