use crate::bit_code::{
    effective_width, hamming, lemma_hamming_self, lemma_shared_window, lemma_window_key_bound,
    window_key, BitCode, MAX_WINDOW_WIDTH,
};
use crate::bit_code_index::BitCodeIndex;
use crate::utils::{get_num_indexes, num_windows};
use vstd::prelude::*;

verus! {

/// Whether `a` and `b` have the same key on one of the first `m` windows of `w` bits.
pub open spec fn shares_window(a: Seq<bool>, b: Seq<bool>, w: nat, m: nat) -> bool {
    exists|j: int| 0 <= j < m && #[trigger] window_key(a, j * w, w) == window_key(b, j * w, w)
}

/// The tables of `index` hold exactly the first `count` codes, each under its key for each window.
pub open spec fn index_describes(index: BitCodeIndex, codes: Seq<Seq<bool>>, count: nat) -> bool {
    let w = index.width();
    &&& forall|j: int, key: u64, p: usize|
        0 <= j < index.table_count() && #[trigger] index.entries(j, key).contains(p) ==> p < count
            && window_key(codes[p as int], j * w, w) == key
    &&& forall|j: int, p: usize|
        0 <= j < index.table_count() && p < count ==> #[trigger] index.entries(
            j,
            window_key(codes[p as int], j * w, w) as u64,
        ).contains(p)
}

/// Whether `p` is in one of the first `k` groups.
pub open spec fn grouped_before(groups: Seq<Seq<usize>>, k: int, p: usize) -> bool {
    exists|k2: int| 0 <= k2 < k && #[trigger] groups[k2].contains(p)
}

/// Group `k` is nonempty and increasing; its first position, the representative, is the
/// lowest position that no earlier group holds; and it holds exactly the positions that no
/// earlier group holds and whose code is within `radius` of the representative's.
pub open spec fn group_formed(codes: Seq<Seq<bool>>, radius: nat, groups: Seq<Seq<usize>>, k: int) -> bool {
    let g = groups[k];
    &&& g.len() > 0
    &&& forall|a: int, b: int| 0 <= a < b < g.len() ==> g[a] < g[b]
    &&& g[0] < codes.len()
    &&& !grouped_before(groups, k, g[0])
    &&& forall|p: usize| p < g[0] ==> grouped_before(groups, k, p)
    &&& forall|p: usize|
        #[trigger] g.contains(p) <==> (p < codes.len() && !grouped_before(groups, k, p) && hamming(
            codes[g[0] as int],
            codes[p as int],
        ) <= radius)
}

/// `groups` is the single-hop resolution of `codes` at `radius`: each group formed around
/// the lowest position left, until every position is in a group.
pub open spec fn is_resolution(codes: Seq<Seq<bool>>, radius: nat, groups: Seq<Seq<usize>>) -> bool {
    &&& forall|k: int| 0 <= k < groups.len() ==> #[trigger] group_formed(codes, radius, groups, k)
    &&& forall|p: usize| p < codes.len() ==> grouped_before(groups, groups.len() as int, p)
}

/// The groups as sequences.
pub open spec fn group_views(groups: Seq<Vec<usize>>) -> Seq<Seq<usize>> {
    groups.map_values(|g: Vec<usize>| g@)
}

/// The groups of a resolution partition the positions: no position is in two groups,
/// and the positions in groups are exactly those of the codes.
pub proof fn lemma_resolution_partitions(codes: Seq<Seq<bool>>, radius: nat, groups: Seq<Seq<usize>>)
    requires
        is_resolution(codes, radius, groups),
    ensures
        forall|k1: int, k2: int, p: usize|
            0 <= k1 < k2 < groups.len() ==> !(#[trigger] groups[k1].contains(p) && #[trigger] groups[k2].contains(p)),
        forall|p: usize| #[trigger] grouped_before(groups, groups.len() as int, p) <==> p < codes.len(),
{
    assert forall|k1: int, k2: int, p: usize|
        0 <= k1 < k2 < groups.len() implies !(#[trigger] groups[k1].contains(p) && #[trigger] groups[k2].contains(p)) by {
        assert(group_formed(codes, radius, groups, k2));
    }
    assert forall|p: usize| #[trigger] grouped_before(groups, groups.len() as int, p) implies p < codes.len() by {
        let k = choose|k: int| 0 <= k < groups.len() && #[trigger] groups[k].contains(p);
        assert(group_formed(codes, radius, groups, k));
    }
}

/// A neighbour found by a k-nearest search: a position and its distance from the needle.
#[derive(Debug)]
pub struct SearchResult {
    idx: usize,
    distance: usize,
}

impl SearchResult {
    /// The position of the code.
    pub closed spec fn spec_idx(&self) -> usize {
        self.idx
    }

    /// The code's distance from the needle.
    pub closed spec fn spec_distance(&self) -> usize {
        self.distance
    }

    /// The key results are ordered by: the distance.
    pub fn by_distance(&self) -> (r: usize)
        ensures
            r == self.spec_distance(),
    {
        self.distance
    }

    /// The code's distance from the needle.
    pub fn distance(&self) -> (r: usize)
        ensures
            r == self.spec_distance(),
    {
        self.distance
    }

    /// The position of the code.
    pub fn idx(&self) -> (r: usize)
        ensures
            r == self.spec_idx(),
    {
        self.idx
    }
}

/// `a` comes before `b`: by distance, then by position.
pub open spec fn result_before(a: SearchResult, b: SearchResult) -> bool {
    a.spec_distance() < b.spec_distance() || (a.spec_distance() == b.spec_distance()
        && a.spec_idx() < b.spec_idx())
}

/// Whether the results hold position `i`.
pub open spec fn holds_position(r: Seq<SearchResult>, i: int) -> bool {
    exists|t: int| 0 <= t < r.len() && #[trigger] r[t].spec_idx() == i
}

/// `r` is what a k-nearest search for `needle` returns over the first `m` codes: each
/// result with its true distance, ordered by distance then position; a position is
/// returned exactly when its distance is at most the last result's; at least `k`
/// results where there are `k` codes, and all codes where fewer than `k` are returned;
/// and results past the `k`-th only where they tie with it.
pub open spec fn is_knn_result(codes: Seq<Seq<bool>>, needle: Seq<bool>, k: nat, r: Seq<SearchResult>, m: nat) -> bool {
    &&& forall|t: int|
        0 <= t < r.len() ==> (#[trigger] r[t]).spec_idx() < m && r[t].spec_distance() == hamming(
            codes[r[t].spec_idx() as int],
            needle,
        )
    &&& forall|a: int, b: int| 0 <= a < b < r.len() ==> result_before(#[trigger] r[a], #[trigger] r[b])
    &&& forall|i: int|
        0 <= i < m ==> (#[trigger] holds_position(r, i) <==> (r.len() > 0 && hamming(codes[i], needle)
            <= r.last().spec_distance()))
    &&& r.len() >= vstd::math::min(k as int, m as int)
    &&& r.len() < k ==> forall|i: int| 0 <= i < m ==> #[trigger] holds_position(r, i)
    &&& k == 0 ==> r.len() == 0
    &&& r.len() > k > 0 ==> r[k - 1].spec_distance() == r.last().spec_distance()
}

/// Every neighbour a k-nearest search returns is at least as near to the needle as
/// every code it leaves out.
pub proof fn lemma_knn_nearest_first(codes: Seq<Seq<bool>>, needle: Seq<bool>, k: nat, r: Seq<SearchResult>)
    requires
        is_knn_result(codes, needle, k, r, codes.len()),
    ensures
        forall|t: int, i: int|
            0 <= t < r.len() && 0 <= i < codes.len() && !#[trigger] holds_position(r, i) ==> (#[trigger] r[t]).spec_distance()
                <= hamming(codes[i], needle),
{
    assert forall|t: int, i: int|
        0 <= t < r.len() && 0 <= i < codes.len() && !#[trigger] holds_position(r, i) implies (#[trigger] r[t]).spec_distance()
            <= hamming(codes[i], needle) by {
        if t < r.len() - 1 {
            assert(result_before(r[t], r[r.len() - 1]));
        }
    }
}

/// Every result comes before the next: by distance, then by position.
pub open spec fn in_order(r: Seq<SearchResult>) -> bool {
    forall|a: int, b: int| 0 <= a < b < r.len() ==> result_before(#[trigger] r[a], #[trigger] r[b])
}

/// Inserts `e` after every result no farther than it.
fn insert_in_order(results: &mut Vec<SearchResult>, e: SearchResult)
    requires
        in_order(old(results)@),
        forall|t: int| 0 <= t < old(results)@.len() ==> (#[trigger] old(results)@[t]).spec_idx() < e.spec_idx(),
    ensures
        in_order(final(results)@),
        final(results)@.len() == old(results)@.len() + 1,
        forall|t: int|
            0 <= t < final(results)@.len() ==> #[trigger] final(results)@[t] == e || old(results)@.contains(final(results)@[t]),
        forall|i: int| #[trigger] holds_position(final(results)@, i) == (i == e.spec_idx() || holds_position(old(results)@, i)),
        forall|t: int|
            0 <= t < old(results)@.len() ==> (#[trigger] final(results)@[t]).spec_distance() <= old(results)@[t].spec_distance(),
{
    let ghost old_r = results@;
    let d = e.distance;
    let mut pos = results.len();
    while pos > 0 && results[pos - 1].distance > d
        invariant
            pos <= results@.len(),
            results@ == old_r,
            forall|t: int| pos <= t < old_r.len() ==> (#[trigger] old_r[t]).spec_distance() > d,
        decreases pos,
    {
        pos = pos - 1;
    }
    assert forall|t: int| 0 <= t < pos implies (#[trigger] old_r[t]).spec_distance() <= d by {
        if t < pos - 1 {
            assert(result_before(old_r[t], old_r[pos - 1]));
        }
    }
    results.insert(pos, e);
    let ghost pr = results@;
    assert(pr == old_r.insert(pos as int, e));
    assert forall|t: int| 0 <= t < pr.len() implies #[trigger] pr[t] == e || old_r.contains(pr[t]) by {
        if t < pos {
            assert(pr[t] == old_r[t]);
        } else if t > pos {
            assert(pr[t] == old_r[t - 1]);
        }
    }
    assert forall|a: int, b: int| 0 <= a < b < pr.len() implies result_before(#[trigger] pr[a], #[trigger] pr[b]) by {
        if b < pos {
            assert(pr[a] == old_r[a] && pr[b] == old_r[b]);
        } else if b == pos {
            assert(pr[a] == old_r[a]);
        } else if a < pos {
            assert(pr[a] == old_r[a] && pr[b] == old_r[b - 1]);
        } else if a == pos {
            assert(pr[b] == old_r[b - 1]);
        } else {
            assert(pr[a] == old_r[a - 1] && pr[b] == old_r[b - 1]);
        }
    }
    assert forall|i: int| #[trigger] holds_position(pr, i) == (i == e.spec_idx() || holds_position(old_r, i)) by {
        if holds_position(pr, i) && i != e.spec_idx() {
            let t = choose|t: int| 0 <= t < pr.len() && #[trigger] pr[t].spec_idx() == i;
            if t < pos {
                assert(old_r[t].spec_idx() == i);
            } else {
                assert(old_r[t - 1].spec_idx() == i);
            }
        }
        if i == e.spec_idx() {
            assert(pr[pos as int].spec_idx() == i);
        }
        if holds_position(old_r, i) {
            let t = choose|t: int| 0 <= t < old_r.len() && #[trigger] old_r[t].spec_idx() == i;
            if t < pos {
                assert(pr[t].spec_idx() == i);
            } else {
                assert(pr[t + 1].spec_idx() == i);
            }
        }
    }
    assert forall|t: int| 0 <= t < old_r.len() implies (#[trigger] pr[t]).spec_distance() <= old_r[t].spec_distance() by {
        if t > pos {
            assert(pr[t] == old_r[t - 1]);
            assert(result_before(old_r[t - 1], old_r[t]));
        }
    }
}

/// Keeps the first `k` results and those after them tied with the `k`-th.
fn drop_past_kth(results: &mut Vec<SearchResult>, k: usize)
    requires
        in_order(old(results)@),
        1 <= k < old(results)@.len(),
    ensures
        k <= final(results)@.len() <= old(results)@.len(),
        final(results)@ == old(results)@.take(final(results)@.len() as int),
        forall|t: int|
            0 <= t < old(results)@.len() ==> (t < final(results)@.len() <==> (#[trigger] old(results)@[t]).spec_distance()
                <= old(results)@[k - 1].spec_distance()),
{
    let ghost pr = results@;
    let threshold = results[k - 1].distance;
    let mut cut = k;
    assert forall|t: int| 0 <= t < k implies (#[trigger] pr[t]).spec_distance() <= threshold by {
        if t < k - 1 {
            assert(result_before(pr[t], pr[k - 1]));
        }
    }
    while cut < results.len() && results[cut].distance <= threshold
        invariant
            k <= cut <= results@.len(),
            results@ == pr,
            threshold == pr[k - 1].spec_distance(),
            forall|t: int| 0 <= t < cut ==> (#[trigger] pr[t]).spec_distance() <= threshold,
        decreases results@.len() - cut,
    {
        cut = cut + 1;
    }
    assert forall|t: int| cut <= t < pr.len() implies (#[trigger] pr[t]).spec_distance() > threshold by {
        if t > cut {
            assert(result_before(pr[cut as int], pr[t]));
        }
    }
    results.truncate(cut);
}

/// A collection of codes, each with an outside identifier, in the order they were
/// added, with a multi-index over the codes present when it was last built.
#[derive(Debug)]
pub struct BitCodePool {
    bit_codes: Vec<BitCode>,
    ids: Vec<u64>,
    index: BitCodeIndex,
    num_bits: usize,
}

impl BitCodePool {
    /// The codes, by position.
    pub closed spec fn codes(&self) -> Seq<Seq<bool>> {
        self.bit_codes@.map_values(|c: BitCode| c@)
    }

    /// The identifiers, by position.
    pub closed spec fn id_values(&self) -> Seq<u64> {
        self.ids@
    }

    /// The length of every code in the pool.
    pub closed spec fn code_length(&self) -> nat {
        self.num_bits as nat
    }

    /// The width of the index's windows.
    pub closed spec fn index_width(&self) -> nat {
        self.index.width()
    }

    /// The number of the index's windows; zero before the index is first built.
    pub closed spec fn index_windows(&self) -> nat {
        self.index.table_count()
    }

    /// How many codes (the first ones) the index was built over.
    pub closed spec fn indexed_count(&self) -> nat {
        self.index.value_count()
    }

    /// Identifiers match codes one for one, every code has the pool's length, and the
    /// index (once built) has one table per window and describes the codes it was built over.
    pub closed spec fn wf(&self) -> bool {
        &&& self.ids@.len() == self.bit_codes@.len()
        &&& forall|i: int| 0 <= i < self.bit_codes@.len() ==> (#[trigger] self.bit_codes@[i])@.len() == self.num_bits
        &&& self.index.wf()
        &&& self.index.value_count() <= self.bit_codes@.len()
        &&& self.index.table_count() > 0 ==> {
            &&& 1 <= self.index.width() <= MAX_WINDOW_WIDTH
            &&& self.index.table_count() == num_windows(self.num_bits as nat, self.index.width())
        }
        &&& index_describes(self.index, self.codes(), self.index.value_count())
    }

    /// What a linear search finds: the positions whose code is within `radius` of the needle.
    pub open spec fn search_matches(&self, needle: Seq<bool>, radius: nat, i: int) -> bool {
        0 <= i < self.codes().len() && hamming(self.codes()[i], needle) <= radius
    }

    /// What a search through the index finds: the indexed positions whose code shares
    /// a window key with the needle and is within `radius` of it.
    pub open spec fn index_matches(&self, needle: Seq<bool>, radius: nat, i: int) -> bool {
        &&& 0 <= i < self.indexed_count()
        &&& shares_window(
            self.codes()[i],
            needle,
            self.index_width(),
            vstd::math::min(
                self.index_windows() as int,
                num_windows(needle.len(), self.index_width()) as int,
            ) as nat,
        )
        &&& hamming(self.codes()[i], needle) <= radius
    }

    /// An empty pool for codes of `num_bits` bits, with no index.
    pub fn new(num_bits: usize) -> (r: BitCodePool)
        ensures
            r.wf(),
            r.codes() == Seq::<Seq<bool>>::empty(),
            r.id_values() == Seq::<u64>::empty(),
            r.code_length() == num_bits,
            r.index_windows() == 0,
    {
        let r = BitCodePool {
            bit_codes: Vec::new(),
            ids: Vec::new(),
            index: BitCodeIndex::new(),
            num_bits,
        };
        assert(r.codes() =~= Seq::<Seq<bool>>::empty());
        r
    }

    /// Appends a code with its identifier. The index is left as it was.
    pub fn add(&mut self, bit_code: BitCode, id: u64)
        requires
            old(self).wf(),
            bit_code@.len() == old(self).code_length(),
        ensures
            final(self).wf(),
            final(self).codes() == old(self).codes().push(bit_code@),
            final(self).id_values() == old(self).id_values().push(id),
            final(self).code_length() == old(self).code_length(),
            final(self).index_width() == old(self).index_width(),
            final(self).index_windows() == old(self).index_windows(),
            final(self).indexed_count() == old(self).indexed_count(),
    {
        let ghost pre = self.codes();
        self.bit_codes.push(bit_code);
        self.ids.push(id);
        assert(self.codes() =~= pre.push(bit_code@));
        assert forall|j: int, key: u64, p: usize|
            0 <= j < self.index.table_count() && #[trigger] self.index.entries(j, key).contains(
                p,
            ) implies p < self.index.value_count() && window_key(
            self.codes()[p as int],
            j * self.index.width(),
            self.index.width(),
        ) == key by {
            assert(pre[p as int] == self.codes()[p as int]);
        }
        assert forall|j: int, p: usize|
            0 <= j < self.index.table_count() && p < self.index.value_count() implies #[trigger] self.index.entries(
            j,
            window_key(self.codes()[p as int], j * self.index.width(), self.index.width()) as u64,
        ).contains(p) by {
            assert(pre[p as int] == self.codes()[p as int]);
        }
    }

    /// The code at position `i`, if there is one.
    pub fn get(&self, i: usize) -> (r: Option<&BitCode>)
        ensures
            i < self.codes().len() ==> r.is_some() && r.unwrap()@ == self.codes()[i as int],
            i >= self.codes().len() ==> r.is_none(),
    {
        if i < self.bit_codes.len() {
            return Some(&self.bit_codes[i]);
        }
        None
    }

    /// The number of codes.
    pub fn len(&self) -> (r: usize)
        ensures
            r == self.codes().len(),
    {
        self.bit_codes.len()
    }

    /// The length of every code in the pool.
    pub fn num_bits(&self) -> (r: usize)
        ensures
            r == self.code_length(),
    {
        self.num_bits
    }

    /// The largest radius within which a search through the index is complete.
    pub fn index_max_searchable_radius(&self) -> (r: usize)
        requires
            self.wf(),
            self.index_windows() >= 1,
        ensures
            r == self.index_windows() - 1,
    {
        self.index.max_searchable_radius()
    }

    /// Builds the multi-index over the codes now in the pool, with windows of
    /// `bits_per_index` bits (taken as at least 1 and at most 64).
    pub fn index(&mut self, bits_per_index: usize)
        requires
            old(self).wf(),
        ensures
            final(self).wf(),
            final(self).codes() == old(self).codes(),
            final(self).id_values() == old(self).id_values(),
            final(self).code_length() == old(self).code_length(),
            final(self).index_width() == effective_width(bits_per_index),
            final(self).index_windows() == num_windows(
                old(self).code_length(),
                effective_width(bits_per_index),
            ),
            final(self).indexed_count() == old(self).codes().len(),
    {
        let w: usize = if bits_per_index < 1 {
            1
        } else if bits_per_index > MAX_WINDOW_WIDTH {
            MAX_WINDOW_WIDTH
        } else {
            bits_per_index
        };
        let num_indexes = if self.num_bits == 0 {
            0
        } else {
            get_num_indexes(self.num_bits, w)
        };
        let ghost codes0 = self.bit_codes@;
        let ghost ids0 = self.ids@;
        let ghost num_bits0 = self.num_bits;
        self.index.init(w, num_indexes);
        let n = self.bit_codes.len();
        for i in 0..n
            invariant
                self.bit_codes@ == codes0,
                self.ids@ == ids0,
                self.num_bits == num_bits0,
                n == self.bit_codes@.len(),
                self.ids@.len() == n,
                forall|i2: int| 0 <= i2 < n ==> (#[trigger] self.bit_codes@[i2])@.len() == self.num_bits,
                self.index.wf(),
                self.index.width() == w,
                w == effective_width(bits_per_index),
                1 <= w <= MAX_WINDOW_WIDTH,
                self.index.table_count() == num_indexes,
                num_indexes == num_windows(self.num_bits as nat, w as nat),
                self.index.value_count() == i,
                index_describes(self.index, self.codes(), i as nat),
        {
            let keys = self.bit_codes[i].index_values(w);
            let ghost pre = self.index;
            let ghost codes = self.codes();
            assert(codes[i as int] == self.bit_codes@[i as int]@);
            self.index.add(&keys, i);
            assert forall|j: int, key: u64, p: usize|
                0 <= j < self.index.table_count() && #[trigger] self.index.entries(j, key).contains(
                    p,
                ) implies p < i + 1 && window_key(codes[p as int], j * w, w as nat) == key by {
                if key == keys@[j] {
                    let e = self.index.entries(j, key);
                    let t = choose|t: int| 0 <= t < e.len() && e[t] == p;
                    if t < pre.entries(j, key).len() {
                        assert(pre.entries(j, key)[t] == p);
                        assert(pre.entries(j, key).contains(p));
                    }
                } else {
                    assert(pre.entries(j, key).contains(p));
                }
            }
            assert forall|j: int, p: usize|
                0 <= j < self.index.table_count() && p < i + 1 implies #[trigger] self.index.entries(
                j,
                window_key(codes[p as int], j * w, w as nat) as u64,
            ).contains(p) by {
                let key = window_key(codes[p as int], j * w, w as nat) as u64;
                lemma_window_key_bound(codes[p as int], j * w, w as nat);
                vstd::arithmetic::power2::lemma2_to64();
                if w < 64 {
                    vstd::arithmetic::power2::lemma_pow2_strictly_increases(w as nat, 64);
                }
                if p < i {
                    assert(pre.entries(j, key).contains(p));
                    let t = choose|t: int| 0 <= t < pre.entries(j, key).len() && pre.entries(j, key)[t] == p;
                    assert(self.index.entries(j, key)[t] == p);
                } else {
                    assert(key == keys@[j]);
                    let e = self.index.entries(j, key);
                    assert(e[e.len() - 1] == p);
                }
            }
        }
    }

    /// The positions of the codes within `radius` of `needle`, in increasing order,
    /// found through the index: only codes that share a window key with the needle
    /// are compared. `None` where the index cannot vouch for completeness: before it
    /// is built, or for a radius above the largest searchable one.
    pub fn search_with_index(&self, needle: &BitCode, radius: usize) -> (r: Option<Vec<usize>>)
        requires
            self.wf(),
        ensures
            r.is_none() <==> (self.index_windows() == 0 || radius > self.index_windows() - 1),
            r.is_some() ==> forall|a: int, b: int|
                0 <= a < b < r.unwrap()@.len() ==> r.unwrap()@[a] < r.unwrap()@[b],
            r.is_some() ==> forall|i: usize|
                r.unwrap()@.contains(i) <==> self.index_matches(needle@, radius as nat, i as int),
    {
        if self.index.len() == 0 || radius > self.index.max_searchable_radius() {
            return None;
        }
        let w = self.index.index_length();
        let keys = needle.index_values(w);
        let candidates = self.index.candidate_indices(&keys);
        let ghost m = vstd::math::min(self.index_windows() as int, keys@.len() as int);
        assert(effective_width(w) == w);
        assert forall|p: usize| p < self.indexed_count() implies (self.index.is_candidate(keys@, p)
            <==> shares_window(self.codes()[p as int], needle@, w as nat, m as nat)) by {
            if self.index.is_candidate(keys@, p) {
                let j = choose|j: int| 0 <= j < m && #[trigger] self.index.entries(j, keys@[j]).contains(p);
                assert(window_key(self.codes()[p as int], j * w, w as nat) == window_key(needle@, j * w, w as nat));
            }
            if shares_window(self.codes()[p as int], needle@, w as nat, m as nat) {
                let j = choose|j: int| 0 <= j < m && #[trigger] window_key(self.codes()[p as int], j * w, w as nat) == window_key(needle@, j * w, w as nat);
                lemma_window_key_bound(needle@, j * w, w as nat);
                vstd::arithmetic::power2::lemma2_to64();
                if w < 64 {
                    vstd::arithmetic::power2::lemma_pow2_strictly_increases(w as nat, 64);
                }
                assert(self.index.entries(j, window_key(self.codes()[p as int], j * w, w as nat) as u64).contains(p));
                assert(self.index.entries(j, keys@[j]).contains(p));
            }
        }
        let mut indices: Vec<usize> = Vec::new();
        for t in 0..candidates.len()
            invariant
                self.wf(),
                w == self.index_width(),
                m == vstd::math::min(self.index_windows() as int, num_windows(needle@.len(), w as nat) as int),
                forall|a: int, b: int| 0 <= a < b < candidates@.len() ==> candidates@[a] < candidates@[b],
                forall|p: usize| candidates@.contains(p) <==> (p < self.indexed_count() && shares_window(self.codes()[p as int], needle@, w as nat, m as nat)),
                forall|a: int, b: int| 0 <= a < b < indices@.len() ==> indices@[a] < indices@[b],
                forall|a: int| 0 <= a < indices@.len() ==> #[trigger] indices@[a] < (if t < candidates@.len() { candidates@[t as int] as int } else { usize::MAX as int + 1 }),
                forall|q: usize| indices@.contains(q) <==> (candidates@.take(t as int).contains(q) && hamming(self.codes()[q as int], needle@) <= radius),
        {
            let c = candidates[t];
            assert(candidates@.contains(c));
            assert(self.codes()[c as int] == self.bit_codes@[c as int]@);
            let ghost before = indices@;
            if self.bit_codes[c].hamming_distance(needle) <= radius {
                indices.push(c);
            }
            assert(candidates@.take(t + 1) == candidates@.take(t as int).push(c));
            assert forall|q: usize| indices@.contains(q) <==> (candidates@.take(t + 1).contains(q) && hamming(self.codes()[q as int], needle@) <= radius) by {
                if indices@.contains(q) {
                    let i = choose|i: int| 0 <= i < indices@.len() && #[trigger] indices@[i] == q;
                    if i < before.len() {
                        assert(before[i] == q);
                        assert(before.contains(q));
                        let k = choose|k: int| 0 <= k < t && #[trigger] candidates@.take(t as int)[k] == q;
                        assert(candidates@.take(t + 1)[k] == q);
                    } else {
                        assert(candidates@.take(t + 1)[t as int] == q);
                    }
                }
                if candidates@.take(t + 1).contains(q) && hamming(self.codes()[q as int], needle@) <= radius {
                    let k = choose|k: int| 0 <= k < t + 1 && #[trigger] candidates@.take(t + 1)[k] == q;
                    if k < t {
                        assert(candidates@.take(t as int)[k] == q);
                        assert(before.contains(q));
                        let i = choose|i: int| 0 <= i < before.len() && #[trigger] before[i] == q;
                        assert(indices@[i] == q);
                    } else {
                        assert(indices@[indices@.len() - 1] == q);
                    }
                }
            }
            assert forall|a: int| 0 <= a < indices@.len() implies #[trigger] indices@[a] < (if t + 1 < candidates@.len() { candidates@[t + 1] as int } else { usize::MAX as int + 1 }) by {
                if t + 1 < candidates@.len() {
                    assert(candidates@[t as int] < candidates@[t + 1]);
                }
            }
        }
        assert(candidates@.take(candidates@.len() as int) == candidates@);
        Some(indices)
    }

    /// Groups all positions into entities: repeatedly takes the lowest position not yet
    /// grouped and groups with it every position not yet grouped whose code is within
    /// `radius` of its code.
    pub fn resolve_entities(&self, radius: usize) -> (r: Vec<Vec<usize>>)
        requires
            self.wf(),
        ensures
            is_resolution(self.codes(), radius as nat, group_views(r@)),
    {
        let n = self.bit_codes.len();
        let ghost codes = self.codes();
        let mut assigned: Vec<bool> = vec![false; n];
        let mut groups: Vec<Vec<usize>> = Vec::new();
        for i in 0..n
            invariant
                n == codes.len(),
                codes == self.codes(),
                self.wf(),
                assigned@.len() == n,
                forall|p: usize| p < n ==> #[trigger] assigned@[p as int] == grouped_before(group_views(groups@), groups@.len() as int, p),
                forall|p: usize| p < i ==> #[trigger] assigned@[p as int],
                forall|k: int| 0 <= k < groups@.len() ==> #[trigger] group_formed(codes, radius as nat, group_views(groups@), k),
        {
            if !assigned[i] {
                let ghost assigned0 = assigned@;
                let mut group: Vec<usize> = Vec::new();
                assert(codes[i as int] == self.bit_codes@[i as int]@);
                for j in i..n
                    invariant
                        n == codes.len(),
                        codes == self.codes(),
                        self.wf(),
                        i < n,
                        !assigned0[i as int],
                        assigned@.len() == n,
                        j > i ==> group@.len() > 0 && group@[0] == i,
                        forall|a: int, b: int| 0 <= a < b < group@.len() ==> group@[a] < group@[b],
                        forall|a: int| 0 <= a < group@.len() ==> i <= #[trigger] group@[a] < j,
                        forall|p: usize| #[trigger] group@.contains(p) <==> (i <= p < j && !assigned0[p as int] && hamming(codes[i as int], codes[p as int]) <= radius),
                        forall|p: usize| p < n ==> #[trigger] assigned@[p as int] == (assigned0[p as int] || group@.contains(p)),
                {
                    assert(codes[j as int] == self.bit_codes@[j as int]@);
                    proof {
                        lemma_hamming_self(codes[i as int]);
                    }
                    let ghost before = group@;
                    if !assigned[j] && self.bit_codes[i].hamming_distance(&self.bit_codes[j]) <= radius {
                        group.push(j);
                        assigned.set(j, true);
                    }
                    assert forall|p: usize| #[trigger] group@.contains(p) <==> (i <= p < j + 1 && !assigned0[p as int] && hamming(codes[i as int], codes[p as int]) <= radius) by {
                        if group@.contains(p) {
                            let t = choose|t: int| 0 <= t < group@.len() && #[trigger] group@[t] == p;
                            if t < before.len() {
                                assert(before[t] == p);
                                assert(before.contains(p));
                            }
                        }
                        if i <= p < j && !assigned0[p as int] && hamming(codes[i as int], codes[p as int]) <= radius {
                            assert(before.contains(p));
                            let t = choose|t: int| 0 <= t < before.len() && #[trigger] before[t] == p;
                            assert(group@[t] == p);
                        }
                        if p == j && !assigned0[p as int] && hamming(codes[i as int], codes[p as int]) <= radius {
                            assert(group@[group@.len() - 1] == p);
                        }
                    }
                    assert forall|p: usize| p < n implies #[trigger] assigned@[p as int] == (assigned0[p as int] || group@.contains(p)) by {
                        if p != j && group@.contains(p) {
                            let t = choose|t: int| 0 <= t < group@.len() && #[trigger] group@[t] == p;
                            if t < before.len() {
                                assert(before[t] == p);
                                assert(before.contains(p));
                            }
                        }
                        if before.contains(p) {
                            let t = choose|t: int| 0 <= t < before.len() && #[trigger] before[t] == p;
                            assert(group@[t] == p);
                        }
                    }
                }
                let ghost gv0 = group_views(groups@);
                let ghost g = group@;
                groups.push(group);
                let ghost gv = group_views(groups@);
                assert(gv =~= gv0.push(g));
                let ghost k = gv0.len() as int;
                assert forall|k1: int, p: usize| 0 <= k1 <= k implies #[trigger] grouped_before(gv, k1, p) == grouped_before(gv0, k1, p) by {
                    if grouped_before(gv, k1, p) {
                        let k2 = choose|k2: int| 0 <= k2 < k1 && #[trigger] gv[k2].contains(p);
                        assert(gv0[k2].contains(p));
                    }
                    if grouped_before(gv0, k1, p) {
                        let k2 = choose|k2: int| 0 <= k2 < k1 && #[trigger] gv0[k2].contains(p);
                        assert(gv[k2].contains(p));
                    }
                }
                assert forall|k1: int| 0 <= k1 < gv.len() implies #[trigger] group_formed(codes, radius as nat, gv, k1) by {
                    if k1 < k {
                        assert(group_formed(codes, radius as nat, gv0, k1));
                        assert(gv[k1] == gv0[k1]);
                    } else {
                        assert(gv[k1] == g);
                        assert(g.contains(i));
                        assert forall|p: usize| #[trigger] g.contains(p) <==> (p < codes.len() && !grouped_before(gv, k1, p) && hamming(codes[g[0] as int], codes[p as int]) <= radius) by {
                            assert(grouped_before(gv, k1, p) == grouped_before(gv0, k1, p));
                            if p < i {
                                assert(assigned0[p as int]);
                            }
                        }
                        assert forall|p: usize| p < g[0] implies grouped_before(gv, k1, p) by {
                            assert(assigned0[p as int]);
                            assert(grouped_before(gv0, k1, p));
                        }
                        assert(grouped_before(gv, k1, g[0]) == grouped_before(gv0, k1, g[0]));
                    }
                }
                assert forall|p: usize| p < n implies #[trigger] assigned@[p as int] == grouped_before(gv, gv.len() as int, p) by {
                    if g.contains(p) {
                        assert(gv[k].contains(p));
                    }
                    if grouped_before(gv, gv.len() as int, p) {
                        let k2 = choose|k2: int| 0 <= k2 < gv.len() && #[trigger] gv[k2].contains(p);
                        if k2 < k {
                            assert(gv0[k2].contains(p));
                            assert(grouped_before(gv0, k, p));
                        }
                    }
                    if grouped_before(gv0, k, p) {
                        let k2 = choose|k2: int| 0 <= k2 < k && #[trigger] gv0[k2].contains(p);
                        assert(gv[k2].contains(p));
                    }
                }
            }
        }
        assert forall|p: usize| p < codes.len() implies grouped_before(group_views(groups@), groups@.len() as int, p) by {
            assert(assigned@[p as int]);
        }
        groups
    }

    /// The `k` codes nearest to `needle`, nearest first (ties by position), together
    /// with every further code tied with the `k`-th: each code is inserted in order
    /// and, past `k` results, those farther than the `k`-th are dropped.
    pub fn search_knn(&self, needle: &BitCode, k: usize) -> (r: Vec<SearchResult>)
        requires
            self.wf(),
        ensures
            is_knn_result(self.codes(), needle@, k as nat, r@, self.codes().len()),
    {
        let ghost codes = self.codes();
        let mut results: Vec<SearchResult> = Vec::new();
        if k == 0 {
            return results;
        }
        let n = self.bit_codes.len();
        for idx in 0..n
            invariant
                self.wf(),
                codes == self.codes(),
                n == codes.len(),
                k >= 1,
                is_knn_result(codes, needle@, k as nat, results@, idx as nat),
        {
            assert(codes[idx as int] == self.bit_codes@[idx as int]@);
            let d = self.bit_codes[idx].hamming_distance(needle);
            let ghost old_r = results@;
            let e = SearchResult { idx, distance: d };
            insert_in_order(&mut results, e);
            let ghost pr = results@;
            assert forall|t: int| 0 <= t < pr.len() implies (#[trigger] pr[t]).spec_idx() < idx + 1
                && pr[t].spec_distance() == hamming(codes[pr[t].spec_idx() as int], needle@) by {
                if pr[t] != e {
                    let t2 = choose|t2: int| 0 <= t2 < old_r.len() && old_r[t2] == pr[t];
                    assert(old_r[t2].spec_idx() < idx);
                }
            }
            if results.len() > k {
                let ghost threshold = pr[k - 1].spec_distance();
                drop_past_kth(&mut results, k);
                let ghost fr = results@;
                assert(threshold <= old_r.last().spec_distance()) by {
                    if k - 1 < old_r.len() - 1 {
                        assert(result_before(old_r[k - 1], old_r[old_r.len() - 1]));
                    }
                }
                assert(fr.last().spec_distance() == threshold) by {
                    assert(fr.last() == pr[fr.len() - 1]);
                    if fr.len() - 1 > k - 1 {
                        assert(result_before(pr[k - 1], pr[fr.len() - 1]));
                    }
                }
                assert forall|i: int| 0 <= i < idx + 1 implies #[trigger] holds_position(fr, i) == (
                hamming(codes[i], needle@) <= fr.last().spec_distance()) by {
                    if holds_position(fr, i) {
                        let t = choose|t: int| 0 <= t < fr.len() && #[trigger] fr[t].spec_idx() == i;
                        assert(pr[t] == fr[t]);
                    }
                    if hamming(codes[i], needle@) <= threshold {
                        if i < idx {
                            assert(holds_position(old_r, i));
                        }
                        assert(holds_position(pr, i));
                        let t = choose|t: int| 0 <= t < pr.len() && #[trigger] pr[t].spec_idx() == i;
                        assert(fr[t] == pr[t]);
                        assert(fr[t].spec_idx() == i);
                    }
                }
                assert forall|t: int| 0 <= t < fr.len() implies (#[trigger] fr[t]).spec_idx() < idx + 1
                    && fr[t].spec_distance() == hamming(codes[fr[t].spec_idx() as int], needle@) by {
                    assert(fr[t] == pr[t]);
                }
                assert forall|a: int, b: int| 0 <= a < b < fr.len() implies result_before(#[trigger] fr[a], #[trigger] fr[b]) by {
                    assert(fr[a] == pr[a] && fr[b] == pr[b]);
                }
            } else {
                assert forall|i: int| 0 <= i < idx + 1 implies #[trigger] holds_position(pr, i) == (
                hamming(codes[i], needle@) <= pr.last().spec_distance()) by {
                    if i < idx {
                        assert(holds_position(old_r, i));
                    }
                    assert(holds_position(pr, i));
                    let t = choose|t: int| 0 <= t < pr.len() && #[trigger] pr[t].spec_idx() == i;
                    if t < pr.len() - 1 {
                        assert(result_before(pr[t], pr[pr.len() - 1]));
                    }
                }
                assert forall|i: int| 0 <= i < idx + 1 implies #[trigger] holds_position(pr, i) by {
                    if i < idx {
                        assert(holds_position(old_r, i));
                    }
                }
            }
        }
        results
    }

    /// The positions of the codes within `radius` of `needle`, in increasing order,
    /// found by comparing the needle with every code.
    pub fn search(&self, needle: &BitCode, radius: usize) -> (r: Vec<usize>)
        requires
            self.wf(),
        ensures
            forall|a: int, b: int| 0 <= a < b < r@.len() ==> r@[a] < r@[b],
            forall|i: usize| r@.contains(i) <==> self.search_matches(needle@, radius as nat, i as int),
    {
        let mut indices: Vec<usize> = Vec::new();
        for i in 0..self.bit_codes.len()
            invariant
                self.wf(),
                forall|a: int, b: int| 0 <= a < b < indices@.len() ==> indices@[a] < indices@[b],
                forall|a: int| 0 <= a < indices@.len() ==> indices@[a] < i,
                forall|q: usize| indices@.contains(q) <==> (q < i && self.search_matches(needle@, radius as nat, q as int)),
        {
            let ghost before = indices@;
            assert(self.codes()[i as int] == self.bit_codes@[i as int]@);
            if self.bit_codes[i].hamming_distance(needle) <= radius {
                indices.push(i);
            }
            assert forall|q: usize| indices@.contains(q) <==> (q < i + 1 && self.search_matches(needle@, radius as nat, q as int)) by {
                if indices@.contains(q) {
                    let t = choose|t: int| 0 <= t < indices@.len() && #[trigger] indices@[t] == q;
                    if t < before.len() {
                        assert(before[t] == q);
                        assert(before.contains(q));
                    }
                }
                if q < i && self.search_matches(needle@, radius as nat, q as int) {
                    assert(before.contains(q));
                    let t = choose|t: int| 0 <= t < before.len() && #[trigger] before[t] == q;
                    assert(indices@[t] == q);
                }
                if q == i && self.search_matches(needle@, radius as nat, q as int) {
                    assert(indices@[indices@.len() - 1] == q);
                }
            }
        }
        indices
    }
}

/// A search through a fresh index finds the same positions as a linear search,
/// for every radius up to the largest searchable one.
pub proof fn lemma_index_search_is_complete(pool: BitCodePool, needle: Seq<bool>, radius: nat)
    requires
        pool.wf(),
        pool.indexed_count() == pool.codes().len(),
        pool.index_windows() >= 1,
        radius <= pool.index_windows() - 1,
        needle.len() == pool.code_length(),
    ensures
        forall|i: int| pool.index_matches(needle, radius, i) <==> pool.search_matches(needle, radius, i),
{
    assert forall|i: int| pool.search_matches(needle, radius, i) implies pool.index_matches(needle, radius, i) by {
        let c = pool.codes()[i];
        assert(c == pool.bit_codes@[i]@);
        lemma_shared_window(c, needle, pool.index_width());
    }
}

} // verus!
