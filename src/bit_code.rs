use bit_vec::BitVec;
use crate::utils::{chars_of, get_num_indexes, lemma_window_start, lemma_windows_cover, num_windows};
use vstd::arithmetic::power2::pow2;
use vstd::prelude::*;

verus! {

/// The bit vector of the bit_vec crate, opaque here: what it holds is `bits_of`.
#[verifier::external_type_specification]
#[verifier::external_body]
#[verifier::reject_recursive_types(B)]
pub struct ExBitVec<B>(BitVec<B>);

/// The bits that a `BitVec` holds, in order.
pub uninterp spec fn bits_of(v: BitVec) -> Seq<bool>;

/// Whether bit `j` (counting from the least significant) of a block is set.
pub open spec fn block_bit(x: u32, j: int) -> bool {
    (x >> (j as u32)) & 1u32 == 1u32
}

/// Relies on `BitVec::from_elem(n, false)`: `n` bits, all clear.
#[verifier::external_body]
fn bv_zeros(n: usize) -> (r: BitVec)
    ensures
        bits_of(r) == Seq::new(n as nat, |i: int| false),
{
    BitVec::from_elem(n, false)
}

/// Relies on `BitVec::len`: the number of bits.
#[verifier::external_body]
fn bv_len(v: &BitVec) -> (r: usize)
    ensures
        r == bits_of(*v).len(),
{
    v.len()
}

/// Relies on `BitVec::get`: the bit at `i`, or `None` past the end.
#[verifier::external_body]
fn bv_get(v: &BitVec, i: usize) -> (r: Option<bool>)
    ensures
        r == (if i < bits_of(*v).len() {
            Some(bits_of(*v)[i as int])
        } else {
            None::<bool>
        }),
{
    v.get(i)
}

/// Relies on `BitVec::set`, which panics past the end; `i` is in range here.
#[verifier::external_body]
fn bv_set(v: &mut BitVec, i: usize, x: bool)
    requires
        i < bits_of(*old(v)).len(),
    ensures
        bits_of(*final(v)) == bits_of(*old(v)).update(i as int, x),
{
    v.set(i, x)
}

/// Relies on `BitVec::storage`: the bits packed into 32-bit blocks, bit `32 * k + j`
/// at bit `j` of block `k`, no more blocks than the bits need, and the unused bits
/// of the last block clear.
#[verifier::external_body]
fn bv_storage(v: &BitVec) -> (r: &[u32])
    ensures
        r@.len() == (bits_of(*v).len() + 31) / 32,
        forall|k: int, j: int|
            0 <= k < r@.len() && 0 <= j < 32 ==> #[trigger] block_bit(r@[k], j) == (32 * k + j
                < bits_of(*v).len() && bits_of(*v)[32 * k + j]),
{
    v.storage()
}

/// Bit `i` of `s`, reading every position past the end as clear.
pub open spec fn padded(s: Seq<bool>, i: int) -> bool {
    0 <= i < s.len() && s[i]
}

/// The number of positions below `n` at which `a` and `b` differ, both read as padded.
pub open spec fn count_diff(a: Seq<bool>, b: Seq<bool>, n: nat) -> nat
    decreases n,
{
    if n == 0 {
        0
    } else {
        count_diff(a, b, (n - 1) as nat) + if padded(a, n - 1) != padded(b, n - 1) {
            1nat
        } else {
            0nat
        }
    }
}

/// The number of 32-bit blocks that hold `n` bits.
pub open spec fn num_blocks(n: nat) -> nat {
    (n + 31) / 32
}

/// The Hamming distance of two codes: the differing positions over the blocks
/// that both codes have.
pub open spec fn hamming(a: Seq<bool>, b: Seq<bool>) -> nat {
    count_diff(a, b, 32 * vstd::math::min(num_blocks(a.len()) as int, num_blocks(b.len()) as int) as nat)
}

/// The number of set bits.
pub open spec fn ones(s: Seq<bool>) -> nat {
    count_diff(s, Seq::empty(), s.len())
}


/// The number of set bits among the lowest `j` bits of a block.
pub open spec fn block_ones_upto(x: u32, j: nat) -> nat
    decreases j,
{
    if j == 0 {
        0
    } else {
        block_ones_upto(x, (j - 1) as nat) + if block_bit(x, j - 1) {
            1nat
        } else {
            0nat
        }
    }
}

proof fn lemma_xor_bit(x: u32, y: u32, j: u32)
    requires
        j < 32,
    ensures
        ((x ^ y) >> j) & 1u32 == 1u32 <==> (((x >> j) & 1u32 == 1u32) != ((y >> j) & 1u32
            == 1u32)),
{
    assert(((x ^ y) >> j) & 1u32 == 1u32 <==> (((x >> j) & 1u32 == 1u32) != ((y >> j) & 1u32
        == 1u32))) by (bit_vector)
        requires
            j < 32,
    ;
}

/// A block whose bits mark where `a` and `b` differ from `base` on adds its set bits
/// to the count of differences.
proof fn lemma_block_counts(x: u32, a: Seq<bool>, b: Seq<bool>, base: nat, j: nat)
    requires
        j <= 32,
        forall|t: int|
            0 <= t < 32 ==> #[trigger] block_bit(x, t) == (padded(a, base + t) != padded(
                b,
                base + t,
            )),
    ensures
        count_diff(a, b, base) + block_ones_upto(x, j) == count_diff(a, b, base + j),
    decreases j,
{
    if j > 0 {
        lemma_block_counts(x, a, b, base, (j - 1) as nat);
        assert(block_bit(x, j - 1) == (padded(a, base + (j - 1)) != padded(b, base + (j - 1))));
    }
}

/// Differences are at most the longer length, and at most the range counted.
pub proof fn lemma_count_diff_bound(a: Seq<bool>, b: Seq<bool>, n: nat)
    ensures
        count_diff(a, b, n) <= n,
        count_diff(a, b, n) <= vstd::math::max(a.len() as int, b.len() as int),
    decreases n,
{
    if n > 0 {
        lemma_count_diff_bound(a, b, (n - 1) as nat);
    }
}

/// Past the end of both codes the count does not grow.
pub proof fn lemma_count_diff_past_end(a: Seq<bool>, b: Seq<bool>, m: nat, n: nat)
    requires
        a.len() <= m,
        b.len() <= m,
        m <= n,
    ensures
        count_diff(a, b, n) == count_diff(a, b, m),
    decreases n - m,
{
    if m < n {
        lemma_count_diff_past_end(a, b, m, (n - 1) as nat);
    }
}

/// The count grows with the range counted.
pub proof fn lemma_count_diff_monotonic(a: Seq<bool>, b: Seq<bool>, m: nat, n: nat)
    requires
        m <= n,
    ensures
        count_diff(a, b, m) <= count_diff(a, b, n),
    decreases n - m,
{
    if m < n {
        lemma_count_diff_monotonic(a, b, m, (n - 1) as nat);
    }
}

/// The count is the same with the two codes swapped.
pub proof fn lemma_count_diff_symmetric(a: Seq<bool>, b: Seq<bool>, n: nat)
    ensures
        count_diff(a, b, n) == count_diff(b, a, n),
    decreases n,
{
    if n > 0 {
        lemma_count_diff_symmetric(a, b, (n - 1) as nat);
    }
}

/// A code differs from itself nowhere.
pub proof fn lemma_count_diff_self(a: Seq<bool>, n: nat)
    ensures
        count_diff(a, a, n) == 0,
    decreases n,
{
    if n > 0 {
        lemma_count_diff_self(a, (n - 1) as nat);
    }
}

/// Every code is at distance zero from itself.
pub proof fn lemma_hamming_self(x: Seq<bool>)
    ensures
        hamming(x, x) == 0,
{
    lemma_count_diff_self(x, 32 * num_blocks(x.len()));
}

/// The distance does not depend on the order of its arguments.
pub proof fn lemma_hamming_symmetric(x: Seq<bool>, y: Seq<bool>)
    ensures
        hamming(x, y) == hamming(y, x),
{
    let n = 32 * vstd::math::min(num_blocks(x.len()) as int, num_blocks(y.len()) as int) as nat;
    lemma_count_diff_symmetric(x, y, n);
}

/// Between codes of one length the distance is the number of positions at which they differ.
pub proof fn lemma_hamming_equal_lengths(x: Seq<bool>, y: Seq<bool>)
    requires
        x.len() == y.len(),
    ensures
        hamming(x, y) == count_diff(x, y, x.len()),
{
    lemma_count_diff_past_end(x, y, x.len(), 32 * num_blocks(x.len()));
}

/// A block of 32 bits, with the number of its set bits.
fn block_ones(x: u32) -> (r: u32)
    ensures
        r == block_ones_upto(x, 32),
{
    let mut c: u32 = 0;
    for j in 0..32u32
        invariant
            c == block_ones_upto(x, j as nat),
            c <= j,
    {
        if (x >> j) & 1u32 == 1u32 {
            c = c + 1;
        }
    }
    c
}

/// The widest window, in bits: a window's key is a 64-bit integer.
pub const MAX_WINDOW_WIDTH: usize = 64;

/// The width that a requested window width stands for: at least one bit, at most 64.
pub open spec fn effective_width(w: usize) -> nat {
    if w < 1 {
        1
    } else if w > MAX_WINDOW_WIDTH {
        MAX_WINDOW_WIDTH as nat
    } else {
        w as nat
    }
}

/// The key of the `w` bits of `s` from `start`: bit `start + t` is the bit of
/// weight `2^t`, positions past the end read as clear.
pub open spec fn window_key(s: Seq<bool>, start: int, w: nat) -> nat
    decreases w,
{
    if w == 0 {
        0
    } else {
        window_key(s, start, (w - 1) as nat) + if padded(s, start + w - 1) {
            pow2((w - 1) as nat)
        } else {
            0
        }
    }
}

/// A key fits in `w` bits.
pub proof fn lemma_window_key_bound(s: Seq<bool>, start: int, w: nat)
    ensures
        window_key(s, start, w) < pow2(w),
    decreases w,
{
    vstd::arithmetic::power2::lemma_pow2_pos(w);
    if w > 0 {
        lemma_window_key_bound(s, start, (w - 1) as nat);
        vstd::arithmetic::power2::lemma_pow2_unfold(w);
    }
}

/// Codes that agree on a window have the same key there.
pub proof fn lemma_window_key_agree(a: Seq<bool>, b: Seq<bool>, start: int, w: nat)
    requires
        forall|t: int| 0 <= t < w ==> #[trigger] padded(a, start + t) == padded(b, start + t),
    ensures
        window_key(a, start, w) == window_key(b, start, w),
    decreases w,
{
    if w > 0 {
        lemma_window_key_agree(a, b, start, (w - 1) as nat);
        assert(padded(a, start + (w - 1)) == padded(b, start + (w - 1)));
    }
}

/// A difference in a window adds to the count of differences over it.
proof fn lemma_window_difference(a: Seq<bool>, b: Seq<bool>, start: nat, w: nat, t: nat)
    requires
        t < w,
        padded(a, (start + t) as int) != padded(b, (start + t) as int),
    ensures
        count_diff(a, b, start + w) >= count_diff(a, b, start) + 1,
{
    lemma_count_diff_monotonic(a, b, start, start + t);
    lemma_count_diff_monotonic(a, b, start + t + 1, start + w);
}

/// Where each of the first `j` windows has different keys, there are at least `j`
/// differences before the end of the `j`-th window.
proof fn lemma_differing_windows(a: Seq<bool>, b: Seq<bool>, w: nat, j: int)
    requires
        w >= 1,
        j >= 0,
        forall|j2: int| 0 <= j2 < j ==> #[trigger] window_key(a, j2 * w, w) != window_key(b, j2 * w, w),
    ensures
        count_diff(a, b, (j * w) as nat) >= j,
    decreases j,
{
    if j > 0 {
        let i = j - 1;
        lemma_differing_windows(a, b, w, i);
        assert(0 <= i * w) by (nonlinear_arith)
            requires
                0 <= i,
        ;
        assert(window_key(a, i * w, w) != window_key(b, i * w, w));
        if forall|t: int| 0 <= t < w ==> #[trigger] padded(a, i * w + t) == padded(b, i * w + t) {
            lemma_window_key_agree(a, b, i * w, w);
        }
        let t = choose|t: int| 0 <= t < w && #[trigger] padded(a, i * w + t) != padded(b, i * w + t);
        lemma_window_difference(a, b, (i * w) as nat, w, t as nat);
        assert(j * w == i * w + w) by (nonlinear_arith)
            requires
                i == j - 1,
        ;
    }
}

/// Pigeonhole over the windows: two codes of one length that differ in fewer
/// positions than there are windows agree on the key of some window.
pub proof fn lemma_shared_window(a: Seq<bool>, b: Seq<bool>, w: nat)
    requires
        a.len() == b.len(),
        w >= 1,
        hamming(a, b) < num_windows(a.len(), w),
    ensures
        exists|j: int|
            0 <= j < num_windows(a.len(), w) && #[trigger] window_key(a, j * w, w) == window_key(
                b,
                j * w,
                w,
            ),
{
    let m = num_windows(a.len(), w);
    lemma_hamming_equal_lengths(a, b);
    if !exists|j: int| 0 <= j < m && #[trigger] window_key(a, j * w, w) == window_key(b, j * w, w) {
        lemma_differing_windows(a, b, w, m as int);
        lemma_windows_cover(a.len(), w);
        lemma_count_diff_past_end(a, b, a.len(), m * w);
    }
}

/// A fixed-length sequence of bits.
#[derive(Debug)]
pub struct BitCode {
    bits: BitVec,
}

impl View for BitCode {
    type V = Seq<bool>;

    closed spec fn view(&self) -> Seq<bool> {
        bits_of(self.bits)
    }
}

impl BitCode {
    /// A code of `num_bits` clear bits.
    pub fn new(num_bits: usize) -> (r: BitCode)
        ensures
            r@ == Seq::new(num_bits as nat, |i: int| false),
    {
        BitCode { bits: bv_zeros(num_bits) }
    }

    /// A code with one bit for each entry of `bools`.
    pub fn from_bools(bools: &Vec<bool>) -> (r: BitCode)
        ensures
            r@ == bools@,
    {
        let mut bits = bv_zeros(bools.len());
        for i in 0..bools.len()
            invariant
                bits_of(bits).len() == bools@.len(),
                forall|t: int| 0 <= t < i ==> bits_of(bits)[t] == bools@[t],
                forall|t: int| i <= t < bools@.len() ==> !bits_of(bits)[t],
        {
            bv_set(&mut bits, i, bools[i]);
        }
        proof {
            assert(bits_of(bits) =~= bools@);
        }
        BitCode { bits }
    }

    /// The number of bits.
    pub fn len(&self) -> (r: usize)
        ensures
            r == self@.len(),
    {
        bv_len(&self.bits)
    }

    /// A code with one bit for each character of `string`: set for '1', clear otherwise.
    pub fn from_bit_string(string: &str) -> (r: BitCode)
        ensures
            r@ == string@.map_values(|c: char| c == '1'),
    {
        let chars = chars_of(string);
        let mut bits = bv_zeros(chars.len());
        for i in 0..chars.len()
            invariant
                chars@ == string@,
                bits_of(bits).len() == chars@.len(),
                forall|t: int| 0 <= t < i ==> bits_of(bits)[t] == (chars@[t] == '1'),
        {
            bv_set(&mut bits, i, chars[i] == '1');
        }
        proof {
            assert(bits_of(bits) =~= string@.map_values(|c: char| c == '1'));
        }
        BitCode { bits }
    }

    /// The number of set bits, summed block by block.
    pub fn count_ones(&self) -> (r: usize)
        ensures
            r == ones(self@),
    {
        let blocks = bv_storage(&self.bits);
        let len = bv_len(&self.bits);
        let ghost s = self@;
        let ghost e = Seq::<bool>::empty();
        let mut n: usize = 0;
        for k in 0..blocks.len()
            invariant
                blocks@.len() == num_blocks(s.len()),
                s == self@,
                n == count_diff(s, e, 32 * k as nat),
                len == s.len(),
                e.len() == 0,
                forall|k2: int, j: int|
                    0 <= k2 < blocks@.len() && 0 <= j < 32 ==> #[trigger] block_bit(blocks@[k2], j)
                        == (32 * k2 + j < s.len() && s[32 * k2 + j]),
        {
            let x = blocks[k];
            proof {
                assert forall|t: int| 0 <= t < 32 implies #[trigger] block_bit(x, t) == (padded(
                    s,
                    32 * k + t,
                ) != padded(e, 32 * k + t)) by {
                    assert(block_bit(blocks@[k as int], t) == (32 * k + t < s.len() && s[32 * k + t]));
                    assert(!padded(e, 32 * k + t));
                }
                lemma_block_counts(x, s, e, 32 * k as nat, 32);
                lemma_count_diff_bound(s, e, 32 * k as nat + 32);
            }
            n = n + block_ones(x) as usize;
        }
        proof {
            lemma_count_diff_past_end(s, e, s.len(), 32 * blocks@.len());
        }
        n
    }

    /// The Hamming distance to `other`, over the blocks that both codes have:
    /// the set bits of the exclusive or of each pair of blocks.
    pub fn hamming_distance(&self, other: &BitCode) -> (r: usize)
        ensures
            r == hamming(self@, other@),
    {
        let s1 = bv_storage(&self.bits);
        let s2 = bv_storage(&other.bits);
        let len1 = bv_len(&self.bits);
        let len2 = bv_len(&other.bits);
        let ghost a = self@;
        let ghost b = other@;
        let m = if s1.len() < s2.len() {
            s1.len()
        } else {
            s2.len()
        };
        let mut d: usize = 0;
        for k in 0..m
            invariant
                m <= s1@.len(),
                m <= s2@.len(),
                m == vstd::math::min(num_blocks(a.len()) as int, num_blocks(b.len()) as int),
                s1@.len() == num_blocks(a.len()),
                s2@.len() == num_blocks(b.len()),
                d == count_diff(a, b, 32 * k as nat),
                len1 == a.len(),
                len2 == b.len(),
                forall|k2: int, j: int|
                    0 <= k2 < s1@.len() && 0 <= j < 32 ==> #[trigger] block_bit(s1@[k2], j) == (32
                        * k2 + j < a.len() && a[32 * k2 + j]),
                forall|k2: int, j: int|
                    0 <= k2 < s2@.len() && 0 <= j < 32 ==> #[trigger] block_bit(s2@[k2], j) == (32
                        * k2 + j < b.len() && b[32 * k2 + j]),
        {
            let x = s1[k] ^ s2[k];
            proof {
                assert forall|t: int| 0 <= t < 32 implies #[trigger] block_bit(x, t) == (padded(
                    a,
                    32 * k + t,
                ) != padded(b, 32 * k + t)) by {
                    lemma_xor_bit(s1@[k as int], s2@[k as int], t as u32);
                    assert(block_bit(s1@[k as int], t) == (32 * k + t < a.len() && a[32 * k + t]));
                    assert(block_bit(s2@[k as int], t) == (32 * k + t < b.len() && b[32 * k + t]));
                }
                lemma_block_counts(x, a, b, 32 * k as nat, 32);
                lemma_count_diff_bound(a, b, 32 * k as nat + 32);
            }
            d = d + block_ones(x) as usize;
        }
        d
    }

    /// The key of the window of `w` bits from `start`.
    fn window(&self, start: usize, w: usize) -> (r: u64)
        requires
            1 <= w <= MAX_WINDOW_WIDTH,
            start <= self@.len(),
        ensures
            r == window_key(self@, start as int, w as nat),
    {
        let n = self.len();
        let mut v: u64 = 0;
        for t in 0..w
            invariant
                n == self@.len(),
                start <= n,
                w <= 64,
                v == window_key(self@, start as int, t as nat),
        {
            proof {
                lemma_window_key_bound(self@, start as int, t as nat);
                vstd::bits::lemma_u64_pow2_no_overflow(t as nat);
                vstd::bits::lemma_u64_shl_is_mul(1u64, t as u64);
                vstd::arithmetic::power2::lemma_pow2_unfold((t + 1) as nat);
                vstd::arithmetic::power2::lemma2_to64();
                if t + 1 < 64 {
                    vstd::arithmetic::power2::lemma_pow2_strictly_increases((t + 1) as nat, 64);
                }
            }
            if t < n - start {
                if self.get(start + t) == Some(true) {
                    v = v + (1u64 << (t as u64));
                }
            }
        }
        v
    }

    /// The keys of the windows of `index_length` bits that cover the code, the last
    /// one padded with clear bits. The width is taken as at least 1 and at most 64.
    pub fn index_values(&self, index_length: usize) -> (r: Vec<u64>)
        ensures
            r@.len() == num_windows(self@.len(), effective_width(index_length)),
            forall|j: int|
                0 <= j < r@.len() ==> #[trigger] r@[j] == window_key(
                    self@,
                    j * effective_width(index_length),
                    effective_width(index_length),
                ),
    {
        let n = self.len();
        let w: usize = if index_length < 1 {
            1
        } else if index_length > MAX_WINDOW_WIDTH {
            MAX_WINDOW_WIDTH
        } else {
            index_length
        };
        let mut keys: Vec<u64> = Vec::new();
        if n == 0 {
            return keys;
        }
        let m = get_num_indexes(n, w);
        let mut start: usize = 0;
        assert(0 * w == 0);
        for j in 0..m
            invariant
                n == self@.len(),
                n >= 1,
                w == effective_width(index_length),
                1 <= w <= 64,
                m == num_windows(n as nat, w as nat),
                keys@.len() == j,
                j < m ==> start == j * w,
                forall|j2: int|
                    0 <= j2 < j ==> #[trigger] keys@[j2] == window_key(self@, j2 * w, w as nat),
        {
            proof {
                lemma_window_start(j as nat, n as nat, w as nat);
            }
            let key = self.window(start, w);
            keys.push(key);
            if j + 1 < m {
                proof {
                    lemma_window_start((j + 1) as nat, n as nat, w as nat);
                    assert((j + 1) * w == j * w + w) by (nonlinear_arith);
                }
                start = start + w;
            }
        }
        keys
    }

    /// The bit at `bit_number`, or `None` past the end.
    pub fn get(&self, bit_number: usize) -> (r: Option<bool>)
        ensures
            r == (if bit_number < self@.len() {
                Some(self@[bit_number as int])
            } else {
                None::<bool>
            }),
    {
        bv_get(&self.bits, bit_number)
    }

    /// Sets the bit at `bit_number` to `value`; past the end nothing changes.
    pub fn set(&mut self, bit_number: usize, value: bool)
        ensures
            final(self)@ == (if bit_number < old(self)@.len() {
                old(self)@.update(bit_number as int, value)
            } else {
                old(self)@
            }),
    {
        if bit_number < bv_len(&self.bits) {
            bv_set(&mut self.bits, bit_number, value);
        }
    }
}

} // verus!
