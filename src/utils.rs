use rand::Rng;
use vstd::prelude::*;

verus! {

/// The number of windows of `bits_per_index` bits that cover `num_bits` bits.
pub open spec fn num_windows(num_bits: nat, bits_per_index: nat) -> nat {
    if num_bits == 0 || bits_per_index == 0 {
        0
    } else {
        ((num_bits - 1) as nat / bits_per_index) + 1
    }
}

/// The number of 64-bit blocks that hold `num_bits` bits, and at least one.
pub open spec fn blocks_needed(num_bits: nat) -> nat {
    if num_bits == 0 {
        1
    } else {
        ((num_bits - 1) as nat / 64) + 1
    }
}

/// The number of windows of `bits_per_index` bits that cover `num_bits` bits.
pub fn get_num_indexes(num_bits: usize, bits_per_index: usize) -> (r: usize)
    requires
        num_bits >= 1,
        bits_per_index >= 1,
    ensures
        r == num_windows(num_bits as nat, bits_per_index as nat),
{
    ((num_bits - 1) / bits_per_index) + 1
}

/// The number of 64-bit blocks that hold `num_bits` bits; one for no bits.
pub fn num_blocks_needed(num_bits: usize) -> (r: usize)
    ensures
        r == blocks_needed(num_bits as nat),
{
    if num_bits == 0 {
        1
    } else {
        ((num_bits - 1) / 64) + 1
    }
}

/// The characters of `s`, in order.
pub fn chars_of(s: &str) -> (r: Vec<char>)
    ensures
        r@ == s@,
{
    let mut out: Vec<char> = Vec::new();
    for c in it: s.chars()
        invariant
            out@ == it.seq().take(it.index() as int),
    {
        out.push(c);
    }
    out
}

/// Whether `c` is an ASCII letter or digit.
pub open spec fn is_ascii_alphanumeric(c: char) -> bool {
    ('a' <= c && c <= 'z') || ('A' <= c && c <= 'Z') || ('0' <= c && c <= '9')
}

/// Relies on `rand::thread_rng().gen::<bool>()`: a random bit, of which nothing is promised.
#[verifier::external_body]
fn random_bool() -> bool {
    rand::thread_rng().gen::<bool>()
}

/// Relies on `Rng::gen_ascii_chars` of rand's thread-local generator, whose iterator
/// always yields a character drawn from the ASCII letters and digits.
#[verifier::external_body]
fn random_ascii_alphanumeric() -> (r: Option<char>)
    ensures
        r.is_some(),
        is_ascii_alphanumeric(r.unwrap()),
{
    rand::thread_rng().gen_ascii_chars().next()
}

/// Relies on `String::push`: appends one character.
#[verifier::external_body]
fn push_char(s: &mut String, c: char)
    ensures
        final(s)@ == old(s)@.push(c),
{
    s.push(c)
}

/// A random string of `n` characters, each '0' or '1'.
pub fn random_bit_string(n: usize) -> (r: String)
    ensures
        r@.len() == n,
        forall|i: int| 0 <= i < n ==> #[trigger] r@[i] == '0' || r@[i] == '1',
{
    let mut s = String::new();
    for i in 0..n
        invariant
            s@.len() == i,
            forall|t: int| 0 <= t < i ==> #[trigger] s@[t] == '0' || s@[t] == '1',
    {
        if random_bool() {
            push_char(&mut s, '1');
        } else {
            push_char(&mut s, '0');
        }
    }
    s
}

/// A random string of `n` ASCII letters and digits.
pub fn random_string(n: usize) -> (r: String)
    ensures
        r@.len() == n,
        forall|i: int| 0 <= i < n ==> is_ascii_alphanumeric(#[trigger] r@[i]),
{
    let mut s = String::new();
    for i in 0..n
        invariant
            s@.len() == i,
            forall|t: int| 0 <= t < i ==> is_ascii_alphanumeric(#[trigger] s@[t]),
    {
        if let Some(c) = random_ascii_alphanumeric() {
            push_char(&mut s, c);
        }
    }
    s
}

/// The windows cover the bits: the last window starts below `num_bits` and ends at or past it.
pub proof fn lemma_windows_cover(num_bits: nat, w: nat)
    requires
        num_bits >= 1,
        w >= 1,
    ensures
        (num_windows(num_bits, w) - 1) * w <= num_bits - 1,
        num_windows(num_bits, w) * w >= num_bits,
{
    let q = (num_bits - 1) as nat / w;
    let r = (num_bits - 1) as int % (w as int);
    vstd::arithmetic::div_mod::lemma_fundamental_div_mod((num_bits - 1) as int, w as int);
    vstd::arithmetic::div_mod::lemma_mod_pos_bound((num_bits - 1) as int, w as int);
    assert(q * w <= num_bits - 1) by (nonlinear_arith)
        requires
            (num_bits - 1) == w * q + r,
            0 <= r,
    ;
    assert((q + 1) * w >= num_bits) by (nonlinear_arith)
        requires
            (num_bits - 1) == w * q + r,
            r < w,
    ;
}

/// A window that starts before the last one starts starts below `num_bits`.
pub proof fn lemma_window_start(j: nat, num_bits: nat, w: nat)
    requires
        num_bits >= 1,
        w >= 1,
        j < num_windows(num_bits, w),
    ensures
        j * w <= num_bits - 1,
{
    lemma_windows_cover(num_bits, w);
    let m = num_windows(num_bits, w);
    assert(j * w <= (m - 1) * w) by (nonlinear_arith)
        requires
            j <= m - 1,
            w >= 1,
    ;
}

} // verus!
