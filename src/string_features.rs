use crate::utils::chars_of;
use fnv::FnvHasher;
use std::hash::Hasher;
use vstd::prelude::*;

verus! {

/// The 64-bit FNV-1a hash of a byte string.
pub uninterp spec fn fnv_hash_of(bytes: Seq<u8>) -> u64;

/// The lower-case form of a string, by Unicode's rules.
pub uninterp spec fn lower_of(s: Seq<char>) -> Seq<char>;

/// Relies on `FnvHasher::default()`, `Hasher::write` and `Hasher::finish`: the FNV-1a
/// hash of the bytes, which depends on the bytes alone.
#[verifier::external_body]
fn fnv_hash(bytes: &[u8]) -> (r: u64)
    ensures
        r == fnv_hash_of(bytes@),
{
    let mut hasher = FnvHasher::default();
    hasher.write(bytes);
    hasher.finish()
}

/// Relies on `str::to_lowercase`: the result depends on the characters alone.
#[verifier::external_body]
fn to_lower(s: &str) -> (r: String)
    ensures
        r@ == lower_of(s@),
{
    s.to_lowercase()
}

/// The lowest `count` bytes of `x`, least significant first.
pub open spec fn le_bytes(x: u64, count: nat) -> Seq<u8> {
    Seq::new(count, |i: int| ((x >> ((8 * i) as u64)) & 0xffu64) as u8)
}

/// Each character's code point as 4 little-endian bytes.
pub open spec fn chars_bytes(g: Seq<char>) -> Seq<u8>
    decreases g.len(),
{
    if g.len() == 0 {
        Seq::empty()
    } else {
        chars_bytes(g.drop_last()) + le_bytes(g.last() as u32 as u64, 4)
    }
}

/// The bytes an n-gram is hashed from: its length as 8 little-endian bytes, then
/// each character's code point as 4 little-endian bytes.
pub open spec fn ngram_bytes(g: Seq<char>) -> Seq<u8> {
    le_bytes(g.len() as u64, 8) + chars_bytes(g)
}

/// The n-grams of length `l`, by position; none of length zero.
pub open spec fn ngrams_of_length(chars: Seq<char>, l: nat) -> Seq<Seq<char>> {
    if 1 <= l <= chars.len() {
        Seq::new((chars.len() - l + 1) as nat, |pos: int| chars.subrange(pos, pos + l))
    } else {
        Seq::empty()
    }
}

/// The n-grams of each length in turn.
pub open spec fn ngrams(chars: Seq<char>, lengths: Seq<usize>) -> Seq<Seq<char>>
    decreases lengths.len(),
{
    if lengths.len() == 0 {
        Seq::empty()
    } else {
        ngrams(chars, lengths.drop_last()) + ngrams_of_length(chars, lengths.last() as nat)
    }
}

/// A feature: an n-gram's hash, with its length.
pub open spec fn feature_of(g: Seq<char>) -> (u64, usize) {
    (fnv_hash_of(ngram_bytes(g)), g.len() as usize)
}

/// The number of features whose hash falls in bin `b` of `num_features`.
pub open spec fn bin_count(features: Seq<(u64, usize)>, num_features: nat, b: nat) -> nat
    decreases features.len(),
{
    if features.len() == 0 {
        0
    } else {
        bin_count(features.drop_last(), num_features, b) + if features.last().0 as nat
            % num_features == b {
            1nat
        } else {
            0nat
        }
    }
}

/// The feature vector of `chars`: for each of `num_features` bins, the number of
/// n-grams (of each length in `lengths`) whose hash falls in it.
pub open spec fn feature_counts(chars: Seq<char>, lengths: Seq<usize>, num_features: nat) -> Seq<usize> {
    let features = ngrams(chars, lengths).map_values(|g: Seq<char>| feature_of(g));
    Seq::new(num_features, |b: int| bin_count(features, num_features, b as nat) as usize)
}

/// The characters a string is read as: lower-cased or as given.
pub open spec fn folded(s: Seq<char>, downcase: bool) -> Seq<char> {
    if downcase {
        lower_of(s)
    } else {
        s
    }
}

/// Appends the lowest `count` bytes of `x`, least significant first.
fn push_le_bytes(out: &mut Vec<u8>, x: u64, count: usize)
    requires
        count <= 8,
    ensures
        final(out)@ == old(out)@ + le_bytes(x, count as nat),
{
    let ghost start = out@;
    for i in 0..count
        invariant
            count <= 8,
            out@ == start + le_bytes(x, i as nat),
    {
        out.push(((x >> (8 * i as u64)) & 0xffu64) as u8);
        assert(out@ =~= start + le_bytes(x, (i + 1) as nat));
    }
}

/// The bytes the n-gram `chars[start..start + len]` is hashed from.
fn ngram_bytes_at(chars: &Vec<char>, start: usize, len: usize) -> (r: Vec<u8>)
    requires
        start + len <= chars@.len(),
    ensures
        r@ == ngram_bytes(chars@.subrange(start as int, start + len)),
{
    let ghost g = chars@.subrange(start as int, start + len);
    let mut out: Vec<u8> = Vec::new();
    push_le_bytes(&mut out, len as u64, 8);
    let nc = chars.len();
    for t in 0..len
        invariant
            nc == chars@.len(),
            start + len <= chars@.len(),
            g == chars@.subrange(start as int, start + len),
            out@ == le_bytes(len as u64, 8) + chars_bytes(g.subrange(0, t as int)),
    {
        assert(t < len);
        let c = chars[start + t];
        let ghost before = out@;
        push_le_bytes(&mut out, c as u32 as u64, 4);
        assert(g.subrange(0, t + 1).drop_last() =~= g.subrange(0, t as int));
        assert(out@ =~= le_bytes(len as u64, 8) + chars_bytes(g.subrange(0, t + 1)));
    }
    assert(g.subrange(0, len as int) =~= g);
    out
}

/// The feature of the n-gram `chars[start..start + len]`: its hash and its length.
pub(crate) fn ngram_feature_at(chars: &Vec<char>, start: usize, len: usize) -> (r: (u64, usize))
    requires
        start + len <= chars@.len(),
    ensures
        r == feature_of(chars@.subrange(start as int, start + len)),
{
    let bytes = ngram_bytes_at(chars, start, len);
    (fnv_hash(bytes.as_slice()), len)
}

/// The features of every n-gram of `chars`, for each length of `ngram_lengths` in turn
/// and each position in order: the n-gram's FNV-1a hash and its length.
pub fn ngram_features(chars: &Vec<char>, ngram_lengths: &Vec<usize>) -> (r: Vec<(u64, usize)>)
    ensures
        r@ == ngrams(chars@, ngram_lengths@).map_values(|g: Seq<char>| feature_of(g)),
{
    let nc = chars.len();
    let mut out: Vec<(u64, usize)> = Vec::new();
    for k in 0..ngram_lengths.len()
        invariant
            nc == chars@.len(),
            out@ == ngrams(chars@, ngram_lengths@.subrange(0, k as int)).map_values(|g: Seq<char>| feature_of(g)),
    {
        let l = ngram_lengths[k];
        let ghost prefix = out@;
        let ghost lens = ngram_lengths@.subrange(0, k + 1);
        assert(lens.drop_last() =~= ngram_lengths@.subrange(0, k as int));
        if 1 <= l && l <= nc {
            for pos in 0..(nc - l + 1)
                invariant
                    nc == chars@.len(),
                    1 <= l <= nc,
                    out@ == prefix + ngrams_of_length(chars@, l as nat).subrange(0, pos as int).map_values(|g: Seq<char>| feature_of(g)),
            {
                out.push(ngram_feature_at(chars, pos, l));
                assert(ngrams_of_length(chars@, l as nat)[pos as int] == chars@.subrange(pos as int, pos + l));
                assert(out@ =~= prefix + ngrams_of_length(chars@, l as nat).subrange(0, pos + 1).map_values(|g: Seq<char>| feature_of(g)));
            }
            assert(ngrams_of_length(chars@, l as nat).subrange(0, (nc - l + 1) as int) =~= ngrams_of_length(chars@, l as nat));
        }
        assert(out@ =~= ngrams(chars@, lens).map_values(|g: Seq<char>| feature_of(g)));
    }
    assert(ngram_lengths@.subrange(0, ngram_lengths@.len() as int) =~= ngram_lengths@);
    out
}

/// Counts the features into `num_features` bins, each by its hash modulo `num_features`;
/// with no bins, the vector is empty.
pub fn feature_vector(features: &Vec<(u64, usize)>, num_features: usize) -> (r: Vec<usize>)
    ensures
        r@.len() == num_features,
        forall|b: int| 0 <= b < num_features ==> #[trigger] r@[b] == bin_count(features@, num_features as nat, b as nat),
{
    let mut counts: Vec<usize> = vec![0; num_features];
    if num_features == 0 {
        return counts;
    }
    for t in 0..features.len()
        invariant
            num_features > 0,
            counts@.len() == num_features,
            forall|b: int| 0 <= b < num_features ==> #[trigger] counts@[b] == bin_count(features@.subrange(0, t as int), num_features as nat, b as nat),
            forall|b: int| 0 <= b < num_features ==> #[trigger] counts@[b] <= t,
    {
        let h = features[t].0;
        let bin = (h % (num_features as u64)) as usize;
        assert(features@.subrange(0, t + 1).drop_last() =~= features@.subrange(0, t as int));
        let c = counts[bin];
        counts.set(bin, c + 1);
    }
    assert(features@.subrange(0, features@.len() as int) =~= features@);
    counts
}

/// The features of `string`, lower-cased first: each n-gram's hash and length.
pub fn get_string_features(string: &str, ngram_lengths: &Vec<usize>) -> (r: Vec<(u64, usize)>)
    ensures
        r@ == ngrams(lower_of(string@), ngram_lengths@).map_values(|g: Seq<char>| feature_of(g)),
{
    let lower = to_lower(string);
    let chars = chars_of(lower.as_str());
    ngram_features(&chars, ngram_lengths)
}

/// The feature vector of `string`: its n-grams of each length in `ngram_lengths`,
/// counted into `num_features` bins by hash; lower-cased first when `downcase` holds.
pub fn string_to_feature_vector(
    string: &str,
    downcase: bool,
    ngram_lengths: &Vec<usize>,
    num_features: usize,
) -> (r: Vec<usize>)
    ensures
        r@ == feature_counts(folded(string@, downcase), ngram_lengths@, num_features as nat),
{
    let chars = if downcase {
        let lower = to_lower(string);
        chars_of(lower.as_str())
    } else {
        chars_of(string)
    };
    let features = ngram_features(&chars, ngram_lengths);
    let r = feature_vector(&features, num_features);
    assert(r@ =~= feature_counts(folded(string@, downcase), ngram_lengths@, num_features as nat));
    r
}

} // verus!
