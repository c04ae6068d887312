use crate::string_features::{feature_of, ngram_feature_at, ngrams, ngrams_of_length};
use crate::utils::chars_of;
use vstd::prelude::*;

verus! {

/// The n-grams for the first `k` lengths come first among those for all lengths.
proof fn lemma_ngrams_prefix(chars: Seq<char>, lengths: Seq<usize>, k: int)
    requires
        0 <= k <= lengths.len(),
    ensures
        ngrams(chars, lengths.subrange(0, k)).len() <= ngrams(chars, lengths).len(),
        ngrams(chars, lengths.subrange(0, k)) == ngrams(chars, lengths).subrange(
            0,
            ngrams(chars, lengths.subrange(0, k)).len() as int,
        ),
    decreases lengths.len() - k,
{
    if k < lengths.len() {
        lemma_ngrams_prefix(chars, lengths.subrange(0, lengths.len() - 1), k);
        assert(lengths.subrange(0, lengths.len() - 1).subrange(0, k) =~= lengths.subrange(0, k));
        assert(lengths.drop_last() =~= lengths.subrange(0, lengths.len() - 1));
        let whole = ngrams(chars, lengths);
        let front = ngrams(chars, lengths.drop_last());
        assert(whole == front + ngrams_of_length(chars, lengths.last() as nat));
        let m = ngrams(chars, lengths.subrange(0, k)).len() as int;
        assert(whole.subrange(0, m) =~= front.subrange(0, m));
    } else {
        assert(lengths.subrange(0, k) =~= lengths);
        assert(ngrams(chars, lengths).subrange(0, ngrams(chars, lengths).len() as int) =~= ngrams(chars, lengths));
    }
}

/// A string read as characters, with a position in the sequence of its features:
/// the features of its n-grams, for each length in turn and each position in order,
/// read one at a time and from the start again as often as wanted.
#[derive(Debug)]
pub struct StringFeatures {
    chars: Vec<char>,
    position: usize,
}

impl StringFeatures {
    /// The characters read.
    pub closed spec fn characters(&self) -> Seq<char> {
        self.chars@
    }

    /// The number of features read since the start.
    pub closed spec fn spec_position(&self) -> nat {
        self.position as nat
    }

    /// The characters of `string`, read from the start.
    pub fn new(string: &str) -> (r: StringFeatures)
        ensures
            r.characters() == string@,
            r.spec_position() == 0,
    {
        let chars = chars_of(string);
        StringFeatures { chars, position: 0 }
    }

    /// Goes back to the first feature.
    pub fn restart(&mut self)
        ensures
            final(self).characters() == old(self).characters(),
            final(self).spec_position() == 0,
    {
        self.position = 0;
    }

    /// The next feature over n-grams of `ngram_lengths` (the n-gram's hash and length),
    /// moving past it; `None` once every feature has been read.
    pub fn next_feature(&mut self, ngram_lengths: &Vec<usize>) -> (r: Option<(u64, usize)>)
        requires
            old(self).spec_position() < usize::MAX,
        ensures
            final(self).characters() == old(self).characters(),
            old(self).spec_position() < ngrams(old(self).characters(), ngram_lengths@).len() ==> {
                &&& r == Some(
                    feature_of(ngrams(old(self).characters(), ngram_lengths@)[old(self).spec_position() as int]),
                )
                &&& final(self).spec_position() == old(self).spec_position() + 1
            },
            old(self).spec_position() >= ngrams(old(self).characters(), ngram_lengths@).len() ==> {
                &&& r.is_none()
                &&& final(self).spec_position() == old(self).spec_position()
            },
    {
        let ghost chars = self.chars@;
        let ghost pos0 = self.position;
        let ghost lens = ngram_lengths@;
        let nc = self.chars.len();
        let mut offset: usize = 0;
        for k in 0..ngram_lengths.len()
            invariant
                nc == chars.len(),
                chars == self.chars@,
                lens == ngram_lengths@,
                offset == ngrams(chars, lens.subrange(0, k as int)).len(),
                offset <= self.position,
                self.position == pos0,
                pos0 < usize::MAX,
                chars == old(self).chars@,
                pos0 == old(self).position,
        {
            let l = ngram_lengths[k];
            let count: usize = if 1 <= l && l <= nc {
                nc - l + 1
            } else {
                0
            };
            proof {
                let next = lens.subrange(0, k + 1);
                assert(next.drop_last() =~= lens.subrange(0, k as int));
                assert(count == ngrams_of_length(chars, l as nat).len());
                assert(ngrams(chars, next) == ngrams(chars, lens.subrange(0, k as int))
                    + ngrams_of_length(chars, l as nat));
            }
            if self.position - offset < count {
                let p = self.position - offset;
                let f = ngram_feature_at(&self.chars, p, l);
                proof {
                    let next = lens.subrange(0, k + 1);
                    lemma_ngrams_prefix(chars, lens, k + 1);
                    assert(ngrams(chars, lens)[self.position as int] == ngrams(chars, next)[self.position as int]);
                    assert(ngrams_of_length(chars, l as nat)[p as int] == chars.subrange(p as int, p + l));
                }
                self.position = self.position + 1;
                return Some(f);
            }
            offset = offset + count;
        }
        assert(lens.subrange(0, lens.len() as int) =~= lens);
        None
    }
}

} // verus!
