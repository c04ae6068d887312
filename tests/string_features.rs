use bit_codes::string_codes::StringFeatures;
use bit_codes::string_features::{feature_vector, get_string_features, ngram_features, string_to_feature_vector};
use fnv::FnvHasher;
use std::hash::{Hasher, SipHasher};

#[test]
#[allow(deprecated)]
fn string_coders_rehash_gives_same() {
    let bytes: Vec<u8> = vec![12, 23, 34];
    let mut hasher = SipHasher::new();
    hasher.write(&bytes);
    let h1 = hasher.finish();
    let mut hasher = SipHasher::new();
    hasher.write(&bytes);
    let h2 = hasher.finish();
    assert_eq!(h1, h2);
}

#[test]
fn string_features_rehash_gives_same() {
    let string = "A random string.";
    let mut hasher = FnvHasher::default();
    hasher.write(string.as_bytes());
    let h1 = hasher.finish();
    let mut hasher = FnvHasher::default();
    hasher.write(string.as_bytes());
    let h2 = hasher.finish();
    assert_eq!(h1, h2);
    assert_eq!(h1, 396627438306077030);
}

#[test]
fn feature_vector_of_abcdef() {
    let result = string_to_feature_vector("abcdef", true, &vec![1, 2, 3, 4, 5, 6], 5);
    assert_eq!(result, vec![6, 6, 3, 4, 2]);
    assert_eq!(result.iter().sum::<usize>(), 21);
}

#[test]
fn feature_vector_is_deterministic() {
    let lengths = vec![3, 4, 5, 6, 7, 8];
    let v1 = string_to_feature_vector("Supercalifragilisticexpialidocious", true, &lengths, 500);
    let v2 = string_to_feature_vector("Supercalifragilisticexpialidocious", true, &lengths, 500);
    assert_eq!(v1, v2);
    assert_eq!(v1.len(), 500);
}

#[test]
fn feature_vector_folds_case_on_request() {
    let lengths = vec![2, 3];
    let lower = string_to_feature_vector("hello", false, &lengths, 97);
    assert_eq!(string_to_feature_vector("HeLLo", true, &lengths, 97), lower);
    assert_ne!(string_to_feature_vector("HeLLo", false, &lengths, 97), lower);
}

#[test]
fn feature_vector_of_empty_string_is_zero() {
    assert_eq!(string_to_feature_vector("", true, &vec![1, 2, 3], 4), vec![0, 0, 0, 0]);
}

#[test]
fn feature_vector_with_no_bins_is_empty() {
    assert!(string_to_feature_vector("abc", false, &vec![1], 0).is_empty());
}

#[test]
fn ngram_features_hash_each_ngram() {
    let chars: Vec<char> = "abcdef".chars().collect();
    let features = ngram_features(&chars, &vec![1, 7, 0, 2]);
    // Six 1-grams, none of length 7 or 0, five 2-grams.
    assert_eq!(features.len(), 11);
    assert_eq!(features[0], (18335379269140576917, 1));
    assert_eq!(features[1], (11416350543445309222, 1));
    assert_eq!(features[2], (4497321817750041527, 1));
    assert_eq!(features[6], (7341235218492361700, 2));
    assert!(features[6..].iter().all(|f| f.1 == 2));
}

#[test]
fn feature_vector_counts_by_bin() {
    let features = vec![(9u64, 1usize), (13, 1), (7, 2), (5, 3)];
    assert_eq!(feature_vector(&features, 3), vec![1, 2, 1]);
}

#[test]
fn string_features_are_lower_cased() {
    let upper = get_string_features("ABC", &vec![2]);
    let lower = get_string_features("abc", &vec![2]);
    assert_eq!(upper, lower);
    assert_eq!(upper.len(), 2);
}

#[test]
fn string_features_stream_in_order_and_restart() {
    let lengths = vec![1, 0, 2, 9];
    let chars: Vec<char> = "abcdef".chars().collect();
    let all = ngram_features(&chars, &lengths);
    let mut stream = StringFeatures::new("abcdef");
    let mut read = Vec::new();
    while let Some(f) = stream.next_feature(&lengths) {
        read.push(f);
    }
    assert_eq!(read, all);
    assert_eq!(read.len(), 11);
    assert_eq!(stream.next_feature(&lengths), None);
    stream.restart();
    assert_eq!(stream.next_feature(&lengths), Some(all[0]));
}

#[test]
fn string_features_of_empty_string() {
    let mut stream = StringFeatures::new("");
    assert_eq!(stream.next_feature(&vec![1, 2]), None);
}
