use bit_codes::bit_code::BitCode;
use bit_codes::bit_code_pool::BitCodePool;
use bit_codes::utils::random_bit_string;

fn pool_of(bit_strings: &[&str]) -> BitCodePool {
    let mut pool = BitCodePool::new(bit_strings[0].len());
    for (i, s) in bit_strings.iter().enumerate() {
        pool.add(BitCode::from_bit_string(s), i as u64);
    }
    pool
}

fn random_pool(num_codes: u64, num_bits: usize) -> BitCodePool {
    let mut pool = BitCodePool::new(num_bits);
    for id in 0..num_codes {
        pool.add(BitCode::from_bit_string(&random_bit_string(num_bits)), id);
    }
    pool
}

#[test]
fn index_search() {
    let mut bit_code_pool = random_pool(1_000, 256);
    bit_code_pool.index(8);
    let needle = bit_code_pool.get(0).unwrap();
    let hamming_radius = 31;
    let mut ids1 = bit_code_pool.search(needle, hamming_radius);
    let mut ids2 = bit_code_pool.search_with_index(needle, hamming_radius).unwrap();
    // Confirm results of unindexed and indexed search are the same.
    assert_eq!(ids1.len(), ids2.len());
    assert!(ids1.len() > 0);
    ids1.sort();
    ids2.sort();
    for i in 0..ids1.len() {
        assert_eq!(ids1[i], ids2[i]);
    }
}

#[test]
fn resolve_entities() {
    let bit_code_pool = random_pool(1_000, 256);
    let entity_sets = bit_code_pool.resolve_entities(10);
    // Each entity set should have at least 1 member.
    let mut num_entities = 0;
    for entity_set in &entity_sets {
        assert!(entity_set.len() >= 1);
        num_entities += entity_set.len();
    }
    // Number of resolved entities should equal the number of bit codes in the pool.
    assert_eq!(num_entities, bit_code_pool.len());
}

#[test]
fn index_of_twelve_bit_codes_has_three_windows() {
    let mut pool = pool_of(&["010101010101", "101010101010"]);
    pool.index(4);
    assert_eq!(pool.index_max_searchable_radius(), 2);
}

#[test]
fn index_search_matches_linear_search_within_radius() {
    let pool_strings = [
        "000000000000",
        "100000000000",
        "110000010000",
        "111100001111",
        "000011110000",
        "111111111111",
        "000000000011",
    ];
    let mut pool = pool_of(&pool_strings);
    pool.index(4);
    let needle = BitCode::from_bit_string("000000000001");
    for radius in 0..=pool.index_max_searchable_radius() {
        let linear = pool.search(&needle, radius);
        let indexed = pool.search_with_index(&needle, radius).unwrap();
        assert_eq!(linear, indexed);
    }
    assert_eq!(pool.search(&needle, 2), vec![0, 1, 6]);
}

#[test]
fn index_search_refuses_radius_past_bound() {
    let mut pool = pool_of(&["010101010101", "101010101010"]);
    let needle = BitCode::from_bit_string("010101010101");
    // No index yet.
    assert_eq!(pool.search_with_index(&needle, 0), None);
    pool.index(4);
    assert_eq!(pool.search_with_index(&needle, 2), Some(vec![0]));
    assert_eq!(pool.search_with_index(&needle, 3), None);
}

#[test]
fn index_is_a_snapshot() {
    let mut pool = pool_of(&["000000000000"]);
    pool.index(6);
    pool.add(BitCode::from_bit_string("000000000000"), 7);
    let needle = BitCode::from_bit_string("000000000000");
    assert_eq!(pool.search(&needle, 0), vec![0, 1]);
    assert_eq!(pool.search_with_index(&needle, 0), Some(vec![0]));
    pool.index(6);
    assert_eq!(pool.search_with_index(&needle, 0), Some(vec![0, 1]));
}

#[test]
fn resolve_entities_partitions_positions() {
    let pool = pool_of(&["0000", "0001", "0011", "1111", "1110", "0111"]);
    let groups = pool.resolve_entities(1);
    assert_eq!(groups, vec![vec![0, 1], vec![2, 5], vec![3, 4]]);
    let mut seen = vec![0; pool.len()];
    for g in &groups {
        for &p in g {
            seen[p] += 1;
        }
    }
    assert!(seen.iter().all(|&c| c == 1));
}

#[test]
fn resolve_entities_at_radius_zero_groups_equal_codes() {
    let pool = pool_of(&["01", "10", "01", "11"]);
    assert_eq!(pool.resolve_entities(0), vec![vec![0, 2], vec![1], vec![3]]);
}

#[test]
fn resolve_entities_of_empty_pool() {
    let pool = BitCodePool::new(8);
    assert!(pool.resolve_entities(3).is_empty());
}

#[test]
fn knn_keeps_ties_at_the_cutoff() {
    let pool = pool_of(&["1111", "0000", "0001", "0010", "0011", "0100"]);
    let needle = BitCode::from_bit_string("0000");
    let results = pool.search_knn(&needle, 2);
    let found: Vec<(usize, usize)> = results.iter().map(|r| (r.idx(), r.distance())).collect();
    assert_eq!(found, vec![(1, 0), (2, 1), (3, 1), (5, 1)]);
    assert_eq!(results[1].by_distance(), 1);
}

#[test]
fn knn_returned_are_nearest() {
    let pool = random_pool(200, 64);
    let needle = BitCode::from_bit_string(&random_bit_string(64));
    let results = pool.search_knn(&needle, 10);
    assert!(results.len() >= 10);
    let worst = results.iter().map(|r| r.distance()).max().unwrap();
    for i in 0..pool.len() {
        let d = pool.get(i).unwrap().hamming_distance(&needle);
        let returned = results.iter().any(|r| r.idx() == i);
        assert_eq!(returned, d <= worst);
    }
}

#[test]
fn knn_with_zero_or_more_than_the_pool() {
    let pool = pool_of(&["11", "00", "01"]);
    let needle = BitCode::from_bit_string("00");
    assert!(pool.search_knn(&needle, 0).is_empty());
    let all: Vec<usize> = pool.search_knn(&needle, 10).iter().map(|r| r.idx()).collect();
    assert_eq!(all, vec![1, 2, 0]);
}

#[test]
fn pool_get_and_len() {
    let pool = pool_of(&["0110", "1001"]);
    assert_eq!(pool.len(), 2);
    assert_eq!(pool.num_bits(), 4);
    assert_eq!(pool.get(1).unwrap().count_ones(), 2);
    assert!(pool.get(2).is_none());
}
