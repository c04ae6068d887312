use bit_codes::utils::{get_num_indexes, num_blocks_needed, random_bit_string, random_string};

#[test]
fn num_indexes_rounds_up() {
    assert_eq!(get_num_indexes(12, 4), 3);
    assert_eq!(get_num_indexes(256, 8), 32);
    assert_eq!(get_num_indexes(13, 4), 4);
    assert_eq!(get_num_indexes(1, 64), 1);
}

#[test]
fn blocks_needed() {
    assert_eq!(num_blocks_needed(0), 1);
    assert_eq!(num_blocks_needed(1), 1);
    assert_eq!(num_blocks_needed(64), 1);
    assert_eq!(num_blocks_needed(65), 2);
    assert_eq!(num_blocks_needed(256), 4);
}

#[test]
fn random_bit_string_is_bits() {
    let s = random_bit_string(300);
    assert_eq!(s.chars().count(), 300);
    assert!(s.chars().all(|c| c == '0' || c == '1'));
}

#[test]
fn random_string_is_alphanumeric() {
    let s = random_string(50);
    assert_eq!(s.chars().count(), 50);
    assert!(s.chars().all(|c| c.is_ascii_alphanumeric()));
    assert_eq!(random_string(0), "");
}
