use bit_codes::bit_code::BitCode;
use bit_codes::utils::random_bit_string;

#[test]
fn new() {
    let bc = BitCode::new(2);
    assert_eq!(bc.len(), 2);
    let bc = BitCode::new(64);
    assert_eq!(bc.len(), 64);
    let bc = BitCode::new(100);
    assert_eq!(bc.len(), 100);
}

#[test]
fn set_get() {
    let mut bc = BitCode::new(512);
    assert_eq!(bc.len(), 512);
    assert_eq!(bc.count_ones(), 0);
    bc.set(10, true);
    bc.set(20, true);
    bc.set(30, true);
    assert_eq!(bc.count_ones(), 3);
    assert_eq!(bc.get(10), Some(true));
    assert_eq!(bc.get(20), Some(true));
    assert_eq!(bc.get(30), Some(true));
    bc.set(10, false);
    assert_eq!(bc.get(10), Some(false));
    assert_eq!(bc.count_ones(), 2);
}

#[test]
fn index_values() {
    // Window keys read bit `start + t` as the bit of weight 2^t.
    let bools = vec![true, false, true, false, true, false, true, false, true, false, true, true];
    let bc = BitCode::from_bools(&bools);
    let ivs1 = bc.index_values(4);
    let ivs1_correct: Vec<u64> = vec![0b0101, 0b0101, 0b1101];
    assert_eq!(ivs1.len(), ivs1_correct.len());
    assert_eq!(ivs1, ivs1_correct);
    let ivs2 = bc.index_values(10);
    let ivs2_correct: Vec<u64> = vec![0b01_0101_0101, 0b11];
    assert_eq!(ivs2.len(), ivs2_correct.len());
    assert_eq!(ivs2, ivs2_correct);
}

#[test]
fn new_bit_code_from_bool_string() {
    let bc = BitCode::from_bit_string("010101010101");
    assert_eq!(bc.len(), 12);
    assert_eq!(bc.count_ones(), 6);
    assert_eq!(bc.hamming_distance(&bc), 0);
}

#[test]
fn new_bit_code_from_bools() {
    let bools: Vec<bool> = vec![false, true, false, true, false, true, false, true, false, true, false, true];
    let bc = BitCode::from_bools(&bools);
    assert_eq!(bc.len(), 12);
    assert_eq!(bc.count_ones(), 6);
    for (i, b) in bools.iter().enumerate() {
        match bc.get(i) {
            Some(x) => assert_eq!(&x, b),
            None => assert!(false),
        }
    }
    assert_eq!(bc.hamming_distance(&bc), 0);
}

#[test]
fn bit_codes_are_equal() {
    let bc1 = BitCode::from_bit_string("010101010101");
    let bc2 = BitCode::from_bools(&vec![false, true, false, true, false, true, false, true, false, true, false, true]);
    assert_eq!(bc1.hamming_distance(&bc2), 0);
}

#[test]
fn new_bit_code_from_random_string() {
    let bc = BitCode::from_bit_string(&random_bit_string(256));
    assert_eq!(bc.len(), 256);
}

#[test]
fn hamming_distance() {
    let bc1 = BitCode::from_bit_string("010101010101");
    assert_eq!(bc1.hamming_distance(&bc1), 0);
    let bc2 = BitCode::from_bit_string("101010101010");
    assert_eq!(bc2.hamming_distance(&bc2), 0);
    assert_eq!(bc1.hamming_distance(&bc2), 12);
}

#[test]
fn hamming_distance_is_symmetric() {
    let bc1 = BitCode::from_bit_string("0110100111010001011");
    let bc2 = BitCode::from_bit_string("1110000111011101010");
    assert_eq!(bc1.hamming_distance(&bc2), 5);
    assert_eq!(bc2.hamming_distance(&bc1), 5);
}

#[test]
fn hamming_distance_across_blocks() {
    let mut bc1 = BitCode::new(100);
    let mut bc2 = BitCode::new(100);
    bc1.set(0, true);
    bc1.set(40, true);
    bc1.set(99, true);
    bc2.set(40, true);
    bc2.set(70, true);
    assert_eq!(bc1.hamming_distance(&bc2), 3);
    assert_eq!(bc1.count_ones(), 3);
}

#[test]
fn hamming_distance_over_common_blocks() {
    // A 40-bit code has two 32-bit blocks; a 10-bit code has one.
    let mut long = BitCode::new(40);
    long.set(3, true);
    long.set(35, true);
    let short = BitCode::new(10);
    assert_eq!(long.hamming_distance(&short), 1);
    assert_eq!(short.hamming_distance(&long), 1);
}

#[test]
fn get_and_set_out_of_range() {
    let mut bc = BitCode::from_bit_string("101");
    assert_eq!(bc.get(3), None);
    bc.set(3, true);
    assert_eq!(bc.len(), 3);
    assert_eq!(bc.count_ones(), 2);
}

#[test]
fn bit_string_reads_other_characters_as_clear() {
    let bc = BitCode::from_bit_string("1x1");
    assert_eq!(bc.get(0), Some(true));
    assert_eq!(bc.get(1), Some(false));
    assert_eq!(bc.get(2), Some(true));
}

#[test]
fn index_values_width_is_clamped() {
    let bc = BitCode::from_bit_string("1101");
    // A width of zero is taken as one bit.
    assert_eq!(bc.index_values(0), vec![1u64, 1, 0, 1]);
    // A width above 64 is taken as 64 bits.
    let mut wide = BitCode::new(130);
    wide.set(64, true);
    wide.set(129, true);
    assert_eq!(wide.index_values(100), vec![0u64, 1, 2]);
    // No bits, no windows.
    assert_eq!(BitCode::new(0).index_values(4), Vec::<u64>::new());
}

#[test]
fn empty_code() {
    let bc = BitCode::new(0);
    assert_eq!(bc.len(), 0);
    assert_eq!(bc.count_ones(), 0);
    assert_eq!(bc.hamming_distance(&bc), 0);
}
