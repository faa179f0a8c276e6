use hashing_simple::{
    bill_hash, compress, convert_string_to_u8s, finalize, split, strengthen, transform, twiddle,
    BLOCK_SIZE, INITIALIZATION_VECTOR,
};

#[test]
fn strengthen_leaves_whole_blocks_alone() {
    let data: Vec<u8> = (0..16).collect();
    assert_eq!(strengthen(data.clone()), data);
}

#[test]
fn strengthen_seven_bytes_adds_one_zero() {
    let data: Vec<u8> = vec![9, 8, 7, 6, 5, 4, 3];
    assert_eq!(strengthen(data), vec![9, 8, 7, 6, 5, 4, 3, 0]);
}

#[test]
fn strengthen_nine_bytes_adds_seven_zeros() {
    let data: Vec<u8> = vec![1; 9];
    let out = strengthen(data);
    assert_eq!(out.len(), 16);
    assert_eq!(&out[..9], &[1u8; 9][..]);
    assert!(out[9..].iter().all(|b| *b == 0));
}

#[test]
fn strengthen_is_idempotent() {
    for n in 0..20u8 {
        let data: Vec<u8> = (0..n).map(|i| i.wrapping_mul(37).wrapping_add(1)).collect();
        let once = strengthen(data);
        assert_eq!(strengthen(once.clone()), once);
        assert!(!once.is_empty() && once.len() % BLOCK_SIZE == 0);
    }
}

#[test]
fn split_blocks_concatenate_to_strengthened_data() {
    for n in 0..30u8 {
        let data: Vec<u8> = (0..n).map(|i| i ^ 0x5a).collect();
        let blocks = split(data.clone());
        assert!(!blocks.is_empty());
        assert!(blocks.iter().all(|b| b.len() == BLOCK_SIZE));
        let flat: Vec<u8> = blocks.concat();
        assert_eq!(flat, strengthen(data));
    }
}

#[test]
fn twiddle_keeps_zeros_over_many_rounds() {
    let mut block = [0u8; 8];
    for _ in 0..1024 {
        twiddle(&mut block);
    }
    assert_eq!(block, [0u8; 8]);
}

#[test]
fn twiddle_changes_a_single_set_bit() {
    let mut block = [0u8, 0, 0, 0, 0, 0, 0, 1];
    twiddle(&mut block);
    assert_ne!(block, [0u8, 0, 0, 0, 0, 0, 0, 1]);
}

#[test]
fn transform_of_own_bytes_is_zero() {
    for cv in [0u64, 1, INITIALIZATION_VECTOR, u64::MAX, 0xDEAD_BEEF_0BAD_F00D] {
        assert_eq!(transform(cv, cv.to_le_bytes()), 0);
    }
}

#[test]
fn compress_takes_last_eight_bytes_last_first() {
    let data: Vec<u8> = vec![100, 101, 0, 1, 2, 3, 4, 5, 6, 7];
    let expected = transform(INITIALIZATION_VECTOR, [7, 6, 5, 4, 3, 2, 1, 0]);
    assert_eq!(compress(INITIALIZATION_VECTOR, data), expected);
    assert_eq!(
        compress(INITIALIZATION_VECTOR, vec![0, 1, 2, 3, 4, 5, 6, 7]),
        expected
    );
    assert_ne!(expected, transform(INITIALIZATION_VECTOR, [0, 1, 2, 3, 4, 5, 6, 7]));
}

#[test]
fn compress_of_own_bytes_reversed_is_zero() {
    let cv: u64 = 0x0102_0304_0506_0708;
    let mut bytes = cv.to_le_bytes().to_vec();
    bytes.reverse();
    assert_eq!(compress(cv, bytes), 0);
}

#[test]
fn finalize_is_its_own_inverse() {
    for x in [0u64, 1, 0x8000_0000_0000_0000, 0x0123_4567_89AB_CDEF, u64::MAX] {
        assert_eq!(finalize(finalize(x)), x);
        assert_eq!(finalize(x), !x);
    }
}

#[test]
fn convert_string_gives_utf8_bytes() {
    assert_eq!(convert_string_to_u8s("bill".to_string()), vec![98, 105, 108, 108]);
    assert_eq!(convert_string_to_u8s("\u{e9}".to_string()), vec![0xC3, 0xA9]);
    assert_eq!(convert_string_to_u8s(String::new()), Vec::<u8>::new());
}

#[test]
fn bill_hash_chains_blocks_from_the_initialization_vector() {
    let s = "It was the best of times".to_string();
    let mut cv = INITIALIZATION_VECTOR;
    for block in split(s.as_bytes().to_vec()) {
        cv = compress(cv, block);
    }
    assert_eq!(bill_hash(s), finalize(cv));
}

#[test]
fn bill_hash_ignores_trailing_zero_in_partial_block() {
    assert_eq!(bill_hash("b".to_string()), bill_hash("b\u{0}".to_string()));
    assert_eq!(bill_hash("bill".to_string()), bill_hash("bill\u{0}\u{0}".to_string()));
    assert_eq!(bill_hash(String::new()), bill_hash("\u{0}".to_string()));
}

#[test]
fn bill_hash_of_empty_string() {
    assert_eq!(bill_hash(String::new()), 0xd38e3892b75aed1a);
}
