use block_cipher::bitutils::BitUtil;
use block_cipher::consts::SBOX;
use block_cipher::des::{
    decrypt, encrypt, feistel, merge_32bits, pbox_compress, permutation, round_keys,
    sbox_lookup, straight_permutation, FinalPermutation, InitialPermutation,
};

const PLAIN: [u8; 8] = [0x12, 0x34, 0x56, 0xab, 0xcd, 0x13, 0x25, 0x36];
const KEY: [u8; 8] = [0xaa, 0xbb, 0x09, 0x18, 0x27, 0x36, 0xcc, 0xdd];
const CIPHER: [u8; 8] = [0xc0, 0xb7, 0xa8, 0xd0, 0x5f, 0x3a, 0x82, 0x9c];

#[test]
fn decrypt_known_answer() {
    assert_eq!(decrypt(CIPHER, KEY), PLAIN);
}

#[test]
fn decrypt_undoes_encrypt_on_several_blocks() {
    let blocks = [[0u8; 8], [0xffu8; 8], PLAIN, [1, 2, 3, 4, 5, 6, 7, 8]];
    let keys = [[0u8; 8], [0xffu8; 8], KEY, [0x13, 0x34, 0x57, 0x79, 0x9b, 0xbc, 0xdf, 0xf1]];
    for b in blocks {
        for k in keys {
            assert_eq!(decrypt(encrypt(b, k), k), b);
        }
    }
}

#[test]
fn encrypt_classic_vector() {
    let key = [0x13, 0x34, 0x57, 0x79, 0x9b, 0xbc, 0xdf, 0xf1];
    let plain = [0x01, 0x23, 0x45, 0x67, 0x89, 0xab, 0xcd, 0xef];
    assert_eq!(encrypt(plain, key), [0x85, 0xe8, 0x13, 0x54, 0x0f, 0x0a, 0xb4, 0x05]);
}

#[test]
fn first_and_last_round_keys() {
    let keys = round_keys(KEY);
    assert_eq!(keys[0], [0x19, 0x4c, 0xd0, 0x72, 0xde, 0x8c]);
    assert_eq!(keys[15], [0x18, 0x1c, 0x5d, 0x75, 0xc6, 0x6d]);
}

#[test]
fn first_round_feistel_output() {
    let keys = round_keys(KEY);
    let f = feistel([0x18, 0xca, 0x18, 0xad], keys[0]);
    assert_eq!(f, [0x4e, 0xdf, 0x35, 0xec]);
}

#[test]
fn initial_permutation_of_plaintext() {
    assert_eq!(
        InitialPermutation::run(PLAIN),
        [0x14, 0xa7, 0xd6, 0x78, 0x18, 0xca, 0x18, 0xad]
    );
}

#[test]
fn final_permutation_undoes_initial() {
    let x = [0x01, 0x23, 0x45, 0x67, 0x89, 0xab, 0xcd, 0xef];
    assert_eq!(FinalPermutation::run(InitialPermutation::run(x)), x);
    assert_eq!(InitialPermutation::run(FinalPermutation::run(x)), x);
}

#[test]
fn identity_table_keeps_block() {
    let mut table = [0u8; 64];
    for i in 0..64 {
        table[i] = i as u8;
    }
    assert_eq!(permutation(table, PLAIN), PLAIN);
}

#[test]
fn out_of_range_table_entry_reads_zero() {
    let mut table = [0u8; 64];
    table[0] = 64;
    table[1] = 200;
    assert_eq!(permutation(table, [0xffu8; 8]), [0x3fu8, 0xff, 0xff, 0xff, 0xff, 0xff, 0xff, 0xff]);
}

#[test]
fn straight_permutation_single_bit() {
    // output bit 8 copies input bit 0
    assert_eq!(straight_permutation([0x80, 0, 0, 0]), [0, 0x80, 0, 0]);
}

#[test]
fn pbox_compress_all_ones() {
    assert_eq!(pbox_compress([0xff; 7]), [0xff; 6]);
}

#[test]
fn merge_halves_in_order() {
    assert_eq!(merge_32bits([1, 2, 3, 4], [5, 6, 7, 8]), [1, 2, 3, 4, 5, 6, 7, 8]);
}

#[test]
fn get_bit_out_of_range_is_false() {
    assert!(![0xffu8; 4].get_bit(32));
    assert!(![0xffu8; 6].get_bit(48));
    assert!(![0xffu8; 7].get_bit(56));
    assert!(![0xffu8; 8].get_bit(64));
    assert!(![0xffu8; 8].get_bit(usize::MAX));
    assert!([0xffu8; 8].get_bit(63));
    assert!([0x01u8, 0, 0, 0].get_bit(7));
    assert!(![0x01u8, 0, 0, 0].get_bit(6));
}

#[test]
fn set_bit_out_of_range_leaves_value() {
    let mut a = [0u8; 4];
    assert!(!a.set_bit(32));
    assert_eq!(a, [0u8; 4]);
    let mut b = [0u8; 6];
    assert!(!b.set_bit(48));
    assert_eq!(b, [0u8; 6]);
    let mut c = [0u8; 7];
    assert!(!c.set_bit(56));
    assert_eq!(c, [0u8; 7]);
    let mut d = [0u8; 8];
    assert!(!d.set_bit(64));
    assert_eq!(d, [0u8; 8]);
}

#[test]
fn set_bit_in_range_sets_one_bit() {
    let mut a = [0u8; 4];
    assert!(a.set_bit(0));
    assert!(a.set_bit(31));
    assert!(a.set_bit(9));
    assert_eq!(a, [0x80, 0x40, 0, 0x01]);
    assert!(a.set_bit(9));
    assert_eq!(a, [0x80, 0x40, 0, 0x01]);
}

#[test]
fn left_shift_carries_across_bytes() {
    assert_eq!([0x01u8, 0x80, 0xff].left_shift(1), [0x03, 0x01, 0xfe]);
    assert_eq!([0x12u8, 0x34].left_shift(4), [0x23, 0x40]);
    assert_eq!([0x12u8, 0x34].left_shift(0), [0x12, 0x34]);
}

#[test]
fn right_shift_carries_across_bytes() {
    assert_eq!([0x12u8, 0x34].right_shift(4), [0x01, 0x23]);
    assert_eq!([0xffu8, 0x00, 0x01].right_shift(7), [0x01, 0xfe, 0x00]);
    assert_eq!([0x12u8, 0x34].right_shift(0), [0x12, 0x34]);
}

#[test]
fn rotate_wraps_high_bits_to_end() {
    assert_eq!([0x80u8, 0x00, 0x01].rotate(1), [0x00, 0x00, 0x03]);
    assert_eq!([0x12u8, 0x34].rotate(4), [0x23, 0x41]);
    assert_eq!([0x12u8, 0x34].rotate(0), [0x12, 0x34]);
}

#[test]
fn rotate_as_bits_on_28_bit_half() {
    // the top bit of the 28 wraps to the end and the top nibble stays clear
    assert_eq!([0x08u8, 0x00, 0x00, 0x01].rotate_as_bits(1, 28), [0x00, 0x00, 0x00, 0x03]);
    assert_eq!([0x0cu8, 0x00, 0x00, 0x00].rotate_as_bits(2, 28), [0x00, 0x00, 0x00, 0x03]);
    assert_eq!([0x0fu8, 0xff, 0xff, 0xff].rotate_as_bits(2, 28), [0x0f, 0xff, 0xff, 0xff]);
}

#[test]
fn rotate_as_bits_clears_bits_above_width() {
    assert_eq!([0xffu8, 0x00].rotate_as_bits(1, 15), [0x7e, 0x01]);
    assert_eq!([0xffu8, 0xff].rotate_as_bits(3, 16), [0xff, 0xff]);
}

#[test]
fn xor_twice_gives_back_input() {
    let a = [0x12u8, 0x34, 0x56, 0x78, 0x9a, 0xbc];
    let b = [0xffu8, 0x00, 0x0f, 0xf0, 0x55, 0xaa];
    assert_eq!(a.xor(b), [0xed, 0x34, 0x59, 0x88, 0xcf, 0x16]);
    assert_eq!(a.xor(b).xor(b), a);
    assert_eq!(a.xor(a), [0u8; 6]);
}

#[test]
fn sbox_all_ones_selects_last_column_of_last_row() {
    for i in 0..8 {
        assert_eq!(sbox_lookup(i, 63), SBOX[i][3][15]);
    }
}

#[test]
fn sbox_addressing_uses_outer_and_inner_bits() {
    assert_eq!(sbox_lookup(0, 0b000000), 14);
    assert_eq!(sbox_lookup(0, 0b100000), 4);
    assert_eq!(sbox_lookup(0, 0b000001), 0);
    assert_eq!(sbox_lookup(0, 0b011110), 7);
    assert_eq!(sbox_lookup(4, 0b101011), SBOX[4][3][5]);
}
