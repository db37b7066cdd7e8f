//! DES on one 64-bit block: key schedule, Feistel function and the sixteen
//! rounds between the initial and final permutations.
use crate::bitutils::{
    bit_at, bits, bytes_of, lemma_bits_concat, lemma_bits_from_bytes, lemma_bits_index,
    lemma_bits_of_bytes, lemma_bits_subrange, lemma_bits_xor, lemma_bytes_of_bits,
    lemma_xor_bits_involution, lemma_zero_byte_bits, rotl_width, shl_bits, shr_bits, xor_bits,
    BitUtil,
};
use crate::consts::{
    lemma_final_inverts_initial, lemma_sbox_entries_fit_nibble, EXPANSION, FINAL_PERMUTATION,
    INITIAL_PERMUTATION, PARITY_DROP, PBOX, ROUND_SHIFTS, SBOX, STRAIGHT_PERMUTATION,
};
use vstd::prelude::*;

verus! {

/// The `width`-bit string whose bit `i` is bit `table[i]` of `input`; a
/// position past the table, or an index past the input, reads `false`.
pub open spec fn permuted(table: Seq<u8>, input: Seq<bool>, width: nat) -> Seq<bool> {
    Seq::new(
        width,
        |i: int| i < table.len() && (table[i] as int) < input.len() && input[table[i] as int],
    )
}

/// The two 28-bit halves of a 56-bit string, each held in the low 28 bits
/// of 32.
pub open spec fn split_halves(b: Seq<bool>) -> (Seq<bool>, Seq<bool>) {
    (Seq::new(32, |i: int| 4 <= i && b[i - 4]), Seq::new(32, |i: int| 4 <= i && b[i + 24]))
}

/// The 56-bit string of two halves held in the low 28 bits of 32 each.
pub open spec fn merge_halves(c: Seq<bool>, d: Seq<bool>) -> Seq<bool> {
    Seq::new(56, |i: int| if i < 28 { c[i + 4] } else { d[i - 24] })
}

/// The two key halves once the rotations of the first `n` rounds are done.
pub open spec fn key_halves(key: Seq<u8>, n: nat) -> (Seq<bool>, Seq<bool>)
    decreases n,
{
    if n == 0 {
        split_halves(permuted(PARITY_DROP@, bits(key), 56))
    } else {
        let (c, d) = key_halves(key, (n - 1) as nat);
        let s = ROUND_SHIFTS@[n - 1] as int;
        (rotl_width(c, s, 28), rotl_width(d, s, 28))
    }
}

/// The 48-bit subkey of round `n + 1`.
pub open spec fn round_key(key: Seq<u8>, n: nat) -> Seq<bool> {
    let (c, d) = key_halves(key, n + 1);
    permuted(PBOX@, merge_halves(c, d), 48)
}

/// The sixteen subkeys in round order.
pub open spec fn key_schedule(key: Seq<u8>) -> Seq<Seq<bool>> {
    Seq::new(16, |n: int| round_key(key, n as nat))
}

/// 1 for a set bit, 0 for a clear one.
pub open spec fn bit_val(b: bool) -> int {
    if b {
        1
    } else {
        0
    }
}

/// The S-box row that a 6-bit group selects: its outer bits, the first one
/// high.
pub open spec fn sbox_row(bit6: u8) -> int {
    2 * ((bit6 as int / 32) % 2) + (bit6 as int) % 2
}

/// The S-box column that a 6-bit group selects: its four inner bits.
pub open spec fn sbox_col(bit6: u8) -> int {
    (bit6 as int / 2) % 16
}

/// The 48-bit string cut into eight bytes of six bits each, held in the low
/// bits.
pub open spec fn six_bit_groups(x: Seq<bool>) -> Seq<bool> {
    Seq::new(64, |p: int| p % 8 >= 2 && x[6 * (p / 8) + p % 8 - 2])
}

/// What S-box `k` gives for the six bits of `x` that start at bit `6 * k`.
pub open spec fn sbox_out(x: Seq<bool>, k: int) -> u8 {
    let g = 6 * k;
    SBOX@[k]@[2 * bit_val(x[g]) + bit_val(x[g + 5])]@[8 * bit_val(x[g + 1]) + 4 * bit_val(x[g + 2])
        + 2 * bit_val(x[g + 3]) + bit_val(x[g + 4])]
}

/// The eight 4-bit S-box outputs for the 48 bits `x`, first S-box first.
pub open spec fn sbox_layer(x: Seq<bool>) -> Seq<bool> {
    Seq::new(32, |p: int| bit_at(sbox_out(x, p / 4), (4 + p % 4) as u8))
}

/// The Feistel function on a 32-bit half block and a 48-bit subkey.
#[verifier::opaque]
pub open spec fn feistel_bits(half: Seq<bool>, key: Seq<bool>) -> Seq<bool> {
    permuted(STRAIGHT_PERMUTATION@, sbox_layer(xor_bits(permuted(EXPANSION@, half, 48), key)), 32)
}

/// The halves after `n` rounds that each end by swapping them: the new left
/// half is the old right one, the new right half the old left one mixed with
/// the Feistel function of the old right one.
pub open spec fn feistel_rounds(l: Seq<bool>, r: Seq<bool>, keys: Seq<Seq<bool>>, n: nat) -> (
    Seq<bool>,
    Seq<bool>,
)
    decreases n,
{
    if n == 0 {
        (l, r)
    } else {
        let (pl, pr) = feistel_rounds(l, r, keys, (n - 1) as nat);
        (pr, xor_bits(pl, feistel_bits(pr, keys[n - 1])))
    }
}

/// DES on the 64 bits of a block with sixteen subkeys in the order of use:
/// the initial permutation, fifteen rounds with a swap, a last round without
/// one, and the final permutation.
pub open spec fn des_bits(block: Seq<bool>, keys: Seq<Seq<bool>>) -> Seq<bool> {
    let ip = permuted(INITIAL_PERMUTATION@, block, 64);
    let (l, r) = feistel_rounds(ip.subrange(0, 32), ip.subrange(32, 64), keys, 15);
    permuted(FINAL_PERMUTATION@, xor_bits(l, feistel_bits(r, keys[15])) + r, 64)
}

/// The encryption of an 8-byte block under an 8-byte key.
pub open spec fn des_encrypt(block: Seq<u8>, key: Seq<u8>) -> Seq<u8> {
    bytes_of(des_bits(bits(block), key_schedule(key)))
}

/// The decryption of an 8-byte block under an 8-byte key: the same rounds
/// with the subkeys in reverse order.
pub open spec fn des_decrypt(block: Seq<u8>, key: Seq<u8>) -> Seq<u8> {
    bytes_of(des_bits(bits(block), key_schedule(key).reverse()))
}

/// Applies a bit-selection table to `input`: output bit `i` is set when the
/// input bit that `table[i]` names is set. The output is `M` bytes wide and
/// starts zeroed.
pub fn permute<const N: usize, const M: usize>(table: &[u8], input: &[u8; N]) -> (r: [u8; M])
    ensures
        bits(r@) == permuted(table@, bits(input@), (M * 8) as nat),
{
    let mut r: [u8; M] = [0u8; M];
    let ghost target = permuted(table@, bits(input@), (M * 8) as nat);
    proof {
        assert forall|q: int| 0 <= q < M * 8 implies !bits(r@)[q] by {
            lemma_zero_byte_bits((q % 8) as u8);
        }
        assert(bits(r@) =~= Seq::new((M * 8) as nat, |q: int| q < 0 && target[q]));
    }
    for i in 0..table.len()
        invariant
            target == permuted(table@, bits(input@), (M * 8) as nat),
            bits(r@) == Seq::new((M * 8) as nat, |q: int| q < i && target[q]),
    {
        if input.get_bit(table[i] as usize) {
            r.set_bit(i);
        }
        assert(bits(r@) =~= Seq::new((M * 8) as nat, |q: int| q < i + 1 && target[q]));
    }
    assert(bits(r@) =~= target);
    r
}

/// Permutes a 64-bit block by a 64-entry table.
pub fn permutation(table: [u8; 64], input: [u8; 8]) -> (r: [u8; 8])
    ensures
        bits(r@) == permuted(table@, bits(input@), 64),
{
    permute(&table, &input)
}

/// The initial permutation of a block.
pub struct InitialPermutation;

impl InitialPermutation {
    pub fn run(input: [u8; 8]) -> (r: [u8; 8])
        ensures
            bits(r@) == permuted(INITIAL_PERMUTATION@, bits(input@), 64),
    {
        permutation(INITIAL_PERMUTATION, input)
    }
}

/// The final permutation of a block.
pub struct FinalPermutation;

impl FinalPermutation {
    pub fn run(input: [u8; 8]) -> (r: [u8; 8])
        ensures
            bits(r@) == permuted(FINAL_PERMUTATION@, bits(input@), 64),
    {
        permutation(FINAL_PERMUTATION, input)
    }
}

/// Drops the eight parity bits of a key (PC-1), leaving 56 bits.
pub fn parity_drop(input: [u8; 8]) -> (r: [u8; 7])
    ensures
        bits(r@) == permuted(PARITY_DROP@, bits(input@), 56),
{
    permute(&PARITY_DROP, &input)
}

/// Compresses 56 rotated key bits into a 48-bit round key (PC-2).
pub fn pbox_compress(input: [u8; 7]) -> (r: [u8; 6])
    ensures
        bits(r@) == permuted(PBOX@, bits(input@), 48),
{
    permute(&PBOX, &input)
}

/// Expands a 32-bit half block to 48 bits.
pub fn expand(input: [u8; 4]) -> (r: [u8; 6])
    ensures
        bits(r@) == permuted(EXPANSION@, bits(input@), 48),
{
    permute(&EXPANSION, &input)
}

/// Permutes the 32 bits that come out of the S-boxes.
pub fn straight_permutation(input: [u8; 4]) -> (r: [u8; 4])
    ensures
        bits(r@) == permuted(STRAIGHT_PERMUTATION@, bits(input@), 32),
{
    permute(&STRAIGHT_PERMUTATION, &input)
}

/// Splits a block into its left and right halves.
pub fn split_64bit(input: [u8; 8]) -> (r: ([u8; 4], [u8; 4]))
    ensures
        r.0@ == input@.subrange(0, 4),
        r.1@ == input@.subrange(4, 8),
{
    let l: [u8; 4] = [input[0], input[1], input[2], input[3]];
    let r: [u8; 4] = [input[4], input[5], input[6], input[7]];
    assert(l@ =~= input@.subrange(0, 4));
    assert(r@ =~= input@.subrange(4, 8));
    (l, r)
}

/// Joins a left and a right half into a block.
pub fn merge_32bits(l: [u8; 4], r: [u8; 4]) -> (m: [u8; 8])
    ensures
        m@ == l@ + r@,
{
    let m: [u8; 8] = [l[0], l[1], l[2], l[3], r[0], r[1], r[2], r[3]];
    assert(m@ =~= l@ + r@);
    m
}

/// Splits the 56-bit key into two 28-bit halves, each in the low bits of
/// four bytes.
pub fn split_56bit(input: [u8; 7]) -> (r: ([u8; 4], [u8; 4]))
    ensures
        bits(r.0@) == split_halves(bits(input@)).0,
        bits(r.1@) == split_halves(bits(input@)).1,
{
    let l0: [u8; 4] = [input[0], input[1], input[2], input[3]];
    let l = l0.right_shift(4);
    let r0: [u8; 4] = [input[3], input[4], input[5], input[6]];
    let r = r0.left_shift(4).right_shift(4);
    proof {
        assert(l0@ =~= input@.subrange(0, 4));
        assert(r0@ =~= input@.subrange(3, 7));
        lemma_bits_subrange(input@, 0, 4);
        lemma_bits_subrange(input@, 3, 7);
        assert(bits(l@) =~= split_halves(bits(input@)).0);
        assert(bits(r@) =~= split_halves(bits(input@)).1);
    }
    (l, r)
}

/// Bit `j` of the high half of `a` joined to the low half of `b`.
proof fn lemma_join_nibbles(a: u8, b: u8, j: u8)
    by (bit_vector)
    requires
        j < 8,
    ensures
        bit_at((a & 0xF0u8) | (b & 0x0Fu8), j) == if j < 4 {
            bit_at(a, j)
        } else {
            bit_at(b, j)
        },
{
}

/// Joins two 28-bit halves, held in the low bits of four bytes each, into
/// 56 bits.
pub fn merge_28bits(l: [u8; 4], r: [u8; 4]) -> (m: [u8; 7])
    ensures
        bits(m@) == merge_halves(bits(l@), bits(r@)),
{
    let l_temp = l.left_shift(4);
    let m: [u8; 7] = [
        l_temp[0],
        l_temp[1],
        l_temp[2],
        (l_temp[3] & 0xF0u8) | (r[0] & 0x0Fu8),
        r[1],
        r[2],
        r[3],
    ];
    proof {
        let target = merge_halves(bits(l@), bits(r@));
        assert(bits(l_temp@) == shl_bits(bits(l@), 4));
        assert forall|k: int, j: u8| 0 <= k < 7 && j < 8 implies #[trigger] bit_at(m@[k], j)
            == target[8 * k + j] by {
            if k < 3 {
                lemma_bits_index(l_temp@, k, j);
            } else if k == 3 {
                lemma_join_nibbles(l_temp[3], r[0], j);
                lemma_bits_index(l_temp@, 3, j);
                lemma_bits_index(r@, 0, j);
            } else {
                lemma_bits_index(r@, k - 3, j);
            }
        }
        lemma_bits_from_bytes(m@, target);
    }
    m
}

/// Derives the sixteen round subkeys of a key, round one first.
pub fn round_keys(input: [u8; 8]) -> (keys: [[u8; 6]; 16])
    ensures
        forall|n: int| 0 <= n < 16 ==> bits(#[trigger] keys@[n]@) == key_schedule(input@)[n],
{
    let mut keys: [[u8; 6]; 16] = [[0u8; 6]; 16];
    let pc1: [u8; 7] = parity_drop(input);
    let (mut l, mut r) = split_56bit(pc1);
    for i in 0..16
        invariant
            (bits(l@), bits(r@)) == key_halves(input@, i as nat),
            forall|n: int| 0 <= n < i ==> bits(#[trigger] keys@[n]@) == key_schedule(input@)[n],
    {
        assert(ROUND_SHIFTS@[i as int] < 8);
        let temp_l: [u8; 4] = l.rotate_as_bits(ROUND_SHIFTS[i], 28);
        let temp_r: [u8; 4] = r.rotate_as_bits(ROUND_SHIFTS[i], 28);
        let m: [u8; 7] = merge_28bits(temp_l, temp_r);
        keys[i] = pbox_compress(m);
        l = temp_l;
        r = temp_r;
    }
    keys
}

/// Cuts 48 bits into eight groups of six, each in the low bits of a byte.
pub fn split_48bits(input: [u8; 6]) -> (r: [u8; 8])
    ensures
        bits(r@) == six_bit_groups(bits(input@)),
{
    let ghost x = bits(input@);
    let mut r: [u8; 8] = [0u8; 8];
    let mut temp = input;
    for i in 0..8
        invariant
            x == bits(input@),
            bits(temp@) == shl_bits(x, 6 * i),
            forall|k: int, j: u8|
                0 <= k < i && j < 8 ==> #[trigger] bit_at(r@[k], j) == six_bit_groups(x)[8 * k + j],
    {
        let head: [u8; 1] = [temp[0]];
        let group: [u8; 1] = head.right_shift(2);
        r[i] = group[0];
        proof {
            assert forall|j: u8| j < 8 implies #[trigger] bit_at(r@[i as int], j) == six_bit_groups(
                x,
            )[8 * i + j] by {
                lemma_bits_index(group@, 0, j);
                assert(bits(group@) == shr_bits(bits(head@), 2));
                if j >= 2 {
                    lemma_bits_index(head@, 0, (j - 2) as u8);
                    lemma_bits_index(temp@, 0, (j - 2) as u8);
                }
                assert((8 * i + j) / 8 == i);
                assert((8 * i + j) % 8 == j);
            }
        }
        temp = temp.left_shift(6);
        assert(bits(temp@) =~= shl_bits(x, 6 * (i + 1)));
    }
    proof {
        lemma_bits_from_bytes(r@, six_bit_groups(x));
    }
    r
}

/// The row and column arithmetic of an S-box address, and the same in
/// terms of the bits of the group.
proof fn lemma_sbox_address(b: u8)
    by (bit_vector)
    ensures
        ((b >> 4u8) & 2u8) + (b & 1u8) < 4,
        ((b >> 4u8) & 2u8) + (b & 1u8) == 2 * ((b / 32) % 2) + b % 2,
        (b & 30u8) >> 1u8 == (b / 2) % 16,
        2 * ((b / 32) % 2) + b % 2 == 2 * (if bit_at(b, 2) { 1u8 } else { 0u8 }) + (if bit_at(
            b,
            7,
        ) {
            1u8
        } else {
            0u8
        }),
        (b / 2) % 16 == 8 * (if bit_at(b, 3) { 1u8 } else { 0u8 }) + 4 * (if bit_at(b, 4) {
            1u8
        } else {
            0u8
        }) + 2 * (if bit_at(b, 5) { 1u8 } else { 0u8 }) + (if bit_at(b, 6) { 1u8 } else { 0u8 }),
{
}

/// Looks up S-box `i` for a 6-bit group: the outer bits give the row, the
/// inner four the column.
pub fn sbox_lookup(i: usize, bit6: u8) -> (r: u8)
    requires
        i < 8,
    ensures
        r == SBOX@[i as int]@[sbox_row(bit6)]@[sbox_col(bit6)],
        r < 16,
{
    proof {
        lemma_sbox_address(bit6);
        lemma_sbox_entries_fit_nibble();
    }
    let f: u8 = ((bit6 >> 4u8) & 2u8) + (bit6 & 1u8);
    let j: u8 = (bit6 & 30u8) >> 1u8;
    SBOX[i][f as usize][j as usize]
}

/// Bit `j` of the byte that holds the low half of `a`, then the low half of
/// `b`.
proof fn lemma_join_outputs(a: u8, b: u8, j: u8)
    by (bit_vector)
    requires
        j < 8,
    ensures
        bit_at(((a << 4u8) as u8) | (b & 0x0Fu8), j) == if j < 4 {
            bit_at(a, (j + 4) as u8)
        } else {
            bit_at(b, j)
        },
{
}

/// The Feistel function: expand, mix in the subkey, substitute through the
/// S-boxes and permute.
pub fn feistel(input: [u8; 4], key: [u8; 6]) -> (r: [u8; 4])
    ensures
        bits(r@) == feistel_bits(bits(input@), bits(key@)),
{
    let expanded: [u8; 6] = expand(input);
    let xored: [u8; 6] = expanded.xor(key);
    let bit6s: [u8; 8] = split_48bits(xored);
    let ghost x = xor_bits(permuted(EXPANSION@, bits(input@), 48), bits(key@));
    let ghost s = sbox_layer(x);
    proof {
        lemma_bits_xor(expanded@, key@);
    }
    let mut out: [u8; 4] = [0u8; 4];
    for i in 0..4
        invariant
            bits(bit6s@) == six_bit_groups(x),
            s == sbox_layer(x),
            x.len() == 48,
            forall|k: int, j: u8|
                0 <= k < i && j < 8 ==> #[trigger] bit_at(out@[k], j) == s[8 * k + j],
    {
        let hi = sbox_lookup(2 * i, bit6s[2 * i]);
        let lo = sbox_lookup(2 * i + 1, bit6s[2 * i + 1]);
        out[i] = (hi << 4u8) | (lo & 0x0Fu8);
        proof {
            lemma_lookup_is_sbox_out(bit6s@, x, 2 * i, hi);
            lemma_lookup_is_sbox_out(bit6s@, x, 2 * i + 1, lo);
            lemma_output_byte(x, i as int, hi, lo, out[i as int]);
        }
    }
    proof {
        lemma_bits_from_bytes(out@, s);
        reveal(feistel_bits);
    }
    straight_permutation(out)
}

/// Runs the permutations and the sixteen rounds on a block, with the
/// subkeys in the order given.
fn crypt_block(input: [u8; 8], keys: &[[u8; 6]; 16]) -> (c: [u8; 8])
    ensures
        bits(c@) == des_bits(bits(input@), Seq::new(16, |n: int| bits(keys@[n]@))),
{
    let ghost ks = Seq::new(16, |n: int| bits(keys@[n]@));
    let ip = InitialPermutation::run(input);
    let (mut l, mut r) = split_64bit(ip);
    proof {
        lemma_bits_subrange(ip@, 0, 4);
        lemma_bits_subrange(ip@, 4, 8);
    }
    // Fifteen rounds end with a swap of the halves; the last one does not.
    for i in 0..15
        invariant
            ks == Seq::new(16, |n: int| bits(keys@[n]@)),
            (bits(l@), bits(r@)) == feistel_rounds(
                bits(ip@).subrange(0, 32),
                bits(ip@).subrange(32, 64),
                ks,
                i as nat,
            ),
    {
        let f = feistel(r, keys[i]);
        let new_r = l.xor(f);
        proof {
            lemma_bits_xor(l@, f@);
        }
        l = r;
        r = new_r;
    }
    let f = feistel(r, keys[15]);
    proof {
        lemma_bits_xor(l@, f@);
    }
    l = l.xor(f);
    let m: [u8; 8] = merge_32bits(l, r);
    proof {
        lemma_bits_concat(l@, r@);
    }
    FinalPermutation::run(m)
}

/// Encrypts one 8-byte block under an 8-byte key.
pub fn encrypt(input: [u8; 8], key: [u8; 8]) -> (c: [u8; 8])
    ensures
        c@ == des_encrypt(input@, key@),
{
    let keys = round_keys(key);
    let c = crypt_block(input, &keys);
    proof {
        assert(Seq::new(16, |n: int| bits(keys@[n]@)) =~= key_schedule(key@));
        lemma_bytes_of_bits(c@);
    }
    c
}

/// Decrypts one 8-byte block under an 8-byte key.
pub fn decrypt(cipher: [u8; 8], key: [u8; 8]) -> (d: [u8; 8])
    ensures
        d@ == des_decrypt(cipher@, key@),
{
    let keys = round_keys(key);
    let mut reversed: [[u8; 6]; 16] = [[0u8; 6]; 16];
    for i in 0..16
        invariant
            forall|n: int| 0 <= n < i ==> #[trigger] reversed@[n] == keys@[15 - n],
    {
        reversed[i] = keys[15 - i];
    }
    let d = crypt_block(cipher, &reversed);
    proof {
        assert(Seq::new(16, |n: int| bits(reversed@[n]@)) =~= key_schedule(key@).reverse());
        lemma_bytes_of_bits(d@);
    }
    d
}

/// The final permutation undoes the initial one, and the other way round.
pub proof fn lemma_final_permutation_inverts(x: Seq<bool>)
    requires
        x.len() == 64,
    ensures
        permuted(FINAL_PERMUTATION@, permuted(INITIAL_PERMUTATION@, x, 64), 64) == x,
        permuted(INITIAL_PERMUTATION@, permuted(FINAL_PERMUTATION@, x, 64), 64) == x,
{
    lemma_final_inverts_initial();
    let y = permuted(INITIAL_PERMUTATION@, x, 64);
    let z = permuted(FINAL_PERMUTATION@, x, 64);
    assert forall|i: int| 0 <= i < 64 implies #[trigger] permuted(FINAL_PERMUTATION@, y, 64)[i]
        == x[i] by {
        assert(INITIAL_PERMUTATION@[FINAL_PERMUTATION@[i] as int] == i);
    }
    assert forall|i: int| 0 <= i < 64 implies #[trigger] permuted(INITIAL_PERMUTATION@, z, 64)[i]
        == x[i] by {
        assert(FINAL_PERMUTATION@[INITIAL_PERMUTATION@[i] as int] == i);
    }
    assert(permuted(FINAL_PERMUTATION@, y, 64) =~= x);
    assert(permuted(INITIAL_PERMUTATION@, z, 64) =~= x);
}

/// Rounds under the reversed subkeys, started from the output halves of
/// fifteen rounds with the last round applied, walk the forward rounds back:
/// after `j` of them the halves are those of round `16 - j`, swapped.
proof fn lemma_rounds_reversed(l0: Seq<bool>, r0: Seq<bool>, keys: Seq<Seq<bool>>, j: nat)
    requires
        keys.len() == 16,
        1 <= j <= 15,
    ensures
        ({
            let (l, r) = feistel_rounds(l0, r0, keys, 15);
            let back = feistel_rounds(
                xor_bits(l, feistel_bits(r, keys[15])),
                r,
                keys.reverse(),
                j,
            );
            let fwd = feistel_rounds(l0, r0, keys, (16 - j) as nat);
            back == (fwd.1, fwd.0)
        }),
    decreases j,
{
    let (l, r) = feistel_rounds(l0, r0, keys, 15);
    let start_l = xor_bits(l, feistel_bits(r, keys[15]));
    let rk = keys.reverse();
    let back = feistel_rounds(start_l, r, rk, j);
    let fwd = feistel_rounds(l0, r0, keys, (16 - j) as nat);
    if j == 1 {
        assert(rk[0] == keys[15]);
        lemma_xor_bits_involution(l, feistel_bits(r, keys[15]));
        assert(feistel_rounds(start_l, r, rk, 0) == (start_l, r));
        assert(back == (r, xor_bits(start_l, feistel_bits(r, rk[0]))));
        assert(back == (fwd.1, fwd.0));
    } else {
        lemma_rounds_reversed(l0, r0, keys, (j - 1) as nat);
        let m = (17 - j) as nat;
        let prev = feistel_rounds(l0, r0, keys, (m - 1) as nat);
        let fm = feistel_rounds(l0, r0, keys, m);
        let pb = feistel_rounds(start_l, r, rk, (j - 1) as nat);
        assert(pb == (fm.1, fm.0));
        assert(fm == (prev.1, xor_bits(prev.0, feistel_bits(prev.1, keys[m - 1]))));
        assert(rk[j - 1] == keys[m - 1]);
        assert(back == (pb.1, xor_bits(pb.0, feistel_bits(pb.1, rk[j - 1]))));
        lemma_xor_bits_involution(prev.0, feistel_bits(prev.1, keys[m - 1]));
        assert(back == (fwd.1, fwd.0));
    }
}

/// Decrypting under a key undoes encrypting under the same key, for every
/// block and key.
pub proof fn lemma_decrypt_encrypt(block: Seq<u8>, key: Seq<u8>)
    requires
        block.len() == 8,
        key.len() == 8,
    ensures
        des_decrypt(des_encrypt(block, key), key) == block,
{
    let ks = key_schedule(key);
    let b = bits(block);
    let e = des_bits(b, ks);
    let ip = permuted(INITIAL_PERMUTATION@, b, 64);
    let (l0, r0) = (ip.subrange(0, 32), ip.subrange(32, 64));
    let (l, r) = feistel_rounds(l0, r0, ks, 15);
    let x = xor_bits(l, feistel_bits(r, ks[15])) + r;
    assert(l.len() == 32 && r.len() == 32) by {
        lemma_rounds_len(l0, r0, ks, 15);
    }
    lemma_bits_of_bytes(e);
    lemma_final_permutation_inverts(x);
    let ip2 = permuted(INITIAL_PERMUTATION@, e, 64);
    assert(ip2 == x);
    assert(ip2.subrange(0, 32) =~= xor_bits(l, feistel_bits(r, ks[15])));
    assert(ip2.subrange(32, 64) =~= r);
    lemma_rounds_reversed(l0, r0, ks, 15);
    let (dl, dr) = feistel_rounds(ip2.subrange(0, 32), ip2.subrange(32, 64), ks.reverse(), 15);
    assert(ks.reverse()[15] == ks[0]);
    let f1 = feistel_rounds(l0, r0, ks, 1);
    assert(feistel_rounds(l0, r0, ks, 0) == (l0, r0));
    assert(f1 == (r0, xor_bits(l0, feistel_bits(r0, ks[0]))));
    assert(dl == f1.1 && dr == f1.0);
    lemma_xor_bits_involution(l0, feistel_bits(r0, ks[0]));
    assert(xor_bits(dl, feistel_bits(dr, ks.reverse()[15])) + dr =~= ip);
    lemma_final_permutation_inverts(b);
    lemma_bytes_of_bits(block);
}

/// Every round keeps both halves 32 bits long.
proof fn lemma_rounds_len(l: Seq<bool>, r: Seq<bool>, keys: Seq<Seq<bool>>, n: nat)
    requires
        l.len() == 32,
        r.len() == 32,
    ensures
        feistel_rounds(l, r, keys, n).0.len() == 32,
        feistel_rounds(l, r, keys, n).1.len() == 32,
    decreases n,
{
    if n > 0 {
        lemma_rounds_len(l, r, keys, (n - 1) as nat);
    }
}

/// A lookup at the address of group `k` is what S-box `k` gives for it.
proof fn lemma_lookup_is_sbox_out(g: Seq<u8>, x: Seq<bool>, k: int, v: u8)
    requires
        bits(g) == six_bit_groups(x),
        x.len() == 48,
        0 <= k < 8,
        v == SBOX@[k]@[sbox_row(g[k])]@[sbox_col(g[k])],
    ensures
        v == sbox_out(x, k),
{
    lemma_sbox_address(g[k]);
    lemma_group_bits(g, x, k);
}

/// Byte `i` of the S-box layer holds the outputs of S-boxes `2 * i` and
/// `2 * i + 1`.
proof fn lemma_output_byte(x: Seq<bool>, i: int, hi: u8, lo: u8, b: u8)
    requires
        0 <= i < 4,
        hi == sbox_out(x, 2 * i),
        lo == sbox_out(x, 2 * i + 1),
        b == ((hi << 4u8) as u8) | (lo & 0x0Fu8),
    ensures
        forall|j: u8| j < 8 ==> #[trigger] bit_at(b, j) == sbox_layer(x)[8 * i + j],
{
    assert forall|j: u8| j < 8 implies #[trigger] bit_at(b, j) == sbox_layer(x)[8 * i + j] by {
        lemma_join_outputs(hi, lo, j);
        assert((8 * i + j) / 4 == if j < 4 { 2 * i } else { 2 * i + 1 });
        assert((8 * i + j) % 4 == if j < 4 { j as int } else { j - 4 });
    }
}

/// The bits of group `k` of the six-bit groups of `x`.
proof fn lemma_group_bits(g: Seq<u8>, x: Seq<bool>, k: int)
    requires
        bits(g) == six_bit_groups(x),
        x.len() == 48,
        0 <= k < 8,
    ensures
        bit_at(g[k], 2) == x[6 * k],
        bit_at(g[k], 3) == x[6 * k + 1],
        bit_at(g[k], 4) == x[6 * k + 2],
        bit_at(g[k], 5) == x[6 * k + 3],
        bit_at(g[k], 6) == x[6 * k + 4],
        bit_at(g[k], 7) == x[6 * k + 5],
{
    assert(g.len() == 8) by {
        assert(bits(g).len() == 64);
    }
    lemma_bits_index(g, k, 2);
    lemma_bits_index(g, k, 3);
    lemma_bits_index(g, k, 4);
    lemma_bits_index(g, k, 5);
    lemma_bits_index(g, k, 6);
    lemma_bits_index(g, k, 7);
    assert((8 * k + 2) / 8 == k && (8 * k + 2) % 8 == 2);
    assert((8 * k + 3) / 8 == k && (8 * k + 3) % 8 == 3);
    assert((8 * k + 4) / 8 == k && (8 * k + 4) % 8 == 4);
    assert((8 * k + 5) / 8 == k && (8 * k + 5) % 8 == 5);
    assert((8 * k + 6) / 8 == k && (8 * k + 6) % 8 == 6);
    assert((8 * k + 7) / 8 == k && (8 * k + 7) % 8 == 7);
}

} // verus!
