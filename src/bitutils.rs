//! A fixed-length byte array read as one big-endian bit string: bit 0 is the
//! most significant bit of byte 0.
use vstd::arithmetic::div_mod::{
    lemma_add_mod_noop_right, lemma_mod_add_multiples_vanish, lemma_small_mod,
};
use vstd::prelude::*;

verus! {

/// Bit `j` (0 = most significant) of the byte `b`.
pub open spec fn bit_at(b: u8, j: u8) -> bool {
    b & (0x80u8 >> j) != 0
}

/// The bit string that a byte sequence spells, most significant bit first.
pub open spec fn bits(s: Seq<u8>) -> Seq<bool> {
    Seq::new(s.len() * 8, |i: int| bit_at(s[i / 8], (i % 8) as u8))
}

/// Byte-wise exclusive or of two sequences of equal length.
pub open spec fn xor_bytes(a: Seq<u8>, b: Seq<u8>) -> Seq<u8> {
    Seq::new(a.len(), |i: int| a[i] ^ b[i])
}

/// Logical shift toward bit 0 by `k` places; vacated places read `false`.
pub open spec fn shl_bits(b: Seq<bool>, k: int) -> Seq<bool> {
    Seq::new(b.len(), |p: int| p + k < b.len() && b[p + k])
}

/// Logical shift away from bit 0 by `k` places; vacated places read `false`.
pub open spec fn shr_bits(b: Seq<bool>, k: int) -> Seq<bool> {
    Seq::new(b.len(), |p: int| p >= k && b[p - k])
}

/// Rotation toward bit 0 by `k` places: the bits that leave at the front come
/// back at the end.
pub open spec fn rotl_bits(b: Seq<bool>, k: int) -> Seq<bool> {
    Seq::new(b.len(), |p: int| b[(p + k) % (b.len() as int)])
}

/// Rotation by `k` places of the last `w` bits alone; the bits in front of
/// them read `false`.
pub open spec fn rotl_width(b: Seq<bool>, k: int, w: int) -> Seq<bool> {
    let o = b.len() - w;
    Seq::new(b.len(), |p: int| o <= p && b[o + (p - o + k) % w])
}

/// Bitwise exclusive or of two bit strings of equal length.
pub open spec fn xor_bits(a: Seq<bool>, b: Seq<bool>) -> Seq<bool> {
    Seq::new(a.len(), |i: int| a[i] != b[i])
}

/// The byte whose bits, most significant first, are `b0` to `b7`.
pub open spec fn pack8(
    b0: bool,
    b1: bool,
    b2: bool,
    b3: bool,
    b4: bool,
    b5: bool,
    b6: bool,
    b7: bool,
) -> u8 {
    (if b0 { 0x80u8 } else { 0u8 }) | (if b1 { 0x40u8 } else { 0u8 }) | (if b2 {
        0x20u8
    } else {
        0u8
    }) | (if b3 { 0x10u8 } else { 0u8 }) | (if b4 { 0x08u8 } else { 0u8 }) | (if b5 {
        0x04u8
    } else {
        0u8
    }) | (if b6 { 0x02u8 } else { 0u8 }) | (if b7 { 0x01u8 } else { 0u8 })
}

/// The bytes that spell a bit string whose length is a multiple of eight.
pub open spec fn bytes_of(b: Seq<bool>) -> Seq<u8> {
    Seq::new(
        b.len() / 8,
        |k: int|
            pack8(
                b[8 * k],
                b[8 * k + 1],
                b[8 * k + 2],
                b[8 * k + 3],
                b[8 * k + 4],
                b[8 * k + 5],
                b[8 * k + 6],
                b[8 * k + 7],
            ),
    )
}

/// Operations on a fixed-length byte string seen as a bit string.
pub trait BitUtil: Sized {
    /// The bytes of the string.
    spec fn byte_view(&self) -> Seq<u8>;

    /// Reads bit `index`; an index past the end reads as `false`.
    fn get_bit(&self, index: usize) -> (r: bool)
        ensures
            r == (index < self.byte_view().len() * 8 && bits(self.byte_view())[index as int]),
    ;

    /// Sets bit `index` to one and reports whether the index was in range; an
    /// index past the end leaves the string as it was.
    fn set_bit(&mut self, index: usize) -> (r: bool)
        ensures
            r == (index < old(self).byte_view().len() * 8),
            final(self).byte_view().len() == old(self).byte_view().len(),
            r ==> bits(final(self).byte_view()) == bits(old(self).byte_view()).update(
                index as int,
                true,
            ),
            !r ==> final(self).byte_view() == old(self).byte_view(),
    ;

    /// Rotates the whole string left by `rhs` bits.
    fn rotate(&self, rhs: usize) -> (r: Self)
        requires
            rhs < 8,
        ensures
            r.byte_view().len() == self.byte_view().len(),
            bits(r.byte_view()) == rotl_bits(bits(self.byte_view()), rhs as int),
    ;

    /// Rotates left by `rhs` bits the low `width` bits of the string, the only
    /// ones that count; the bits above them come out clear.
    fn rotate_as_bits(&self, rhs: usize, width: usize) -> (r: Self)
        requires
            rhs < 8,
            0 < width <= self.byte_view().len() * 8,
            self.byte_view().len() * 8 <= usize::MAX,
        ensures
            r.byte_view().len() == self.byte_view().len(),
            bits(r.byte_view()) == rotl_width(bits(self.byte_view()), rhs as int, width as int),
    ;

    /// Shifts the whole string right by `rhs` bits, carrying across bytes.
    fn right_shift(&self, rhs: usize) -> (r: Self)
        requires
            rhs < 8,
        ensures
            r.byte_view().len() == self.byte_view().len(),
            bits(r.byte_view()) == shr_bits(bits(self.byte_view()), rhs as int),
    ;

    /// Shifts the whole string left by `rhs` bits, carrying across bytes.
    fn left_shift(&self, rhs: usize) -> (r: Self)
        requires
            rhs < 8,
        ensures
            r.byte_view().len() == self.byte_view().len(),
            bits(r.byte_view()) == shl_bits(bits(self.byte_view()), rhs as int),
    ;

    /// Byte-wise exclusive or with a string of the same length.
    fn xor(&self, x: Self) -> (r: Self)
        requires
            x.byte_view().len() == self.byte_view().len(),
        ensures
            r.byte_view() == xor_bytes(self.byte_view(), x.byte_view()),
    ;
}

impl<const N: usize> BitUtil for [u8; N] {
    open spec fn byte_view(&self) -> Seq<u8> {
        self@
    }

    fn get_bit(&self, index: usize) -> (r: bool) {
        if index / 8 >= N {
            false
        } else {
            self[index / 8] & (0x80u8 >> (index % 8) as u8) != 0
        }
    }

    fn set_bit(&mut self, index: usize) -> (r: bool) {
        if index / 8 >= N {
            false
        } else {
            let s = index / 8;
            let i = (index % 8) as u8;
            self[s] = self[s] | (0x80u8 >> i);
            proof {
                assert forall|j: u8| j < 8 implies #[trigger] bit_at(self@[s as int], j) == (j == i
                    || bit_at(old(self)@[s as int], j)) by {
                    lemma_set_bit_in_byte(old(self)@[s as int], i, j);
                }
                assert(bits(self@) =~= bits(old(self)@).update(index as int, true));
            }
            true
        }
    }

    fn rotate(&self, rhs: usize) -> (r: [u8; N]) {
        let mut x = *self;
        for i in 0..N
            invariant
                rhs < 8,
                forall|k: int, j: u8|
                    0 <= k < i && j < 8 ==> #[trigger] bit_at(x@[k], j) == rotl_bits(
                        bits(self@),
                        rhs as int,
                    )[8 * k + j],
        {
            let next: u8 = if i + 1 == N {
                self[0]
            } else {
                self[i + 1]
            };
            x[i] = shl_window(self[i], next, rhs);
            assert forall|j: u8| j < 8 implies #[trigger] bit_at(x@[i as int], j) == rotl_bits(
                bits(self@),
                rhs as int,
            )[8 * i + j] by {
                let p = 8 * i + j;
                let n = (N * 8) as int;
                lemma_bits_index(self@, i as int, j);
                if j + rhs < 8 {
                    lemma_small_mod((p + rhs) as nat, n as nat);
                    lemma_bits_index(self@, i as int, (j + rhs) as u8);
                } else if i + 1 == N {
                    lemma_mod_add_multiples_vanish(j + rhs - 8, n);
                    lemma_small_mod((j + rhs - 8) as nat, n as nat);
                    lemma_bits_index(self@, 0, (j + rhs - 8) as u8);
                } else {
                    lemma_small_mod((p + rhs) as nat, n as nat);
                    lemma_bits_index(self@, i + 1, (j + rhs - 8) as u8);
                }
            }
        }
        proof {
            lemma_bits_from_bytes(x@, rotl_bits(bits(self@), rhs as int));
        }
        x
    }

    fn rotate_as_bits(&self, rhs: usize, width: usize) -> (r: [u8; N]) {
        let mut x = *self;
        for i in 0..N
            invariant
                forall|k: int| 0 <= k < i ==> x@[k] == 0u8,
        {
            x[i] = 0;
        }
        let n = N * 8;
        let o = n - width;
        let ghost b = bits(self@);
        let ghost target = rotl_width(b, rhs as int, width as int);
        assert(bits(x@) =~= Seq::new(n as nat, |q: int| o <= q < o && target[q])) by {
            assert forall|q: int| 0 <= q < n implies !bits(x@)[q] by {
                lemma_zero_byte_bits((q % 8) as u8);
            }
        }
        let mut p = o;
        while p < n
            invariant
                o <= p <= n,
                n == N * 8,
                o == n - width,
                0 < width,
                b == bits(self@),
                target == rotl_width(b, rhs as int, width as int),
                bits(x@) == Seq::new(n as nat, |q: int| o <= q < p && target[q]),
            decreases n - p,
        {
            let d = p - o;
            let k = rhs % width;
            let t = if d >= width - k {
                d - (width - k)
            } else {
                d + k
            };
            proof {
                lemma_add_mod_noop_right(d as int, rhs as int, width as int);
                if d >= width - k {
                    lemma_mod_add_multiples_vanish(t as int, width as int);
                }
                lemma_small_mod(t as nat, width as nat);
            }
            let src = o + t;
            if self.get_bit(src) {
                x.set_bit(p);
            }
            assert(bits(x@) =~= Seq::new(n as nat, |q: int| o <= q < p + 1 && target[q]));
            p = p + 1;
        }
        assert(bits(x@) =~= target);
        x
    }

    fn right_shift(&self, rhs: usize) -> (r: [u8; N]) {
        let mut x = *self;
        for i in 0..N
            invariant
                rhs < 8,
                forall|k: int, j: u8|
                    0 <= k < i && j < 8 ==> #[trigger] bit_at(x@[k], j) == shr_bits(
                        bits(self@),
                        rhs as int,
                    )[8 * k + j],
        {
            let prev: u8 = if i == 0 {
                0
            } else {
                self[i - 1]
            };
            x[i] = shr_window(prev, self[i], rhs);
            assert forall|j: u8| j < 8 implies #[trigger] bit_at(x@[i as int], j) == shr_bits(
                bits(self@),
                rhs as int,
            )[8 * i + j] by {
                if j >= rhs {
                    lemma_bits_index(self@, i as int, (j - rhs) as u8);
                } else if i > 0 {
                    lemma_bits_index(self@, i - 1, (8 + j - rhs) as u8);
                } else {
                    lemma_zero_byte_bits((8 + j - rhs) as u8);
                }
            }
        }
        proof {
            lemma_bits_from_bytes(x@, shr_bits(bits(self@), rhs as int));
        }
        x
    }

    fn left_shift(&self, rhs: usize) -> (r: [u8; N]) {
        let mut x = *self;
        for i in 0..N
            invariant
                rhs < 8,
                forall|k: int, j: u8|
                    0 <= k < i && j < 8 ==> #[trigger] bit_at(x@[k], j) == shl_bits(
                        bits(self@),
                        rhs as int,
                    )[8 * k + j],
        {
            let next: u8 = if i + 1 == N {
                0
            } else {
                self[i + 1]
            };
            x[i] = shl_window(self[i], next, rhs);
            assert forall|j: u8| j < 8 implies #[trigger] bit_at(x@[i as int], j) == shl_bits(
                bits(self@),
                rhs as int,
            )[8 * i + j] by {
                if j + rhs < 8 {
                    lemma_bits_index(self@, i as int, (j + rhs) as u8);
                } else if i + 1 < N {
                    lemma_bits_index(self@, i + 1, (j + rhs - 8) as u8);
                } else {
                    lemma_zero_byte_bits((j + rhs - 8) as u8);
                }
            }
        }
        proof {
            lemma_bits_from_bytes(x@, shl_bits(bits(self@), rhs as int));
        }
        x
    }

    fn xor(&self, x: [u8; N]) -> (r: [u8; N]) {
        let mut r = *self;
        for i in 0..N
            invariant
                forall|j: int| 0 <= j < i ==> r@[j] == self@[j] ^ x@[j],
                forall|j: int| i <= j < N ==> r@[j] == self@[j],
        {
            r[i] = self[i] ^ x[i];
        }
        assert(r@ =~= xor_bytes(self@, x@));
        r
    }
}

/// The byte that starts `rhs` bits into the 16-bit window `hi` then `lo`.
fn shl_window(hi: u8, lo: u8, rhs: usize) -> (r: u8)
    requires
        rhs < 8,
    ensures
        forall|j: u8|
            j < 8 ==> #[trigger] bit_at(r, j) == if j + rhs < 8 {
                bit_at(hi, (j + rhs) as u8)
            } else {
                bit_at(lo, (j + rhs - 8) as u8)
            },
{
    let k = rhs as u16;
    let w: u16 = ((hi as u16) << 8u16) | (lo as u16);
    let r = ((w << k) >> 8u16) as u8;
    assert forall|j: u8| j < 8 implies #[trigger] bit_at(r, j) == if j + k < 8 {
        bit_at(hi, (j + k) as u8)
    } else {
        bit_at(lo, (j + k - 8) as u8)
    } by {
        lemma_shl_window(hi, lo, k, j);
    }
    r
}

/// Bit `j` of the byte taken `k` bits into the window `hi` then `lo`.
proof fn lemma_shl_window(hi: u8, lo: u8, k: u16, j: u8)
    by (bit_vector)
    requires
        k < 8,
        j < 8,
    ensures
        bit_at(((((hi as u16) << 8u16) | (lo as u16)) << k >> 8u16) as u8, j) == if j + k < 8 {
            bit_at(hi, (j + k) as u8)
        } else {
            bit_at(lo, (j + k - 8) as u8)
        },
{
}

/// The byte that ends `rhs` bits before the end of the 16-bit window `hi`
/// then `lo`.
fn shr_window(hi: u8, lo: u8, rhs: usize) -> (r: u8)
    requires
        rhs < 8,
    ensures
        forall|j: u8|
            j < 8 ==> #[trigger] bit_at(r, j) == if j >= rhs {
                bit_at(lo, (j - rhs) as u8)
            } else {
                bit_at(hi, (8 + j - rhs) as u8)
            },
{
    let k = rhs as u16;
    let w: u16 = ((hi as u16) << 8u16) | (lo as u16);
    let r = (w >> k) as u8;
    assert forall|j: u8| j < 8 implies #[trigger] bit_at(r, j) == if j >= k {
        bit_at(lo, (j - k) as u8)
    } else {
        bit_at(hi, (8 + j - k) as u8)
    } by {
        lemma_shr_window(hi, lo, k, j);
    }
    r
}

/// Bit `j` of the low byte of the window `hi` then `lo` shifted right by `k`.
proof fn lemma_shr_window(hi: u8, lo: u8, k: u16, j: u8)
    by (bit_vector)
    requires
        k < 8,
        j < 8,
    ensures
        bit_at(((((hi as u16) << 8u16) | (lo as u16)) >> k) as u8, j) == if j >= k {
            bit_at(lo, (j - k) as u8)
        } else {
            bit_at(hi, (8 + j - k) as u8)
        },
{
}

/// Each bit of a packed byte is the flag packed at its place.
proof fn lemma_pack8_bits(
    b0: bool,
    b1: bool,
    b2: bool,
    b3: bool,
    b4: bool,
    b5: bool,
    b6: bool,
    b7: bool,
)
    by (bit_vector)
    ensures
        bit_at(pack8(b0, b1, b2, b3, b4, b5, b6, b7), 0) == b0,
        bit_at(pack8(b0, b1, b2, b3, b4, b5, b6, b7), 1) == b1,
        bit_at(pack8(b0, b1, b2, b3, b4, b5, b6, b7), 2) == b2,
        bit_at(pack8(b0, b1, b2, b3, b4, b5, b6, b7), 3) == b3,
        bit_at(pack8(b0, b1, b2, b3, b4, b5, b6, b7), 4) == b4,
        bit_at(pack8(b0, b1, b2, b3, b4, b5, b6, b7), 5) == b5,
        bit_at(pack8(b0, b1, b2, b3, b4, b5, b6, b7), 6) == b6,
        bit_at(pack8(b0, b1, b2, b3, b4, b5, b6, b7), 7) == b7,
{
}

/// A byte is the packing of its own eight bits.
proof fn lemma_byte_packs_its_bits(x: u8)
    by (bit_vector)
    ensures
        x == pack8(
            bit_at(x, 0),
            bit_at(x, 1),
            bit_at(x, 2),
            bit_at(x, 3),
            bit_at(x, 4),
            bit_at(x, 5),
            bit_at(x, 6),
            bit_at(x, 7),
        ),
{
}

/// Reading a byte sequence as bits and packing the bits again gives it back.
pub proof fn lemma_bytes_of_bits(s: Seq<u8>)
    ensures
        bytes_of(bits(s)) == s,
{
    let b = bits(s);
    assert(b.len() / 8 == s.len());
    assert forall|k: int| 0 <= k < s.len() implies #[trigger] bytes_of(b)[k] == s[k] by {
        lemma_byte_packs_its_bits(s[k]);
        lemma_bits_index(s, k, 0);
        lemma_bits_index(s, k, 1);
        lemma_bits_index(s, k, 2);
        lemma_bits_index(s, k, 3);
        lemma_bits_index(s, k, 4);
        lemma_bits_index(s, k, 5);
        lemma_bits_index(s, k, 6);
        lemma_bits_index(s, k, 7);
    }
    assert(bytes_of(b) =~= s);
}

/// Packing a bit string into bytes and reading them again gives it back.
pub proof fn lemma_bits_of_bytes(b: Seq<bool>)
    requires
        b.len() % 8 == 0,
    ensures
        bits(bytes_of(b)) == b,
{
    let s = bytes_of(b);
    assert forall|k: int, j: u8| 0 <= k < s.len() && j < 8 implies #[trigger] bit_at(s[k], j) == b[8
        * k + j] by {
        lemma_pack8_bits(
            b[8 * k],
            b[8 * k + 1],
            b[8 * k + 2],
            b[8 * k + 3],
            b[8 * k + 4],
            b[8 * k + 5],
            b[8 * k + 6],
            b[8 * k + 7],
        );
    }
    lemma_bits_from_bytes(s, b);
}

/// Exclusive or with the same sequence twice gives back the first one.
pub proof fn lemma_xor_involution(a: Seq<u8>, b: Seq<u8>)
    requires
        a.len() == b.len(),
    ensures
        xor_bytes(xor_bytes(a, b), b) == a,
{
    assert forall|i: int| 0 <= i < a.len() implies #[trigger] xor_bytes(xor_bytes(a, b), b)[i]
        == a[i] by {
        let (x, y) = (a[i], b[i]);
        assert((x ^ y) ^ y == x) by (bit_vector);
    }
    assert(xor_bytes(xor_bytes(a, b), b) =~= a);
}

/// Mixing the same bits in twice gives back the first string.
pub proof fn lemma_xor_bits_involution(a: Seq<bool>, f: Seq<bool>)
    ensures
        xor_bits(xor_bits(a, f), f) == a,
{
    assert(xor_bits(xor_bits(a, f), f) =~= a);
}

/// A bit of `a ^ b` is set when exactly one of the two bits is.
proof fn lemma_xor_byte_bits(a: u8, b: u8, j: u8)
    by (bit_vector)
    requires
        j < 8,
    ensures
        bit_at(a ^ b, j) == (bit_at(a, j) != bit_at(b, j)),
{
}

/// The bits of a byte-wise exclusive or are the exclusive or of the bits.
pub proof fn lemma_bits_xor(a: Seq<u8>, b: Seq<u8>)
    requires
        a.len() == b.len(),
    ensures
        bits(xor_bytes(a, b)) == xor_bits(bits(a), bits(b)),
{
    let s = xor_bytes(a, b);
    assert forall|k: int, j: u8| 0 <= k < s.len() && j < 8 implies #[trigger] bit_at(s[k], j)
        == xor_bits(bits(a), bits(b))[8 * k + j] by {
        lemma_xor_byte_bits(a[k], b[k], j);
        lemma_bits_index(a, k, j);
        lemma_bits_index(b, k, j);
    }
    lemma_bits_from_bytes(s, xor_bits(bits(a), bits(b)));
}

/// The bits of two byte sequences one after the other.
pub proof fn lemma_bits_concat(a: Seq<u8>, b: Seq<u8>)
    ensures
        bits(a + b) == bits(a) + bits(b),
{
    let s = a + b;
    assert forall|k: int, j: u8| 0 <= k < s.len() && j < 8 implies #[trigger] bit_at(s[k], j) == (
    bits(a) + bits(b))[8 * k + j] by {
        if k < a.len() {
            lemma_bits_index(a, k, j);
        } else {
            lemma_bits_index(b, k - a.len(), j);
        }
    }
    lemma_bits_from_bytes(s, bits(a) + bits(b));
}

/// The bits of a run of whole bytes are the matching run of bits.
pub proof fn lemma_bits_subrange(s: Seq<u8>, lo: int, hi: int)
    requires
        0 <= lo <= hi <= s.len(),
    ensures
        bits(s.subrange(lo, hi)) == bits(s).subrange(8 * lo, 8 * hi),
{
    let t = s.subrange(lo, hi);
    let b = bits(s).subrange(8 * lo, 8 * hi);
    assert forall|k: int, j: u8| 0 <= k < t.len() && j < 8 implies #[trigger] bit_at(t[k], j)
        == b[8 * k + j] by {
        lemma_bits_index(s, lo + k, j);
    }
    lemma_bits_from_bytes(t, b);
}

/// Every bit of the zero byte is clear.
pub proof fn lemma_zero_byte_bits(j: u8)
    by (bit_vector)
    requires
        j < 8,
    ensures
        !bit_at(0u8, j),
{
}

/// Bit `j` of byte `k` stands at place `8 * k + j` of the bit string.
pub proof fn lemma_bits_index(s: Seq<u8>, k: int, j: u8)
    requires
        0 <= k < s.len(),
        j < 8,
    ensures
        bits(s)[8 * k + j] == bit_at(s[k], j),
{
    assert((8 * k + j) / 8 == k);
    assert((8 * k + j) % 8 == j);
}

/// A byte sequence whose bits, byte by byte, are those of `b` spells `b`.
pub proof fn lemma_bits_from_bytes(s: Seq<u8>, b: Seq<bool>)
    requires
        b.len() == s.len() * 8,
        forall|k: int, j: u8|
            0 <= k < s.len() && j < 8 ==> #[trigger] bit_at(s[k], j) == b[8 * k + j],
    ensures
        bits(s) == b,
{
    assert forall|p: int| 0 <= p < b.len() implies bits(s)[p] == b[p] by {
        let k = p / 8;
        let j = (p % 8) as u8;
        assert(8 * k + j == p);
        assert(bit_at(s[k], j) == b[8 * k + j]);
    }
    assert(bits(s) =~= b);
}

/// Setting bit `i` of a byte sets that bit and keeps the seven others.
pub proof fn lemma_set_bit_in_byte(b: u8, i: u8, j: u8)
    by (bit_vector)
    requires
        i < 8,
        j < 8,
    ensures
        bit_at(b | (0x80u8 >> i), j) == (j == i || bit_at(b, j)),
{
}

} // verus!
