//! Shared bit-level plumbing of the modems: the bridge between bytes and
//! bit sequences. Bits are emitted least-significant first within each byte.

pub mod psk;
pub mod xbyb;

use vstd::prelude::*;

verus! {

/// Powers of two for the bit positions of a byte.
pub open spec fn pow2_small(i: int) -> int {
    if i == 0 {
        1
    } else if i == 1 {
        2
    } else if i == 2 {
        4
    } else if i == 3 {
        8
    } else if i == 4 {
        16
    } else if i == 5 {
        32
    } else if i == 6 {
        64
    } else {
        128
    }
}

/// Bit `i` (least-significant first) of a byte value.
pub open spec fn bit_at(b: int, i: int) -> u8 {
    if (b / pow2_small(i)) % 2 == 1 {
        1u8
    } else {
        0u8
    }
}

/// Contribution of position `i` to the value of a bit sequence.
pub open spec fn bit_term(c: Seq<u8>, i: int) -> int {
    if i < c.len() {
        pow2_small(i) * (c[i] as int)
    } else {
        0
    }
}

/// Value of a sequence of up to eight bits, least-significant first.
pub open spec fn byte_of_bits(c: Seq<u8>) -> int {
    bit_term(c, 0) + bit_term(c, 1) + bit_term(c, 2) + bit_term(c, 3) + bit_term(c, 4) + bit_term(
        c,
        5,
    ) + bit_term(c, 6) + bit_term(c, 7)
}

/// Every element of the sequence is a bit.
pub open spec fn is_bit_seq(s: Seq<u8>) -> bool {
    forall|k: int| 0 <= k < s.len() ==> s[k] == 0 || s[k] == 1
}

/// The bit sequence of a byte sequence, least-significant bit of each byte
/// first.
pub open spec fn spec_bytes_to_bits(s: Seq<u8>) -> Seq<u8> {
    Seq::new(8 * s.len(), |k: int| bit_at(s[k / 8] as int, k % 8))
}

/// The byte sequence assembled from a bit sequence; a final group of fewer
/// than eight bits is padded with zero bits at the top.
pub open spec fn spec_bits_to_bytes(s: Seq<u8>) -> Seq<u8> {
    Seq::new(
        ((s.len() + 7) / 8) as nat,
        |k: int|
            byte_of_bits(
                s.subrange(
                    8 * k,
                    if 8 * k + 8 <= s.len() {
                        8 * k + 8
                    } else {
                        s.len() as int
                    },
                ),
            ) as u8,
    )
}

/// The value of a bit sequence of length at most eight fits in a byte.
proof fn lemma_byte_of_bits_bound(c: Seq<u8>)
    requires
        is_bit_seq(c),
    ensures
        0 <= byte_of_bits(c) < 256,
{
}

/// Reading back the bits of a byte value gives the byte.
proof fn lemma_byte_bits_roundtrip(b: int)
    requires
        0 <= b < 256,
    ensures
        byte_of_bits(Seq::new(8, |i: int| bit_at(b, i))) == b,
{
    let c = Seq::new(8, |i: int| bit_at(b, i));
    assert(byte_of_bits(c) == (b % 2) + 2 * ((b / 2) % 2) + 4 * ((b / 4) % 2) + 8 * ((b / 8) % 2)
        + 16 * ((b / 16) % 2) + 32 * ((b / 32) % 2) + 64 * ((b / 64) % 2) + 128 * ((b / 128) % 2));
    assert(b / 2 / 2 == b / 4 && b / 4 / 2 == b / 8 && b / 8 / 2 == b / 16 && b / 16 / 2 == b / 32
        && b / 32 / 2 == b / 64 && b / 64 / 2 == b / 128) by (nonlinear_arith);
    assert(b / 128 / 2 == 0) by (nonlinear_arith)
        requires
            0 <= b < 256,
    ;
}

/// Reading back the byte of eight bits gives each bit.
proof fn lemma_bits_byte_roundtrip(c: Seq<u8>)
    requires
        c.len() == 8,
        is_bit_seq(c),
    ensures
        forall|i: int| 0 <= i < 8 ==> bit_at(byte_of_bits(c), i) == c[i],
{
    let b = byte_of_bits(c);
    assert(c[0] == 0 || c[0] == 1);
    assert(c[1] == 0 || c[1] == 1);
    assert(c[2] == 0 || c[2] == 1);
    assert(c[3] == 0 || c[3] == 1);
    assert(c[4] == 0 || c[4] == 1);
    assert(c[5] == 0 || c[5] == 1);
    assert(c[6] == 0 || c[6] == 1);
    assert(c[7] == 0 || c[7] == 1);
    assert(b / 2 == c[1] + 2 * c[2] + 4 * c[3] + 8 * c[4] + 16 * c[5] + 32 * c[6] + 64 * c[7]);
    assert(b / 4 == c[2] + 2 * c[3] + 4 * c[4] + 8 * c[5] + 16 * c[6] + 32 * c[7]);
    assert(b / 8 == c[3] + 2 * c[4] + 4 * c[5] + 8 * c[6] + 16 * c[7]);
    assert(b / 16 == c[4] + 2 * c[5] + 4 * c[6] + 8 * c[7]);
    assert(b / 32 == c[5] + 2 * c[6] + 4 * c[7]);
    assert(b / 64 == c[6] + 2 * c[7]);
    assert(b / 128 == c[7]);
    assert forall|i: int| 0 <= i < 8 implies bit_at(b, i) == c[i] by {
        if i == 0 {
            assert(b % 2 == c[0]);
        } else if i == 1 {
            assert((b / 2) % 2 == c[1]);
        } else if i == 2 {
            assert((b / 4) % 2 == c[2]);
        } else if i == 3 {
            assert((b / 8) % 2 == c[3]);
        } else if i == 4 {
            assert((b / 16) % 2 == c[4]);
        } else if i == 5 {
            assert((b / 32) % 2 == c[5]);
        } else if i == 6 {
            assert((b / 64) % 2 == c[6]);
        } else {
            assert((b / 128) % 2 == c[7]);
        }
    }
}

/// Turning a byte sequence into bits and back yields the byte sequence.
pub proof fn lemma_bits_to_bytes_of_bytes_to_bits(bytes: Seq<u8>)
    ensures
        spec_bits_to_bytes(spec_bytes_to_bits(bytes)) == bytes,
{
    let bits = spec_bytes_to_bits(bytes);
    let back = spec_bits_to_bytes(bits);
    assert(back.len() == bytes.len());
    assert forall|k: int| 0 <= k < bytes.len() implies back[k] == bytes[k] by {
        let sub = bits.subrange(8 * k, 8 * k + 8);
        let direct = Seq::new(8, |i: int| bit_at(bytes[k] as int, i));
        assert forall|i: int| 0 <= i < 8 implies sub[i] == direct[i] by {
            assert((8 * k + i) / 8 == k && (8 * k + i) % 8 == i) by (nonlinear_arith)
                requires
                    0 <= i < 8,
            ;
        }
        assert(sub =~= direct);
        lemma_byte_bits_roundtrip(bytes[k] as int);
    }
    assert(back =~= bytes);
}

/// Turning a bit sequence of whole bytes into bytes and back yields the bit
/// sequence.
pub proof fn lemma_bytes_to_bits_of_bits_to_bytes(bits: Seq<u8>)
    requires
        bits.len() % 8 == 0,
        is_bit_seq(bits),
    ensures
        spec_bytes_to_bits(spec_bits_to_bytes(bits)) == bits,
{
    let bytes = spec_bits_to_bytes(bits);
    let back = spec_bytes_to_bits(bytes);
    assert(bytes.len() == bits.len() / 8);
    assert(back.len() == bits.len());
    assert forall|j: int| 0 <= j < bits.len() implies back[j] == bits[j] by {
        let k = j / 8;
        let i = j % 8;
        let sub = bits.subrange(8 * k, 8 * k + 8);
        lemma_byte_of_bits_bound(sub);
        lemma_bits_byte_roundtrip(sub);
        assert(back[j] == bit_at(bytes[k] as int, i));
        assert(bytes[k] as int == byte_of_bits(sub));
        assert(sub[i] == bits[8 * k + i]);
        assert(8 * k + i == j) by (nonlinear_arith)
            requires
                k == j / 8 && i == j % 8,
        ;
    }
    assert(back =~= bits);
}

/// The shared bridge between byte buffers and bit buffers.
pub struct BitByteConverter;

impl BitByteConverter {
    /// Emit the bits of each byte, least-significant first.
    pub fn bytes_to_bits(bytes: &Vec<u8>) -> (r: Vec<u8>)
        ensures
            r@ == spec_bytes_to_bits(bytes@),
            is_bit_seq(r@),
    {
        let mut bits: Vec<u8> = Vec::new();
        let mut bi: usize = 0;
        while bi < bytes.len()
            invariant
                bi <= bytes.len(),
                bits@.len() == 8 * bi,
                forall|k: int|
                    0 <= k < bits@.len() ==> bits@[k] == bit_at(bytes@[k / 8] as int, k % 8),
            decreases bytes.len() - bi,
        {
            let byte = bytes[bi];
            let mut p: u16 = 1;
            let mut i: usize = 0;
            while i < 8
                invariant
                    i <= 8,
                    bi < bytes.len(),
                    byte == bytes@[bi as int],
                    bits@.len() == 8 * bi + i,
                    1 <= p,
                    i < 8 ==> p as int == pow2_small(i as int),
                    forall|k: int|
                        0 <= k < bits@.len() ==> bits@[k] == bit_at(bytes@[k / 8] as int, k % 8),
                decreases 8 - i,
            {
                let bit: u8 = if ((byte as u16) / p) % 2 == 1 {
                    1
                } else {
                    0
                };
                assert(bit == bit_at(byte as int, i as int));
                bits.push(bit);
                assert forall|k: int| 0 <= k < bits@.len() implies bits@[k] == bit_at(
                    bytes@[k / 8] as int,
                    k % 8,
                ) by {
                    if k == 8 * (bi as int) + i {
                        assert(k / 8 == bi && k % 8 == i) by (nonlinear_arith)
                            requires
                                k == 8 * (bi as int) + i && 0 <= i < 8,
                        ;
                    }
                }
                i = i + 1;
                if i < 8 {
                    p = p * 2;
                }
            }
            bi = bi + 1;
        }
        assert(bits@ =~= spec_bytes_to_bits(bytes@));
        bits
    }

    /// Assemble bytes from bits, least-significant first; a final group of
    /// fewer than eight bits fills the low end of the last byte.
    pub fn bits_to_bytes(bits: &Vec<u8>) -> (r: Vec<u8>)
        requires
            is_bit_seq(bits@),
        ensures
            r@ == spec_bits_to_bytes(bits@),
    {
        let mut bytes: Vec<u8> = Vec::new();
        let mut start: usize = 0;
        while start < bits.len()
            invariant
                is_bit_seq(bits@),
                start <= bits.len(),
                start % 8 == 0 || start == bits.len(),
                bytes@.len() == (start + 7) / 8,
                forall|k: int|
                    0 <= k < bytes@.len() ==> bytes@[k] as int == byte_of_bits(
                        bits@.subrange(
                            8 * k,
                            if 8 * k + 8 <= bits@.len() {
                                8 * k + 8
                            } else {
                                bits@.len() as int
                            },
                        ),
                    ),
            decreases bits.len() - start,
        {
            let end: usize = if bits.len() - start >= 8 {
                start + 8
            } else {
                bits.len()
            };
            let ghost sub = bits@.subrange(start as int, end as int);
            let mut byte: u16 = 0;
            let mut p: u16 = 1;
            let mut i: usize = start;
            while i < end
                invariant
                    start <= i <= end <= bits@.len(),
                    end - start <= 8,
                    is_bit_seq(bits@),
                    sub == bits@.subrange(start as int, end as int),
                    1 <= p,
                    i < end ==> p as int == pow2_small(i - start),
                    byte as int == byte_of_bits(sub.take(i - start)),
                    byte < 256,
                decreases end - i,
            {
                let bit = bits[i];
                proof {
                    lemma_byte_of_bits_bound(sub.take(i + 1 - start));
                    assert(sub.take(i + 1 - start) =~= sub.take(i - start).push(bits@[i as int]));
                    assert(sub.take(i - start) =~= sub.take(i + 1 - start).take(i - start));
                }
                byte = byte + p * bit as u16;
                i = i + 1;
                if i < end {
                    p = p * 2;
                }
            }
            assert(sub.take(end - start) =~= sub);
            bytes.push(byte as u8);
            start = end;
            assert forall|k: int| 0 <= k < bytes@.len() implies bytes@[k] as int == byte_of_bits(
                bits@.subrange(
                    8 * k,
                    if 8 * k + 8 <= bits@.len() {
                        8 * k + 8
                    } else {
                        bits@.len() as int
                    },
                ),
            ) by {}
        }
        assert(bytes@ =~= spec_bits_to_bytes(bits@));
        bytes
    }
}

} // verus!
