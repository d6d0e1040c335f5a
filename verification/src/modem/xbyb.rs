//! Line-coded baseband modem: each four-bit group is mapped to a fixed
//! six-bit codeword, the codeword bits pass through an NRZI stage, and each
//! coded bit becomes two samples of full positive or negative amplitude.
//! Bits are taken most-significant first within each byte.

use vstd::prelude::*;
use crate::number::{FP, fp_add, fp_of_int, fp_views};
use crate::modem::bit_at;

verus! {

/// Samples emitted for each coded bit.
pub const SAMPLE_REPEAT_TIMES: usize = 2;

/// Bytes carried by one packet.
pub const BYTES_PER_PACKET: usize = 100;

/// Bits carried by one packet.
pub const BITS_PER_PACKET: usize = BYTES_PER_PACKET * 8;

/// Samples that one full packet occupies on the air: every four of the
/// packet's eight hundred bits become six coded bits, each sent twice.
pub const SAMPLES_PER_PACKET: usize = 2400;

/// Numeric value of a bit.
pub open spec fn bv(b: bool) -> int {
    if b {
        1
    } else {
        0
    }
}

/// Bit `j` of a byte value, most-significant first.
pub open spec fn msb_bit(b: int, j: int) -> bool {
    bit_at(b, 7 - j) == 1
}

/// The bits of a byte sequence, most-significant first within each byte.
pub open spec fn msb_bits(s: Seq<u8>) -> Seq<bool> {
    Seq::new(8 * s.len(), |k: int| msb_bit(s[k / 8] as int, k % 8))
}

/// Value of the four bits starting at `at`, most-significant first.
pub open spec fn nibble_val(bits: Seq<bool>, at: int) -> int {
    8 * bv(bits[at]) + 4 * bv(bits[at + 1]) + 2 * bv(bits[at + 2]) + bv(bits[at + 3])
}

/// The six-bit codeword of a four-bit value.
pub open spec fn b6b(v: int) -> int {
    if v == 0 {
        15
    } else if v == 1 {
        18
    } else if v == 2 {
        41
    } else if v == 3 {
        42
    } else if v == 4 {
        21
    } else if v == 5 {
        22
    } else if v == 6 {
        30
    } else if v == 7 {
        31
    } else if v == 8 {
        38
    } else if v == 9 {
        39
    } else if v == 10 {
        45
    } else if v == 11 {
        46
    } else if v == 12 {
        53
    } else if v == 13 {
        54
    } else if v == 14 {
        60
    } else {
        61
    }
}

/// The four-bit value of a six-bit codeword; unknown codewords map to zero.
pub open spec fn b6b_inv(w: int) -> int {
    if w == 15 {
        0
    } else if w == 18 {
        1
    } else if w == 41 {
        2
    } else if w == 42 {
        3
    } else if w == 21 {
        4
    } else if w == 22 {
        5
    } else if w == 30 {
        6
    } else if w == 31 {
        7
    } else if w == 38 {
        8
    } else if w == 39 {
        9
    } else if w == 45 {
        10
    } else if w == 46 {
        11
    } else if w == 53 {
        12
    } else if w == 54 {
        13
    } else if w == 60 {
        14
    } else if w == 61 {
        15
    } else {
        0
    }
}

/// Bit `j` of the codeword of a four-bit value, most-significant first.
pub open spec fn code_bit(v: int, j: int) -> bool {
    bit_at(b6b(v), 5 - j) == 1
}

/// Line coding of a bit sequence: each four-bit group becomes its six-bit
/// codeword.
pub open spec fn enc4b6b(bits: Seq<bool>) -> Seq<bool> {
    Seq::new(
        (bits.len() as int / 4 * 6) as nat,
        |k: int| code_bit(nibble_val(bits, 4 * (k / 6)), k % 6),
    )
}

/// Parity of the first `n` bits.
pub open spec fn prefix_parity(bits: Seq<bool>, n: int) -> bool
    decreases n,
{
    if n <= 0 {
        false
    } else {
        prefix_parity(bits, n - 1) != bits[n - 1]
    }
}

/// NRZI coding: a set bit toggles the level, a clear bit holds it; the level
/// starts low.
pub open spec fn nrzi_enc(bits: Seq<bool>) -> Seq<bool> {
    Seq::new(bits.len(), |i: int| prefix_parity(bits, i + 1))
}

/// NRZI inversion: a bit is set where the level changed.
pub open spec fn nrzi_dec(bits: Seq<bool>) -> Seq<bool> {
    Seq::new(
        bits.len(),
        |i: int|
            if i == 0 {
                bits[0]
            } else {
                bits[i] != bits[i - 1]
            },
    )
}

/// Two samples of full amplitude for every coded bit: positive for a high
/// level, negative for a low one.
pub open spec fn level_samples(coded: Seq<bool>) -> Seq<int> {
    Seq::new(
        (SAMPLE_REPEAT_TIMES * coded.len()) as nat,
        |k: int|
            if coded[k / 2] {
                fp_of_int(1)
            } else {
                fp_of_int(-1)
            },
    )
}

/// The samples of one packet worth of bytes.
pub open spec fn packet_samples(chunk: Seq<u8>) -> Seq<int> {
    level_samples(nrzi_enc(enc4b6b(msb_bits(chunk))))
}

/// The samples of a whole byte stream, one packet chunk at a time.
pub open spec fn bw_modulate(bytes: Seq<u8>) -> Seq<int>
    decreases bytes.len(),
{
    if bytes.len() == 0 {
        Seq::empty()
    } else if bytes.len() <= BYTES_PER_PACKET {
        packet_samples(bytes)
    } else {
        packet_samples(bytes.take(BYTES_PER_PACKET as int)) + bw_modulate(
            bytes.skip(BYTES_PER_PACKET as int),
        )
    }
}

/// A level bit recovered from each adjacent pair of samples: high where the
/// saturating sum of the pair is positive.
pub open spec fn pair_bits(samples: Seq<int>) -> Seq<bool> {
    Seq::new(
        (samples.len() as int / 2) as nat,
        |k: int| fp_add(fp_add(0, samples[2 * k]), samples[2 * k + 1]) > 0,
    )
}

/// Value of the six bits starting at `at`, most-significant first.
pub open spec fn group_val(bits: Seq<bool>, at: int) -> int {
    32 * bv(bits[at]) + 16 * bv(bits[at + 1]) + 8 * bv(bits[at + 2]) + 4 * bv(bits[at + 3]) + 2 * bv(
        bits[at + 4],
    ) + bv(bits[at + 5])
}

/// Inverse line coding: each six-bit group becomes the four bits of its
/// value in the codeword table.
pub open spec fn dec4b6b(bits: Seq<bool>) -> Seq<bool> {
    Seq::new(
        (bits.len() as int / 6 * 4) as nat,
        |k: int| bit_at(b6b_inv(group_val(bits, 6 * (k / 4))), 3 - k % 4) == 1,
    )
}

/// Value of the eight bits starting at `at`, most-significant first.
pub open spec fn msb_byte_of(bits: Seq<bool>, at: int) -> int {
    128 * bv(bits[at]) + 64 * bv(bits[at + 1]) + 32 * bv(bits[at + 2]) + 16 * bv(bits[at + 3]) + 8
        * bv(bits[at + 4]) + 4 * bv(bits[at + 5]) + 2 * bv(bits[at + 6]) + bv(bits[at + 7])
}

/// The bytes assembled from a bit sequence, most-significant first.
pub open spec fn bits_msb_bytes(bits: Seq<bool>) -> Seq<u8> {
    Seq::new((bits.len() as int / 8) as nat, |k: int| msb_byte_of(bits, 8 * k) as u8)
}

/// The bytes recovered from one packet worth of samples.
pub open spec fn packet_bytes(samples: Seq<int>) -> Seq<u8> {
    bits_msb_bytes(dec4b6b(nrzi_dec(pair_bits(samples))))
}

/// The bytes recovered from a whole sample stream, one packet chunk at a
/// time.
pub open spec fn bw_demodulate(samples: Seq<int>) -> Seq<u8>
    decreases samples.len(),
{
    if samples.len() == 0 {
        Seq::empty()
    } else if samples.len() <= SAMPLES_PER_PACKET {
        packet_bytes(samples)
    } else {
        packet_bytes(samples.take(SAMPLES_PER_PACKET as int)) + bw_demodulate(
            samples.skip(SAMPLES_PER_PACKET as int),
        )
    }
}

/// Sums of multiples of a modulus are multiples of it.
proof fn lemma_mod_zero_add(a: int, b: int, m: int)
    requires
        m > 0,
        a % m == 0,
        b % m == 0,
    ensures
        (a + b) % m == 0,
{
    vstd::arithmetic::div_mod::lemma_fundamental_div_mod(a, m);
    vstd::arithmetic::div_mod::lemma_fundamental_div_mod(b, m);
    assert(m * (a / m) + m * (b / m) == m * (a / m + b / m)) by (nonlinear_arith);
    vstd::arithmetic::div_mod::lemma_fundamental_div_mod_converse(a + b, m, a / m + b / m, 0);
}

/// Bit counts along the decoding stages of a chunk whose sample count is a
/// multiple of twenty-four.
proof fn lemma_chunk_bit_counts(n: int)
    requires
        n >= 0,
        n % 24 == 0,
    ensures
        (n / 2) % 6 == 0,
        (n / 2) % 2 == 0,
        (n / 2) / 6 * 4 % 8 == 0,
{
    let q = n / 24;
    vstd::arithmetic::div_mod::lemma_fundamental_div_mod(n, 24);
    assert(24 * q == 2 * (12 * q)) by (nonlinear_arith);
    vstd::arithmetic::div_mod::lemma_fundamental_div_mod_converse(n, 2, 12 * q, 0);
    assert(12 * q == 6 * (2 * q) && 12 * q == 2 * (6 * q)) by (nonlinear_arith);
    vstd::arithmetic::div_mod::lemma_fundamental_div_mod_converse(12 * q, 6, 2 * q, 0);
    vstd::arithmetic::div_mod::lemma_fundamental_div_mod_converse(12 * q, 2, 6 * q, 0);
    assert((2 * q) * 4 == 8 * q) by (nonlinear_arith);
    vstd::arithmetic::div_mod::lemma_fundamental_div_mod_converse(8 * q, 8, q, 0);
}

/// Appending one decoded chunk advances the whole-stream decoding by one
/// packet.
#[verifier::rlimit(60)]
proof fn lemma_demod_step(all: Seq<int>, ci: int, end: int, out0: Seq<u8>, chunk: Seq<u8>)
    requires
        0 <= ci < end <= all.len(),
        all.len() - ci > SAMPLES_PER_PACKET ==> end - ci == SAMPLES_PER_PACKET,
        all.len() - ci <= SAMPLES_PER_PACKET ==> end == all.len(),
        chunk == packet_bytes(all.subrange(ci, end)),
    ensures
        out0 + bw_demodulate(all.skip(ci)) == (out0 + chunk) + bw_demodulate(all.skip(end)),
{
    let rem = all.skip(ci);
    if rem.len() <= SAMPLES_PER_PACKET {
        assert(end == all.len());
        assert(all.subrange(ci, end) =~= rem);
        assert(bw_demodulate(rem) == chunk);
        assert(all.skip(end).len() == 0);
        assert(bw_demodulate(all.skip(end)) == Seq::<u8>::empty());
        assert((out0 + chunk) + Seq::<u8>::empty() =~= out0 + chunk);
    } else {
        assert(end - ci == SAMPLES_PER_PACKET);
        assert(rem.take(SAMPLES_PER_PACKET as int) =~= all.subrange(ci, end));
        assert(rem.skip(SAMPLES_PER_PACKET as int) =~= all.skip(end));
        assert(bw_demodulate(rem) == chunk + bw_demodulate(all.skip(end)));
        assert(out0 + (chunk + bw_demodulate(all.skip(end))) =~= (out0 + chunk) + bw_demodulate(
            all.skip(end),
        ));
    }
}

/// The six-bit codeword of a four-bit value.
fn b6b_lookup(v: usize) -> (r: u8)
    requires
        v < 16,
    ensures
        r as int == b6b(v as int),
{
    if v == 0 {
        15
    } else if v == 1 {
        18
    } else if v == 2 {
        41
    } else if v == 3 {
        42
    } else if v == 4 {
        21
    } else if v == 5 {
        22
    } else if v == 6 {
        30
    } else if v == 7 {
        31
    } else if v == 8 {
        38
    } else if v == 9 {
        39
    } else if v == 10 {
        45
    } else if v == 11 {
        46
    } else if v == 12 {
        53
    } else if v == 13 {
        54
    } else if v == 14 {
        60
    } else {
        61
    }
}

/// The four-bit value of a six-bit codeword; unknown codewords map to zero.
fn b6b_reverse_lookup(w: usize) -> (r: u8)
    ensures
        r as int == b6b_inv(w as int),
{
    if w == 15 {
        0
    } else if w == 18 {
        1
    } else if w == 41 {
        2
    } else if w == 42 {
        3
    } else if w == 21 {
        4
    } else if w == 22 {
        5
    } else if w == 30 {
        6
    } else if w == 31 {
        7
    } else if w == 38 {
        8
    } else if w == 39 {
        9
    } else if w == 45 {
        10
    } else if w == 46 {
        11
    } else if w == 53 {
        12
    } else if w == 54 {
        13
    } else if w == 60 {
        14
    } else if w == 61 {
        15
    } else {
        0
    }
}

/// The bits of one chunk of bytes, most-significant first.
fn chunk_msb_bits(bytes: &Vec<u8>, start: usize, end: usize) -> (r: Vec<bool>)
    requires
        start <= end <= bytes@.len(),
    ensures
        r@ == msb_bits(bytes@.subrange(start as int, end as int)),
{
    let ghost sub = bytes@.subrange(start as int, end as int);
    let mut r: Vec<bool> = Vec::new();
    let mut idx: usize = start;
    while idx < end
        invariant
            start <= idx <= end <= bytes@.len(),
            sub == bytes@.subrange(start as int, end as int),
            r@.len() == 8 * (idx - start),
            forall|k: int| 0 <= k < r@.len() ==> r@[k] == msb_bits(sub)[k],
        decreases end - idx,
    {
        let byte = bytes[idx];
        let mut p: u8 = 128;
        let mut j: usize = 0;
        while j < 8
            invariant
                j <= 8,
                start <= idx < end <= bytes@.len(),
                sub == bytes@.subrange(start as int, end as int),
                byte == sub[idx - start],
                r@.len() == 8 * (idx - start) + j,
                j < 8 ==> p as int == crate::modem::pow2_small(7 - j),
                forall|k: int| 0 <= k < r@.len() ==> r@[k] == msb_bits(sub)[k],
            decreases 8 - j,
        {
            let bit = (byte / p) % 2 == 1;
            proof {
                assert(bit == msb_bit(byte as int, j as int));
            }
            r.push(bit);
            proof {
                let k = r@.len() - 1;
                assert(k / 8 == idx - start && k % 8 == j) by (nonlinear_arith)
                    requires
                        k == 8 * (idx - start) + j,
                        0 <= j < 8,
                        start <= idx,
                ;
            }
            j = j + 1;
            if j < 8 {
                p = p / 2;
            }
        }
        idx = idx + 1;
    }
    proof {
        assert(r@ =~= msb_bits(sub));
    }
    r
}

/// Line-code a bit sequence of whole four-bit groups.
fn encode_4b6b_bits(bits: &Vec<bool>) -> (r: Vec<bool>)
    requires
        bits@.len() % 4 == 0,
    ensures
        r@ == enc4b6b(bits@),
{
    let mut r: Vec<bool> = Vec::new();
    let mut g: usize = 0;
    let groups = bits.len() / 4;
    while g < groups
        invariant
            g <= groups,
            groups == bits@.len() / 4,
            bits@.len() % 4 == 0,
            bits@.len() <= usize::MAX,
            r@.len() == 6 * g,
            forall|k: int| 0 <= k < r@.len() ==> r@[k] == enc4b6b(bits@)[k],
        decreases groups - g,
    {
        proof {
            vstd::arithmetic::div_mod::lemma_fundamental_div_mod(bits@.len() as int, 4);
            assert(bits@.len() == 4 * (groups as int));
            assert(4 * (g as int) + 3 < 4 * (groups as int)) by (nonlinear_arith)
                requires
                    g < groups,
            ;
        }
        let b0: usize = if bits[4 * g] {
            1
        } else {
            0
        };
        let b1: usize = if bits[4 * g + 1] {
            1
        } else {
            0
        };
        let b2: usize = if bits[4 * g + 2] {
            1
        } else {
            0
        };
        let b3: usize = if bits[4 * g + 3] {
            1
        } else {
            0
        };
        let v = 8 * b0 + 4 * b1 + 2 * b2 + b3;
        proof {
            assert(v as int == nibble_val(bits@, 4 * (g as int)));
        }
        let tv = b6b_lookup(v);
        let mut p: u8 = 32;
        let mut j: usize = 0;
        while j < 6
            invariant
                j <= 6,
                g < groups,
                groups == bits@.len() / 4,
                v < 16,
                v as int == nibble_val(bits@, 4 * (g as int)),
                tv as int == b6b(v as int),
                r@.len() == 6 * g + j,
                j < 6 ==> p as int == crate::modem::pow2_small(5 - j),
                forall|k: int| 0 <= k < r@.len() ==> r@[k] == enc4b6b(bits@)[k],
            decreases 6 - j,
        {
            let bit = (tv / p) % 2 == 1;
            proof {
                assert(b6b(v as int) < 64);
                assert(bit == code_bit(v as int, j as int));
            }
            r.push(bit);
            proof {
                let k = r@.len() - 1;
                assert(k / 6 == g && k % 6 == j) by (nonlinear_arith)
                    requires
                        k == 6 * (g as int) + j,
                        0 <= j < 6,
                        0 <= g,
                ;
                assert(0 <= k < enc4b6b(bits@).len()) by (nonlinear_arith)
                    requires
                        k == 6 * (g as int) + j,
                        0 <= j < 6,
                        0 <= g < bits@.len() / 4,
                ;
            }
            j = j + 1;
            if j < 6 {
                p = p / 2;
            }
        }
        g = g + 1;
    }
    proof {
        assert(6 * (bits@.len() / 4) == bits@.len() as int / 4 * 6);
        assert(r@ =~= enc4b6b(bits@));
    }
    r
}

/// NRZI-code a bit sequence.
fn nrzi_encode_bits(bits: &Vec<bool>) -> (r: Vec<bool>)
    ensures
        r@ == nrzi_enc(bits@),
{
    let mut r: Vec<bool> = Vec::new();
    let mut level = false;
    let mut i: usize = 0;
    while i < bits.len()
        invariant
            i <= bits@.len(),
            level == prefix_parity(bits@, i as int),
            r@.len() == i,
            forall|k: int| 0 <= k < r@.len() ==> r@[k] == nrzi_enc(bits@)[k],
        decreases bits@.len() - i,
    {
        level = level != bits[i];
        r.push(level);
        i = i + 1;
    }
    proof {
        assert(r@ =~= nrzi_enc(bits@));
    }
    r
}

/// Two full-amplitude samples for every coded bit.
fn bits_to_levels(coded: &Vec<bool>) -> (r: Vec<FP>)
    ensures
        fp_views(r@) == level_samples(coded@),
{
    let one = FP::one();
    let minus_one = FP::one().neg();
    let mut r: Vec<FP> = Vec::new();
    let mut i: usize = 0;
    while i < coded.len()
        invariant
            i <= coded@.len(),
            one@ == fp_of_int(1),
            minus_one@ == fp_of_int(-1),
            r@.len() == 2 * i,
            forall|k: int| 0 <= k < r@.len() ==> fp_views(r@)[k] == level_samples(coded@)[k],
        decreases coded@.len() - i,
    {
        let s = if coded[i] {
            one
        } else {
            minus_one
        };
        r.push(s);
        r.push(s);
        proof {
            let k = r@.len() - 2;
            assert(k / 2 == i && (k + 1) / 2 == i) by (nonlinear_arith)
                requires
                    k == 2 * (i as int),
                    0 <= i,
            ;
        }
        i = i + 1;
    }
    proof {
        assert(fp_views(r@) =~= level_samples(coded@));
    }
    r
}

/// The level bits of one chunk of samples, one per adjacent pair.
fn chunk_pair_bits(samples: &Vec<FP>, start: usize, end: usize) -> (r: Vec<bool>)
    requires
        start <= end <= samples@.len(),
        (end - start) % 2 == 0,
    ensures
        r@ == pair_bits(fp_views(samples@.subrange(start as int, end as int))),
{
    let ghost sub = fp_views(samples@.subrange(start as int, end as int));
    let zero = FP::zero();
    let mut r: Vec<bool> = Vec::new();
    let mut i: usize = start;
    while i < end
        invariant
            start <= i <= end <= samples@.len(),
            (end - start) % 2 == 0,
            (i - start) % 2 == 0,
            zero@ == 0,
            sub == fp_views(samples@.subrange(start as int, end as int)),
            r@.len() == (i - start) / 2,
            forall|k: int| 0 <= k < r@.len() ==> r@[k] == pair_bits(sub)[k],
        decreases end - i,
    {
        proof {
            assert(i + 1 < end);
        }
        let s = zero.add(samples[i]).add(samples[i + 1]);
        let bit = s.gt(zero);
        proof {
            let k = r@.len() as int;
            assert(2 * k == i - start && 2 * k + 1 == i + 1 - start);
            assert(bit == pair_bits(sub)[k]);
        }
        r.push(bit);
        i = i + 2;
    }
    proof {
        assert(r@ =~= pair_bits(sub));
    }
    r
}

/// Invert the NRZI coding of a bit sequence.
fn nrzi_decode_bits(bits: &Vec<bool>) -> (r: Vec<bool>)
    ensures
        r@ == nrzi_dec(bits@),
{
    let mut r: Vec<bool> = Vec::new();
    let mut prev = false;
    let mut i: usize = 0;
    while i < bits.len()
        invariant
            i <= bits@.len(),
            i > 0 ==> prev == bits@[i - 1],
            i == 0 ==> prev == false,
            r@.len() == i,
            forall|k: int| 0 <= k < r@.len() ==> r@[k] == nrzi_dec(bits@)[k],
        decreases bits@.len() - i,
    {
        let bit = bits[i];
        r.push(bit != prev);
        prev = bit;
        i = i + 1;
    }
    proof {
        assert(r@ =~= nrzi_dec(bits@));
    }
    r
}

/// Invert the line coding of a bit sequence of whole six-bit groups.
fn decode_4b6b_bits(bits: &Vec<bool>) -> (r: Vec<bool>)
    requires
        bits@.len() % 6 == 0,
    ensures
        r@ == dec4b6b(bits@),
{
    let mut r: Vec<bool> = Vec::new();
    let mut g: usize = 0;
    let groups = bits.len() / 6;
    while g < groups
        invariant
            g <= groups,
            groups == bits@.len() / 6,
            bits@.len() % 6 == 0,
            bits@.len() <= usize::MAX,
            r@.len() == 4 * g,
            forall|k: int| 0 <= k < r@.len() ==> r@[k] == dec4b6b(bits@)[k],
        decreases groups - g,
    {
        proof {
            vstd::arithmetic::div_mod::lemma_fundamental_div_mod(bits@.len() as int, 6);
            assert(bits@.len() == 6 * (groups as int));
            assert(6 * (g as int) + 5 < 6 * (groups as int)) by (nonlinear_arith)
                requires
                    g < groups,
            ;
        }
        let b0: usize = if bits[6 * g] {
            1
        } else {
            0
        };
        let b1: usize = if bits[6 * g + 1] {
            1
        } else {
            0
        };
        let b2: usize = if bits[6 * g + 2] {
            1
        } else {
            0
        };
        let b3: usize = if bits[6 * g + 3] {
            1
        } else {
            0
        };
        let b4: usize = if bits[6 * g + 4] {
            1
        } else {
            0
        };
        let b5: usize = if bits[6 * g + 5] {
            1
        } else {
            0
        };
        let w = 32 * b0 + 16 * b1 + 8 * b2 + 4 * b3 + 2 * b4 + b5;
        proof {
            assert(w as int == group_val(bits@, 6 * (g as int)));
        }
        let v = b6b_reverse_lookup(w);
        let mut p: u8 = 8;
        let mut j: usize = 0;
        while j < 4
            invariant
                j <= 4,
                g < groups,
                groups == bits@.len() / 6,
                w as int == group_val(bits@, 6 * (g as int)),
                v as int == b6b_inv(w as int),
                r@.len() == 4 * g + j,
                j < 4 ==> p as int == crate::modem::pow2_small(3 - j),
                forall|k: int| 0 <= k < r@.len() ==> r@[k] == dec4b6b(bits@)[k],
            decreases 4 - j,
        {
            let bit = (v / p) % 2 == 1;
            proof {
                assert(b6b_inv(w as int) < 16);
                assert(bit == (bit_at(b6b_inv(w as int), 3 - j) == 1));
            }
            r.push(bit);
            proof {
                let k = r@.len() - 1;
                assert(k / 4 == g && k % 4 == j) by (nonlinear_arith)
                    requires
                        k == 4 * (g as int) + j,
                        0 <= j < 4,
                        0 <= g,
                ;
                assert(0 <= k < dec4b6b(bits@).len()) by (nonlinear_arith)
                    requires
                        k == 4 * (g as int) + j,
                        0 <= j < 4,
                        0 <= g < bits@.len() / 6,
                ;
            }
            j = j + 1;
            if j < 4 {
                p = p / 2;
            }
        }
        g = g + 1;
    }
    proof {
        assert(4 * (bits@.len() / 6) == bits@.len() as int / 6 * 4);
        assert(r@ =~= dec4b6b(bits@));
    }
    r
}

/// Pack a bit sequence of whole bytes, most-significant first.
fn bits_to_bytes_msb(bits: &Vec<bool>) -> (r: Vec<u8>)
    requires
        bits@.len() % 8 == 0,
    ensures
        r@ == bits_msb_bytes(bits@),
{
    let mut r: Vec<u8> = Vec::new();
    let mut g: usize = 0;
    let groups = bits.len() / 8;
    while g < groups
        invariant
            g <= groups,
            groups == bits@.len() / 8,
            bits@.len() % 8 == 0,
            bits@.len() <= usize::MAX,
            r@.len() == g,
            forall|k: int| 0 <= k < r@.len() ==> r@[k] == bits_msb_bytes(bits@)[k],
        decreases groups - g,
    {
        proof {
            vstd::arithmetic::div_mod::lemma_fundamental_div_mod(bits@.len() as int, 8);
            assert(bits@.len() == 8 * (groups as int));
            assert(8 * (g as int) + 7 < 8 * (groups as int)) by (nonlinear_arith)
                requires
                    g < groups,
            ;
        }
        let mut byte: u16 = 0;
        let mut p: u16 = 128;
        let mut j: usize = 0;
        while j < 8
            invariant
                j <= 8,
                g < groups,
                groups == bits@.len() / 8,
                bits@.len() % 8 == 0,
                bits@.len() <= usize::MAX,
                j < 8 ==> p as int == crate::modem::pow2_small(7 - j),
                byte < 256,
                byte as int == msb_byte_of(bits@, 8 * (g as int)) - msb_tail(
                    bits@,
                    8 * (g as int),
                    j as int,
                ),
            decreases 8 - j,
        {
            let bit: u16 = if bits[8 * g + j] {
                1
            } else {
                0
            };
            byte = byte + p * bit;
            j = j + 1;
            if j < 8 {
                p = p / 2;
            }
        }
        r.push(byte as u8);
        g = g + 1;
    }
    proof {
        assert(r@ =~= bits_msb_bytes(bits@));
    }
    r
}

/// Sum of the not-yet-packed tail of a byte's bits.
pub open spec fn msb_tail(bits: Seq<bool>, at: int, j: int) -> int {
    (if j <= 0 {
        128 * bv(bits[at])
    } else {
        0
    }) + (if j <= 1 {
        64 * bv(bits[at + 1])
    } else {
        0
    }) + (if j <= 2 {
        32 * bv(bits[at + 2])
    } else {
        0
    }) + (if j <= 3 {
        16 * bv(bits[at + 3])
    } else {
        0
    }) + (if j <= 4 {
        8 * bv(bits[at + 4])
    } else {
        0
    }) + (if j <= 5 {
        4 * bv(bits[at + 5])
    } else {
        0
    }) + (if j <= 6 {
        2 * bv(bits[at + 6])
    } else {
        0
    }) + (if j <= 7 {
        bv(bits[at + 7])
    } else {
        0
    })
}

/// The line-coded baseband modem.
pub struct BitWave;

impl BitWave {
    /// Packets of this modem carry this many bytes.
    pub fn min_modulate_bytes(&self) -> (r: usize)
        ensures
            r == BYTES_PER_PACKET,
    {
        BYTES_PER_PACKET
    }

    /// A modem instance; the sample rate does not enter the line code.
    pub fn new(_sample_rate: usize) -> (r: BitWave) {
        BitWave
    }

    /// Turn bytes into samples, one packet chunk at a time.
    pub fn modulate(&self, bytes: &Vec<u8>) -> (r: Vec<FP>)
        ensures
            fp_views(r@) == bw_modulate(bytes@),
    {
        let mut out: Vec<FP> = Vec::new();
        let mut ci: usize = 0;
        proof {
            assert(bytes@.skip(0) =~= bytes@);
            assert(fp_views(out@) + bw_modulate(bytes@) =~= bw_modulate(bytes@));
        }
        while ci < bytes.len()
            invariant
                ci <= bytes@.len(),
                bw_modulate(bytes@) == fp_views(out@) + bw_modulate(bytes@.skip(ci as int)),
            decreases bytes.len() - ci,
        {
            let end = if bytes.len() - ci >= BYTES_PER_PACKET {
                ci + BYTES_PER_PACKET
            } else {
                bytes.len()
            };
            let bits = chunk_msb_bits(bytes, ci, end);
            proof {
                assert(bits@.len() % 4 == 0) by (nonlinear_arith)
                    requires
                        bits@.len() == 8 * (end - ci),
                ;
            }
            let coded = encode_4b6b_bits(&bits);
            let nrzi = nrzi_encode_bits(&coded);
            let levels = bits_to_levels(&nrzi);
            let ghost out0 = out@;
            let mut t: usize = 0;
            while t < levels.len()
                invariant
                    t <= levels@.len(),
                    out@ == out0 + levels@.take(t as int),
                decreases levels.len() - t,
            {
                out.push(levels[t]);
                proof {
                    assert(out@ =~= out0 + levels@.take(t + 1));
                }
                t = t + 1;
            }
            proof {
                assert(out@ =~= out0 + levels@);
                let rem = bytes@.skip(ci as int);
                assert(rem.len() == bytes@.len() - ci);
                if rem.len() <= BYTES_PER_PACKET {
                    assert(end == bytes@.len());
                    assert(bytes@.subrange(ci as int, end as int) =~= rem);
                    assert(bw_modulate(rem) == packet_samples(rem));
                    assert(bytes@.skip(end as int).len() == 0);
                    assert(bw_modulate(bytes@.skip(end as int)) == Seq::<int>::empty());
                    assert(fp_views(out@) =~= fp_views(out0) + packet_samples(rem));
                    assert(fp_views(out@) + bw_modulate(bytes@.skip(end as int)) =~= fp_views(out0)
                        + bw_modulate(rem));
                } else {
                    assert(end == ci + BYTES_PER_PACKET);
                    assert(bytes@.subrange(ci as int, end as int) =~= rem.take(
                        BYTES_PER_PACKET as int,
                    ));
                    assert(rem.skip(BYTES_PER_PACKET as int) =~= bytes@.skip(end as int));
                    assert(bw_modulate(rem) == packet_samples(rem.take(BYTES_PER_PACKET as int))
                        + bw_modulate(bytes@.skip(end as int)));
                    assert(fp_views(out@) =~= fp_views(out0) + packet_samples(
                        bytes@.subrange(ci as int, end as int),
                    ));
                    assert(fp_views(out@) + bw_modulate(bytes@.skip(end as int)) =~= fp_views(out0)
                        + bw_modulate(rem));
                }
            }
            ci = end;
        }
        proof {
            assert(bytes@.skip(ci as int).len() == 0);
            assert(bw_modulate(bytes@.skip(ci as int)) == Seq::<int>::empty());
            assert(fp_views(out@) + Seq::<int>::empty() =~= fp_views(out@));
        }
        out
    }

    /// Turn samples back into bytes, one packet chunk at a time.
    #[verifier::rlimit(80)]
    pub fn demodulate(&self, samples: &Vec<FP>) -> (r: Vec<u8>)
        requires
            samples@.len() % 24 == 0,
        ensures
            r@ == bw_demodulate(fp_views(samples@)),
    {
        let mut out: Vec<u8> = Vec::new();
        let mut ci: usize = 0;
        proof {
            assert(fp_views(samples@).skip(0) =~= fp_views(samples@));
            assert(out@ + bw_demodulate(fp_views(samples@)) =~= bw_demodulate(fp_views(samples@)));
        }
        while ci < samples.len()
            invariant
                ci <= samples@.len(),
                samples@.len() % 24 == 0,
                ci % 24 == 0,
                ci % SAMPLES_PER_PACKET == 0 || ci == samples@.len(),
                bw_demodulate(fp_views(samples@)) == out@ + bw_demodulate(
                    fp_views(samples@).skip(ci as int),
                ),
            decreases samples.len() - ci,
        {
            let end = if samples.len() - ci >= SAMPLES_PER_PACKET {
                ci + SAMPLES_PER_PACKET
            } else {
                samples.len()
            };
            proof {
                let l = samples@.len() as int;
                if (end - ci) as int != SAMPLES_PER_PACKET {
                    vstd::arithmetic::div_mod::lemma_fundamental_div_mod(l, 24);
                    vstd::arithmetic::div_mod::lemma_fundamental_div_mod(ci as int, 24);
                    assert(24 * (l / 24) - 24 * (ci as int / 24) == 24 * (l / 24 - ci as int / 24))
                        by (nonlinear_arith);
                    vstd::arithmetic::div_mod::lemma_fundamental_div_mod_converse(
                        (end - ci) as int,
                        24,
                        l / 24 - ci as int / 24,
                        0,
                    );
                }
                assert((end - ci) as int % 2 == 0) by (nonlinear_arith)
                    requires
                        (end - ci) as int % 24 == 0,
                ;
            }
            let pairs = chunk_pair_bits(samples, ci, end);
            proof {
                lemma_chunk_bit_counts((end - ci) as int);
                assert(pairs@.len() == (end - ci) as int / 2);
            }
            let nrzi = nrzi_decode_bits(&pairs);
            let bits = decode_4b6b_bits(&nrzi);
            proof {
                assert(bits@.len() % 8 == 0);
            }
            let chunk_out = bits_to_bytes_msb(&bits);
            let ghost out0 = out@;
            let mut t: usize = 0;
            while t < chunk_out.len()
                invariant
                    t <= chunk_out@.len(),
                    out@ == out0 + chunk_out@.take(t as int),
                decreases chunk_out.len() - t,
            {
                out.push(chunk_out[t]);
                proof {
                    assert(out@ =~= out0 + chunk_out@.take(t + 1));
                }
                t = t + 1;
            }
            proof {
                assert(out@ =~= out0 + chunk_out@);
                let all = fp_views(samples@);
                assert(fp_views(samples@.subrange(ci as int, end as int)) =~= all.subrange(
                    ci as int,
                    end as int,
                ));
                lemma_demod_step(all, ci as int, end as int, out0, chunk_out@);
            }
            proof {
                lemma_mod_zero_add(ci as int, (end - ci) as int, 24);
                if (end - ci) as int == SAMPLES_PER_PACKET {
                    lemma_mod_zero_add(ci as int, SAMPLES_PER_PACKET as int, SAMPLES_PER_PACKET as int);
                }
            }
            ci = end;
        }
        proof {
            let all = fp_views(samples@);
            assert(all.skip(ci as int).len() == 0);
            assert(bw_demodulate(all.skip(ci as int)) == Seq::<u8>::empty());
            assert(out@ + Seq::<u8>::empty() =~= out@);
        }
        out
    }
}

// The round-trip argument: demodulating what was modulated gives the bytes
// back, packet chunk by packet chunk.

/// Recomposing a six-bit value from its bits gives the value back.
proof fn lemma_w6_recompose(w: int)
    requires
        0 <= w < 64,
    ensures
        32 * (bit_at(w, 5) as int) + 16 * (bit_at(w, 4) as int) + 8 * (bit_at(w, 3) as int) + 4 * (
        bit_at(w, 2) as int) + 2 * (bit_at(w, 1) as int) + (bit_at(w, 0) as int) == w,
{
    assert(w / 2 / 2 == w / 4 && w / 4 / 2 == w / 8 && w / 8 / 2 == w / 16 && w / 16 / 2 == w / 32)
        by (nonlinear_arith);
    assert(w / 32 / 2 == 0) by (nonlinear_arith)
        requires
            0 <= w < 64,
    ;
}

/// Recomposing a byte value from its bits gives the value back.
proof fn lemma_w8_recompose(w: int)
    requires
        0 <= w < 256,
    ensures
        128 * (bit_at(w, 7) as int) + 64 * (bit_at(w, 6) as int) + 32 * (bit_at(w, 5) as int) + 16
            * (bit_at(w, 4) as int) + 8 * (bit_at(w, 3) as int) + 4 * (bit_at(w, 2) as int) + 2 * (
        bit_at(w, 1) as int) + (bit_at(w, 0) as int) == w,
{
    assert(w / 2 / 2 == w / 4 && w / 4 / 2 == w / 8 && w / 8 / 2 == w / 16 && w / 16 / 2 == w / 32
        && w / 32 / 2 == w / 64 && w / 64 / 2 == w / 128) by (nonlinear_arith);
    assert(w / 128 / 2 == 0) by (nonlinear_arith)
        requires
            0 <= w < 256,
    ;
}

/// Each bit of a four-bit value recomposed from bits is that bit.
proof fn lemma_nibble_bits(b0: int, b1: int, b2: int, b3: int)
    requires
        0 <= b0 <= 1,
        0 <= b1 <= 1,
        0 <= b2 <= 1,
        0 <= b3 <= 1,
    ensures
        ({
            let v = 8 * b0 + 4 * b1 + 2 * b2 + b3;
            &&& bit_at(v, 3) as int == b0
            &&& bit_at(v, 2) as int == b1
            &&& bit_at(v, 1) as int == b2
            &&& bit_at(v, 0) as int == b3
        }),
{
    let v = 8 * b0 + 4 * b1 + 2 * b2 + b3;
    assert(v / 8 == b0);
    assert(v / 4 == 2 * b0 + b1);
    assert(v / 2 == 4 * b0 + 2 * b1 + b2);
}

/// The pair of samples of each coded bit recovers the bit.
proof fn lemma_pair_roundtrip(coded: Seq<bool>)
    ensures
        pair_bits(level_samples(coded)) == coded,
{
    let samples = level_samples(coded);
    let back = pair_bits(samples);
    assert(samples.len() == 2 * coded.len());
    assert(back.len() == coded.len());
    assert forall|k: int| 0 <= k < coded.len() implies back[k] == coded[k] by {
        assert(samples[2 * k] == if coded[k] {
            fp_of_int(1)
        } else {
            fp_of_int(-1)
        });
        assert((2 * k + 1) / 2 == k) by (nonlinear_arith);
        assert(samples[2 * k + 1] == samples[2 * k]);
    }
    assert(back =~= coded);
}

/// Inverting the NRZI coding recovers the bits.
proof fn lemma_nrzi_roundtrip(bits: Seq<bool>)
    ensures
        nrzi_dec(nrzi_enc(bits)) == bits,
{
    let enc = nrzi_enc(bits);
    let back = nrzi_dec(enc);
    assert forall|i: int| 0 <= i < bits.len() implies back[i] == bits[i] by {
        if i == 0 {
            assert(prefix_parity(bits, 0) == false);
            assert(prefix_parity(bits, 1) == (prefix_parity(bits, 0) != bits[0]));
            assert(enc[0] == prefix_parity(bits, 1));
        } else {
            assert(prefix_parity(bits, i + 1) == (prefix_parity(bits, i) != bits[i]));
            assert(enc[i] == prefix_parity(bits, i + 1));
            assert(enc[i - 1] == prefix_parity(bits, i));
        }
    }
    assert(back =~= bits);
}

/// Inverting the line coding recovers the bit groups.
proof fn lemma_4b6b_roundtrip(bits: Seq<bool>)
    requires
        bits.len() % 4 == 0,
    ensures
        dec4b6b(enc4b6b(bits)) == bits,
{
    let enc = enc4b6b(bits);
    let back = dec4b6b(enc);
    vstd::arithmetic::div_mod::lemma_fundamental_div_mod(bits.len() as int, 4);
    let groups = bits.len() as int / 4;
    assert(enc.len() == groups * 6) by (nonlinear_arith)
        requires
            enc.len() == bits.len() as int / 4 * 6,
            groups == bits.len() as int / 4,
    ;
    assert((groups * 6) / 6 * 4 == groups * 4) by {
        assert(groups * 6 == 6 * groups) by (nonlinear_arith);
        vstd::arithmetic::div_mod::lemma_fundamental_div_mod_converse(groups * 6, 6, groups, 0);
        assert(groups * 4 == groups * 4);
    }
    assert(back.len() == groups * 4);
    assert(bits.len() == 4 * groups);
    assert(groups * 4 == 4 * groups) by (nonlinear_arith);
    assert forall|k: int| 0 <= k < back.len() implies back[k] == bits[k] by {
        let g = k / 4;
        let j = k % 4;
        assert(0 <= j < 4);
        assert(k == 4 * g + j) by {
            vstd::arithmetic::div_mod::lemma_fundamental_div_mod(k, 4);
        }
        assert(0 <= g < groups) by (nonlinear_arith)
            requires
                0 <= k < groups * 4,
                k == 4 * g + j,
                0 <= j < 4,
        ;
        let v = nibble_val(bits, 4 * g);
        let b0 = bv(bits[4 * g]);
        let b1 = bv(bits[4 * g + 1]);
        let b2 = bv(bits[4 * g + 2]);
        let b3 = bv(bits[4 * g + 3]);
        assert(4 * g + 3 < bits.len()) by (nonlinear_arith)
            requires
                g < groups,
                bits.len() == 4 * groups,
        ;
        assert(0 <= v < 16);
        // the six coded bits of group g spell the codeword of v
        assert(b6b(v) < 64);
        assert forall|j2: int| 0 <= j2 < 6 implies enc[6 * g + j2] == code_bit(v, j2) by {
            assert(0 <= 6 * g + j2 < enc.len()) by (nonlinear_arith)
                requires
                    0 <= g < groups,
                    0 <= j2 < 6,
                    enc.len() == groups * 6,
            ;
            assert((6 * g + j2) / 6 == g && (6 * g + j2) % 6 == j2) by (nonlinear_arith)
                requires
                    0 <= j2 < 6,
                    0 <= g,
            ;
        }
        let w = group_val(enc, 6 * g);
        assert(6 * g + 5 < enc.len()) by (nonlinear_arith)
            requires
                g < groups,
                enc.len() == groups * 6,
        ;
        assert(w == 32 * (bit_at(b6b(v), 5) as int) + 16 * (bit_at(b6b(v), 4) as int) + 8 * (
        bit_at(b6b(v), 3) as int) + 4 * (bit_at(b6b(v), 2) as int) + 2 * (bit_at(b6b(v), 1) as int)
            + (bit_at(b6b(v), 0) as int));
        lemma_w6_recompose(b6b(v));
        assert(w == b6b(v));
        assert(b6b_inv(w) == v);
        // the four decoded bits of group g are the bits of v
        lemma_nibble_bits(b0, b1, b2, b3);
        assert(back[k] == (bit_at(v, 3 - j) == 1));
    }
    assert(back =~= bits);
}

/// Packing the bits of the bytes back into bytes recovers the bytes.
proof fn lemma_msb_bytes_roundtrip(chunk: Seq<u8>)
    ensures
        bits_msb_bytes(msb_bits(chunk)) == chunk,
{
    let bits = msb_bits(chunk);
    let back = bits_msb_bytes(bits);
    vstd::arithmetic::div_mod::lemma_fundamental_div_mod_converse(
        bits.len() as int,
        8,
        chunk.len() as int,
        0,
    );
    assert(back.len() == chunk.len());
    assert forall|k: int| 0 <= k < chunk.len() implies back[k] == chunk[k] by {
        let b = chunk[k] as int;
        assert forall|j: int| 0 <= j < 8 implies bits[8 * k + j] == msb_bit(b, j) by {
            assert(0 <= 8 * k + j < bits.len()) by (nonlinear_arith)
                requires
                    0 <= k < chunk.len(),
                    0 <= j < 8,
                    bits.len() == 8 * chunk.len(),
            ;
            assert((8 * k + j) / 8 == k && (8 * k + j) % 8 == j) by (nonlinear_arith)
                requires
                    0 <= j < 8,
                    0 <= k,
            ;
        }
        assert(8 * k + 7 < bits.len()) by (nonlinear_arith)
            requires
                0 <= k < chunk.len(),
                bits.len() == 8 * chunk.len(),
        ;
        lemma_w8_recompose(b);
        assert(msb_byte_of(bits, 8 * k) == b);
    }
    assert(back =~= chunk);
}

/// The number of samples of one packet chunk.
proof fn lemma_packet_samples_len(chunk: Seq<u8>)
    ensures
        packet_samples(chunk).len() == 24 * chunk.len(),
{
    let bits = msb_bits(chunk);
    let c = chunk.len() as int;
    assert(bits.len() == 8 * c);
    assert(8 * c == 4 * (2 * c)) by (nonlinear_arith);
    vstd::arithmetic::div_mod::lemma_fundamental_div_mod_converse(8 * c, 4, 2 * c, 0);
    assert(enc4b6b(bits).len() == (2 * c) * 6);
    assert((2 * c) * 6 == 12 * c) by (nonlinear_arith);
    assert(2 * (12 * c) == 24 * c) by (nonlinear_arith);
}

/// One full packet chunk of samples decodes to a full packet of bytes.
#[verifier::rlimit(60)]
pub proof fn lemma_packet_bytes_len(samples: Seq<int>)
    requires
        samples.len() == SAMPLES_PER_PACKET,
    ensures
        packet_bytes(samples).len() == BYTES_PER_PACKET,
{
    let pairs = pair_bits(samples);
    vstd::arithmetic::div_mod::lemma_fundamental_div_mod_converse(2400, 2, 1200, 0);
    assert(pairs.len() == 1200);
    assert(nrzi_dec(pairs).len() == 1200);
    vstd::arithmetic::div_mod::lemma_fundamental_div_mod_converse(1200, 6, 200, 0);
    assert(dec4b6b(nrzi_dec(pairs)).len() == 800);
    vstd::arithmetic::div_mod::lemma_fundamental_div_mod_converse(800, 8, 100, 0);
}

/// Demodulating one modulated packet chunk gives the chunk back.
proof fn lemma_packet_roundtrip(chunk: Seq<u8>)
    ensures
        packet_bytes(packet_samples(chunk)) == chunk,
{
    let bits = msb_bits(chunk);
    vstd::arithmetic::div_mod::lemma_fundamental_div_mod_converse(
        bits.len() as int,
        4,
        2 * chunk.len() as int,
        0,
    );
    assert(8 * chunk.len() as int == 4 * (2 * chunk.len() as int)) by (nonlinear_arith);
    lemma_pair_roundtrip(nrzi_enc(enc4b6b(bits)));
    lemma_nrzi_roundtrip(enc4b6b(bits));
    lemma_4b6b_roundtrip(bits);
    lemma_msb_bytes_roundtrip(chunk);
}

/// A modulated non-empty stream holds at least one sample.
proof fn lemma_modulate_positive(bytes: Seq<u8>)
    requires
        bytes.len() >= 1,
    ensures
        bw_modulate(bytes).len() >= 1,
{
    if bytes.len() <= BYTES_PER_PACKET {
        lemma_packet_samples_len(bytes);
        assert(24 * bytes.len() >= 1) by (nonlinear_arith)
            requires
                bytes.len() >= 1,
        ;
    } else {
        lemma_packet_samples_len(bytes.take(BYTES_PER_PACKET as int));
    }
}

/// A full packet chunk in front of further samples decodes to its bytes in
/// front of the decoding of the rest.
#[verifier::rlimit(60)]
proof fn lemma_demod_prepend(head: Seq<u8>, rest: Seq<int>)
    requires
        head.len() == BYTES_PER_PACKET,
        rest.len() >= 1,
    ensures
        bw_demodulate(packet_samples(head) + rest) == head + bw_demodulate(rest),
{
    lemma_packet_samples_len(head);
    lemma_packet_roundtrip(head);
    let all = packet_samples(head) + rest;
    assert(all.len() == SAMPLES_PER_PACKET + rest.len());
    assert(all.take(SAMPLES_PER_PACKET as int) =~= packet_samples(head));
    assert(all.skip(SAMPLES_PER_PACKET as int) =~= rest);
}

/// Demodulating a modulated byte stream gives the stream back, whatever its
/// length: the noiseless round trip of this modem.
pub proof fn lemma_bitwave_roundtrip(bytes: Seq<u8>)
    ensures
        bw_demodulate(bw_modulate(bytes)) == bytes,
    decreases bytes.len(),
{
    if bytes.len() == 0 {
        assert(bw_demodulate(bw_modulate(bytes)) =~= bytes);
    } else if bytes.len() <= BYTES_PER_PACKET {
        lemma_packet_samples_len(bytes);
        lemma_packet_roundtrip(bytes);
        assert(24 * bytes.len() <= SAMPLES_PER_PACKET && 24 * bytes.len() >= 1) by (
        nonlinear_arith)
            requires
                1 <= bytes.len() <= 100,
        ;
        assert(bw_modulate(bytes) == packet_samples(bytes));
        assert(bw_demodulate(packet_samples(bytes)) == packet_bytes(packet_samples(bytes)));
    } else {
        let head = bytes.take(BYTES_PER_PACKET as int);
        let tail = bytes.skip(BYTES_PER_PACKET as int);
        lemma_modulate_positive(tail);
        lemma_demod_prepend(head, bw_modulate(tail));
        lemma_bitwave_roundtrip(tail);
        assert(bw_modulate(bytes) == packet_samples(head) + bw_modulate(tail));
        assert(head + tail =~= bytes);
    }
}

} // verus!
