//! Binary phase-shift keying: each bit becomes one symbol-length chunk of a
//! carrier sine, the two standard chunks being half a period apart in phase.
//! Demodulation correlates each received chunk against both standard chunks
//! and picks the closer one.

use vstd::prelude::*;
use crate::number::{FP, FP_PI_BITS, fp_add, fp_mul, fp_div, fp_of_int, fp_views, sin_bits_of};
use crate::detector::correlation_of;
use crate::modem::{BitByteConverter, spec_bytes_to_bits, spec_bits_to_bytes, is_bit_seq};

verus! {

/// Symbols sent per second.
pub const SYMBOL_RATE: usize = 1000;

/// Carrier frequency in Hz.
pub const CARRIER_FREQUENCY: usize = 1600;

/// Number of distinct standard chunks: one per bit value.
pub const CHUNK_VARIANCE: usize = 2;

/// Bytes the modem takes as its atomic unit.
pub const PSK_MIN_MODULATE_BYTES: usize = 16;

/// Raw phase offset of the standard chunk of a bit value: half a period per
/// step, as the generator computes it.
pub open spec fn psk_phase(b: int) -> int {
    fp_add(0, fp_mul(fp_of_int(b), fp_div(fp_mul(FP_PI_BITS as int, fp_of_int(2)), fp_of_int(2))))
}

/// Raw value of sample `t` of the standard chunk of bit value `b`.
pub open spec fn psk_chunk_sample(sr: int, b: int, t: int) -> int {
    sin_bits_of(
        fp_add(
            fp_mul(
                fp_mul(fp_mul(fp_div(fp_of_int(t), fp_of_int(sr)), fp_of_int(2)), FP_PI_BITS as int),
                fp_of_int(CARRIER_FREQUENCY as int),
            ),
            psk_phase(b),
        ),
    )
}

/// The standard chunk of a bit value: one symbol length of carrier.
pub open spec fn psk_chunk(sr: int, b: int) -> Seq<int> {
    Seq::new((sr / SYMBOL_RATE as int) as nat, |t: int| psk_chunk_sample(sr, b, t))
}

/// The samples of a bit sequence: the standard chunk of each bit, in order.
pub open spec fn psk_mod_bits(bits: Seq<u8>, sr: int) -> Seq<int> {
    let chunk_len = sr / SYMBOL_RATE as int;
    Seq::new(
        (bits.len() * chunk_len) as nat,
        |k: int| psk_chunk_sample(sr, bits[k / chunk_len] as int, k % chunk_len),
    )
}

/// The samples of a byte stream.
pub open spec fn psk_modulate(bytes: Seq<u8>, sr: int) -> Seq<int> {
    psk_mod_bits(spec_bytes_to_bits(bytes), sr)
}

/// The bit read out of chunk `k` of a sample stream: one where the chunk
/// correlates at least as strongly with the high standard chunk.
pub open spec fn psk_demod_bit(samples: Seq<int>, sr: int, k: int) -> u8 {
    let chunk_len = sr / SYMBOL_RATE as int;
    let upper = if (k + 1) * chunk_len <= samples.len() {
        (k + 1) * chunk_len
    } else {
        samples.len() as int
    };
    let window = samples.subrange(k * chunk_len, upper);
    if correlation_of(window, psk_chunk(sr, 1)) >= correlation_of(window, psk_chunk(sr, 0)) {
        1u8
    } else {
        0u8
    }
}

/// The bits read out of a sample stream, chunk by chunk; a final partial
/// chunk still yields a bit.
pub open spec fn psk_demod_bits(samples: Seq<int>, sr: int) -> Seq<u8> {
    let chunk_len = sr / SYMBOL_RATE as int;
    Seq::new(
        ((samples.len() + chunk_len - 1) as int / chunk_len) as nat,
        |k: int| psk_demod_bit(samples, sr, k),
    )
}

/// The bytes read out of a sample stream.
pub open spec fn psk_demodulate(samples: Seq<int>, sr: int) -> Seq<u8> {
    spec_bits_to_bytes(psk_demod_bits(samples, sr))
}

/// The binary phase-shift keying modem.
pub struct Psk {
    sample_rate: usize,
    chunk0: Vec<FP>,
    chunk1: Vec<FP>,
}

impl Psk {
    /// The sample rate this modem was built for.
    pub closed spec fn rate(&self) -> int {
        self.sample_rate as int
    }

    /// The stored standard chunks are those of the sample rate.
    pub closed spec fn wf(&self) -> bool {
        &&& self.sample_rate >= SYMBOL_RATE
        &&& fp_views(self.chunk0@) == psk_chunk(self.rate(), 0)
        &&& fp_views(self.chunk1@) == psk_chunk(self.rate(), 1)
    }

    /// Packets of this modem carry this many bytes.
    pub fn min_modulate_bytes(&self) -> (r: usize)
        ensures
            r == PSK_MIN_MODULATE_BYTES,
    {
        PSK_MIN_MODULATE_BYTES
    }

    /// One standard chunk: a symbol length of carrier at a phase offset.
    fn standard_chunk(sample_rate: usize, index: usize) -> (r: Vec<FP>)
        requires
            sample_rate >= SYMBOL_RATE,
            index < CHUNK_VARIANCE,
        ensures
            fp_views(r@) == psk_chunk(sample_rate as int, index as int),
    {
        let ghost sr = sample_rate as int;
        let chunk_length = sample_rate / SYMBOL_RATE;
        let rate = FP::from_usize(sample_rate);
        let two = FP::from_usize(2);
        let pi = FP::pi();
        let carrier = FP::from_usize(CARRIER_FREQUENCY);
        let phase_slice = pi.mul(two).div(FP::from_usize(CHUNK_VARIANCE));
        let phase = FP::zero().add(FP::from_usize(index).mul(phase_slice));
        proof {
            assert(fp_of_int(2) != 0);
            assert(phase@ == psk_phase(index as int));
            assert(rate@ != 0) by {
                assert(sr * 0x1_0000_0000 >= 0x1_0000_0000);
            }
        }
        let mut r: Vec<FP> = Vec::new();
        let mut t: usize = 0;
        while t < chunk_length
            invariant
                t <= chunk_length,
                chunk_length == sr / SYMBOL_RATE as int,
                sr == sample_rate as int,
                rate@ == fp_of_int(sr),
                rate@ != 0,
                two@ == fp_of_int(2),
                pi@ == FP_PI_BITS as int,
                carrier@ == fp_of_int(CARRIER_FREQUENCY as int),
                phase@ == psk_phase(index as int),
                r@.len() == t,
                forall|j: int|
                    0 <= j < t ==> fp_views(r@)[j] == psk_chunk_sample(sr, index as int, j),
            decreases chunk_length - t,
        {
            let sample = FP::from_usize(t).div(rate).mul(two).mul(pi).mul(carrier).add(
                phase,
            ).sin();
            r.push(sample);
            t = t + 1;
        }
        proof {
            assert(fp_views(r@) =~= psk_chunk(sr, index as int));
        }
        r
    }

    /// A modem for a sample rate: it carries the two standard chunks.
    pub fn new(sample_rate: usize) -> (r: Psk)
        requires
            sample_rate >= SYMBOL_RATE,
        ensures
            r.wf(),
            r.rate() == sample_rate,
    {
        let chunk0 = Self::standard_chunk(sample_rate, 0);
        let chunk1 = Self::standard_chunk(sample_rate, 1);
        Psk { sample_rate, chunk0, chunk1 }
    }

    /// Turn bytes into samples: the standard chunk of each bit, in order.
    pub fn modulate(&self, bytes: &Vec<u8>) -> (r: Vec<FP>)
        requires
            self.wf(),
        ensures
            fp_views(r@) == psk_modulate(bytes@, self.rate()),
    {
        let ghost sr = self.rate();
        let bits = BitByteConverter::bytes_to_bits(bytes);
        let ghost chunk_len = sr / SYMBOL_RATE as int;
        let mut out: Vec<FP> = Vec::new();
        let mut bi: usize = 0;
        while bi < bits.len()
            invariant
                bi <= bits@.len(),
                self.wf(),
                sr == self.rate(),
                chunk_len == sr / SYMBOL_RATE as int,
                bits@ == spec_bytes_to_bits(bytes@),
                is_bit_seq(bits@),
                out@.len() == bi * chunk_len,
                forall|k: int|
                    0 <= k < out@.len() ==> fp_views(out@)[k] == psk_mod_bits(bits@, sr)[k],
            decreases bits.len() - bi,
        {
            let chunk = if bits[bi] == 1 {
                &self.chunk1
            } else {
                &self.chunk0
            };
            let ghost bv = bits@[bi as int] as int;
            proof {
                assert(fp_views(chunk@) == psk_chunk(sr, bv));
                assert((bi + 1) * chunk_len == bi * chunk_len + chunk_len) by (nonlinear_arith);
            }
            let mut t: usize = 0;
            while t < chunk.len()
                invariant
                    t <= chunk@.len(),
                    bi < bits@.len(),
                    is_bit_seq(bits@),
                    bv == bits@[bi as int] as int,
                    sr == self.rate(),
                    chunk_len == sr / SYMBOL_RATE as int,
                    fp_views(chunk@) == psk_chunk(sr, bv),
                    chunk@.len() == chunk_len,
                    out@.len() == bi * chunk_len + t,
                    forall|k: int|
                        0 <= k < bi * chunk_len ==> fp_views(out@)[k] == psk_mod_bits(
                            bits@,
                            sr,
                        )[k],
                    forall|j: int|
                        0 <= j < t ==> fp_views(out@)[bi * chunk_len + j] == psk_chunk_sample(
                            sr,
                            bv,
                            j,
                        ),
                decreases chunk.len() - t,
            {
                let ghost out_prev = out@;
                out.push(chunk[t]);
                proof {
                    assert(out@[bi * chunk_len + t] == chunk@[t as int]);
                    assert(fp_views(chunk@)[t as int] == psk_chunk(sr, bv)[t as int]);
                    assert forall|k: int| 0 <= k < bi * chunk_len implies fp_views(out@)[k]
                        == psk_mod_bits(bits@, sr)[k] by {
                        assert(bi * chunk_len <= bits@.len() * chunk_len) by (nonlinear_arith)
                            requires
                                bi <= bits@.len(),
                                chunk_len >= 0,
                        ;
                        assert(out@[k] == out_prev[k]);
                        assert(fp_views(out_prev)[k] == psk_mod_bits(bits@, sr)[k]);
                        assert(fp_views(out@)[k] == out@[k]@);
                        assert(fp_views(out_prev)[k] == out_prev[k]@);
                    }
                    assert forall|j: int| 0 <= j < t + 1 implies fp_views(out@)[bi * chunk_len + j]
                        == psk_chunk_sample(sr, bv, j) by {
                        if j < t {
                            assert(out@[bi * chunk_len + j] == out_prev[bi * chunk_len + j]);
                        }
                    }
                }
                t = t + 1;
            }
            proof {
                assert forall|k: int|
                    bi * chunk_len <= k < (bi + 1) * chunk_len implies fp_views(out@)[k]
                    == psk_mod_bits(bits@, sr)[k] by {
                    let j = k - bi * chunk_len;
                    assert(k / chunk_len == bi && k % chunk_len == j) by (nonlinear_arith)
                        requires
                            k == bi * chunk_len + j,
                            0 <= j < chunk_len,
                            0 <= bi,
                    ;
                    assert(0 <= k < psk_mod_bits(bits@, sr).len()) by (nonlinear_arith)
                        requires
                            k == bi * chunk_len + j,
                            0 <= j < chunk_len,
                            0 <= bi < bits@.len(),
                            psk_mod_bits(bits@, sr).len() == bits@.len() * chunk_len,
                    ;
                }
                assert((bi + 1) * chunk_len == bi * chunk_len + chunk_len) by (nonlinear_arith);
            }
            bi = bi + 1;
        }
        proof {
            assert(out@.len() == psk_mod_bits(bits@, sr).len()) by (nonlinear_arith)
                requires
                    out@.len() == bits@.len() * chunk_len,
                    psk_mod_bits(bits@, sr).len() == bits@.len() * chunk_len,
            ;
            assert(fp_views(out@) =~= psk_mod_bits(bits@, sr));
        }
        out
    }

    /// Turn samples back into bytes: correlate each chunk against both
    /// standard chunks and keep the closer bit.
    pub fn demodulate(&self, samples: &Vec<FP>) -> (r: Vec<u8>)
        requires
            self.wf(),
        ensures
            r@ == psk_demodulate(fp_views(samples@), self.rate()),
    {
        let ghost sr = self.rate();
        let ghost all = fp_views(samples@);
        let chunk_length = self.sample_rate / SYMBOL_RATE;
        proof {
            assert(chunk_length >= 1) by {
                vstd::arithmetic::div_mod::lemma_fundamental_div_mod(sr, SYMBOL_RATE as int);
            }
        }
        let mut bits: Vec<u8> = Vec::new();
        let mut ci: usize = 0;
        proof {
            assert(bits@.len() * chunk_length == 0) by (nonlinear_arith)
                requires
                    bits@.len() == 0,
            ;
        }
        while ci < samples.len()
            invariant
                ci <= samples@.len(),
                self.wf(),
                sr == self.rate(),
                all == fp_views(samples@),
                chunk_length == sr / SYMBOL_RATE as int,
                chunk_length >= 1,
                ci as int == bits@.len() * chunk_length || (ci == samples@.len() && (bits@.len()
                    - 1) * chunk_length < ci <= bits@.len() * chunk_length),
                ci < samples@.len() ==> ci as int == bits@.len() * chunk_length,
                is_bit_seq(bits@),
                forall|j: int| 0 <= j < bits@.len() ==> bits@[j] == psk_demod_bit(all, sr, j),
            decreases samples.len() - ci,
        {
            let ghost k = bits@.len() as int;
            let end = if samples.len() - ci >= chunk_length {
                ci + chunk_length
            } else {
                samples.len()
            };
            let mut window: Vec<FP> = Vec::new();
            let mut t: usize = ci;
            while t < end
                invariant
                    ci <= t <= end <= samples@.len(),
                    all == fp_views(samples@),
                    window@ == samples@.subrange(ci as int, t as int),
                decreases end - t,
            {
                window.push(samples[t]);
                proof {
                    assert(window@ =~= samples@.subrange(ci as int, t + 1));
                }
                t = t + 1;
            }
            proof {
                assert forall|j: int| 0 <= j < end - ci implies fp_views(window@)[j]
                    == all.subrange(ci as int, end as int)[j] by {
                    assert(window@[j] == samples@[ci + j]);
                    assert(all[ci + j] == samples@[ci + j]@);
                }
                assert(fp_views(window@) =~= all.subrange(ci as int, end as int));
                assert(self.chunk0@.len() == chunk_length) by {
                    assert(fp_views(self.chunk0@).len() == psk_chunk(sr, 0).len());
                }
                assert(self.chunk1@.len() == chunk_length) by {
                    assert(fp_views(self.chunk1@).len() == psk_chunk(sr, 1).len());
                }
                assert(window@.len() <= self.chunk0@.len() && window@.len() <= self.chunk1@.len());
            }
            let corr0 = crate::detector::correlation(&window, &self.chunk0);
            let corr1 = crate::detector::correlation(&window, &self.chunk1);
            let bit: u8 = if corr1.lt(corr0) {
                0
            } else {
                1
            };
            proof {
                assert((k + 1) * chunk_length == k * chunk_length + chunk_length) by (
                nonlinear_arith);
                let n = all.len() as int;
                let upper = if (k + 1) * (chunk_length as int) <= n {
                    (k + 1) * (chunk_length as int)
                } else {
                    n
                };
                assert(end as int == upper);
                assert(fp_views(window@) == all.subrange(k * (chunk_length as int), upper));
                assert(bit == psk_demod_bit(all, sr, k));
            }
            bits.push(bit);
            ci = end;
        }
        proof {
            let n = all.len() as int;
            let k = bits@.len() as int;
            let count = (n + chunk_length - 1) / (chunk_length as int);
            if n == 0 {
                assert(ci == 0);
                if ci as int == k * chunk_length {
                    assert(k == 0) by (nonlinear_arith)
                        requires
                            k * chunk_length == 0,
                            chunk_length >= 1,
                            k >= 0,
                    ;
                } else {
                    assert((k - 1) * chunk_length < 0);
                    assert(k == 0) by (nonlinear_arith)
                        requires
                            (k - 1) * chunk_length < 0,
                            chunk_length >= 1,
                            k >= 0,
                    ;
                }
                assert(k == 0);
                vstd::arithmetic::div_mod::lemma_fundamental_div_mod_converse(
                    n + chunk_length - 1,
                    chunk_length as int,
                    0,
                    chunk_length - 1,
                );
            } else {
                assert(all.len() == samples@.len());
                assert(ci == samples@.len());
                assert(n <= k * chunk_length);
                assert((k - 1) * chunk_length == k * chunk_length - chunk_length) by (
                nonlinear_arith);
                assert(k >= 1) by (nonlinear_arith)
                    requires
                        n <= k * chunk_length,
                        n >= 1,
                        chunk_length >= 1,
                ;
                assert((k - 1) * chunk_length < n <= k * chunk_length);
                let s = k * chunk_length - n;
                assert(0 <= s < chunk_length) by (nonlinear_arith)
                    requires
                        (k - 1) * chunk_length < n <= k * chunk_length,
                        s == k * chunk_length - n,
                        chunk_length >= 1,
                ;
                assert(n + chunk_length - 1 == k * (chunk_length as int) + (chunk_length - 1 - s));
                vstd::arithmetic::div_mod::lemma_fundamental_div_mod_converse(
                    n + chunk_length - 1,
                    chunk_length as int,
                    k,
                    chunk_length - 1 - s,
                );
            }
            assert(k == count);
            assert(bits@ =~= psk_demod_bits(all, sr));
        }
        BitByteConverter::bits_to_bytes(&bits)
    }
}

/// The two standard chunks of a sample rate are told apart by the matched
/// filter: each correlates with itself at least as strongly as with the
/// other, strictly so for the low chunk.
pub open spec fn psk_chunks_separated(sr: int) -> bool {
    let c0 = psk_chunk(sr, 0);
    let c1 = psk_chunk(sr, 1);
    &&& correlation_of(c0, c0) > correlation_of(c0, c1)
    &&& correlation_of(c1, c1) >= correlation_of(c1, c0)
}

/// Noiseless round trip of the modem: wherever the two standard chunks are
/// told apart by the matched filter, demodulating what was modulated gives
/// the bytes back. How strongly the chunks separate rests on the sine
/// routine, which the library does not interpret; the separation itself is
/// checked by running the modem.
pub proof fn lemma_psk_roundtrip(bytes: Seq<u8>, sr: int)
    requires
        sr >= SYMBOL_RATE,
        psk_chunks_separated(sr),
    ensures
        psk_demodulate(psk_modulate(bytes, sr), sr) == bytes,
{
    let chunk_len = sr / SYMBOL_RATE as int;
    vstd::arithmetic::div_mod::lemma_fundamental_div_mod(sr, SYMBOL_RATE as int);
    assert(chunk_len >= 1);
    let bits = spec_bytes_to_bits(bytes);
    let modulated = psk_mod_bits(bits, sr);
    let n = modulated.len() as int;
    assert(n == bits.len() * chunk_len);
    let back = psk_demod_bits(modulated, sr);
    assert(n + chunk_len - 1 == bits.len() * (chunk_len as int) + (chunk_len - 1));
    vstd::arithmetic::div_mod::lemma_fundamental_div_mod_converse(
        n + chunk_len - 1,
        chunk_len,
        bits.len() as int,
        chunk_len - 1,
    );
    assert(back.len() == bits.len());
    assert forall|k: int| 0 <= k < bits.len() implies back[k] == bits[k] by {
        assert(0 <= k * chunk_len && (k + 1) * chunk_len <= n) by (nonlinear_arith)
            requires
                0 <= k < bits.len(),
                n == bits.len() * chunk_len,
                chunk_len >= 1,
        ;
        assert((k + 1) * chunk_len == k * chunk_len + chunk_len) by (nonlinear_arith);
        let window = modulated.subrange(k * chunk_len, (k + 1) * chunk_len);
        let b = bits[k] as int;
        assert forall|t: int| 0 <= t < chunk_len implies window[t] == psk_chunk(sr, b)[t] by {
            assert((k * chunk_len + t) / chunk_len == k && (k * chunk_len + t) % chunk_len == t)
                by (nonlinear_arith)
                requires
                    0 <= t < chunk_len,
                    0 <= k,
            ;
        }
        assert(window =~= psk_chunk(sr, b));
        assert(bits[k] == 0 || bits[k] == 1);
        assert(back[k] == psk_demod_bit(modulated, sr, k));
    }
    assert(back =~= bits);
    crate::modem::lemma_bits_to_bytes_of_bytes_to_bits(bytes);
}

// The reflected code table: each value's codeword differs from its
// neighbour's in exactly one bit. With one bit per symbol the table is the
// identity on a single bit, which is what the modulator uses.

/// Entries of the code tables, viewed as bit sequences.
pub open spec fn code_views(s: Seq<Vec<u8>>) -> Seq<Seq<u8>> {
    s.map_values(|v: Vec<u8>| v@)
}

/// Powers of two, for the size of a code table.
pub open spec fn pow2_int(b: nat) -> int
    decreases b,
{
    if b == 0 {
        1
    } else {
        2 * pow2_int((b - 1) as nat)
    }
}

/// The reflected code of a bit width: the table of the next width lists the
/// previous table behind a zero bit, then the reversed previous table behind
/// a one bit.
pub open spec fn spec_gray_code(bits: nat) -> Seq<Seq<u8>>
    decreases bits,
{
    if bits <= 1 {
        seq![seq![0u8], seq![1u8]]
    } else {
        let prev = spec_gray_code((bits - 1) as nat);
        Seq::new(
            2 * prev.len(),
            |k: int|
                if k < prev.len() {
                    seq![0u8] + prev[k]
                } else {
                    seq![1u8] + prev[2 * prev.len() - 1 - k]
                },
        )
    }
}

/// Powers of two are positive.
proof fn lemma_pow2_pos(b: nat)
    ensures
        pow2_int(b) >= 1,
    decreases b,
{
    if b > 0 {
        lemma_pow2_pos((b - 1) as nat);
    }
}

/// Powers of two grow with the exponent.
proof fn lemma_pow2_int_mono(a: nat, b: nat)
    requires
        a <= b,
    ensures
        pow2_int(a) <= pow2_int(b),
        pow2_int(a) >= 1,
    decreases b,
{
    lemma_pow2_pos(a);
    if a < b {
        lemma_pow2_int_mono(a, (b - 1) as nat);
        lemma_pow2_pos((b - 1) as nat);
    }
}

/// A code table of a bit width holds one codeword per value.
proof fn lemma_gray_code_len(bits: nat)
    ensures
        spec_gray_code(bits).len() == if bits <= 1 {
            2int
        } else {
            pow2_int(bits)
        },
    decreases bits,
{
    if bits > 1 {
        lemma_gray_code_len((bits - 1) as nat);
        if bits == 2 {
            assert(pow2_int(2) == 4) by {
                reveal_with_fuel(pow2_int, 3);
            }
        }
    }
}

impl Psk {
    /// The reflected code table of a bit width.
    pub fn gray_code(bits: usize) -> (r: Vec<Vec<u8>>)
        requires
            1 <= bits <= 16,
        ensures
            code_views(r@) == spec_gray_code(bits as nat),
    {
        let mut gray: Vec<Vec<u8>> = Vec::new();
        let mut c0: Vec<u8> = Vec::new();
        c0.push(0);
        let mut c1: Vec<u8> = Vec::new();
        c1.push(1);
        gray.push(c0);
        gray.push(c1);
        proof {
            assert(gray@[0]@ =~= seq![0u8]);
            assert(gray@[1]@ =~= seq![1u8]);
            assert(code_views(gray@) =~= spec_gray_code(1));
        }
        let mut round: usize = 1;
        while round < bits
            invariant
                1 <= round <= bits <= 16,
                code_views(gray@) == spec_gray_code(round as nat),
            decreases bits - round,
        {
            proof {
                lemma_gray_code_len(round as nat);
                lemma_pow2_int_mono(round as nat, 16);
                assert(pow2_int(16) == 65536) by {
                    reveal_with_fuel(pow2_int, 17);
                }
                assert(gray@.len() <= 65536);
            }
            let n = gray.len();
            let ghost prev = code_views(gray@);
            let mut next: Vec<Vec<u8>> = Vec::new();
            let mut k: usize = 0;
            while k < n
                invariant
                    k <= n,
                    n == gray@.len(),
                    prev == code_views(gray@),
                    next@.len() == k,
                    forall|j: int|
                        0 <= j < k ==> #[trigger] code_views(next@)[j] == seq![0u8] + prev[j],
                decreases n - k,
            {
                let source = &gray[k];
                let mut c: Vec<u8> = Vec::new();
                c.push(0);
                let mut t: usize = 0;
                while t < source.len()
                    invariant
                        t <= source@.len(),
                        source@ == gray@[k as int]@,
                        k < gray@.len(),
                        c@ == seq![0u8] + source@.take(t as int),
                    decreases source.len() - t,
                {
                    c.push(source[t]);
                    proof {
                        assert(c@ =~= seq![0u8] + source@.take(t + 1));
                    }
                    t = t + 1;
                }
                proof {
                    assert(c@ =~= seq![0u8] + gray@[k as int]@);
                }
                let ghost next_prev = next@;
                next.push(c);
                proof {
                    assert(code_views(next@)[k as int] == seq![0u8] + prev[k as int]);
                    assert forall|j: int| 0 <= j < k implies #[trigger] code_views(next@)[j]
                        == seq![0u8] + prev[j] by {
                        assert(next@[j] == next_prev[j]);
                        assert(code_views(next_prev)[j] == seq![0u8] + prev[j]);
                    }
                }
                k = k + 1;
            }
            let mut k2: usize = 0;
            while k2 < n
                invariant
                    k2 <= n,
                    n == gray@.len(),
                    prev == code_views(gray@),
                    next@.len() == n + k2,
                    forall|j: int|
                        0 <= j < n ==> #[trigger] code_views(next@)[j] == seq![0u8] + prev[j],
                    forall|j: int|
                        n <= j < n + k2 ==> #[trigger] code_views(next@)[j] == seq![1u8] + prev[2 * n
                            - 1 - j],
                decreases n - k2,
            {
                let source = &gray[n - 1 - k2];
                let mut c: Vec<u8> = Vec::new();
                c.push(1);
                let mut t: usize = 0;
                while t < source.len()
                    invariant
                        t <= source@.len(),
                        source@ == gray@[n - 1 - k2 as int]@,
                        k2 < n == gray@.len(),
                        c@ == seq![1u8] + source@.take(t as int),
                    decreases source.len() - t,
                {
                    c.push(source[t]);
                    proof {
                        assert(c@ =~= seq![1u8] + source@.take(t + 1));
                    }
                    t = t + 1;
                }
                proof {
                    assert(c@ =~= seq![1u8] + gray@[n - 1 - k2 as int]@);
                }
                let ghost next_prev = next@;
                next.push(c);
                proof {
                    let j = n + k2;
                    assert(code_views(next@)[j as int] == seq![1u8] + prev[2 * (n as int) - 1 - j]);
                    assert forall|i: int| 0 <= i < j implies #[trigger] code_views(next@)[i]
                        == code_views(next_prev)[i] by {
                        assert(next@[i] == next_prev[i]);
                    }
                }
                k2 = k2 + 1;
            }
            gray = next;
            proof {
                assert(code_views(gray@) =~= spec_gray_code((round + 1) as nat));
            }
            round = round + 1;
        }
        gray
    }
}

} // verus!
