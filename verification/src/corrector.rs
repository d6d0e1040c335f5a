//! Error correction around the air interface: every outbound block gains
//! parity bytes, and inbound blocks are corrected before use. The symbol
//! arithmetic itself is done by an outside Reed-Solomon coder.

use vstd::prelude::*;
use crate::frame_manager::zero_bytes;

verus! {

/// Parity bytes behind each data block.
pub const ECC_LENGTH: usize = 96;

/// Data bytes per coded block.
pub const DATA_LENGTH: usize = 255 - ECC_LENGTH;

/// The parity bytes that the Reed-Solomon encoder appends to a data block:
/// a pure function of the data alone.
pub uninterp spec fn rs_ecc_of(data: Seq<u8>) -> Seq<u8>;

/// What the Reed-Solomon decoder makes of a full coded block: the corrected
/// data bytes, or nothing when too many symbols are corrupt. A pure function
/// of the block alone.
pub uninterp spec fn rs_correct_result(chunk: Seq<u8>) -> Option<Seq<u8>>;

/// Relies on reed_solomon's Encoder: the returned buffer is the data block
/// followed by its parity bytes.
#[verifier::external_body]
fn rs_encode_chunk(data: &Vec<u8>) -> (r: Vec<u8>)
    requires
        data@.len() <= DATA_LENGTH,
    ensures
        r@ == data@ + rs_ecc_of(data@),
        r@.len() == data@.len() + ECC_LENGTH,
{
    reed_solomon::Encoder::new(ECC_LENGTH).encode(data.as_slice()).to_vec()
}

/// Relies on reed_solomon's Decoder: correction of a full block is a pure
/// function of the block, and a block that is exactly a data block with its
/// own parity bytes is returned as that data block.
#[verifier::external_body]
fn rs_correct_chunk(chunk: &Vec<u8>) -> (r: Option<Vec<u8>>)
    requires
        chunk@.len() == DATA_LENGTH + ECC_LENGTH,
    ensures
        r is Some <==> rs_correct_result(chunk@) is Some,
        r matches Some(d) ==> rs_correct_result(chunk@) == Some(d@),
        r matches Some(d) ==> d@.len() == DATA_LENGTH,
        (exists|data: Seq<u8>|
            #![trigger rs_ecc_of(data)]
            data.len() == DATA_LENGTH && chunk@ == data + rs_ecc_of(data)) ==> r is Some,
        r matches Some(v) ==> forall|data: Seq<u8>|
            #![trigger rs_ecc_of(data)]
            data.len() == DATA_LENGTH && chunk@ == data + rs_ecc_of(data) ==> v@ == data,
{
    match reed_solomon::Decoder::new(ECC_LENGTH).correct(chunk.as_slice(), None) {
        Ok(buffer) => Some(buffer.data().to_vec()),
        Err(_) => None,
    }
}

/// The coded stream of a byte stream, one data block at a time.
pub open spec fn rs_encode_stream(data: Seq<u8>) -> Seq<u8>
    decreases data.len(),
{
    if data.len() == 0 {
        Seq::empty()
    } else if data.len() <= DATA_LENGTH {
        data + rs_ecc_of(data)
    } else {
        (data.take(DATA_LENGTH as int) + rs_ecc_of(data.take(DATA_LENGTH as int)))
            + rs_encode_stream(data.skip(DATA_LENGTH as int))
    }
}

/// What decoding one block yields: the block is padded with zero bytes to
/// the full coded size, and a failed correction contributes nothing.
pub open spec fn rs_decode_block(chunk: Seq<u8>) -> Seq<u8> {
    let padded = chunk + zero_bytes(DATA_LENGTH + ECC_LENGTH - chunk.len());
    match rs_correct_result(padded) {
        Some(d) => d,
        None => Seq::empty(),
    }
}

/// The decoded stream of a coded stream, one block at a time.
pub open spec fn rs_decode_stream(data: Seq<u8>) -> Seq<u8>
    decreases data.len(),
{
    if data.len() == 0 {
        Seq::empty()
    } else if data.len() <= DATA_LENGTH + ECC_LENGTH {
        rs_decode_block(data)
    } else {
        rs_decode_block(data.take((DATA_LENGTH + ECC_LENGTH) as int)) + rs_decode_stream(
            data.skip((DATA_LENGTH + ECC_LENGTH) as int),
        )
    }
}

/// Adds parity bytes to outbound data and corrects inbound blocks.
pub struct ErrorCorrector;

impl ErrorCorrector {
    /// Append parity bytes to each data block of the stream.
    pub fn encode(data: &Vec<u8>) -> (r: Vec<u8>)
        ensures
            r@ == rs_encode_stream(data@),
    {
        let mut out: Vec<u8> = Vec::new();
        let mut ci: usize = 0;
        proof {
            assert(data@.skip(0) =~= data@);
            assert(out@ + rs_encode_stream(data@) =~= rs_encode_stream(data@));
        }
        while ci < data.len()
            invariant
                ci <= data@.len(),
                rs_encode_stream(data@) == out@ + rs_encode_stream(data@.skip(ci as int)),
            decreases data.len() - ci,
        {
            let end = if data.len() - ci >= DATA_LENGTH {
                ci + DATA_LENGTH
            } else {
                data.len()
            };
            let mut chunk: Vec<u8> = Vec::new();
            let mut t: usize = ci;
            while t < end
                invariant
                    ci <= t <= end <= data@.len(),
                    chunk@ == data@.subrange(ci as int, t as int),
                decreases end - t,
            {
                chunk.push(data[t]);
                proof {
                    assert(chunk@ =~= data@.subrange(ci as int, t + 1));
                }
                t = t + 1;
            }
            let block = rs_encode_chunk(&chunk);
            let ghost out0 = out@;
            let mut u: usize = 0;
            while u < block.len()
                invariant
                    u <= block@.len(),
                    out@ == out0 + block@.take(u as int),
                decreases block.len() - u,
            {
                out.push(block[u]);
                proof {
                    assert(out@ =~= out0 + block@.take(u + 1));
                }
                u = u + 1;
            }
            proof {
                assert(out@ =~= out0 + block@);
                let rem = data@.skip(ci as int);
                if rem.len() <= DATA_LENGTH {
                    assert(end == data@.len());
                    assert(chunk@ =~= rem);
                    assert(rs_encode_stream(rem) == rem + rs_ecc_of(rem));
                    assert(data@.skip(end as int).len() == 0);
                    assert(rs_encode_stream(data@.skip(end as int)) == Seq::<u8>::empty());
                    assert(out@ + Seq::<u8>::empty() =~= out0 + rs_encode_stream(rem));
                } else {
                    assert(end == ci + DATA_LENGTH);
                    assert(chunk@ =~= rem.take(DATA_LENGTH as int));
                    assert(rem.skip(DATA_LENGTH as int) =~= data@.skip(end as int));
                    assert(rs_encode_stream(rem) == (rem.take(DATA_LENGTH as int) + rs_ecc_of(
                        rem.take(DATA_LENGTH as int),
                    )) + rs_encode_stream(data@.skip(end as int)));
                    assert(out@ + rs_encode_stream(data@.skip(end as int)) =~= out0
                        + rs_encode_stream(rem));
                }
            }
            ci = end;
        }
        proof {
            assert(data@.skip(ci as int).len() == 0);
            assert(rs_encode_stream(data@.skip(ci as int)) == Seq::<u8>::empty());
            assert(out@ + Seq::<u8>::empty() =~= out@);
        }
        out
    }

    /// Correct each coded block of the stream; blocks beyond correction
    /// contribute nothing.
    pub fn decode(data: &Vec<u8>) -> (r: Vec<u8>)
        ensures
            r@ == rs_decode_stream(data@),
    {
        let block_len = DATA_LENGTH + ECC_LENGTH;
        let mut out: Vec<u8> = Vec::new();
        let mut ci: usize = 0;
        proof {
            assert(data@.skip(0) =~= data@);
            assert(out@ + rs_decode_stream(data@) =~= rs_decode_stream(data@));
        }
        while ci < data.len()
            invariant
                ci <= data@.len(),
                block_len == DATA_LENGTH + ECC_LENGTH,
                rs_decode_stream(data@) == out@ + rs_decode_stream(data@.skip(ci as int)),
            decreases data.len() - ci,
        {
            let end = if data.len() - ci >= block_len {
                ci + block_len
            } else {
                data.len()
            };
            let mut chunk: Vec<u8> = Vec::new();
            let mut t: usize = ci;
            while t < end
                invariant
                    ci <= t <= end <= data@.len(),
                    chunk@ == data@.subrange(ci as int, t as int),
                decreases end - t,
            {
                chunk.push(data[t]);
                proof {
                    assert(chunk@ =~= data@.subrange(ci as int, t + 1));
                }
                t = t + 1;
            }
            let ghost raw = chunk@;
            while chunk.len() < block_len
                invariant
                    raw.len() <= chunk@.len() <= block_len,
                    block_len == DATA_LENGTH + ECC_LENGTH,
                    chunk@ == raw + zero_bytes(chunk@.len() - raw.len()),
                decreases block_len - chunk@.len(),
            {
                chunk.push(0);
                proof {
                    assert(chunk@ =~= raw + zero_bytes(chunk@.len() - raw.len()));
                }
            }
            let corrected = rs_correct_chunk(&chunk);
            let ghost out0 = out@;
            match corrected {
                Some(block) => {
                    let mut u: usize = 0;
                    while u < block.len()
                        invariant
                            u <= block@.len(),
                            out@ == out0 + block@.take(u as int),
                        decreases block.len() - u,
                    {
                        out.push(block[u]);
                        proof {
                            assert(out@ =~= out0 + block@.take(u + 1));
                        }
                        u = u + 1;
                    }
                    proof {
                        assert(out@ =~= out0 + block@);
                    }
                },
                None => {
                    proof {
                        assert(out@ =~= out0 + Seq::<u8>::empty());
                    }
                },
            }
            proof {
                let rem = data@.skip(ci as int);
                if rem.len() <= block_len {
                    assert(end == data@.len());
                    assert(raw =~= rem);
                    assert(rs_decode_stream(rem) == rs_decode_block(rem));
                    assert(data@.skip(end as int).len() == 0);
                    assert(rs_decode_stream(data@.skip(end as int)) == Seq::<u8>::empty());
                    assert(out@ + Seq::<u8>::empty() =~= out@);
                    assert(out@ =~= out0 + rs_decode_block(rem));
                } else {
                    assert(end == ci + block_len);
                    assert(raw =~= rem.take(block_len as int));
                    assert(raw + zero_bytes(0) =~= raw);
                    assert(rem.skip(block_len as int) =~= data@.skip(end as int));
                    assert(rs_decode_stream(rem) == rs_decode_block(rem.take(block_len as int))
                        + rs_decode_stream(data@.skip(end as int)));
                    assert(out@ =~= out0 + rs_decode_block(raw));
                }
            }
            ci = end;
        }
        proof {
            assert(data@.skip(ci as int).len() == 0);
            assert(rs_decode_stream(data@.skip(ci as int)) == Seq::<u8>::empty());
            assert(out@ + Seq::<u8>::empty() =~= out@);
        }
        out
    }
}

} // verus!
