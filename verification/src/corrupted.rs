//! Integrity gate of the MAC layer: every frame on the air carries a CRC-16
//! in big-endian order behind its payload; a mismatch drops the frame.

use vstd::prelude::*;

verus! {

/// Number of checksum bytes behind the payload.
pub const CRC_BYTES: usize = 2;

/// Checksum that the CRC-16/USB algorithm assigns to a byte sequence.
pub uninterp spec fn crc16_of(data: Seq<u8>) -> u16;

/// Relies on the crc crate's Crc::<u16> over the CRC-16/USB algorithm: the
/// checksum is a pure function of the input bytes alone.
#[verifier::external_body]
fn crc16_usb(data: &Vec<u8>) -> (r: u16)
    ensures
        r == crc16_of(data@),
{
    crc::Crc::<u16>::new(&crc::CRC_16_USB).checksum(data.as_slice())
}

/// The two big-endian bytes of a 16-bit value.
pub open spec fn be16_bytes(v: int) -> Seq<u8> {
    seq![(v / 256) as u8, (v % 256) as u8]
}

/// Appends the checksum on the way out and checks it on the way in.
pub struct CrcWrapper;

impl CrcWrapper {
    /// Append the big-endian CRC-16/USB checksum of the data.
    pub fn encode(data: &Vec<u8>) -> (r: Vec<u8>)
        ensures
            r@ == data@ + be16_bytes(crc16_of(data@) as int),
    {
        let crc = crc16_usb(data);
        let mut result: Vec<u8> = Vec::new();
        let mut i: usize = 0;
        while i < data.len()
            invariant
                i <= data.len(),
                result@ == data@.take(i as int),
            decreases data.len() - i,
        {
            result.push(data[i]);
            proof {
                assert(result@ =~= data@.take(i + 1));
            }
            i = i + 1;
        }
        proof {
            assert(result@ =~= data@);
        }
        result.push((crc / 256) as u8);
        result.push((crc % 256) as u8);
        proof {
            assert(result@ =~= data@ + be16_bytes(crc16_of(data@) as int));
        }
        result
    }

    /// Strip the trailing checksum and return the data part when the stored
    /// checksum equals the recomputed one; fail otherwise, if and only if
    /// they differ.
    pub fn decode(data: &Vec<u8>) -> (r: Option<Vec<u8>>)
        requires
            data@.len() >= CRC_BYTES,
        ensures
            ({
                let body = data@.take(data@.len() - CRC_BYTES);
                let tail = data@.skip(data@.len() - CRC_BYTES);
                &&& (r is Some <==> tail == be16_bytes(crc16_of(body) as int))
                &&& (r matches Some(d) ==> d@ == body)
            }),
    {
        let split = data.len() - CRC_BYTES;
        let mut body: Vec<u8> = Vec::new();
        let mut i: usize = 0;
        while i < split
            invariant
                i <= split,
                split == data@.len() - CRC_BYTES,
                body@ == data@.take(i as int),
            decreases split - i,
        {
            body.push(data[i]);
            proof {
                assert(body@ =~= data@.take(i + 1));
            }
            i = i + 1;
        }
        let crc = crc16_usb(&body);
        let hi = (crc / 256) as u8;
        let lo = (crc % 256) as u8;
        let ghost tail = data@.skip(data@.len() - CRC_BYTES);
        proof {
            assert(tail =~= seq![data@[split as int], data@[split as int + 1]]);
        }
        if data[split] == hi && data[split + 1] == lo {
            proof {
                assert(tail =~= be16_bytes(crc16_of(body@) as int));
            }
            Some(body)
        } else {
            proof {
                if tail == be16_bytes(crc16_of(body@) as int) {
                    assert(tail[0] == hi && tail[1] == lo);
                }
            }
            None
        }
    }
}

/// Wrapping a buffer and unwrapping it gives the buffer back: the encoded
/// stream splits into the data and its checksum, so the stored and the
/// recomputed checksum agree and decoding succeeds with the same data.
pub proof fn lemma_crc_roundtrip(data: Seq<u8>)
    ensures
        ({
            let encoded = data + be16_bytes(crc16_of(data) as int);
            &&& encoded.len() == data.len() + CRC_BYTES
            &&& encoded.take(encoded.len() - CRC_BYTES) == data
            &&& encoded.skip(encoded.len() - CRC_BYTES) == be16_bytes(crc16_of(data) as int)
        }),
{
    let encoded = data + be16_bytes(crc16_of(data) as int);
    assert(encoded.take(encoded.len() - CRC_BYTES) =~= data);
    assert(encoded.skip(encoded.len() - CRC_BYTES) =~= be16_bytes(crc16_of(data) as int));
}

/// Corrupting either stored checksum byte makes decoding fail: the data part
/// is unchanged, so the recomputed checksum is unchanged, while the stored
/// one now differs.
pub proof fn lemma_crc_checksum_corruption(data: Seq<u8>, i: int, b: u8)
    requires
        data.len() <= i < data.len() + CRC_BYTES,
        b != (data + be16_bytes(crc16_of(data) as int))[i],
    ensures
        ({
            let corrupted = (data + be16_bytes(crc16_of(data) as int)).update(i, b);
            corrupted.skip(corrupted.len() - CRC_BYTES) != be16_bytes(
                crc16_of(corrupted.take(corrupted.len() - CRC_BYTES)) as int,
            )
        }),
{
    let encoded = data + be16_bytes(crc16_of(data) as int);
    let corrupted = encoded.update(i, b);
    assert(corrupted.take(corrupted.len() - CRC_BYTES) =~= data);
    let tail = corrupted.skip(corrupted.len() - CRC_BYTES);
    if tail == be16_bytes(crc16_of(data) as int) {
        assert(tail[i - data.len()] == encoded[i]);
        assert(corrupted[i] == b);
    }
}

} // verus!
