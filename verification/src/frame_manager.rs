//! Packetization of logical frames into modem-sized packets and their
//! reassembly. An outgoing frame is prefixed with a four-byte sync marker and
//! a two-byte little-endian length, zero-padded to a whole number of packets.

use vstd::prelude::*;

verus! {

/// Number of bytes of the sync marker in front of every frame.
pub const SYNC_BYTES: usize = 4;

/// Number of bytes of the length field behind the sync marker.
pub const LENGTH_BYTES: usize = 2;

/// The sync marker put in front of every frame.
pub open spec fn sync_marker() -> Seq<u8> {
    seq![0xaau8, 0xaau8, 0xaau8, 0xabu8]
}

/// Value of a two-byte little-endian length field.
pub open spec fn le16_val(s: Seq<u8>) -> int {
    s[0] + 256 * s[1]
}

/// The two little-endian bytes of a length value.
pub open spec fn le16_bytes(v: int) -> Seq<u8> {
    seq![(v % 256) as u8, (v / 256) as u8]
}

/// A run of zero bytes.
pub open spec fn zero_bytes(n: int) -> Seq<u8> {
    Seq::new(if n >= 0 {
        n as nat
    } else {
        0
    }, |i: int| 0u8)
}

/// Number of packets that a frame of the given length occupies.
pub open spec fn packet_count(frame_len: int, plen: int) -> int {
    (frame_len + SYNC_BYTES + LENGTH_BYTES + plen - 1) / plen
}

/// The whole padded byte stream that carries one frame.
pub open spec fn construct_stream(frame: Seq<u8>, plen: int) -> Seq<u8> {
    let header = sync_marker() + le16_bytes(frame.len() as int) + frame;
    header + zero_bytes(packet_count(frame.len() as int, plen) * plen - header.len())
}

/// The packets of the padded stream, in order.
pub open spec fn construct_packets(frame: Seq<u8>, plen: int) -> Seq<Seq<u8>> {
    Seq::new(
        packet_count(frame.len() as int, plen) as nat,
        |k: int| construct_stream(frame, plen).subrange(k * plen, (k + 1) * plen),
    )
}

/// Mathematical state of a frame manager.
#[verifier::ext_equal]
pub struct FrameModel {
    /// True while no partial frame is buffered.
    pub waiting: bool,
    /// Payload bytes gathered for the frame being reassembled.
    pub buffer: Seq<u8>,
    /// Length field of the frame being reassembled.
    pub frame_length: int,
    /// Fixed packet size of the modem in use.
    pub packet_length: int,
}

/// State of a fresh frame manager.
pub open spec fn fm_init(plen: int) -> FrameModel {
    FrameModel { waiting: true, buffer: Seq::empty(), frame_length: 0, packet_length: plen }
}

/// One transition of the reassembly machine: the next state and the frame
/// emitted by this packet, if any.
pub open spec fn fm_step(m: FrameModel, packet: Seq<u8>) -> (FrameModel, Option<Seq<u8>>) {
    if m.waiting {
        if packet.subrange(0, SYNC_BYTES as int) != sync_marker() {
            (m, None)
        } else {
            let l = le16_val(packet.subrange(SYNC_BYTES as int, (SYNC_BYTES + LENGTH_BYTES) as int));
            let payload = packet.subrange((SYNC_BYTES + LENGTH_BYTES) as int, packet.len() as int);
            if l + SYNC_BYTES <= m.packet_length {
                (
                    FrameModel { waiting: true, buffer: Seq::empty(), frame_length: l, ..m },
                    Some(payload.take(l)),
                )
            } else {
                (FrameModel { waiting: false, buffer: payload, frame_length: l, ..m }, None)
            }
        }
    } else {
        let buf = m.buffer + packet;
        if buf.len() < m.frame_length {
            (FrameModel { buffer: buf, ..m }, None)
        } else {
            (
                FrameModel { waiting: true, buffer: Seq::empty(), ..m },
                Some(buf.take(m.frame_length)),
            )
        }
    }
}

/// The run of the reassembly machine over a sequence of packets: the final
/// state and every frame emitted, in order.
pub open spec fn fm_run(m: FrameModel, packets: Seq<Seq<u8>>) -> (FrameModel, Seq<Seq<u8>>)
    decreases packets.len(),
{
    if packets.len() == 0 {
        (m, Seq::empty())
    } else {
        let stepped = fm_step(m, packets[0]);
        let rest = fm_run(stepped.0, packets.drop_first());
        (
            rest.0,
            match stepped.1 {
                Some(f) => seq![f] + rest.1,
                None => rest.1,
            },
        )
    }
}

/// The padded stream is exactly a whole number of packets long, and one more
/// packet would overshoot.
proof fn lemma_packet_count_bounds(flen: int, plen: int)
    requires
        1 <= flen,
        plen >= 7,
    ensures
        packet_count(flen, plen) * plen >= flen + SYNC_BYTES + LENGTH_BYTES,
        packet_count(flen, plen) * plen < flen + SYNC_BYTES + LENGTH_BYTES + plen,
        packet_count(flen, plen) >= 1,
{
    let h = flen + SYNC_BYTES + LENGTH_BYTES;
    let x = h + plen - 1;
    let count = packet_count(flen, plen);
    vstd::arithmetic::div_mod::lemma_fundamental_div_mod(x, plen);
    assert(plen * count == x - x % plen);
    assert(count * plen == plen * count) by (nonlinear_arith);
    assert(count >= 1) by (nonlinear_arith)
        requires
            count * plen >= h,
            h >= 7,
            plen >= 7,
    ;
}

/// The padded stream of a frame: length, prefix and contents.
proof fn lemma_stream_shape(frame: Seq<u8>, plen: int)
    requires
        1 <= frame.len() <= 65535,
        plen >= 7,
    ensures
        construct_stream(frame, plen).len() == packet_count(frame.len() as int, plen) * plen,
        construct_stream(frame, plen).subrange(0, SYNC_BYTES as int) == sync_marker(),
        le16_val(
            construct_stream(frame, plen).subrange(
                SYNC_BYTES as int,
                (SYNC_BYTES + LENGTH_BYTES) as int,
            ),
        ) == frame.len(),
        construct_stream(frame, plen).subrange(
            (SYNC_BYTES + LENGTH_BYTES) as int,
            (SYNC_BYTES + LENGTH_BYTES) as int + frame.len() as int,
        ) == frame,
{
    let flen = frame.len() as int;
    let stream = construct_stream(frame, plen);
    lemma_packet_count_bounds(flen, plen);
    assert(stream.subrange(0, SYNC_BYTES as int) =~= sync_marker());
    assert(stream.subrange(SYNC_BYTES as int, (SYNC_BYTES + LENGTH_BYTES) as int) =~= le16_bytes(
        flen,
    ));
    assert(le16_val(le16_bytes(flen)) == flen);
    assert(stream.subrange(
        (SYNC_BYTES + LENGTH_BYTES) as int,
        (SYNC_BYTES + LENGTH_BYTES) as int + flen,
    ) =~= frame);
}

/// Once a partial frame is buffered, feeding the remaining packets of its
/// stream emits exactly the frame and returns the machine to waiting.
#[verifier::rlimit(60)]
proof fn lemma_run_collect(frame: Seq<u8>, plen: int, j: int)
    requires
        1 <= frame.len() <= 65535,
        plen >= 7,
        1 <= j <= packet_count(frame.len() as int, plen),
        j * plen - SYNC_BYTES - LENGTH_BYTES < frame.len(),
    ensures
        ({
            let stream = construct_stream(frame, plen);
            let m = FrameModel {
                waiting: false,
                buffer: stream.subrange((SYNC_BYTES + LENGTH_BYTES) as int, j * plen),
                frame_length: frame.len() as int,
                packet_length: plen,
            };
            let run = fm_run(m, construct_packets(frame, plen).skip(j));
            run.1 == seq![frame] && run.0.waiting
        }),
    decreases packet_count(frame.len() as int, plen) - j,
{
    let flen = frame.len() as int;
    let count = packet_count(flen, plen);
    let stream = construct_stream(frame, plen);
    let packets = construct_packets(frame, plen);
    lemma_packet_count_bounds(flen, plen);
    lemma_stream_shape(frame, plen);
    assert(j < count) by (nonlinear_arith)
        requires
            j * plen < flen + SYNC_BYTES + LENGTH_BYTES,
            count * plen >= flen + SYNC_BYTES + LENGTH_BYTES,
            plen > 0,
            j <= count,
    ;
    assert((j + 1) * plen == j * plen + plen) by (nonlinear_arith);
    assert(plen <= j * plen && (j + 1) * plen <= count * plen) by (nonlinear_arith)
        requires
            1 <= j,
            j + 1 <= count,
            plen > 0,
    ;
    assert(stream.len() == count * plen);
    let m = FrameModel {
        waiting: false,
        buffer: stream.subrange((SYNC_BYTES + LENGTH_BYTES) as int, j * plen),
        frame_length: flen,
        packet_length: plen,
    };
    let rest = packets.skip(j);
    assert(rest[0] == packets[j]);
    assert(packets[j] == stream.subrange(j * plen, (j + 1) * plen));
    let stepped = fm_step(m, rest[0]);
    let buf = m.buffer + rest[0];
    assert(buf =~= stream.subrange((SYNC_BYTES + LENGTH_BYTES) as int, (j + 1) * plen));
    assert(rest.drop_first() =~= packets.skip(j + 1));
    if (j + 1) * plen - SYNC_BYTES - LENGTH_BYTES < flen {
        assert(buf.len() < flen);
        lemma_run_collect(frame, plen, j + 1);
        assert(stepped.0 == FrameModel {
            waiting: false,
            buffer: stream.subrange((SYNC_BYTES + LENGTH_BYTES) as int, (j + 1) * plen),
            frame_length: flen,
            packet_length: plen,
        });
    } else {
        assert(buf.len() >= flen);
        assert(stepped.1 == Some(buf.take(flen)));
        assert(buf.take(flen) =~= stream.subrange(
            (SYNC_BYTES + LENGTH_BYTES) as int,
            (SYNC_BYTES + LENGTH_BYTES) as int + flen,
        ));
        assert(j + 1 == count) by (nonlinear_arith)
            requires
                (j + 1) * plen >= flen + SYNC_BYTES + LENGTH_BYTES,
                count * plen < flen + SYNC_BYTES + LENGTH_BYTES + plen,
                plen > 0,
                j < count,
        ;
        assert(packets.skip(j + 1).len() == 0);
        assert(fm_run(stepped.0, packets.skip(j + 1)).1 == Seq::<Seq<u8>>::empty());
        assert(seq![frame] + Seq::<Seq<u8>>::empty() =~= seq![frame]);
    }
}

/// Reassembly inverts packetization: feeding the packets of a constructed
/// frame, in order, into a fresh manager emits exactly that frame once and
/// leaves the manager waiting. The two frame lengths just below the size of
/// a single packet are excluded: on those the length field admits the
/// single-packet branch while the first packet does not carry the whole
/// frame.
pub proof fn lemma_construct_reassembly(frame: Seq<u8>, plen: int)
    requires
        1 <= frame.len() <= 65535,
        plen >= 7,
        !(plen - 5 <= frame.len() <= plen - 4),
    ensures
        fm_run(fm_init(plen), construct_packets(frame, plen)).1 == seq![frame],
        fm_run(fm_init(plen), construct_packets(frame, plen)).0.waiting,
{
    let flen = frame.len() as int;
    let count = packet_count(flen, plen);
    let stream = construct_stream(frame, plen);
    let packets = construct_packets(frame, plen);
    lemma_packet_count_bounds(flen, plen);
    lemma_stream_shape(frame, plen);
    assert(0int * plen == 0 && 1int * plen == plen && plen <= count * plen) by (nonlinear_arith)
        requires
            plen > 0,
            count >= 1,
    ;
    assert(stream.len() == count * plen);
    let p0 = packets[0];
    assert(p0 == stream.subrange(0, plen));
    assert(p0.subrange(0, SYNC_BYTES as int) =~= stream.subrange(0, SYNC_BYTES as int));
    assert(p0.subrange(SYNC_BYTES as int, (SYNC_BYTES + LENGTH_BYTES) as int) =~= stream.subrange(
        SYNC_BYTES as int,
        (SYNC_BYTES + LENGTH_BYTES) as int,
    ));
    let stepped = fm_step(fm_init(plen), p0);
    let payload = p0.subrange((SYNC_BYTES + LENGTH_BYTES) as int, p0.len() as int);
    assert(packets.drop_first() =~= packets.skip(1));
    if flen + SYNC_BYTES + LENGTH_BYTES <= plen {
        assert(count == 1) by (nonlinear_arith)
            requires
                count * plen < flen + SYNC_BYTES + LENGTH_BYTES + plen,
                flen + SYNC_BYTES + LENGTH_BYTES <= plen,
                count >= 1,
                plen > 0,
        ;
        assert(stepped.1 == Some(payload.take(flen)));
        assert(payload.take(flen) =~= stream.subrange(
            (SYNC_BYTES + LENGTH_BYTES) as int,
            (SYNC_BYTES + LENGTH_BYTES) as int + flen,
        ));
        assert(packets.skip(1).len() == 0);
        assert(fm_run(stepped.0, packets.skip(1)).1 == Seq::<Seq<u8>>::empty());
        assert(payload.take(flen) == frame);
        assert(fm_run(fm_init(plen), packets).1 =~= seq![frame]);
    } else {
        assert(flen >= plen - 3);
        assert(!(flen + SYNC_BYTES <= plen));
        assert(stepped.1 is None);
        assert(payload =~= stream.subrange((SYNC_BYTES + LENGTH_BYTES) as int, 1int * plen));
        lemma_run_collect(frame, plen, 1);
        let m1 = FrameModel {
            waiting: false,
            buffer: stream.subrange((SYNC_BYTES + LENGTH_BYTES) as int, 1int * plen),
            frame_length: flen,
            packet_length: plen,
        };
        assert(stepped.0 == m1);
        assert(fm_run(m1, packets.skip(1)).1 == seq![frame]);
        assert(fm_run(fm_init(plen), packets).1 == fm_run(stepped.0, packets.drop_first()).1);
        assert(fm_run(fm_init(plen), packets).1 =~= seq![frame]);
    }
}

/// A frame that exactly fills the room of one packet behind the header is
/// carried by a single packet and emerges from the waiting state directly.
pub proof fn lemma_frame_fits_one_packet(frame: Seq<u8>, plen: int)
    requires
        plen >= 7,
        frame.len() == plen - SYNC_BYTES - LENGTH_BYTES,
        frame.len() <= 65535,
    ensures
        packet_count(frame.len() as int, plen) == 1,
        fm_step(fm_init(plen), construct_packets(frame, plen)[0]).1 == Some(frame),
        fm_step(fm_init(plen), construct_packets(frame, plen)[0]).0.waiting,
{
    let flen = frame.len() as int;
    lemma_packet_count_bounds(flen, plen);
    lemma_stream_shape(frame, plen);
    let count = packet_count(flen, plen);
    assert(count == 1) by (nonlinear_arith)
        requires
            count * plen < flen + SYNC_BYTES + LENGTH_BYTES + plen,
            flen + SYNC_BYTES + LENGTH_BYTES == plen,
            count >= 1,
            plen > 0,
    ;
    let stream = construct_stream(frame, plen);
    let packets = construct_packets(frame, plen);
    assert(0int * plen == 0 && 1int * plen == plen && plen <= count * plen) by (nonlinear_arith)
        requires
            plen > 0,
            count >= 1,
    ;
    assert(stream.len() == count * plen);
    let p0 = packets[0];
    assert(p0 == stream.subrange(0, plen));
    assert(p0.subrange(0, SYNC_BYTES as int) =~= stream.subrange(0, SYNC_BYTES as int));
    assert(p0.subrange(SYNC_BYTES as int, (SYNC_BYTES + LENGTH_BYTES) as int) =~= stream.subrange(
        SYNC_BYTES as int,
        (SYNC_BYTES + LENGTH_BYTES) as int,
    ));
    let payload = p0.subrange((SYNC_BYTES + LENGTH_BYTES) as int, p0.len() as int);
    assert(payload.take(flen) =~= stream.subrange(
        (SYNC_BYTES + LENGTH_BYTES) as int,
        (SYNC_BYTES + LENGTH_BYTES) as int + flen,
    ));
}

/// One byte more than fits in a single packet needs a second packet.
pub proof fn lemma_frame_needs_two_packets(flen: int, plen: int)
    requires
        plen >= 7,
        flen == plen - SYNC_BYTES - LENGTH_BYTES + 1,
    ensures
        packet_count(flen, plen) == 2,
{
    lemma_packet_count_bounds(flen, plen);
    let count = packet_count(flen, plen);
    assert(count == 2) by (nonlinear_arith)
        requires
            count * plen >= flen + SYNC_BYTES + LENGTH_BYTES,
            count * plen < flen + SYNC_BYTES + LENGTH_BYTES + plen,
            flen + SYNC_BYTES + LENGTH_BYTES == plen + 1,
            count >= 1,
            plen > 0,
    ;
}

enum FrameManagerState {
    Waiting,
    Frame,
}

/// Splits outgoing frames into packets and reassembles incoming packets into
/// frames.
pub struct FrameManager {
    packet_length: usize,
    buffer: Vec<u8>,
    frame_length: u16,
    current_state: FrameManagerState,
}

impl FrameManager {
    /// The mathematical state this manager is in.
    pub closed spec fn model(&self) -> FrameModel {
        FrameModel {
            waiting: self.current_state is Waiting,
            buffer: self.buffer@,
            frame_length: self.frame_length as int,
            packet_length: self.packet_length as int,
        }
    }

    /// Internal consistency: packets carry at least the header and one byte,
    /// and nothing is buffered while waiting.
    pub closed spec fn wf(&self) -> bool {
        &&& self.packet_length >= SYNC_BYTES + LENGTH_BYTES + 1
        &&& (self.current_state is Waiting ==> self.buffer@.len() == 0)
    }

    /// Whether the manager is between frames, with nothing buffered.
    pub fn is_waiting(&self) -> (r: bool)
        ensures
            r == self.model().waiting,
    {
        matches!(self.current_state, FrameManagerState::Waiting)
    }

    /// A fresh manager for a modem with the given packet size.
    pub fn new(packet_length: usize) -> (r: FrameManager)
        requires
            packet_length >= SYNC_BYTES + LENGTH_BYTES + 1,
        ensures
            r.wf(),
            r.model() == fm_init(packet_length as int),
    {
        let r = FrameManager {
            packet_length,
            buffer: Vec::new(),
            frame_length: 0,
            current_state: FrameManagerState::Waiting,
        };
        proof {
            assert(r.model() =~= fm_init(packet_length as int));
        }
        r
    }

    /// Split a frame into packets: sync marker, little-endian length, frame
    /// bytes, zero padding to a whole number of packets.
    pub fn construct(frame: &Vec<u8>, packet_length: usize) -> (r: Vec<Vec<u8>>)
        requires
            1 <= frame@.len() <= 65535,
            packet_length >= SYNC_BYTES + LENGTH_BYTES + 1,
            frame@.len() + SYNC_BYTES + LENGTH_BYTES + packet_length <= usize::MAX,
        ensures
            r@.len() == packet_count(frame@.len() as int, packet_length as int),
            forall|k: int| 0 <= k < r@.len() ==> #[trigger] r@[k]@ == construct_packets(
                frame@,
                packet_length as int,
            )[k],
    {
        let ghost plen = packet_length as int;
        let mut stream: Vec<u8> = Vec::new();
        stream.push(0xaa);
        stream.push(0xaa);
        stream.push(0xaa);
        stream.push(0xab);
        stream.push((frame.len() % 256) as u8);
        stream.push((frame.len() / 256) as u8);
        let mut i: usize = 0;
        while i < frame.len()
            invariant
                i <= frame.len(),
                stream@.len() == SYNC_BYTES + LENGTH_BYTES + i,
                stream@ == (sync_marker() + le16_bytes(frame@.len() as int) + frame@.take(i as int)),
            decreases frame.len() - i,
        {
            stream.push(frame[i]);
            proof {
                assert(stream@ =~= sync_marker() + le16_bytes(frame@.len() as int) + frame@.take(
                    i + 1,
                ));
            }
            i = i + 1;
        }
        proof {
            assert(frame@.take(frame@.len() as int) =~= frame@);
        }
        let header_len = stream.len();
        let rem = header_len % packet_length;
        let pad = if rem == 0 {
            0
        } else {
            packet_length - rem
        };
        let total = header_len + pad;
        proof {
            let h = header_len as int;
            let q = h / plen;
            vstd::arithmetic::div_mod::lemma_fundamental_div_mod(h, plen);
            if rem == 0 {
                assert(h + plen - 1 == q * plen + (plen - 1)) by (nonlinear_arith)
                    requires
                        h == plen * q + h % plen,
                        h % plen == 0,
                ;
                vstd::arithmetic::div_mod::lemma_fundamental_div_mod_converse(
                    h + plen - 1,
                    plen,
                    q,
                    plen - 1,
                );
            } else {
                assert(h + plen - 1 == (q + 1) * plen + (h % plen - 1)) by (nonlinear_arith)
                    requires
                        h == plen * q + h % plen,
                ;
                vstd::arithmetic::div_mod::lemma_fundamental_div_mod_converse(
                    h + plen - 1,
                    plen,
                    q + 1,
                    h % plen - 1,
                );
                assert((q + 1) * plen == q * plen + plen) by (nonlinear_arith);
            }
            assert(total as int == packet_count(frame@.len() as int, plen) * plen);
        }
        let mut j: usize = 0;
        while j < pad
            invariant
                j <= pad,
                stream@.len() == header_len + j,
                stream@ == (sync_marker() + le16_bytes(frame@.len() as int) + frame@) + zero_bytes(
                    j as int,
                ),
            decreases pad - j,
        {
            stream.push(0);
            proof {
                assert(stream@ =~= (sync_marker() + le16_bytes(frame@.len() as int) + frame@)
                    + zero_bytes(j + 1));
            }
            j = j + 1;
        }
        proof {
            assert(stream@ =~= construct_stream(frame@, plen));
        }
        let ghost count = packet_count(frame@.len() as int, plen);
        let mut r: Vec<Vec<u8>> = Vec::new();
        let mut start: usize = 0;
        proof {
            assert(r@.len() * plen == 0) by (nonlinear_arith)
                requires
                    r@.len() == 0,
            ;
        }
        while start < total
            invariant
                start <= total,
                total == stream@.len(),
                total as int == count * plen,
                count == packet_count(frame@.len() as int, plen),
                packet_length >= 7,
                plen == packet_length as int,
                stream@ == construct_stream(frame@, plen),
                start as int == r@.len() * plen,
                forall|k: int|
                    0 <= k < r@.len() ==> #[trigger] r@[k]@ == stream@.subrange(
                        k * plen,
                        (k + 1) * plen,
                    ),
            decreases total - start,
        {
            proof {
                assert(start + plen <= total) by (nonlinear_arith)
                    requires
                        start < total,
                        plen > 0,
                        start as int == r@.len() * plen,
                        total as int == count * plen,
                ;
            }
            let mut packet: Vec<u8> = Vec::new();
            let mut t: usize = start;
            while t < start + packet_length
                invariant
                    start <= t <= start + packet_length,
                    start + packet_length <= total,
                    total == stream@.len(),
                    packet@ == stream@.subrange(start as int, t as int),
                decreases start + packet_length - t,
            {
                packet.push(stream[t]);
                proof {
                    assert(packet@ =~= stream@.subrange(start as int, t + 1));
                }
                t = t + 1;
            }
            proof {
                let k = r@.len() as int;
                assert((k + 1) * plen == k * plen + plen) by (nonlinear_arith);
            }
            r.push(packet);
            start = start + packet_length;
        }
        proof {
            assert(r@.len() * plen == count * plen);
            assert(r@.len() == count) by (nonlinear_arith)
                requires
                    plen > 0,
                    r@.len() * plen == count * plen,
            ;
            assert(forall|k: int|
                0 <= k < r@.len() ==> #[trigger] r@[k]@ == construct_packets(frame@, plen)[k]);
        }
        r
    }

    /// Feed one demodulated packet into the reassembly machine; returns the
    /// completed frame when this packet finishes one.
    pub fn update(&mut self, packet: &Vec<u8>) -> (r: Option<Vec<u8>>)
        requires
            old(self).wf(),
            packet@.len() == old(self).model().packet_length,
            old(self).model().waiting && packet@.subrange(0, SYNC_BYTES as int) == sync_marker()
                ==> !(old(self).model().packet_length - 5 <= le16_val(
                packet@.subrange(SYNC_BYTES as int, (SYNC_BYTES + LENGTH_BYTES) as int),
            ) <= old(self).model().packet_length - 4),
        ensures
            final(self).wf(),
            final(self).model() == fm_step(old(self).model(), packet@).0,
            match r {
                Some(f) => fm_step(old(self).model(), packet@).1 == Some(f@),
                None => fm_step(old(self).model(), packet@).1 is None,
            },
    {
        let ghost m0 = self.model();
        match self.current_state {
            FrameManagerState::Waiting => {
                if !(packet[0] == 0xaa && packet[1] == 0xaa && packet[2] == 0xaa && packet[3]
                    == 0xab) {
                    proof {
                        assert(packet@.subrange(0, SYNC_BYTES as int) != sync_marker());
                        assert(self.model() =~= fm_step(m0, packet@).0);
                    }
                    return None;
                }
                proof {
                    assert(packet@.subrange(0, SYNC_BYTES as int) =~= sync_marker());
                }
                let l: usize = packet[4] as usize + 256 * packet[5] as usize;
                let ghost payload = packet@.subrange(
                    (SYNC_BYTES + LENGTH_BYTES) as int,
                    packet@.len() as int,
                );
                self.frame_length = l as u16;
                let mut i: usize = SYNC_BYTES + LENGTH_BYTES;
                while i < packet.len()
                    invariant
                        SYNC_BYTES + LENGTH_BYTES <= i <= packet.len(),
                        payload == packet@.subrange(
                            (SYNC_BYTES + LENGTH_BYTES) as int,
                            packet@.len() as int,
                        ),
                        self.buffer@ == payload.take(i - SYNC_BYTES - LENGTH_BYTES),
                        self.packet_length == old(self).packet_length,
                        self.frame_length == l as u16,
                        self.current_state is Waiting,
                    decreases packet.len() - i,
                {
                    self.buffer.push(packet[i]);
                    proof {
                        assert(self.buffer@ =~= payload.take(i + 1 - SYNC_BYTES - LENGTH_BYTES));
                    }
                    i = i + 1;
                }
                proof {
                    assert(self.buffer@ =~= payload);
                }
                if l + SYNC_BYTES <= self.packet_length {
                    let mut result: Vec<u8> = Vec::new();
                    let mut k: usize = 0;
                    while k < l
                        invariant
                            k <= l,
                            l <= self.buffer@.len(),
                            self.buffer@ == payload,
                            result@ == payload.take(k as int),
                            self.packet_length == old(self).packet_length,
                            self.frame_length == l as u16,
                            self.current_state is Waiting,
                        decreases l - k,
                    {
                        result.push(self.buffer[k]);
                        proof {
                            assert(result@ =~= payload.take(k + 1));
                        }
                        k = k + 1;
                    }
                    self.buffer.clear();
                    proof {
                        assert(self.model() =~= fm_step(m0, packet@).0);
                    }
                    Some(result)
                } else {
                    self.current_state = FrameManagerState::Frame;
                    proof {
                        assert(self.model() =~= fm_step(m0, packet@).0);
                    }
                    None
                }
            },
            FrameManagerState::Frame => {
                let ghost buf0 = self.buffer@;
                let mut i: usize = 0;
                while i < packet.len()
                    invariant
                        i <= packet.len(),
                        self.buffer@ == buf0 + packet@.take(i as int),
                        self.packet_length == old(self).packet_length,
                        self.frame_length == old(self).frame_length,
                        self.current_state is Frame,
                    decreases packet.len() - i,
                {
                    self.buffer.push(packet[i]);
                    proof {
                        assert(self.buffer@ =~= buf0 + packet@.take(i + 1));
                    }
                    i = i + 1;
                }
                proof {
                    assert(self.buffer@ =~= buf0 + packet@);
                }
                if self.buffer.len() < self.frame_length as usize {
                    proof {
                        assert(self.model() =~= fm_step(m0, packet@).0);
                    }
                    return None;
                }
                let l = self.frame_length as usize;
                let mut result: Vec<u8> = Vec::new();
                let mut k: usize = 0;
                while k < l
                    invariant
                        k <= l,
                        l <= self.buffer@.len(),
                        self.buffer@ == buf0 + packet@,
                        result@ == (buf0 + packet@).take(k as int),
                        self.packet_length == old(self).packet_length,
                        self.frame_length == old(self).frame_length,
                        self.current_state is Frame,
                    decreases l - k,
                {
                    result.push(self.buffer[k]);
                    proof {
                        assert(result@ =~= (buf0 + packet@).take(k + 1));
                    }
                    k = k + 1;
                }
                self.buffer.clear();
                self.current_state = FrameManagerState::Waiting;
                proof {
                    assert(self.model() =~= fm_step(m0, packet@).0);
                }
                Some(result)
            },
        }
    }
}

} // verus!
