//! Link-layer terminal data: fixed-size MAC frames with source, destination,
//! a big-endian sequence number and a fixed payload, the ACK discrimination
//! by a reserved payload prefix, and the pure decisions of the stop-and-wait
//! send and receive paths. The worker loops that move these frames across
//! threads and the audio device live outside the library.

use vstd::prelude::*;
use crate::corrupted::{CrcWrapper, CRC_BYTES, crc16_of, be16_bytes};

verus! {

/// Bytes of one MAC address.
pub const MAC_ADDRESS_BYTES: usize = 2;

/// Bytes of the sequence number field.
pub const SEQUENCE_BYTES: usize = 4;

/// Bytes of a serialized MAC frame before its checksum: the payload bytes of
/// the frequency-division modem that carries MAC frames, less the checksum.
pub const DATA_FRAME_BYTES: usize = 48 - CRC_BYTES;

/// Bytes of the payload carried by every MAC frame.
pub const VALID_PACKET_BYTES: usize = DATA_FRAME_BYTES - MAC_ADDRESS_BYTES * 2 - SEQUENCE_BYTES;

/// Bytes of the reserved prefix that marks an ACK payload.
pub const ACK_PAYLOAD_BYTES: usize = 6;

/// The reserved payload prefix that marks an ACK frame.
pub open spec fn ack_magic() -> Seq<u8> {
    seq![0x11u8, 0x45u8, 0x14u8, 0x19u8, 0x19u8, 0x81u8]
}

/// A payload is an ACK when it starts with the reserved prefix.
pub open spec fn is_ack_payload(p: Seq<u8>) -> bool {
    p.subrange(0, ACK_PAYLOAD_BYTES as int) == ack_magic()
}

/// The four big-endian bytes of a 32-bit value.
pub open spec fn be32_bytes(v: int) -> Seq<u8> {
    seq![
        (v / 0x1000000) as u8,
        ((v / 0x10000) % 256) as u8,
        ((v / 256) % 256) as u8,
        (v % 256) as u8,
    ]
}

/// Value of four big-endian bytes.
pub open spec fn be32_val(s: Seq<u8>) -> int {
    0x1000000 * s[0] + 0x10000 * s[1] + 256 * s[2] + s[3]
}

/// One terminal's address on the link.
#[derive(Debug, Clone, Copy, PartialEq, Eq)]
pub struct MacAddress([u8; 2]);

impl View for MacAddress {
    type V = Seq<u8>;

    closed spec fn view(&self) -> Seq<u8> {
        self.0@
    }
}

impl MacAddress {
    /// An address from its two bytes.
    pub fn new(mac_address: [u8; 2]) -> (r: MacAddress)
        ensures
            r@ == mac_address@,
            r@.len() == MAC_ADDRESS_BYTES,
    {
        MacAddress(mac_address)
    }

    /// Whether two addresses are the same.
    pub fn matches(&self, other: &MacAddress) -> (r: bool)
        ensures
            r == (self@ == other@),
    {
        let r = self.0[0] == other.0[0] && self.0[1] == other.0[1];
        proof {
            if r {
                assert(self.0@ =~= other.0@);
            }
        }
        r
    }
}

/// One MAC frame: addresses, sequence number and fixed-size payload.
#[derive(Debug, Clone)]
pub struct TerminalDataFrame {
    /// Sequence number assigned by the sending terminal.
    pub sequence: u32,
    /// The carried payload.
    pub payload: Vec<u8>,
    /// The address this frame came from.
    pub source: MacAddress,
    /// The address this frame is for.
    pub destination: MacAddress,
}

/// The serialized bytes of a frame: source, destination, big-endian
/// sequence, payload.
pub open spec fn frame_bytes_of(f: TerminalDataFrame) -> Seq<u8> {
    f.source@ + f.destination@ + be32_bytes(f.sequence as int) + f.payload@
}

impl TerminalDataFrame {
    /// A frame carries exactly the fixed payload size.
    pub open spec fn wf(&self) -> bool {
        self.payload@.len() == VALID_PACKET_BYTES
    }

    /// A frame from its parts.
    pub fn new(
        source: MacAddress,
        destination: MacAddress,
        sequence: u32,
        payload: &Vec<u8>,
    ) -> (r: TerminalDataFrame)
        requires
            payload@.len() == VALID_PACKET_BYTES,
        ensures
            r.wf(),
            r.source == source,
            r.destination == destination,
            r.sequence == sequence,
            r.payload@ == payload@,
    {
        let mut p: Vec<u8> = Vec::new();
        let mut i: usize = 0;
        while i < payload.len()
            invariant
                i <= payload.len(),
                p@ == payload@.take(i as int),
            decreases payload.len() - i,
        {
            p.push(payload[i]);
            proof {
                assert(p@ =~= payload@.take(i + 1));
            }
            i = i + 1;
        }
        proof {
            assert(p@ =~= payload@);
        }
        TerminalDataFrame { sequence, payload: p, source, destination }
    }

    /// Parse a serialized frame; succeeds exactly on buffers of the fixed
    /// frame size, and the parsed frame serializes back to the buffer.
    pub fn from_bytes(data: &Vec<u8>) -> (r: Option<TerminalDataFrame>)
        ensures
            r is Some <==> data@.len() == DATA_FRAME_BYTES,
            r matches Some(f) ==> f.wf() && frame_bytes_of(f) == data@,
    {
        if data.len() != DATA_FRAME_BYTES {
            return None;
        }
        let source = MacAddress::new([data[0], data[1]]);
        let destination = MacAddress::new([data[2], data[3]]);
        let sequence: u32 = (data[4] as u32) * 0x1000000 + (data[5] as u32) * 0x10000 + (
        data[6] as u32) * 256 + (data[7] as u32);
        let mut payload: Vec<u8> = Vec::new();
        let mut i: usize = MAC_ADDRESS_BYTES * 2 + SEQUENCE_BYTES;
        while i < data.len()
            invariant
                8 <= i <= data@.len(),
                data@.len() == DATA_FRAME_BYTES,
                payload@ == data@.subrange(8, i as int),
            decreases data.len() - i,
        {
            payload.push(data[i]);
            proof {
                assert(payload@ =~= data@.subrange(8, i + 1));
            }
            i = i + 1;
        }
        let f = TerminalDataFrame { sequence, payload, source, destination };
        proof {
            let b4 = data@[4] as int;
            let b5 = data@[5] as int;
            let b6 = data@[6] as int;
            let b7 = data@[7] as int;
            let sv = f.sequence as int;
            assert(sv == 0x1000000 * b4 + 0x10000 * b5 + 256 * b6 + b7);
            assert(sv / 0x1000000 == b4);
            assert(sv / 0x10000 == 256 * b4 + b5);
            assert(sv / 256 == 0x10000 * b4 + 256 * b5 + b6);
            assert(frame_bytes_of(f) =~= data@);
        }
        Some(f)
    }

    /// Serialize the frame.
    pub fn to_bytes(&self) -> (r: Vec<u8>)
        requires
            self.wf(),
        ensures
            r@ == frame_bytes_of(*self),
            r@.len() == DATA_FRAME_BYTES,
    {
        let mut result: Vec<u8> = Vec::new();
        result.push(self.source.0[0]);
        result.push(self.source.0[1]);
        result.push(self.destination.0[0]);
        result.push(self.destination.0[1]);
        result.push((self.sequence / 0x1000000) as u8);
        result.push(((self.sequence / 0x10000) % 256) as u8);
        result.push(((self.sequence / 256) % 256) as u8);
        result.push((self.sequence % 256) as u8);
        let ghost head = result@;
        let mut i: usize = 0;
        while i < self.payload.len()
            invariant
                i <= self.payload@.len(),
                result@ == head + self.payload@.take(i as int),
            decreases self.payload@.len() - i,
        {
            result.push(self.payload[i]);
            proof {
                assert(result@ =~= head + self.payload@.take(i + 1));
            }
            i = i + 1;
        }
        proof {
            assert(result@ =~= frame_bytes_of(*self));
        }
        result
    }
}

/// Relies on rand::random for the filler bytes behind the reserved ACK
/// prefix; nothing is assumed of the drawn value.
pub assume_specification<T>[ rand::random::<T> ]() -> (r: T)
    where
        rand::distr::StandardUniform: rand::distr::Distribution<T>,
;

/// The reserved payload that marks a frame as an ACK.
pub struct AckPayload;

impl AckPayload {
    /// An ACK payload: the reserved prefix, filled to the payload size with
    /// random bytes.
    pub fn create() -> (r: Vec<u8>)
        ensures
            r@.len() == VALID_PACKET_BYTES,
            is_ack_payload(r@),
    {
        let mut r: Vec<u8> = Vec::new();
        r.push(0x11);
        r.push(0x45);
        r.push(0x14);
        r.push(0x19);
        r.push(0x19);
        r.push(0x81);
        while r.len() < VALID_PACKET_BYTES
            invariant
                6 <= r@.len() <= VALID_PACKET_BYTES,
                r@.subrange(0, ACK_PAYLOAD_BYTES as int) == ack_magic(),
            decreases VALID_PACKET_BYTES - r@.len(),
        {
            let filler = rand::random::<u8>();
            r.push(filler);
            proof {
                assert(r@.subrange(0, ACK_PAYLOAD_BYTES as int) =~= ack_magic());
            }
        }
        r
    }

    /// Whether a frame's payload starts with the reserved ACK prefix.
    pub fn validate(data: &TerminalDataFrame) -> (r: bool)
        requires
            data.wf(),
        ensures
            r == is_ack_payload(data.payload@),
    {
        let p = &data.payload;
        let r = p[0] == 0x11 && p[1] == 0x45 && p[2] == 0x14 && p[3] == 0x19 && p[4] == 0x19
            && p[5] == 0x81;
        proof {
            if r {
                assert(p@.subrange(0, ACK_PAYLOAD_BYTES as int) =~= ack_magic());
            } else {
                assert(p@.subrange(0, ACK_PAYLOAD_BYTES as int) != ack_magic()) by {
                    if p@.subrange(0, ACK_PAYLOAD_BYTES as int) == ack_magic() {
                        assert(p@[0] == 0x11 && p@[1] == 0x45 && p@[2] == 0x14 && p@[3] == 0x19
                            && p@[4] == 0x19 && p@[5] == 0x81) by {
                            let s = p@.subrange(0, ACK_PAYLOAD_BYTES as int);
                            assert(s[0] == p@[0] && s[1] == p@[1] && s[2] == p@[2] && s[3] == p@[3]
                                && s[4] == p@[4] && s[5] == p@[5]);
                        }
                    }
                }
            }
        }
        r
    }
}

/// Whether a sequence number was already seen.
pub fn contains_sequence(seen: &Vec<u32>, sequence: u32) -> (r: bool)
    ensures
        r == seen@.contains(sequence),
{
    let mut i: usize = 0;
    while i < seen.len()
        invariant
            i <= seen@.len(),
            forall|k: int| 0 <= k < i ==> seen@[k] != sequence,
        decreases seen.len() - i,
    {
        if seen[i] == sequence {
            return true;
        }
        i = i + 1;
    }
    proof {
        assert(!seen@.contains(sequence));
    }
    false
}

/// What the receive path decides for one frame off the air.
pub enum ReceiveAction {
    /// The frame failed its checksum, did not parse, or is for another
    /// address: drop it silently.
    Ignore,
    /// The frame acknowledges one of ours: record the sequence number.
    RecordAck { sequence: u32 },
    /// A new user frame for us: deliver it upward and acknowledge it.
    Deliver { frame: TerminalDataFrame, ack_sequence: u32, ack_destination: MacAddress },
    /// A duplicate user frame: acknowledge it again without delivering.
    AckOnly { ack_sequence: u32, ack_destination: MacAddress },
}

/// The fields of a checksum-stripped frame buffer.
pub open spec fn body_source(b: Seq<u8>) -> Seq<u8> {
    b.subrange(0, 2)
}

/// The destination field of a checksum-stripped frame buffer.
pub open spec fn body_destination(b: Seq<u8>) -> Seq<u8> {
    b.subrange(2, 4)
}

/// The sequence field of a checksum-stripped frame buffer.
pub open spec fn body_sequence(b: Seq<u8>) -> int {
    be32_val(b.subrange(4, 8))
}

/// The payload field of a checksum-stripped frame buffer.
pub open spec fn body_payload(b: Seq<u8>) -> Seq<u8> {
    b.subrange(8, DATA_FRAME_BYTES as int)
}

/// The stored checksum of a received buffer matches its body.
pub open spec fn crc_accepts(received: Seq<u8>) -> bool {
    received.skip(received.len() - CRC_BYTES) == be16_bytes(
        crc16_of(received.take(received.len() - CRC_BYTES)) as int,
    )
}

/// Decide the receive path for one buffer off the air: verify the checksum,
/// parse the frame, drop frames for other addresses, record ACKs, deliver
/// new user frames and acknowledge every user frame.
pub fn process_received(
    local: MacAddress,
    received: &Vec<u8>,
    received_sequences: &Vec<u32>,
) -> (r: ReceiveAction)
    requires
        received@.len() == DATA_FRAME_BYTES + CRC_BYTES,
    ensures
        ({
            let body = received@.take(received@.len() - CRC_BYTES);
            &&& !crc_accepts(received@) ==> r is Ignore
            &&& crc_accepts(received@) && body_destination(body) != local@ ==> r is Ignore
            &&& crc_accepts(received@) && body_destination(body) == local@ && is_ack_payload(
                body_payload(body),
            ) ==> (r matches ReceiveAction::RecordAck { sequence } && sequence == body_sequence(body))
            &&& crc_accepts(received@) && body_destination(body) == local@ && !is_ack_payload(
                body_payload(body),
            ) && !received_sequences@.contains(body_sequence(body) as u32) ==> (r matches
                ReceiveAction::Deliver { frame, ack_sequence, ack_destination }
                && frame.wf()
                && frame.sequence == body_sequence(body)
                && frame.payload@ == body_payload(body)
                && frame.source@ == body_source(body)
                && frame.destination@ == local@
                && ack_sequence == body_sequence(body)
                && ack_destination@ == body_source(body))
            &&& crc_accepts(received@) && body_destination(body) == local@ && !is_ack_payload(
                body_payload(body),
            ) && received_sequences@.contains(body_sequence(body) as u32) ==> (r matches
                ReceiveAction::AckOnly { ack_sequence, ack_destination }
                && ack_sequence == body_sequence(body)
                && ack_destination@ == body_source(body))
        }),
{
    let ghost body_g = received@.take(received@.len() - CRC_BYTES);
    let decoded = CrcWrapper::decode(received);
    match decoded {
        None => ReceiveAction::Ignore,
        Some(body) => {
            let parsed = TerminalDataFrame::from_bytes(&body);
            match parsed {
                None => {
                    proof {
                        assert(false);
                    }
                    ReceiveAction::Ignore
                },
                Some(frame) => {
                    proof {
                        assert(frame.destination@ =~= body_destination(body_g));
                        assert(frame.source@ =~= body_source(body_g));
                        assert(frame.payload@ =~= body_payload(body_g));
                        assert(be32_bytes(frame.sequence as int) =~= body_g.subrange(4, 8));
                        assert(be32_val(be32_bytes(frame.sequence as int)) == frame.sequence);
                    }
                    if !frame.destination.matches(&local) {
                        ReceiveAction::Ignore
                    } else if AckPayload::validate(&frame) {
                        ReceiveAction::RecordAck { sequence: frame.sequence }
                    } else if !contains_sequence(received_sequences, frame.sequence) {
                        let ack_sequence = frame.sequence;
                        let ack_destination = frame.source;
                        ReceiveAction::Deliver { frame, ack_sequence, ack_destination }
                    } else {
                        ReceiveAction::AckOnly {
                            ack_sequence: frame.sequence,
                            ack_destination: frame.source,
                        }
                    }
                },
            }
        },
    }
}

/// What the send path does when its retransmission timer fires or its
/// overall deadline passes.
pub enum SendAction {
    /// The frame was acknowledged: move on to the next frame.
    Done,
    /// No acknowledgement yet: send the frame again.
    Resend,
    /// The deadline passed: declare the link failed and stop.
    Fail,
}

/// The event that wakes the send path while it waits for an ACK.
pub enum SendEvent {
    /// The periodic retransmission timer fired.
    Tick,
    /// The overall deadline passed.
    Timeout,
}

/// Decide the send path on a timer event: a tick retransmits until the
/// sequence number is acknowledged; the deadline fails the terminal.
pub fn retry_decision(received_acks: &Vec<u32>, sequence: u32, event: SendEvent) -> (r: SendAction)
    ensures
        event is Tick && received_acks@.contains(sequence) ==> r is Done,
        event is Tick && !received_acks@.contains(sequence) ==> r is Resend,
        event is Timeout ==> r is Fail,
{
    match event {
        SendEvent::Tick => {
            if contains_sequence(received_acks, sequence) {
                SendAction::Done
            } else {
                SendAction::Resend
            }
        },
        SendEvent::Timeout => SendAction::Fail,
    }
}

/// Build the user frame for one outbound chunk: the data is padded with
/// zeros to the fixed payload size and stamped with the next sequence
/// number.
pub fn make_data_frame(
    local: MacAddress,
    destination: MacAddress,
    sequence: u32,
    data: &Vec<u8>,
) -> (r: TerminalDataFrame)
    requires
        data@.len() <= VALID_PACKET_BYTES,
    ensures
        r.wf(),
        r.source == local,
        r.destination == destination,
        r.sequence == sequence,
        r.payload@ == data@ + crate::frame_manager::zero_bytes(VALID_PACKET_BYTES - data@.len()),
{
    let mut padded: Vec<u8> = Vec::new();
    let mut i: usize = 0;
    while i < data.len()
        invariant
            i <= data@.len(),
            padded@ == data@.take(i as int),
        decreases data.len() - i,
    {
        padded.push(data[i]);
        proof {
            assert(padded@ =~= data@.take(i + 1));
        }
        i = i + 1;
    }
    proof {
        assert(padded@ =~= data@);
    }
    while padded.len() < VALID_PACKET_BYTES
        invariant
            data@.len() <= padded@.len() <= VALID_PACKET_BYTES,
            padded@ == data@ + crate::frame_manager::zero_bytes(padded@.len() - data@.len()),
        decreases VALID_PACKET_BYTES - padded@.len(),
    {
        padded.push(0);
        proof {
            assert(padded@ =~= data@ + crate::frame_manager::zero_bytes(
                padded@.len() - data@.len(),
            ));
        }
    }
    TerminalDataFrame::new(local, destination, sequence, &padded)
}

/// Build the ACK frame that answers a user frame: it echoes the sequence
/// number back to the frame's source.
pub fn make_ack_frame(local: MacAddress, destination: MacAddress, sequence: u32) -> (r:
    TerminalDataFrame)
    ensures
        r.wf(),
        r.source == local,
        r.destination == destination,
        r.sequence == sequence,
        is_ack_payload(r.payload@),
{
    let payload = AckPayload::create();
    TerminalDataFrame::new(local, destination, sequence, &payload)
}

} // verus!
