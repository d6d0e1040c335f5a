//! Node-side sample plumbing that is pure computation: the exponentially
//! weighted power estimate behind the carrier-sense hook, and the assembly
//! of one packet's on-air sample stream. The audio callbacks and channels
//! that feed these live outside the library.

use vstd::prelude::*;
use crate::number::{FP, fp_add, fp_sub, fp_mul, fp_div, fp_of_int, fp_views};

verus! {

/// Raw value of the exponential refresh factor of the power estimate.
pub open spec fn refresh_factor() -> int {
    fp_div(fp_of_int(85), fp_of_int(100))
}

/// Raw value of the power level above which the channel counts as busy.
pub open spec fn collision_threshold() -> int {
    fp_div(fp_of_int(1), fp_of_int(4000))
}

/// Raw value of the power estimate after one more sample.
pub open spec fn power_step(p: int, sample: int) -> int {
    fp_add(
        fp_mul(p, fp_sub(fp_of_int(1), refresh_factor())),
        fp_mul(fp_mul(sample, sample), refresh_factor()),
    )
}

/// Exponentially weighted average power of the captured samples; the
/// carrier-sense hook reads it to detect a busy channel.
pub struct AveragePower {
    power: FP,
}

impl AveragePower {
    /// The current raw power estimate.
    pub closed spec fn level(&self) -> int {
        self.power@
    }

    /// A fresh estimator, starting from full power.
    pub fn new() -> (r: AveragePower)
        ensures
            r.level() == fp_of_int(1),
    {
        AveragePower { power: FP::one() }
    }

    /// Fold one captured sample into the estimate.
    pub fn update(&mut self, sample: FP)
        ensures
            final(self).level() == power_step(old(self).level(), sample@),
    {
        let one = FP::one();
        let factor = FP::from_usize(85).div(FP::from_usize(100));
        self.power = self.power.mul(one.sub(factor)).add(sample.mul(sample).mul(factor));
    }

    /// Whether the estimate says another carrier is on the air.
    pub fn colliding(&self) -> (r: bool)
        ensures
            r == (self.level() > collision_threshold()),
    {
        let threshold = FP::one().div(FP::from_usize(4000));
        self.power.gt(threshold)
    }
}

/// The on-air sample stream of one packet: the preamble chirp followed by
/// the modulated packet samples.
pub fn packet_to_samples(preamble: &Vec<FP>, packet_samples: &Vec<FP>) -> (r: Vec<FP>)
    ensures
        fp_views(r@) == fp_views(preamble@) + fp_views(packet_samples@),
{
    let mut r: Vec<FP> = Vec::new();
    let mut i: usize = 0;
    while i < preamble.len()
        invariant
            i <= preamble@.len(),
            r@ == preamble@.take(i as int),
        decreases preamble.len() - i,
    {
        r.push(preamble[i]);
        proof {
            assert(r@ =~= preamble@.take(i + 1));
        }
        i = i + 1;
    }
    proof {
        assert(r@ =~= preamble@);
    }
    let ghost head = r@;
    let mut j: usize = 0;
    while j < packet_samples.len()
        invariant
            j <= packet_samples@.len(),
            r@ == head + packet_samples@.take(j as int),
        decreases packet_samples.len() - j,
    {
        r.push(packet_samples[j]);
        proof {
            assert(r@ =~= head + packet_samples@.take(j + 1));
        }
        j = j + 1;
    }
    proof {
        assert(r@ =~= preamble@ + packet_samples@);
        assert(fp_views(r@) =~= fp_views(preamble@) + fp_views(packet_samples@));
    }
    r
}

// The receiving node's per-sample pipeline over the fully verified stack:
// detector, line-code demodulation, frame reassembly.

use crate::detector::{PacketDetector, DetectorModel, detector_step, dm_init, PREAMBLE_LENGTH};
use crate::frame_manager::{FrameManager, FrameModel, fm_step, fm_init, sync_marker, le16_val, SYNC_BYTES, LENGTH_BYTES};
use crate::modem::xbyb::{BitWave, bw_demodulate, BYTES_PER_PACKET, SAMPLES_PER_PACKET};

/// A demodulated packet that the pipeline drops rather than feeds to the
/// reassembly machine: its length field admits the single-packet branch
/// while the first packet cannot carry the whole frame, a shape that wedges
/// the machine and that no constructed stream round-trips anyway.
pub open spec fn packet_dropped(packet: Seq<u8>, m: FrameModel) -> bool {
    &&& m.waiting
    &&& packet.subrange(0, SYNC_BYTES as int) == sync_marker()
    &&& m.packet_length - 5 <= le16_val(
        packet.subrange(SYNC_BYTES as int, (SYNC_BYTES + LENGTH_BYTES) as int),
    ) <= m.packet_length - 4
}

/// The per-sample compute path of a receiving node over the line-coded
/// modem: every captured sample runs through the detector; a detected
/// payload is demodulated and fed to the frame reassembly machine.
pub struct ReceiverPipeline {
    detector: PacketDetector,
    manager: FrameManager,
    modem: BitWave,
}

impl ReceiverPipeline {
    /// The detector's mathematical state.
    pub closed spec fn detector_model(&self) -> DetectorModel {
        self.detector.model()
    }

    /// The reassembly machine's mathematical state.
    pub closed spec fn manager_model(&self) -> FrameModel {
        self.manager.model()
    }

    /// Internal consistency: the detector collects exactly one modulated
    /// packet, and the manager expects packets of the modem's size.
    pub closed spec fn wf(&self) -> bool {
        &&& self.detector.wf()
        &&& self.manager.wf()
        &&& self.detector.model().capacity == SAMPLES_PER_PACKET
        &&& self.manager.model().packet_length == BYTES_PER_PACKET
    }

    /// A fresh pipeline listening for the given preamble.
    pub fn new(preamble: Vec<FP>) -> (r: ReceiverPipeline)
        requires
            preamble@.len() == PREAMBLE_LENGTH,
        ensures
            r.wf(),
            r.detector_model() == dm_init(fp_views(preamble@), SAMPLES_PER_PACKET as int),
            r.manager_model() == fm_init(BYTES_PER_PACKET as int),
    {
        ReceiverPipeline {
            detector: PacketDetector::new(preamble, SAMPLES_PER_PACKET),
            manager: FrameManager::new(BYTES_PER_PACKET),
            modem: BitWave::new(0),
        }
    }

    /// Feed one demodulated packet to the reassembly machine, dropping the
    /// length-field shapes that would wedge it.
    fn reassemble(&mut self, packet: &Vec<u8>) -> (r: Option<Vec<u8>>)
        requires
            old(self).wf(),
            packet@.len() == BYTES_PER_PACKET,
        ensures
            final(self).wf(),
            final(self).detector_model() == old(self).detector_model(),
            ({
                if packet_dropped(packet@, old(self).manager_model()) {
                    final(self).manager_model() == old(self).manager_model() && r is None
                } else {
                    final(self).manager_model() == fm_step(old(self).manager_model(), packet@).0
                        && (match r {
                        Some(f) => fm_step(old(self).manager_model(), packet@).1 == Some(f@),
                        None => fm_step(old(self).manager_model(), packet@).1 is None,
                    })
                }
            }),
    {
        let ghost m = self.manager.model();
        let mut dropped = false;
        if self.manager.is_waiting() && packet[0] == 0xaa && packet[1] == 0xaa && packet[2] == 0xaa
            && packet[3] == 0xab {
            proof {
                assert(packet@.subrange(0, SYNC_BYTES as int) =~= sync_marker());
            }
            let length: usize = packet[4] as usize + 256 * packet[5] as usize;
            if length + SYNC_BYTES <= BYTES_PER_PACKET && length + SYNC_BYTES + LENGTH_BYTES
                > BYTES_PER_PACKET {
                dropped = true;
            }
        }
        proof {
            if !(self.manager.model().waiting && packet@.subrange(0, SYNC_BYTES as int)
                == sync_marker()) {
                assert(!packet_dropped(packet@, m));
            }
        }
        if dropped {
            None
        } else {
            self.manager.update(packet)
        }
    }

    /// Feed one captured sample; returns a complete frame when this sample
    /// finishes one.
    #[verifier::rlimit(100)]
    pub fn process_sample(&mut self, sample: FP) -> (r: Option<Vec<u8>>)
        requires
            old(self).wf(),
        ensures
            final(self).wf(),
            final(self).detector_model() == detector_step(
                old(self).detector_model(),
                sample@,
            ).0,
            ({
                let emitted = detector_step(old(self).detector_model(), sample@).1;
                match emitted {
                    None => final(self).manager_model() == old(self).manager_model() && r is None,
                    Some(p) => {
                        let packet = bw_demodulate(p);
                        if packet_dropped(packet, old(self).manager_model()) {
                            final(self).manager_model() == old(self).manager_model() && r is None
                        } else {
                            final(self).manager_model() == fm_step(
                                old(self).manager_model(),
                                packet,
                            ).0 && (match r {
                                Some(f) => fm_step(old(self).manager_model(), packet).1 == Some(
                                    f@,
                                ),
                                None => fm_step(old(self).manager_model(), packet).1 is None,
                            })
                        }
                    },
                }
            }),
    {
        let emitted = self.detector.update(sample);
        match emitted {
            None => None,
            Some(payload) => {
                proof {
                    assert(payload@.len() == SAMPLES_PER_PACKET);
                    assert(fp_views(payload@).len() == payload@.len());
                    crate::modem::xbyb::lemma_packet_bytes_len(fp_views(payload@));
                    assert(bw_demodulate(fp_views(payload@)).len() == BYTES_PER_PACKET);
                }
                let packet = self.modem.demodulate(&payload);
                self.reassemble(&packet)
            },
        }
    }
}

// The sending node's compute path: a whole frame becomes the on-air sample
// stream of its packets, each behind one preamble chirp.
use crate::frame_manager::construct_packets;
use crate::modem::xbyb::bw_modulate;

/// The on-air stream of a sequence of packets: each packet's modulated
/// samples behind one preamble chirp, in order.
pub open spec fn stream_of_packets(pre: Seq<int>, packets: Seq<Seq<u8>>) -> Seq<int>
    decreases packets.len(),
{
    if packets.len() == 0 {
        Seq::empty()
    } else {
        (pre + bw_modulate(packets[0])) + stream_of_packets(pre, packets.drop_first())
    }
}

/// The complete on-air sample stream that carries one frame over the
/// line-coded modem: the frame is packetized, and every packet goes out as
/// one preamble chirp followed by its modulated samples.
pub fn frame_to_stream(preamble: &Vec<FP>, frame: &Vec<u8>) -> (r: Vec<FP>)
    requires
        1 <= frame@.len() <= 65535,
        frame@.len() + SYNC_BYTES + LENGTH_BYTES + BYTES_PER_PACKET <= usize::MAX,
    ensures
        fp_views(r@) == stream_of_packets(
            fp_views(preamble@),
            construct_packets(frame@, BYTES_PER_PACKET as int),
        ),
{
    let ghost pre = fp_views(preamble@);
    let ghost all = construct_packets(frame@, BYTES_PER_PACKET as int);
    let modem = BitWave::new(0);
    let packets = FrameManager::construct(frame, BYTES_PER_PACKET);
    proof {
        assert(packets@.len() == all.len());
    }
    let mut r: Vec<FP> = Vec::new();
    let mut k: usize = 0;
    proof {
        assert(all.skip(0) =~= all);
        assert(fp_views(r@) + stream_of_packets(pre, all) =~= stream_of_packets(pre, all));
    }
    while k < packets.len()
        invariant
            k <= packets@.len(),
            pre == fp_views(preamble@),
            all == construct_packets(frame@, BYTES_PER_PACKET as int),
            packets@.len() == all.len(),
            forall|j: int| 0 <= j < packets@.len() ==> #[trigger] packets@[j]@ == all[j],
            stream_of_packets(pre, all) == fp_views(r@) + stream_of_packets(pre, all.skip(k as int)),
        decreases packets.len() - k,
    {
        let burst = packet_to_samples(preamble, &modem.modulate(&packets[k]));
        let ghost r0 = r@;
        let mut t: usize = 0;
        while t < burst.len()
            invariant
                t <= burst@.len(),
                r@ == r0 + burst@.take(t as int),
            decreases burst.len() - t,
        {
            r.push(burst[t]);
            proof {
                assert(r@ =~= r0 + burst@.take(t + 1));
            }
            t = t + 1;
        }
        proof {
            assert(r@ =~= r0 + burst@);
            assert(fp_views(r@) =~= fp_views(r0) + fp_views(burst@));
            let rest = all.skip(k as int);
            assert(rest[0] == all[k as int]);
            assert(rest.drop_first() =~= all.skip(k + 1));
            assert(stream_of_packets(pre, rest) == (pre + bw_modulate(all[k as int]))
                + stream_of_packets(pre, all.skip(k + 1)));
            assert(fp_views(burst@) == pre + bw_modulate(all[k as int]));
            assert(fp_views(r@) + stream_of_packets(pre, all.skip(k + 1)) =~= fp_views(r0)
                + stream_of_packets(pre, rest));
        }
        k = k + 1;
    }
    proof {
        assert(all.skip(k as int).len() == 0);
        assert(stream_of_packets(pre, all.skip(k as int)) == Seq::<int>::empty());
        assert(fp_views(r@) + Seq::<int>::empty() =~= fp_views(r@));
    }
    r
}

} // verus!
