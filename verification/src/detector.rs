//! Matched-filter frame detector: an online state machine fed one captured
//! sample at a time. It correlates a sliding window against the known chirp
//! preamble, locks onto the correlation peak, then collects the payload
//! samples that follow.

use vstd::prelude::*;
use crate::number::{FP, fp_add, fp_mul, fp_abs, fp_div, fp_of_int, fp_views};

verus! {

/// Number of samples of the preamble chirp, and of both sliding windows.
pub const PREAMBLE_LENGTH: usize = 480;

/// A correlation below this value never triggers detection.
pub const DETECT_THRESHOLD_MIN: usize = 20;

/// A correlation must exceed the average magnitude by this factor to trigger.
pub const DETECT_THRESHOLD_RATIO: usize = 5;

/// Phase of the detector.
#[derive(PartialEq, Eq, Structural, Clone, Copy, Debug)]
pub enum PacketDetectorState {
    /// Collecting the payload samples after a confirmed peak.
    Payload,
    /// A trigger fired on the previous sample; the next sample decides
    /// whether that sample was the peak.
    MaybePayload,
    /// Watching the correlation for a trigger.
    Waiting,
}

/// Saturating dot product of the first `n` positions of two raw-value
/// sequences, folded from the left.
pub open spec fn sat_dot(w: Seq<int>, p: Seq<int>, n: int) -> int
    decreases n,
{
    if n <= 0 {
        0
    } else {
        fp_add(sat_dot(w, p, n - 1), fp_mul(w[n - 1], p[n - 1]))
    }
}

/// Correlation of a window against the preamble: the dot product over the
/// part of the preamble the window covers.
pub open spec fn correlation_of(window: Seq<int>, preamble: Seq<int>) -> int {
    sat_dot(
        window,
        preamble,
        if window.len() <= preamble.len() {
            window.len() as int
        } else {
            preamble.len() as int
        },
    )
}

/// Saturating sum of the magnitudes of the first `n` values.
pub open spec fn sat_abs_sum(s: Seq<int>, n: int) -> int
    decreases n,
{
    if n <= 0 {
        0
    } else {
        fp_add(sat_abs_sum(s, n - 1), fp_abs(s[n - 1]))
    }
}

/// Push into a sliding window bounded by the preamble length.
pub open spec fn window_push(w: Seq<int>, v: int) -> Seq<int> {
    if w.len() == PREAMBLE_LENGTH {
        w.drop_first().push(v)
    } else {
        w.push(v)
    }
}

/// Mathematical state of a detector.
#[verifier::ext_equal]
pub struct DetectorModel {
    /// Raw values of the preamble being matched.
    pub preamble: Seq<int>,
    /// Raw values of the sliding sample window.
    pub window: Seq<int>,
    /// Raw values of the payload samples collected so far.
    pub payload: Seq<int>,
    /// History of recent correlations.
    pub correlations: Seq<int>,
    /// Phase of the machine.
    pub state: PacketDetectorState,
    /// Number of payload samples that complete a packet.
    pub capacity: int,
}

/// Internal consistency of a detector state.
pub open spec fn dm_wf(m: DetectorModel) -> bool {
    &&& m.preamble.len() == PREAMBLE_LENGTH
    &&& m.window.len() <= PREAMBLE_LENGTH
    &&& m.correlations.len() <= PREAMBLE_LENGTH
    &&& m.capacity >= 1
    &&& m.payload.len() <= m.capacity
    &&& (m.state is MaybePayload ==> m.correlations.len() >= 1)
    &&& (m.state is MaybePayload ==> m.payload.len() == 0)
    &&& (m.state is Payload ==> m.payload.len() < m.capacity)
}

/// State of a fresh detector.
pub open spec fn dm_init(preamble: Seq<int>, capacity: int) -> DetectorModel {
    DetectorModel {
        preamble,
        window: Seq::empty(),
        payload: Seq::empty(),
        correlations: Seq::empty(),
        state: PacketDetectorState::Waiting,
        capacity,
    }
}

/// One transition of the detector: the next state, and the payload emitted
/// when this sample completes a packet.
///
/// The sample first enters the sliding window. A tentative peak is resolved
/// by the new correlation: a rise re-arms the watch, a drop confirms the
/// previous sample as the peak. In the watching phase the correlation is
/// recorded and compared against both thresholds; while collecting, the
/// sample joins the payload until the packet is complete.
pub open spec fn detector_step(m: DetectorModel, sample: int) -> (DetectorModel, Option<Seq<int>>) {
    let w1 = window_push(m.window, sample);
    let resolved = if m.state is MaybePayload {
        if correlation_of(w1, m.preamble) > m.correlations.last() {
            PacketDetectorState::Waiting
        } else {
            PacketDetectorState::Payload
        }
    } else {
        m.state
    };
    if resolved is Waiting {
        let c = correlation_of(w1, m.preamble);
        let corr1 = window_push(m.correlations, c);
        let avg = fp_div(sat_abs_sum(corr1, corr1.len() as int), fp_of_int(PREAMBLE_LENGTH as int));
        let trigger = c > fp_of_int(DETECT_THRESHOLD_MIN as int) && c > fp_mul(
            avg,
            fp_of_int(DETECT_THRESHOLD_RATIO as int),
        );
        (
            DetectorModel {
                window: w1,
                correlations: corr1,
                state: if trigger {
                    PacketDetectorState::MaybePayload
                } else {
                    PacketDetectorState::Waiting
                },
                payload: if trigger {
                    Seq::empty()
                } else {
                    m.payload
                },
                ..m
            },
            None,
        )
    } else {
        let pay = m.payload.push(sample);
        if pay.len() == m.capacity {
            (
                DetectorModel {
                    window: w1,
                    payload: pay,
                    state: PacketDetectorState::Waiting,
                    ..m
                },
                Some(pay),
            )
        } else {
            (DetectorModel { window: w1, payload: pay, state: PacketDetectorState::Payload, ..m }, None)
        }
    }
}

/// The run of the detector over a sample stream: the final state and every
/// payload emitted, in order.
pub open spec fn detector_run(m: DetectorModel, samples: Seq<int>) -> (DetectorModel, Seq<Seq<int>>)
    decreases samples.len(),
{
    if samples.len() == 0 {
        (m, Seq::empty())
    } else {
        let stepped = detector_step(m, samples[0]);
        let rest = detector_run(stepped.0, samples.drop_first());
        (
            rest.0,
            match stepped.1 {
                Some(p) => seq![p] + rest.1,
                None => rest.1,
            },
        )
    }
}

/// Online detector of packets behind a chirp preamble.
pub struct PacketDetector {
    preamble: Vec<FP>,
    detect_buffer: Vec<FP>,
    payload_buffer: Vec<FP>,
    current_state: PacketDetectorState,
    correlation_buffer: Vec<FP>,
    payload_capacity: usize,
}

/// Saturating dot product of a window against a reference sequence.
pub fn correlation(window: &Vec<FP>, preamble: &Vec<FP>) -> (r: FP)
    requires
        window@.len() <= preamble@.len(),
    ensures
        r@ == correlation_of(fp_views(window@), fp_views(preamble@)),
{
    let mut acc = FP::zero();
    let mut i: usize = 0;
    while i < window.len()
        invariant
            i <= window.len(),
            window@.len() <= preamble@.len(),
            acc@ == sat_dot(fp_views(window@), fp_views(preamble@), i as int),
        decreases window.len() - i,
    {
        acc = acc.add(window[i].mul(preamble[i]));
        i = i + 1;
    }
    acc
}

impl PacketDetector {
    /// The mathematical state this detector is in.
    pub closed spec fn model(&self) -> DetectorModel {
        DetectorModel {
            preamble: fp_views(self.preamble@),
            window: fp_views(self.detect_buffer@),
            payload: fp_views(self.payload_buffer@),
            correlations: fp_views(self.correlation_buffer@),
            state: self.current_state,
            capacity: self.payload_capacity as int,
        }
    }

    /// Internal consistency of the detector.
    pub open spec fn wf(&self) -> bool {
        dm_wf(self.model())
    }

    /// A fresh detector for a given preamble and payload size.
    pub fn new(preamble: Vec<FP>, payload_capacity: usize) -> (r: PacketDetector)
        requires
            preamble@.len() == PREAMBLE_LENGTH,
            payload_capacity >= 1,
        ensures
            r.wf(),
            r.model() == dm_init(fp_views(preamble@), payload_capacity as int),
    {
        let r = PacketDetector {
            preamble,
            detect_buffer: Vec::new(),
            payload_buffer: Vec::new(),
            current_state: PacketDetectorState::Waiting,
            correlation_buffer: Vec::new(),
            payload_capacity,
        };
        proof {
            assert(r.model() =~= dm_init(fp_views(r.preamble@), payload_capacity as int));
        }
        r
    }

    /// Feed one captured sample; returns the collected payload samples when
    /// this sample completes a packet.
    pub fn update(&mut self, sample: FP) -> (r: Option<Vec<FP>>)
        requires
            old(self).wf(),
        ensures
            final(self).wf(),
            final(self).model() == detector_step(old(self).model(), sample@).0,
            match r {
                Some(p) => detector_step(old(self).model(), sample@).1 == Some(fp_views(p@)),
                None => detector_step(old(self).model(), sample@).1 is None,
            },
    {
        let ghost m0 = self.model();
        if self.detect_buffer.len() == PREAMBLE_LENGTH {
            self.detect_buffer.remove(0);
        }
        self.detect_buffer.push(sample);
        proof {
            assert(fp_views(self.detect_buffer@) =~= window_push(m0.window, sample@));
        }
        let ghost w1 = fp_views(self.detect_buffer@);
        if matches!(self.current_state, PacketDetectorState::MaybePayload) {
            let c = correlation(&self.detect_buffer, &self.preamble);
            let peak = self.correlation_buffer[self.correlation_buffer.len() - 1];
            proof {
                assert(peak@ == m0.correlations.last());
            }
            if c.gt(peak) {
                self.current_state = PacketDetectorState::Waiting;
            } else {
                self.current_state = PacketDetectorState::Payload;
            }
        }
        match self.current_state {
            PacketDetectorState::Waiting => {
                let c = correlation(&self.detect_buffer, &self.preamble);
                if self.correlation_buffer.len() == PREAMBLE_LENGTH {
                    self.correlation_buffer.remove(0);
                }
                self.correlation_buffer.push(c);
                proof {
                    assert(fp_views(self.correlation_buffer@) =~= window_push(
                        m0.correlations,
                        c@,
                    ));
                }
                let mut sum = FP::zero();
                let mut i: usize = 0;
                while i < self.correlation_buffer.len()
                    invariant
                        i <= self.correlation_buffer@.len(),
                        sum@ == sat_abs_sum(fp_views(self.correlation_buffer@), i as int),
                    decreases self.correlation_buffer@.len() - i,
                {
                    sum = sum.add(self.correlation_buffer[i].abs());
                    i = i + 1;
                }
                let average = sum.div(FP::from_usize(PREAMBLE_LENGTH));
                if c.gt(FP::from_usize(DETECT_THRESHOLD_MIN)) && c.gt(
                    average.mul(FP::from_usize(DETECT_THRESHOLD_RATIO)),
                ) {
                    self.current_state = PacketDetectorState::MaybePayload;
                    self.payload_buffer.clear();
                }
                proof {
                    assert(fp_views(Seq::<FP>::empty()) =~= Seq::<int>::empty());
                    assert(self.model() =~= detector_step(m0, sample@).0);
                }
                None
            },
            PacketDetectorState::Payload => {
                self.payload_buffer.push(sample);
                proof {
                    assert(fp_views(self.payload_buffer@) =~= m0.payload.push(sample@));
                }
                if self.payload_buffer.len() == self.payload_capacity {
                    self.current_state = PacketDetectorState::Waiting;
                    let mut out: Vec<FP> = Vec::new();
                    let mut k: usize = 0;
                    while k < self.payload_buffer.len()
                        invariant
                            k <= self.payload_buffer@.len(),
                            out@ == self.payload_buffer@.take(k as int),
                        decreases self.payload_buffer@.len() - k,
                    {
                        out.push(self.payload_buffer[k]);
                        proof {
                            assert(out@ =~= self.payload_buffer@.take(k + 1));
                        }
                        k = k + 1;
                    }
                    proof {
                        assert(out@ =~= self.payload_buffer@);
                        assert(self.model() =~= detector_step(m0, sample@).0);
                    }
                    Some(out)
                } else {
                    proof {
                        assert(self.model() =~= detector_step(m0, sample@).0);
                    }
                    None
                }
            },
            PacketDetectorState::MaybePayload => {
                proof {
                    assert(false);
                }
                None
            },
        }
    }
}

/// From the start of payload collection, the next `capacity` samples are
/// gathered and emitted exactly once, exactly in order, and the detector
/// returns to the waiting state.
pub proof fn lemma_payload_collection(m: DetectorModel, samples: Seq<int>)
    requires
        dm_wf(m),
        m.state is Payload,
        samples.len() == m.capacity - m.payload.len(),
    ensures
        detector_run(m, samples).1 == seq![m.payload + samples],
        detector_run(m, samples).0.state is Waiting,
    decreases samples.len(),
{
    let stepped = detector_step(m, samples[0]);
    let pay = m.payload.push(samples[0]);
    if pay.len() == m.capacity {
        assert(samples.len() == 1);
        assert(stepped.1 == Some(pay));
        assert(detector_run(stepped.0, samples.drop_first()).1 == Seq::<Seq<int>>::empty());
        assert(pay =~= m.payload + samples);
        assert(detector_run(m, samples).1 =~= seq![m.payload + samples]);
    } else {
        assert(stepped.0.state is Payload);
        assert(dm_wf(stepped.0));
        lemma_payload_collection(stepped.0, samples.drop_first());
        assert(pay + samples.drop_first() =~= m.payload + samples);
        assert(detector_run(m, samples).1 == detector_run(stepped.0, samples.drop_first()).1);
        assert(detector_run(m, samples).1 =~= seq![m.payload + samples]);
    }
}

} // verus!
