//! The frame detector used by the wired-link build of the node: the same
//! matched-filter machine as the packet detector, under the frame naming.

use vstd::prelude::*;
use crate::number::{FP, fp_views};
use crate::detector::{PacketDetector, DetectorModel, detector_step, dm_init, PREAMBLE_LENGTH};

verus! {

/// Phase of the frame detector.
#[derive(PartialEq, Eq, Structural, Clone, Copy, Debug)]
pub enum FrameDetectorState {
    /// Collecting the payload samples after a confirmed peak.
    Payload,
    /// A trigger fired on the previous sample; the next sample decides.
    MaybePayload,
    /// Watching the correlation for a trigger.
    Waiting,
}

/// Online detector of frames behind a chirp preamble.
pub struct FrameDetector {
    inner: PacketDetector,
}

impl FrameDetector {
    /// The mathematical state this detector is in.
    pub closed spec fn model(&self) -> DetectorModel {
        self.inner.model()
    }

    /// Internal consistency of the detector.
    pub open spec fn wf(&self) -> bool {
        crate::detector::dm_wf(self.model())
    }

    /// A fresh detector for a given preamble and payload size.
    pub fn new(preamble: Vec<FP>, payload_capacity: usize) -> (r: FrameDetector)
        requires
            preamble@.len() == PREAMBLE_LENGTH,
            payload_capacity >= 1,
        ensures
            r.wf(),
            r.model() == dm_init(fp_views(preamble@), payload_capacity as int),
    {
        FrameDetector { inner: PacketDetector::new(preamble, payload_capacity) }
    }

    /// Feed one captured sample; returns the collected payload samples when
    /// this sample completes a frame.
    pub fn update(&mut self, sample: FP) -> (r: Option<Vec<FP>>)
        requires
            old(self).wf(),
        ensures
            final(self).wf(),
            final(self).model() == detector_step(old(self).model(), sample@).0,
            match r {
                Some(p) => detector_step(old(self).model(), sample@).1 == Some(fp_views(p@)),
                None => detector_step(old(self).model(), sample@).1 is None,
            },
    {
        self.inner.update(sample)
    }
}

} // verus!
