use audio_network::detector::PacketDetector;
use audio_network::frame_manager::FrameManager;
use audio_network::modem::xbyb::BitWave;
use audio_network::node::{frame_to_stream, ReceiverPipeline};
use audio_network::frame::FrameDetector;
use audio_network::node::AveragePower;
use audio_network::number::FP;
use audio_network::preamble::PreambleSequence;

const SAMPLE_RATE: usize = 48000;
const FREQ_MIN: usize = 900;
const FREQ_MAX: usize = 3000;
const PAYLOAD_CAPACITY: usize = 100;

fn fp_of(x: f64) -> FP {
    FP::from_bits((x * 4294967296.0) as i64)
}

fn to_f64(x: FP) -> f64 {
    x.to_bits() as f64 / 4294967296.0
}

/// A small deterministic generator for reproducible noise.
struct Lcg(u64);

impl Lcg {
    fn next_unit(&mut self) -> f64 {
        self.0 = self.0.wrapping_mul(6364136223846793005).wrapping_add(1442695040888963407);
        (self.0 >> 11) as f64 / (1u64 << 53) as f64
    }
}

#[test]
fn preamble_is_a_bounded_chirp() {
    let preamble = PreambleSequence::new(SAMPLE_RATE, FREQ_MIN, FREQ_MAX);
    assert_eq!(preamble.len(), 480);
    for &s in preamble.iter() {
        let v = to_f64(s);
        assert!(v.abs() <= 1.01, "sample out of range: {}", v);
    }
    // the first sample is the sine of the first accumulated phase step
    let expected = (2.0 * std::f64::consts::PI * (FREQ_MIN as f64) / (SAMPLE_RATE as f64)).sin();
    let got = to_f64(preamble[0]);
    assert!((got - expected).abs() < 1e-3, "first sample {} vs {}", got, expected);
}

fn run_detection(noise_amplitude: f64) {
    let preamble = PreambleSequence::new(SAMPLE_RATE, FREQ_MIN, FREQ_MAX);
    let mut detector = PacketDetector::new(preamble.clone(), PAYLOAD_CAPACITY);

    let mut lcg = Lcg(7);
    let mut stream: Vec<FP> = Vec::new();
    for _ in 0..480 {
        stream.push(fp_of(lcg.next_unit() * noise_amplitude));
    }
    for &p in preamble.iter() {
        stream.push(p.add(fp_of(lcg.next_unit() * noise_amplitude)));
    }
    let mut payload_sent: Vec<FP> = Vec::new();
    for _ in 0..PAYLOAD_CAPACITY {
        payload_sent.push(fp_of(0.4 * (lcg.next_unit() - 0.5) + lcg.next_unit() * noise_amplitude));
    }
    for &p in payload_sent.iter() {
        stream.push(p);
    }

    let mut emissions: Vec<Vec<FP>> = Vec::new();
    let mut positions: Vec<usize> = Vec::new();
    for (pos, &s) in stream.iter().enumerate() {
        if let Some(payload) = detector.update(s) {
            emissions.push(payload);
            positions.push(pos);
        }
    }
    // the correlation peak of the true preamble triggers collection, so the
    // last emission ends with the stream and holds exactly the payload;
    // earlier spurious triggers are the ones the checksum layer later drops
    assert!(!emissions.is_empty(), "the true preamble did not trigger");
    let last = emissions.len() - 1;
    assert_eq!(positions[last], stream.len() - 1, "collection did not end at the payload");
    assert_eq!(emissions[last].len(), PAYLOAD_CAPACITY);
    for (got, sent) in emissions[last].iter().zip(payload_sent.iter()) {
        assert_eq!(got.to_bits(), sent.to_bits());
    }
}

#[test]
fn detector_emits_payload_after_preamble() {
    run_detection(0.0);
}

#[test]
fn detector_triggers_through_half_amplitude_noise() {
    run_detection(0.5);
}

#[test]
fn frame_detector_mirrors_packet_detector() {
    let preamble = PreambleSequence::new(SAMPLE_RATE, FREQ_MIN, FREQ_MAX);
    let mut frame_detector = FrameDetector::new(preamble.clone(), 10);
    let mut packet_detector = PacketDetector::new(preamble.clone(), 10);

    let mut lcg = Lcg(3);
    let mut stream: Vec<FP> = Vec::new();
    for _ in 0..480 {
        stream.push(fp_of(lcg.next_unit() * 0.2));
    }
    for &p in preamble.iter() {
        stream.push(p);
    }
    for _ in 0..10 {
        stream.push(fp_of(0.1));
    }

    for &s in stream.iter() {
        let a = frame_detector.update(s);
        let b = packet_detector.update(s);
        match (a, b) {
            (None, None) => {},
            (Some(x), Some(y)) => {
                assert_eq!(x.len(), y.len());
                for (u, v) in x.iter().zip(y.iter()) {
                    assert_eq!(u.to_bits(), v.to_bits());
                }
            },
            _ => panic!("the two detectors disagreed"),
        }
    }
}

#[test]
fn average_power_tracks_signal() {
    let mut power = AveragePower::new();
    // full power at start counts as colliding
    assert!(power.colliding());
    // a long run of silence decays the estimate below the threshold
    for _ in 0..200 {
        power.update(FP::zero());
    }
    assert!(!power.colliding());
    // a loud sample brings it right back up
    power.update(fp_of(0.5));
    assert!(power.colliding());
}

#[test]
fn receiver_pipeline_recovers_a_frame() {
    let preamble = PreambleSequence::new(SAMPLE_RATE, FREQ_MIN, FREQ_MAX);
    let mut pipeline = ReceiverPipeline::new(preamble.clone());

    let frame: Vec<u8> = (0..60).map(|i| (i * 3) as u8).collect();
    let packets = FrameManager::construct(&frame, 100);
    assert_eq!(packets.len(), 1);
    let modem = BitWave::new(0);

    // silence, then the same transmission a few times over: a spurious
    // trigger may swallow the first copy, later copies are locked cleanly
    let mut lcg = Lcg(11);
    let mut stream: Vec<FP> = Vec::new();
    for _ in 0..480 {
        stream.push(fp_of(lcg.next_unit() * 0.05));
    }
    for _ in 0..3 {
        for &p in preamble.iter() {
            stream.push(p);
        }
        for &s in modem.modulate(&packets[0]).iter() {
            stream.push(s);
        }
    }

    let mut recovered: Vec<Vec<u8>> = Vec::new();
    for &s in stream.iter() {
        if let Some(f) = pipeline.process_sample(s) {
            recovered.push(f);
        }
    }
    assert!(!recovered.is_empty(), "no frame came out of the pipeline");
    for f in recovered.iter() {
        assert_eq!(*f, frame);
    }
}

#[test]
fn sender_stream_feeds_receiver_pipeline() {
    let preamble = PreambleSequence::new(SAMPLE_RATE, FREQ_MIN, FREQ_MAX);
    let mut pipeline = ReceiverPipeline::new(preamble.clone());

    // a frame that needs two packets
    let frame: Vec<u8> = (0..150).map(|i| (i * 5) as u8).collect();
    let burst = frame_to_stream(&preamble, &frame);
    assert_eq!(burst.len(), 2 * (480 + 2400));

    let mut lcg = Lcg(23);
    let mut stream: Vec<FP> = Vec::new();
    for _ in 0..480 {
        stream.push(fp_of(lcg.next_unit() * 0.05));
    }
    for _ in 0..3 {
        for &s in burst.iter() {
            stream.push(s);
        }
    }

    let mut recovered: Vec<Vec<u8>> = Vec::new();
    for &s in stream.iter() {
        if let Some(f) = pipeline.process_sample(s) {
            recovered.push(f);
        }
    }
    assert!(!recovered.is_empty(), "no frame came out of the pipeline");
    for f in recovered.iter() {
        assert_eq!(*f, frame);
    }
}
