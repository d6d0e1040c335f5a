use audio_network::modem::BitByteConverter;
use audio_network::modem::psk::Psk;
use audio_network::modem::xbyb::BitWave;
use audio_network::number::FP;

const SAMPLE_RATE: usize = 48000;

fn fp_of(x: f64) -> FP {
    FP::from_bits((x * 4294967296.0) as i64)
}

fn add_noise(samples: &mut Vec<FP>) {
    for sample in samples.iter_mut() {
        *sample = sample.add(fp_of(rand::random::<f32>() as f64).div(fp_of(2.0)));
    }
}

#[test]
fn test_bit_byte_converter() {
    let bytes = vec![0x01, 0x02];
    let bits = vec![1, 0, 0, 0, 0, 0, 0, 0, 0, 1, 0, 0, 0, 0, 0, 0];

    let short_bits = vec![1, 0, 1, 1];
    let short_bytes = vec![0x0D];

    assert_eq!(BitByteConverter::bytes_to_bits(&bytes), bits);
    assert_eq!(BitByteConverter::bits_to_bytes(&bits), bytes);
    assert_eq!(BitByteConverter::bits_to_bytes(&short_bits), short_bytes);
}

#[test]
fn bit_byte_random_roundtrip() {
    let data: Vec<u8> = (0..257).map(|_| rand::random::<u8>()).collect();
    let bits = BitByteConverter::bytes_to_bits(&data);
    assert_eq!(bits.len(), data.len() * 8);
    assert_eq!(BitByteConverter::bits_to_bytes(&bits), data);
}

#[test]
fn test_psk() {
    let data: Vec<u8> = (0..1).map(|_| rand::random::<u8>()).collect();

    let psk = Psk::new(SAMPLE_RATE);

    let mut modulated = psk.modulate(&data);
    add_noise(&mut modulated);

    let demodulated = psk.demodulate(&modulated);

    assert_eq!(data, demodulated);
}

#[test]
fn psk_loopback_hundred_bytes() {
    let data: Vec<u8> = (0..100).map(|_| rand::random::<u8>()).collect();

    let psk = Psk::new(SAMPLE_RATE);

    let mut modulated = psk.modulate(&data);
    add_noise(&mut modulated);

    let demodulated = psk.demodulate(&modulated);

    assert_eq!(data, demodulated);
}

#[test]
fn psk_noiseless_roundtrip() {
    let data: Vec<u8> = (0..32).map(|i| (i * 37) as u8).collect();
    let psk = Psk::new(SAMPLE_RATE);
    let modulated = psk.modulate(&data);
    assert_eq!(modulated.len(), data.len() * 8 * (SAMPLE_RATE / 1000));
    assert_eq!(psk.demodulate(&modulated), data);
}

#[test]
fn test_bitwave() {
    let data: Vec<u8> = (0..120).map(|_| rand::random::<u8>()).collect();

    let bitwave = BitWave::new(0);

    let mut modulated = bitwave.modulate(&data);

    println!("Modulated data samples: {:?}", modulated.len());

    add_noise(&mut modulated);

    let demodulated = bitwave.demodulate(&modulated);

    assert_eq!(data, demodulated);
}

#[test]
fn bitwave_packet_roundtrip() {
    let data: Vec<u8> = (0..100).map(|_| rand::random::<u8>()).collect();

    let bitwave = BitWave::new(0);

    let mut modulated = bitwave.modulate(&data);
    assert_eq!(modulated.len(), 2400);
    add_noise(&mut modulated);

    let demodulated = bitwave.demodulate(&modulated);

    assert_eq!(data, demodulated);
}

#[test]
fn bitwave_noiseless_multiple_packets() {
    let data: Vec<u8> = (0..300).map(|i| i as u8).collect();
    let bitwave = BitWave::new(0);
    let modulated = bitwave.modulate(&data);
    assert_eq!(modulated.len(), 24 * data.len());
    assert_eq!(bitwave.demodulate(&modulated), data);
}

#[test]
fn sine_behaves_like_sine() {
    // zero stays essentially zero, a quarter period reaches one
    assert!(FP::zero().sin().to_bits().abs() < 1 << 10);
    let half_pi = FP::pi().div(fp_of(2.0));
    let one_bits = 1i64 << 32;
    let s = half_pi.sin().to_bits();
    assert!((s - one_bits).abs() < (1 << 22), "sin(pi/2) was {}", s);
}

#[test]
fn gray_code_three_bits() {
    let table = Psk::gray_code(3);
    let expected: Vec<Vec<u8>> = vec![
        vec![0, 0, 0],
        vec![0, 0, 1],
        vec![0, 1, 1],
        vec![0, 1, 0],
        vec![1, 1, 0],
        vec![1, 1, 1],
        vec![1, 0, 1],
        vec![1, 0, 0],
    ];
    assert_eq!(table, expected);
    // adjacent codewords differ in exactly one bit
    for w in table.windows(2) {
        let differing = w[0].iter().zip(w[1].iter()).filter(|(a, b)| a != b).count();
        assert_eq!(differing, 1);
    }
}
