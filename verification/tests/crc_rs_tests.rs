use audio_network::corrupted::CrcWrapper;
use audio_network::corrector::ErrorCorrector;

const TEST_SEQUENCE_BYTES: usize = 1920;

#[test]
fn test_crc_wrapper() {
    let data: Vec<u8> = (0..TEST_SEQUENCE_BYTES).map(|_| rand::random::<u8>()).collect();

    let encoded = CrcWrapper::encode(&data);
    let decoded = CrcWrapper::decode(&encoded).unwrap();
    assert_eq!(data, decoded);
}

#[test]
fn test_crc_wrapper_corrupted() {
    let data: Vec<u8> = (0..TEST_SEQUENCE_BYTES).map(|_| rand::random::<u8>()).collect();

    let mut encoded = CrcWrapper::encode(&data);
    encoded[0] = encoded[0].wrapping_add(1);
    let decoded = CrcWrapper::decode(&encoded);
    assert!(decoded.is_none());
}

#[test]
fn crc_known_check_value() {
    // the catalogued check value of CRC-16/USB over the digits one to nine
    let data: Vec<u8> = b"123456789".to_vec();
    let encoded = CrcWrapper::encode(&data);
    assert_eq!(encoded.len(), data.len() + 2);
    assert_eq!(&encoded[data.len()..], &[0xB4, 0xC8]);
}

#[test]
fn crc_corrupted_checksum_byte() {
    let data: Vec<u8> = (0..10).map(|i| i as u8).collect();
    let mut encoded = CrcWrapper::encode(&data);
    let last = encoded.len() - 1;
    encoded[last] = encoded[last].wrapping_add(1);
    assert!(CrcWrapper::decode(&encoded).is_none());
}

#[test]
fn test_reed_solomon() {
    const DATA_BYTES: usize = 100;

    let data: Vec<u8> = (0..DATA_BYTES).map(|_| rand::random::<u8>()).collect();

    let mut encoded = ErrorCorrector::encode(&data);

    encoded[0] = 0;
    encoded[1] = 0;

    let mut decoded = ErrorCorrector::decode(&encoded);
    decoded.truncate(DATA_BYTES);

    assert_eq!(data, decoded);
}

#[test]
fn reed_solomon_parity_length() {
    let data: Vec<u8> = (0..60).map(|i| i as u8).collect();
    let encoded = ErrorCorrector::encode(&data);
    assert_eq!(encoded.len(), data.len() + 96);
    assert_eq!(&encoded[..data.len()], &data[..]);
}

#[test]
fn reed_solomon_full_block_roundtrip() {
    let data: Vec<u8> = (0..159).map(|_| rand::random::<u8>()).collect();
    let encoded = ErrorCorrector::encode(&data);
    assert_eq!(encoded.len(), 255);
    let decoded = ErrorCorrector::decode(&encoded);
    assert_eq!(decoded, data);
}
