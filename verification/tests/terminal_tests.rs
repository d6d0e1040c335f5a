use audio_network::corrupted::CrcWrapper;
use audio_network::terminal::{
    AckPayload, MacAddress, ReceiveAction, SendAction, SendEvent, TerminalDataFrame,
    contains_sequence, make_ack_frame, make_data_frame, process_received, retry_decision,
    VALID_PACKET_BYTES,
};

#[test]
fn frame_serialization_roundtrip() {
    let source = MacAddress::new([0x00, 0x01]);
    let destination = MacAddress::new([0x00, 0x02]);
    let payload: Vec<u8> = (0..VALID_PACKET_BYTES).map(|i| i as u8).collect();
    let frame = TerminalDataFrame::new(source, destination, 0xDEADBEEF, &payload);

    let bytes = frame.to_bytes();
    assert_eq!(bytes.len(), 46);
    assert_eq!(&bytes[..2], &[0x00, 0x01]);
    assert_eq!(&bytes[2..4], &[0x00, 0x02]);
    assert_eq!(&bytes[4..8], &[0xDE, 0xAD, 0xBE, 0xEF]);

    let parsed = TerminalDataFrame::from_bytes(&bytes).unwrap();
    assert_eq!(parsed.sequence, 0xDEADBEEF);
    assert_eq!(parsed.payload, payload);
    assert_eq!(parsed.to_bytes(), bytes);
}

#[test]
fn from_bytes_rejects_wrong_length() {
    let short: Vec<u8> = vec![0; 45];
    let long: Vec<u8> = vec![0; 47];
    assert!(TerminalDataFrame::from_bytes(&short).is_none());
    assert!(TerminalDataFrame::from_bytes(&long).is_none());
}

#[test]
fn ack_payload_shape() {
    let payload = AckPayload::create();
    assert_eq!(payload.len(), VALID_PACKET_BYTES);
    assert_eq!(&payload[..6], &[0x11, 0x45, 0x14, 0x19, 0x19, 0x81]);

    let frame = make_ack_frame(MacAddress::new([0, 1]), MacAddress::new([0, 2]), 9);
    assert!(AckPayload::validate(&frame));

    let data: Vec<u8> = (1..=VALID_PACKET_BYTES as u8).collect();
    let user = make_data_frame(MacAddress::new([0, 1]), MacAddress::new([0, 2]), 9, &data);
    assert!(!AckPayload::validate(&user));
}

#[test]
fn data_frame_pads_short_chunks() {
    let data: Vec<u8> = vec![7, 8, 9];
    let frame = make_data_frame(MacAddress::new([0, 1]), MacAddress::new([0, 2]), 3, &data);
    assert_eq!(frame.payload.len(), VALID_PACKET_BYTES);
    assert_eq!(&frame.payload[..3], &[7, 8, 9]);
    assert!(frame.payload[3..].iter().all(|&b| b == 0));
}

#[test]
fn receive_path_cases() {
    let local1 = MacAddress::new([0x00, 0x01]);
    let local2 = MacAddress::new([0x00, 0x02]);
    let data: Vec<u8> = (0..VALID_PACKET_BYTES).map(|_| rand::random::<u8>()).collect();
    let frame = make_data_frame(local1, local2, 5, &data);
    let encoded = CrcWrapper::encode(&frame.to_bytes());

    // a fresh receiver delivers the frame and acknowledges it
    let seen: Vec<u32> = Vec::new();
    match process_received(local2, &encoded, &seen) {
        ReceiveAction::Deliver { frame, ack_sequence, .. } => {
            assert_eq!(frame.sequence, 5);
            assert_eq!(frame.payload, data);
            assert_eq!(ack_sequence, 5);
        },
        _ => panic!("expected delivery"),
    }

    // the same sequence again is only acknowledged
    let seen = vec![5u32];
    assert!(matches!(
        process_received(local2, &encoded, &seen),
        ReceiveAction::AckOnly { ack_sequence: 5, .. }
    ));

    // a frame for some other terminal is ignored
    let other = MacAddress::new([0x77, 0x77]);
    let seen: Vec<u32> = Vec::new();
    assert!(matches!(process_received(other, &encoded, &seen), ReceiveAction::Ignore));

    // a corrupted frame is ignored
    let mut tampered = encoded.clone();
    tampered[10] = tampered[10].wrapping_add(1);
    assert!(matches!(process_received(local2, &tampered, &seen), ReceiveAction::Ignore));

    // an ACK frame records its sequence
    let ack = make_ack_frame(local2, local1, 5);
    let ack_encoded = CrcWrapper::encode(&ack.to_bytes());
    assert!(matches!(
        process_received(local1, &ack_encoded, &seen),
        ReceiveAction::RecordAck { sequence: 5 }
    ));
}

#[test]
fn retry_decision_cases() {
    let acks = vec![1u32, 4u32];
    assert!(matches!(retry_decision(&acks, 4, SendEvent::Tick), SendAction::Done));
    assert!(matches!(retry_decision(&acks, 2, SendEvent::Tick), SendAction::Resend));
    assert!(matches!(retry_decision(&acks, 4, SendEvent::Timeout), SendAction::Fail));
    assert!(contains_sequence(&acks, 1));
    assert!(!contains_sequence(&acks, 3));
}

#[test]
fn mac_round_trip() {
    const TEST_SEQUENCE_BYTES: usize = 6250;
    let local1 = MacAddress::new([0x00, 0x01]);
    let local2 = MacAddress::new([0x00, 0x02]);

    let test_data: Vec<u8> = (0..TEST_SEQUENCE_BYTES).map(|_| rand::random::<u8>()).collect();

    let mut sequence: u32 = 0;
    let mut on_air: Vec<Vec<u8>> = Vec::new();
    for chunk in test_data.chunks(VALID_PACKET_BYTES) {
        let frame = make_data_frame(local1, local2, sequence, &chunk.to_vec());
        sequence += 1;
        on_air.push(CrcWrapper::encode(&frame.to_bytes()));
    }

    // deliver twice in a scrambled order; the receiver dedups by sequence
    let mut received: Vec<TerminalDataFrame> = Vec::new();
    let mut received_sequences: Vec<u32> = Vec::new();
    let mut acks_seen_by_sender: Vec<u32> = Vec::new();
    for round in 0..2 {
        for (i, bytes) in on_air.iter().enumerate() {
            if round == 0 && i % 3 == 0 {
                continue;  // drop some frames on the first pass
            }
            match process_received(local2, bytes, &received_sequences) {
                ReceiveAction::Deliver { frame, ack_sequence, ack_destination } => {
                    received_sequences.push(frame.sequence);
                    received.push(frame);
                    let ack = make_ack_frame(local2, ack_destination, ack_sequence);
                    let ack_bytes = CrcWrapper::encode(&ack.to_bytes());
                    match process_received(local1, &ack_bytes, &Vec::new()) {
                        ReceiveAction::RecordAck { sequence } => {
                            acks_seen_by_sender.push(sequence);
                        },
                        _ => panic!("the sender did not see the ACK"),
                    }
                },
                ReceiveAction::AckOnly { .. } => {},
                other => {
                    let _ = other;
                    panic!("unexpected receive action");
                },
            }
        }
    }

    received.sort_by(|a, b| a.sequence.cmp(&b.sequence));
    let mut result: Vec<u8> = received.iter().flat_map(|f| f.payload.clone()).collect();
    result.truncate(TEST_SEQUENCE_BYTES);

    assert_eq!(result, test_data);
    for s in 0..sequence {
        assert!(acks_seen_by_sender.contains(&s));
    }
}
