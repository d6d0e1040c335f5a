use audio_network::frame_manager::FrameManager;

const BITWAVE_PACKET_BYTES: usize = 100;
const OFDM_PACKET_BYTES: usize = 48;
const TEST_EXTRA_BYTES: usize = 37;
const TEST_REDUCE_BYTES: usize = 17;

#[test]
fn test_frame_manager_inexact() {
    let packet_length = BITWAVE_PACKET_BYTES;
    let mut frame_manager = FrameManager::new(packet_length);

    let origin: Vec<u8> = (0..packet_length * 20 + TEST_EXTRA_BYTES)
        .map(|index| index as u8)
        .collect();

    let packets = FrameManager::construct(&origin, packet_length);

    for packet in packets {
        if let Some(frame) = frame_manager.update(&packet) {
            assert_eq!(origin, frame);
            return;
        }
    }

    unreachable!("Must be able to get frame response!");
}

#[test]
fn test_frame_manager_small_size() {
    let packet_length = OFDM_PACKET_BYTES;
    let mut frame_manager = FrameManager::new(packet_length);

    let origin: Vec<u8> = (0..packet_length - TEST_REDUCE_BYTES)
        .map(|index| index as u8 % 7)
        .collect();

    let packets = FrameManager::construct(&origin, packet_length);

    for packet in packets {
        if let Some(frame) = frame_manager.update(&packet) {
            assert_eq!(origin, frame);
        }
    }

    let origin: Vec<u8> = (0..packet_length - TEST_REDUCE_BYTES + 2)
        .map(|index| index as u8 % 8)
        .collect();

    let packets = FrameManager::construct(&origin, packet_length);

    for packet in packets {
        if let Some(frame) = frame_manager.update(&packet) {
            assert_eq!(origin, frame);
            return;
        }
    }

    unreachable!("Must be able to get frame response!");
}

#[test]
fn frame_fills_one_packet_exactly() {
    // a frame of packet size less the six header bytes fits in one packet
    // and emerges from the waiting state directly
    let packet_length = OFDM_PACKET_BYTES;
    let frame: Vec<u8> = (0..packet_length - 6).map(|i| i as u8).collect();
    let packets = FrameManager::construct(&frame, packet_length);
    assert_eq!(packets.len(), 1);

    let mut manager = FrameManager::new(packet_length);
    let emitted = manager.update(&packets[0]);
    assert_eq!(emitted, Some(frame));
}

#[test]
fn frame_one_byte_over_needs_two_packets() {
    let packet_length = OFDM_PACKET_BYTES;
    let frame: Vec<u8> = (0..packet_length - 6 + 1).map(|i| i as u8).collect();
    let packets = FrameManager::construct(&frame, packet_length);
    assert_eq!(packets.len(), 2);
}

#[test]
fn packet_without_sync_marker_is_dropped() {
    let packet_length = OFDM_PACKET_BYTES;
    let mut manager = FrameManager::new(packet_length);
    let garbage: Vec<u8> = (0..packet_length).map(|i| (i as u8).wrapping_mul(7)).collect();
    assert!(manager.update(&garbage).is_none());

    // a real frame still gets through afterwards
    let frame: Vec<u8> = (0..30).map(|i| i as u8).collect();
    let packets = FrameManager::construct(&frame, packet_length);
    assert_eq!(manager.update(&packets[0]), Some(frame));
}

#[test]
fn long_frame_reassembles_across_many_packets() {
    let packet_length = BITWAVE_PACKET_BYTES;
    let frame: Vec<u8> = (0..65535).map(|i| (i % 251) as u8).collect();
    let packets = FrameManager::construct(&frame, packet_length);
    let mut manager = FrameManager::new(packet_length);
    let mut emitted = Vec::new();
    for packet in &packets {
        if let Some(f) = manager.update(packet) {
            emitted.push(f);
        }
    }
    assert_eq!(emitted.len(), 1);
    assert_eq!(emitted[0], frame);
}
