//! The checksum and the wire frame.

use bot_hub::crc::Crc8;
use bot_hub::msg::Netmessage;
use bot_hub::wire::{decode_frame, FrameError, FrameStep, Message};

fn checksum(bytes: &[u8]) -> u8 {
    let mut c = Crc8::new();
    for b in bytes {
        c.add_byte(*b);
    }
    c.finish()
}

#[test]
fn crc_of_zero_bytes_is_zero() {
    assert_eq!(checksum(&[0, 0]), 0);
    assert_eq!(checksum(&[]), 0);
}

#[test]
fn crc_exact_value() {
    // The length byte 0 followed by the single payload byte `A`.
    assert_eq!(checksum(&[0, 65]), 192);
}

#[test]
fn crc_is_deterministic() {
    let data = [3u8, 141, 59, 26, 214];
    assert_eq!(checksum(&data), checksum(&data));
}

#[test]
fn crc_changes_on_flipped_bit() {
    let data = [3u8, 141, 59, 26, 214];
    let mut flipped = data;
    flipped[2] ^= 0x10;
    assert_ne!(checksum(&data), checksum(&flipped));
}

#[test]
fn frame_exact_bytes() {
    let mut m = Message::new();
    m.append(&[65]);
    let frame = m.finish().unwrap();
    assert_eq!(frame, vec![0x80, 0x25, 0x23, 0x2E, 192, 0, 65]);
}

#[test]
fn empty_payload_is_rejected() {
    let m = Message::new();
    assert_eq!(m.finish(), Err(FrameError::PayloadEmpty));
}

#[test]
fn oversized_payload_is_rejected() {
    let mut m = Message::new();
    m.append(&[7u8; 257]);
    assert_eq!(m.finish(), Err(FrameError::PayloadTooLarge));
}

#[test]
fn largest_payload_is_accepted() {
    let mut m = Message::new();
    m.append(&[7u8; 256]);
    let frame = m.finish().unwrap();
    assert_eq!(frame.len(), 6 + 256);
    assert_eq!(frame[5], 255);
}

#[test]
fn frame_decodes_back_to_its_payload() {
    let payload = [1u8, 2, 3, 4, 5];
    let mut m = Message::new();
    m.append(&payload);
    let frame = m.finish().unwrap();
    match decode_frame(&frame) {
        FrameStep::Ready {
            payload: got,
            used,
        } => {
            assert_eq!(got, payload.to_vec());
            assert_eq!(used, frame.len());
        }
        _ => panic!("expected a complete frame"),
    }
}

#[test]
fn corrupt_frame_is_dropped_whole() {
    let mut m = Message::new();
    m.append(&[1, 2, 3, 4, 5]);
    let mut frame = m.finish().unwrap();
    // Flip one payload bit: the stored checksum no longer matches.
    frame[8] ^= 0x01;
    match decode_frame(&frame) {
        FrameStep::Bad {
            skip,
        } => assert_eq!(skip, frame.len()),
        _ => panic!("expected the corrupt frame to be dropped"),
    }
}

#[test]
fn bad_magic_resynchronises_one_byte() {
    let bytes = [0x13u8, 0x80, 0x25, 0x23, 0x2E];
    match decode_frame(&bytes) {
        FrameStep::Bad {
            skip,
        } => assert_eq!(skip, 1),
        _ => panic!("expected a one-byte resync"),
    }
}

#[test]
fn short_frame_asks_for_more() {
    let bytes = [0x80u8, 0x25, 0x23];
    assert!(matches!(decode_frame(&bytes), FrameStep::Incomplete));
}

#[test]
fn framed_message_has_documented_layout() {
    let frame = Message::from_netmessage(&Netmessage::Heartbeat);
    let payload = b"{\"tag\":\"Heartbeat\"}";
    assert_eq!(frame[0..4], [0x80, 0x25, 0x23, 0x2E]);
    assert_eq!(frame[4], 182);
    assert_eq!(frame[5], (payload.len() - 1) as u8);
    assert_eq!(&frame[6..], payload);
}

#[test]
fn append_accumulates_payload() {
    let mut m = Message::new();
    m.append(&[1, 2]);
    m.append(&[]);
    m.append(&[3]);
    let frame = m.finish().unwrap();
    assert_eq!(frame[5], 2);
    assert_eq!(&frame[6..], &[1, 2, 3]);
}
