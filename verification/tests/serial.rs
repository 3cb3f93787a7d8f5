use telemetry_client::fota::protocol::{crc32, Datagram, DatagramType, NackCode, BOOT_ENTER_MAGIC};
use telemetry_client::fota::serial::{
    enter_frame, fragment_frames, RxState, FRAGMENT_STRIDE, SOF_ACK, SOF_ENTER,
};

#[test]
fn enter_frame_matches_firmware_layout() {
    let f = enter_frame(0x0000_0005);
    assert_eq!(f.len(), 13);
    assert_eq!(f[0], SOF_ENTER);
    assert_eq!(&f[1..5], &BOOT_ENTER_MAGIC.to_le_bytes());
    assert_eq!(&f[5..9], &0x0000_0005u32.to_le_bytes());
    assert_eq!(&f[9..13], &crc32(&f[1..9]).to_le_bytes());
}

#[test]
fn datagram_fragments_reassemble() {
    let dg = Datagram::new(
        0x1,
        DatagramType::FirmwareChunk,
        7,
        (0..300u32).map(|i| i as u8).collect(),
    );
    let mut rx = RxState::new();
    for frame in fragment_frames(&dg.serialize()) {
        for b in frame {
            rx.feed_byte(b);
        }
    }
    let out = rx.pop_datagram().expect("a reassembled datagram");
    assert_eq!(out.datagram_id, 7);
    assert_eq!(out.payload, dg.payload);
}

fn ack_bytes(status: u8, id: u32, node: u8) -> Vec<u8> {
    let mut body = vec![status];
    body.extend_from_slice(&id.to_le_bytes());
    body.push(node);
    let mut frame = vec![SOF_ACK];
    frame.extend_from_slice(&body);
    frame.extend_from_slice(&crc32(&body).to_le_bytes());
    frame
}

#[test]
fn ack_frame_decodes() {
    let mut body = vec![0u8];
    body.extend_from_slice(&42u32.to_le_bytes());
    body.push(9u8);
    let mut frame = vec![SOF_ACK];
    frame.extend_from_slice(&body);
    frame.extend_from_slice(&crc32(&body).to_le_bytes());

    let mut rx = RxState::new();
    for b in frame {
        rx.feed_byte(b);
    }
    let ack = rx.pop_ack().expect("an ack");
    assert_eq!(ack.code, NackCode::Accepted);
    assert_eq!(ack.datagram_id, 42);
    assert_eq!(ack.src_node, 9);
}

#[test]
fn corrupt_fragment_crc_is_dropped() {
    let dg = Datagram::new(0, DatagramType::FirmwareChunk, 1, vec![1, 2, 3]);
    let mut frames = fragment_frames(&dg.serialize());
    frames[0][5] ^= 0xFF;
    let mut rx = RxState::new();
    for frame in frames {
        for b in frame {
            rx.feed_byte(b);
        }
    }
    assert!(rx.pop_datagram().is_none());
}

#[test]
fn fragments_may_come_out_of_order_and_in_any_portions() {
    let dg = Datagram::new(5, DatagramType::FirmwareChunk, 3, vec![0x5A; 2048]);
    let mut frames = fragment_frames(&dg.serialize());
    assert_eq!(frames.len(), (2048usize + 21).div_ceil(FRAGMENT_STRIDE));
    assert_eq!(frames[1][1..4], [1, 0, 128]);
    frames.reverse();
    let stream: Vec<u8> = frames.concat();
    let mut rx = RxState::new();
    for part in stream.chunks(7) {
        rx.feed(part);
    }
    let out = rx.pop_datagram().unwrap();
    assert_eq!(out.serialize(), dg.serialize());
    assert!(rx.pop_datagram().is_none());
}

#[test]
fn noise_and_bad_acks_are_passed_over() {
    let mut rx = RxState::new();
    rx.feed(&[0x00, 0x7C, 0xFF, 0x55]);
    let mut bad = ack_bytes(2, 1, 4);
    bad[3] ^= 1;
    rx.feed(&bad);
    assert!(rx.pop_ack().is_none());
    rx.feed(&ack_bytes(2, 1, 4));
    rx.feed(&ack_bytes(0, 2, 5));
    let first = rx.pop_ack().unwrap();
    assert_eq!((first.code, first.datagram_id, first.src_node), (NackCode::Sequence, 1, 4));
    assert_eq!(rx.pop_ack().unwrap().src_node, 5);
    assert!(rx.pop_ack().is_none());
}

#[test]
fn fragment_with_an_impossible_length_is_dropped() {
    let mut rx = RxState::new();
    rx.feed(&[0x7E, 0, 0, 0]);
    rx.feed(&[0x7E, 0, 0, 129]);
    rx.feed(&ack_bytes(0, 7, 1));
    assert_eq!(rx.pop_ack().unwrap().datagram_id, 7);
}

#[test]
fn two_datagrams_follow_one_another() {
    let mut rx = RxState::new();
    for id in [1u32, 2] {
        let dg = Datagram::new(1, DatagramType::JumpToApp, id, vec![id as u8; 130]);
        rx.feed(&fragment_frames(&dg.serialize()).concat());
    }
    assert_eq!(rx.pop_datagram().unwrap().datagram_id, 1);
    assert_eq!(rx.pop_datagram().unwrap().payload, vec![2u8; 130]);
    rx.discard_datagrams();
    assert!(rx.pop_datagram().is_none());
}

#[test]
fn datagram_comes_out_on_its_last_byte() {
    let mut rx = RxState::new();
    for id in [1u32, 2] {
        let dg = Datagram::new(1, DatagramType::JumpToApp, id, vec![id as u8; 200]);
        let mut stream = vec![0x11];
        stream.extend(fragment_frames(&dg.serialize()).concat());
        for (i, &b) in stream.iter().enumerate() {
            rx.feed_byte(b);
            let out = rx.pop_datagram();
            assert_eq!(out.is_some(), i + 1 == stream.len());
        }
    }
}

#[test]
fn datagrams_come_out_in_order_between_noise() {
    let mut rx = RxState::new();
    for id in [5u32, 6, 7] {
        let dg = Datagram::new(1, DatagramType::JumpToApp, id, vec![id as u8; 300]);
        for frame in fragment_frames(&dg.serialize()) {
            rx.feed(&[0x00, 0xFF, 0x7C]);
            rx.feed(&frame);
        }
    }
    for id in [5u32, 6, 7] {
        let dg = rx.pop_datagram().unwrap();
        assert_eq!((dg.datagram_id, dg.payload), (id, vec![id as u8; 300]));
    }
    assert!(rx.pop_datagram().is_none());
}
