use telemetry_client::fota::protocol::{
    crc32, Datagram, DatagramType, DecodeError, FirmwareMetadata, Heartbeat, NackCode,
    ShortHeartbeat, HEADER_SIZE, HEARTBEAT_FLAG_APP, HEARTBEAT_FLAG_APP_PRESENT, HEARTBEAT_SIZE,
    IDENTITY_MODE_APPLICATION, IDENTITY_MODE_BOOTLOADER, METADATA_SIZE,
};

#[test]
fn crc_matches_zlib_known_answers() {
    assert_eq!(crc32(b""), 0x0000_0000);
    assert_eq!(crc32(b"123456789"), 0xCBF4_3926);
    assert_eq!(
        crc32(b"The quick brown fox jumps over the lazy dog"),
        0x414F_A339
    );
}

/// The checksum as it is defined, one bit after another.
fn checksum_by_bits(data: &[u8]) -> u32 {
    let mut c = u32::MAX;
    for &byte in data {
        c ^= byte as u32;
        for _ in 0..8 {
            c = if c & 1 == 1 { c >> 1 ^ 0xEDB8_8320 } else { c >> 1 };
        }
    }
    !c
}

#[test]
fn checksum_is_the_one_defined_by_bits() {
    let mut seed = 1u32;
    let data: Vec<u8> = (0..3000)
        .map(|_| {
            seed = seed.wrapping_mul(1_664_525).wrapping_add(1_013_904_223);
            (seed >> 24) as u8
        })
        .collect();
    for n in (0..300).chain([511, 512, 1023, 1024, 2048, 3000]) {
        assert_eq!(crc32(&data[..n]), checksum_by_bits(&data[..n]));
        assert_eq!(crc32(&data[3000 - n..]), checksum_by_bits(&data[3000 - n..]));
    }
}

#[test]
fn every_changed_byte_is_noticed() {
    let dg = Datagram::new(5, DatagramType::FirmwareChunk, 9, (0..60).collect());
    let blob = dg.clone().serialize();
    assert_eq!(blob, dg.serialize());
    for i in HEADER_SIZE..blob.len() {
        for flip in [0x01u8, 0x80, 0xFF] {
            let mut bad = blob.clone();
            bad[i] ^= flip;
            assert!(matches!(Datagram::deserialize(&bad), Err(DecodeError::CrcMismatch)));
        }
    }
}

#[test]
fn status_bytes_come_back() {
    for v in 0..=9u8 {
        assert_eq!(NackCode::from_u8(v).to_u8(), v);
    }
    assert_eq!(NackCode::from_u8(200).to_u8(), 8);
}

#[test]
fn datagram_header_is_21_le_bytes() {
    let dg = Datagram::new(0x1, DatagramType::FirmwareChunk, 7, vec![0xAA, 0xBB]);
    let blob = dg.serialize();
    assert_eq!(blob.len(), HEADER_SIZE + 2);
    assert_eq!(&blob[0..8], &1u64.to_le_bytes());
    assert_eq!(blob[8], DatagramType::FirmwareChunk.to_u8());
    assert_eq!(blob[8], 1);
    assert_eq!(&blob[9..13], &7u32.to_le_bytes());
    assert_eq!(&blob[13..17], &2u32.to_le_bytes());
    assert_eq!(&blob[17..21], &crc32(&[0xAA, 0xBB]).to_le_bytes());
    assert_eq!(&blob[21..], &[0xAA, 0xBB]);
}

#[test]
fn datagram_roundtrips() {
    let dg = Datagram::new(
        0xDEAD_BEEF_0000_0001,
        DatagramType::FirmwareChunk,
        42,
        (0..200u32).map(|i| i as u8).collect(),
    );
    let back = Datagram::deserialize(&dg.serialize()).unwrap();
    assert_eq!(back.target_node_mask, dg.target_node_mask);
    assert_eq!(back.dtype, DatagramType::FirmwareChunk);
    assert_eq!(back.datagram_id, 42);
    assert_eq!(back.payload, dg.payload);
}

#[test]
fn datagram_detects_payload_corruption() {
    let dg = Datagram::new(0, DatagramType::FirmwareChunk, 1, vec![1, 2, 3]);
    let mut blob = dg.serialize();
    blob[HEADER_SIZE] ^= 0xFF;
    assert!(Datagram::deserialize(&blob).is_err());
}

#[test]
fn datagram_rejects_truncated_blob() {
    let dg = Datagram::new(0, DatagramType::FirmwareChunk, 1, vec![1, 2, 3, 4, 5]);
    let blob = dg.serialize();
    assert!(Datagram::deserialize(&blob[..HEADER_SIZE + 2]).is_err());
}

#[test]
fn metadata_packs_to_58_bytes() {
    let m = FirmwareMetadata {
        image_size: 1234,
        image_crc32: 0xAABB_CCDD,
        version_major: 1,
        version_minor: 2,
        project_name: "front_controller".into(),
        git_hash: "abcdef0123456789".into(),
    };
    let p = m.pack();
    assert_eq!(p.len(), METADATA_SIZE);
    assert_eq!(&p[0..4], &1234u32.to_le_bytes());
    assert_eq!(&p[4..8], &0xAABB_CCDDu32.to_le_bytes());
    assert_eq!(p[8], 1);
    assert_eq!(p[9], 2);
    assert_eq!(&p[10..26], b"front_controller");
    assert_eq!(p[26], 0); // zero padded
}

#[test]
fn heartbeat_parses_known_layout() {
    let mut buf = [0u8; HEARTBEAT_SIZE];
    buf[0] = HEARTBEAT_FLAG_APP | HEARTBEAT_FLAG_APP_PRESENT;
    buf[1] = 3;
    buf[2] = 4;
    buf[3..7].copy_from_slice(&0x0001_0000u32.to_le_bytes());
    let hb = Heartbeat::parse(&buf).unwrap();
    assert_eq!(hb.mode, IDENTITY_MODE_APPLICATION);
    assert!(hb.app_present);
    assert_eq!(hb.version_major, 3);
    assert_eq!(hb.version_minor, 4);
    assert_eq!(hb.app_size, 0x0001_0000);
}

#[test]
fn heartbeat_reads_the_bootloader_mode() {
    let buf = [0u8; HEARTBEAT_SIZE];
    let hb = Heartbeat::parse(&buf).unwrap();
    assert_eq!(hb.mode, IDENTITY_MODE_BOOTLOADER);
    assert!(!hb.app_present);
}

#[test]
fn heartbeat_rejects_short_frame() {
    assert!(Heartbeat::parse(&[0u8; 4]).is_err());
}

#[test]
fn short_heartbeat_tells_its_length() {
    let e = Heartbeat::parse(&[0u8; 4]).unwrap_err();
    assert_eq!(e, ShortHeartbeat { have: 4 });
    assert_eq!(e.message(), "heartbeat frame too short (4 < 8)");
}

#[test]
fn each_decode_error_has_its_input_and_its_message() {
    let blob = Datagram::new(0, DatagramType::Ack, 1, vec![1, 2, 3, 4, 5]).serialize();

    let e = Datagram::deserialize(&blob[..20]).unwrap_err();
    assert_eq!(e, DecodeError::ShortHeader { have: 20 });
    assert_eq!(e.message(), "datagram blob shorter than header (20 < 21)");

    let mut bad_type = blob.clone();
    bad_type[8] = 9;
    let e = Datagram::deserialize(&bad_type).unwrap_err();
    assert_eq!(e, DecodeError::UnknownType { byte: 9 });
    assert_eq!(e.message(), "unknown datagram type 9");

    let mut huge = blob.clone();
    huge[13..17].copy_from_slice(&2049u32.to_le_bytes());
    let e = Datagram::deserialize(&huge).unwrap_err();
    assert_eq!(e, DecodeError::TooLarge { length: 2049 });
    assert_eq!(e.message(), "payload too large (2049)");

    let e = Datagram::deserialize(&blob[..23]).unwrap_err();
    assert_eq!(e, DecodeError::Truncated { have: 23, need: 26 });
    assert_eq!(e.message(), "datagram blob truncated (23 < 26)");

    let mut corrupt = blob.clone();
    corrupt[25] ^= 1;
    let e = Datagram::deserialize(&corrupt).unwrap_err();
    assert_eq!(e, DecodeError::CrcMismatch);
    assert_eq!(e.message(), "datagram CRC mismatch");
}

#[test]
fn bytes_after_a_datagram_are_ignored() {
    let dg = Datagram::new(3, DatagramType::JumpToApp, 9, vec![7; 2048]);
    let mut blob = dg.serialize();
    blob.extend_from_slice(&[1, 2, 3]);
    let back = Datagram::deserialize(&blob).unwrap();
    assert_eq!(back.payload.len(), 2048);
    assert_eq!(back.serialize(), dg.serialize());
}

#[test]
fn datagram_types_and_codes_read_from_their_bytes() {
    let kinds = [
        DatagramType::FirmwareMetadata,
        DatagramType::FirmwareChunk,
        DatagramType::JumpToApp,
        DatagramType::Ack,
        DatagramType::Nack,
    ];
    for (i, kind) in kinds.iter().enumerate() {
        assert_eq!(DatagramType::from_u8(i as u8), Some(*kind));
        assert_eq!(kind.to_u8(), i as u8);
    }
    assert_eq!(DatagramType::from_u8(5), None);
    assert_eq!(NackCode::from_u8(0), NackCode::Accepted);
    assert_eq!(NackCode::from_u8(2), NackCode::Sequence);
    assert_eq!(NackCode::from_u8(200), NackCode::Internal);
}

#[test]
fn only_sequence_and_incomplete_are_transient() {
    for b in 0..10u8 {
        let code = NackCode::from_u8(b);
        let transient = code == NackCode::Sequence || code == NackCode::Incomplete;
        assert_eq!(code.is_transient(), transient);
    }
    assert_eq!(NackCode::Accepted.name(), "Ok");
    assert_eq!(NackCode::NoApp.describe(), "no valid app (not flashed or app CRC mismatch)");
}

#[test]
fn long_metadata_fields_are_cut() {
    let m = FirmwareMetadata {
        image_size: 0,
        image_crc32: 0,
        version_major: 0,
        version_minor: 0,
        project_name: "p".repeat(40),
        git_hash: "g".repeat(20),
    };
    let p = m.pack();
    assert_eq!(p.len(), METADATA_SIZE);
    assert_eq!(&p[10..42], &[b'p'; 32]);
    assert_eq!(&p[42..58], &[b'g'; 16]);
}
