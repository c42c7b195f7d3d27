use p2p_transfer::protocol::{
    cap_eq, cap_from_hex, cap_to_hex, decode, encode_chunk, length_prefixed, max_payload,
    negotiate_chunk, ChunkHeader, ChunkPlan, Control, ProtocolError, RawFrame, CAP_LEN,
    DEFAULT_CHUNK, LEN_PREFIX, MAX_FRAME, MIN_USABLE_FRAME, PROTOCOL_VERSION,
};

fn filler(size: usize) -> Vec<u8> {
    (0..size).map(|i| (i % 251) as u8).collect()
}

fn test_cap(seed: u8) -> [u8; CAP_LEN] {
    let mut cap = [0u8; CAP_LEN];
    for (i, b) in cap.iter_mut().enumerate() {
        *b = seed.wrapping_add(i as u8);
    }
    cap
}

#[test]
fn local_test_protocol_hello_debug_redacts_cap() {
    let hello = Control::Hello {
        version: PROTOCOL_VERSION,
        webrtc: false,
        cap: test_cap(0x5a),
    };
    let rendered = hello.describe();
    assert!(rendered.contains("<redacted>"), "{rendered}");
    assert!(!rendered.contains("5a"), "{rendered}");
}

#[test]
fn local_test_protocol_chunk_roundtrip() {
    let payload = filler(4096);
    let header = ChunkHeader {
        file: 2,
        epoch: 5,
        offset: 8192,
        len: payload.len() as u32,
    };
    let encoded = encode_chunk(header, &payload);
    match decode(&encoded).expect("decodes") {
        RawFrame::Chunk {
            header: got,
            payload: got_payload,
        } => {
            assert_eq!(got, header);
            assert_eq!(got_payload, &payload[..]);
        }
        RawFrame::Control(_) => panic!("chunk frame decoded as control"),
    }

    let empty = encode_chunk(
        ChunkHeader {
            file: 0,
            epoch: 0,
            offset: 0,
            len: 0,
        },
        &[],
    );
    assert!(matches!(
        decode(&empty).expect("decodes"),
        RawFrame::Chunk { payload, .. } if payload.is_empty()
    ));
}

#[test]
fn local_test_protocol_rejects_bad_tag() {
    assert!(matches!(decode(&[]), Err(ProtocolError::Empty)));
    assert!(matches!(
        decode(&[7, 1, 2, 3]),
        Err(ProtocolError::UnknownTag(7))
    ));
}

#[test]
fn local_test_protocol_rejects_length_mismatch() {
    let payload = filler(64);
    let header = ChunkHeader {
        file: 0,
        epoch: 0,
        offset: 0,
        len: payload.len() as u32,
    };
    let mut encoded = encode_chunk(header, &payload).to_vec();
    encoded.truncate(encoded.len() - 8);
    match decode(&encoded) {
        Err(ProtocolError::LengthMismatch { declared, actual }) => {
            assert_eq!(declared, 64);
            assert_eq!(actual, 56);
        }
        other => panic!("expected a length mismatch, got {other:?}"),
    }
}

#[test]
fn protocol_decode_refuses_oversize_frames() {
    let oversize = vec![0u8; MAX_FRAME + 1];
    assert!(matches!(
        decode(&oversize),
        Err(ProtocolError::TooLarge(n)) if n == MAX_FRAME + 1
    ));
    assert!(matches!(
        length_prefixed(&oversize),
        Err(ProtocolError::TooLarge(n)) if n == MAX_FRAME + 1
    ));
}

#[test]
fn protocol_control_frame_body_follows_the_tag() {
    match decode(&[0, 9, 8, 7]).expect("decodes") {
        RawFrame::Control(body) => assert_eq!(body, &[9, 8, 7][..]),
        RawFrame::Chunk { .. } => panic!("control frame decoded as a chunk"),
    }
}

#[test]
fn protocol_length_prefix_is_little_endian() {
    let framed = length_prefixed(&[1, 2, 3, 4, 5]).expect("fits");
    assert_eq!(framed, vec![5, 0, 0, 0, 1, 2, 3, 4, 5]);
    let empty = length_prefixed(&[]).expect("fits");
    assert_eq!(empty, vec![0, 0, 0, 0]);
}

#[test]
fn local_test_negotiate_chunk() {
    assert_eq!(negotiate_chunk(None), ChunkPlan::Frame(DEFAULT_CHUNK));
    assert_eq!(
        negotiate_chunk(Some(256 * 1024)),
        ChunkPlan::Frame(DEFAULT_CHUNK)
    );
    assert_eq!(
        negotiate_chunk(Some(20 * 1024)),
        ChunkPlan::Frame(20 * 1024)
    );
    assert_eq!(negotiate_chunk(Some(8 * 1024)), ChunkPlan::Frame(8 * 1024));
    assert_eq!(
        negotiate_chunk(Some(MIN_USABLE_FRAME)),
        ChunkPlan::Frame(MIN_USABLE_FRAME)
    );
    assert_eq!(negotiate_chunk(Some(512)), ChunkPlan::TooSmall);
    assert_eq!(negotiate_chunk(Some(0)), ChunkPlan::TooSmall);
}

#[test]
fn local_test_chunk_budget_boundary() {
    for limit in [
        1024,
        8 * 1024,
        16 * 1024,
        16 * 1024 - 1,
        64 * 1024,
        256 * 1024,
    ] {
        for prefixed in [true, false] {
            let payload_len = max_payload(limit, prefixed);
            assert!(payload_len > 0, "limit {limit} should carry a payload");
            let header = ChunkHeader {
                file: u32::MAX,
                epoch: u32::MAX,
                offset: u64::MAX - payload_len as u64,
                len: payload_len as u32,
            };
            let payload = vec![0u8; payload_len];
            let encoded = encode_chunk(header, &payload);
            let complete = encoded.len() + if prefixed { LEN_PREFIX } else { 0 };
            assert!(
                complete <= limit,
                "limit {limit} prefixed {prefixed}: complete frame {complete} exceeds it"
            );
            assert!(
                complete > limit - 8,
                "limit {limit} prefixed {prefixed}: budget {complete} wastes too much"
            );
        }
    }

    assert_eq!(max_payload(10, true), 0);
    assert_eq!(max_payload(0, false), 0);
}

#[test]
fn protocol_max_payload_exact_values() {
    assert_eq!(max_payload(1024, true), 1024 - 30);
    assert_eq!(max_payload(1024, false), 1024 - 26);
    assert_eq!(max_payload(30, true), 0);
}

#[test]
fn local_test_cap_hex_roundtrip_and_compare() {
    let cap = test_cap(0x11);
    let hex = cap_to_hex(&cap);
    assert_eq!(hex.len(), CAP_LEN * 2);
    assert!(hex
        .chars()
        .all(|c| c.is_ascii_digit() || ('a'..='f').contains(&c)));
    assert_eq!(cap_from_hex(&hex), Some(cap));

    assert_eq!(cap_from_hex(&hex.to_uppercase()), None);
    assert_eq!(cap_from_hex(&hex[..30]), None);
    assert_eq!(cap_from_hex(&format!("{hex}00")), None);
    assert_eq!(cap_from_hex("zz00112233445566778899aabbccddee"), None);

    assert!(cap_eq(&cap, &cap));
    for i in 0..CAP_LEN {
        let mut other = cap;
        other[i] ^= 0x01;
        assert!(!cap_eq(&cap, &other), "byte {i} was not compared");
    }
}

#[test]
fn protocol_cap_hex_exact_text() {
    let cap = test_cap(0);
    assert_eq!(cap_to_hex(&cap), "000102030405060708090a0b0c0d0e0f");
}

#[test]
fn protocol_unreadable_chunk_header_is_a_codec_error() {
    assert!(matches!(decode(&[1]), Err(ProtocolError::Codec(_))));
    assert!(matches!(decode(&[1, 0xff, 0xff]), Err(ProtocolError::Codec(_))));
}
